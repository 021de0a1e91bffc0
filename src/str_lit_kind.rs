use vstd::prelude::*;

use crate::text::chars_of;

verus! {

/// How a string literal is delimited.
#[derive(Debug, Clone, Copy, PartialEq, Eq, Structural)]
pub enum StrLitKind {
    /// `"..."`
    Normal,
    /// `r#"..."#` with the given number of `#` on each side.
    Raw(usize),
}

/// `n` copies of `c`.
pub open spec fn repeat_char(c: char, n: nat) -> Seq<char> {
    Seq::new(n, |_i: int| c)
}

/// The number of `#` in a row from index `i` of `s`.
pub open spec fn hash_run(s: Seq<char>, i: int) -> nat
    decreases s.len() - i,
{
    if 0 <= i < s.len() && s[i] == '#' {
        1 + hash_run(s, i + 1)
    } else {
        0
    }
}

/// The longest run of `#` at the start of one of the pieces of `s[..k]` when it
/// is split at `"` (the piece that starts at `k` included).
pub open spec fn max_piece_run(s: Seq<char>, k: int) -> nat
    decreases k,
{
    if k <= 0 {
        hash_run(s, 0)
    } else {
        let m = max_piece_run(s, k - 1);
        if s[k - 1] == '"' && hash_run(s, k) > m {
            hash_run(s, k)
        } else {
            m
        }
    }
}

/// The delimiting style chosen for a payload.
pub open spec fn lit_kind_of(s: Seq<char>) -> StrLitKind {
    if s.contains('"') {
        StrLitKind::Raw((max_piece_run(s, s.len() as int) + 1) as usize)
    } else if s.contains('\\') || s.contains('\n') {
        StrLitKind::Raw(1)
    } else {
        StrLitKind::Normal
    }
}

/// Whether `lit`, read as a Rust string literal, denotes `x`: either plain
/// quotes round a text that holds no quote and no backslash, or raw quotes
/// whose closing delimiter first occurs at the end.
pub open spec fn denotes(lit: Seq<char>, x: Seq<char>) -> bool {
    ||| (lit == seq!['"'] + x + seq!['"'] && !x.contains('"') && !x.contains('\\'))
    ||| exists|n: nat|
        #![trigger repeat_char('#', n)]
        lit == seq!['r'] + repeat_char('#', n) + seq!['"'] + x + seq!['"'] + repeat_char('#', n)
            && forall|j: int| 0 <= j < x.len() && x[j] == '"' ==> hash_run(x, j + 1) < n
}

impl StrLitKind {
    /// The opening delimiter.
    pub open spec fn start_spec(self) -> Seq<char> {
        match self {
            StrLitKind::Normal => seq!['"'],
            StrLitKind::Raw(n) => seq!['r'] + repeat_char('#', n as nat) + seq!['"'],
        }
    }

    /// The closing delimiter.
    pub open spec fn end_spec(self) -> Seq<char> {
        match self {
            StrLitKind::Normal => seq!['"'],
            StrLitKind::Raw(n) => seq!['"'] + repeat_char('#', n as nat),
        }
    }

    /// Appends the opening delimiter to `w`.
    pub fn write_start(&self, w: &mut String)
        ensures
            final(w)@ == old(w)@ + self.start_spec(),
    {
        match self {
            StrLitKind::Normal => {
                w.append("\"");
                proof {
                    reveal_strlit("\"");
                }
            },
            StrLitKind::Raw(n) => {
                w.append("r");
                proof {
                    reveal_strlit("r");
                }
                append_hashes(w, *n);
                w.append("\"");
                proof {
                    reveal_strlit("\"");
                    assert(final(w)@ =~= old(w)@ + self.start_spec());
                }
            },
        }
    }

    /// Appends the closing delimiter to `w`.
    pub fn write_end(&self, w: &mut String)
        ensures
            final(w)@ == old(w)@ + self.end_spec(),
    {
        match self {
            StrLitKind::Normal => {
                w.append("\"");
                proof {
                    reveal_strlit("\"");
                }
            },
            StrLitKind::Raw(n) => {
                w.append("\"");
                proof {
                    reveal_strlit("\"");
                }
                append_hashes(w, *n);
                proof {
                    assert(final(w)@ =~= old(w)@ + self.end_spec());
                }
            },
        }
    }
}

fn append_hashes(w: &mut String, n: usize)
    ensures
        final(w)@ == old(w)@ + repeat_char('#', n as nat),
{
    let mut i: usize = 0;
    while i < n
        invariant
            i <= n,
            w@ == old(w)@ + repeat_char('#', i as nat),
        decreases n - i,
    {
        w.append("#");
        proof {
            reveal_strlit("#");
            assert(w@ =~= old(w)@ + repeat_char('#', (i + 1) as nat));
        }
        i = i + 1;
    }
}

fn hash_run_at(s: &Vec<char>, i: usize) -> (r: usize)
    requires
        i <= s@.len(),
    ensures
        r == hash_run(s@, i as int),
        r <= s@.len() - i,
{
    let mut j: usize = i;
    while j < s.len() && s[j] == '#'
        invariant
            i <= j <= s@.len(),
            hash_run(s@, i as int) == (j - i) + hash_run(s@, j as int),
        decreases s.len() - j,
    {
        j = j + 1;
    }
    j - i
}

pub proof fn lemma_hash_run_bound(s: Seq<char>, i: int)
    requires
        0 <= i <= s.len(),
    ensures
        hash_run(s, i) <= s.len() - i,
        forall|t: int| i <= t < i + hash_run(s, i) ==> s[t] == '#',
        i + hash_run(s, i) < s.len() ==> s[i + hash_run(s, i)] != '#',
    decreases s.len() - i,
{
    if i < s.len() && s[i] == '#' {
        lemma_hash_run_bound(s, i + 1);
    }
}

/// A run after a quote is no longer than the longest run.
pub proof fn lemma_max_piece_run(s: Seq<char>, j: int, k: int)
    requires
        0 <= j < k <= s.len(),
        s[j] == '"',
    ensures
        hash_run(s, j + 1) <= max_piece_run(s, k),
    decreases k,
{
    if k - 1 > j {
        lemma_max_piece_run(s, j, k - 1);
    }
}

pub proof fn lemma_max_piece_run_bound(s: Seq<char>, k: int)
    requires
        0 <= k <= s.len(),
        exists|j: int| 0 <= j < s.len() && s[j] == '"',
    ensures
        max_piece_run(s, k) < s.len(),
    decreases k,
{
    lemma_hash_run_bound(s, k);
    if k > 0 {
        lemma_max_piece_run_bound(s, k - 1);
    } else {
        let j = choose|j: int| 0 <= j < s.len() && s[j] == '"';
        lemma_hash_run_bound(s, 0);
        if hash_run(s, 0) > j {
            assert(s[j] == '#');
        }
    }
}

impl<'a> From<&'a str> for StrLitKind {
    /// Chooses the delimiters for a payload: plain quotes where nothing needs
    /// escaping, else raw quotes with one `#` more than any run of `#` that
    /// starts a piece of the payload between quotes.
    fn from(s: &'a str) -> (r: StrLitKind)
        ensures
            r == lit_kind_of(s@),
    {
        let cs = chars_of(s);
        let mut has_quote = false;
        let mut has_escape = false;
        let mut m: usize = hash_run_at(&cs, 0);
        let mut k: usize = 0;
        while k < cs.len()
            invariant
                k <= cs@.len(),
                cs@ == s@,
                m == max_piece_run(cs@, k as int),
                m <= cs@.len(),
                has_quote == (exists|j: int| 0 <= j < k && cs@[j] == '"'),
                has_escape == (exists|j: int| 0 <= j < k && (cs@[j] == '\\' || cs@[j] == '\n')),
            decreases cs.len() - k,
        {
            let c = cs[k];
            if c == '"' {
                has_quote = true;
                let run = hash_run_at(&cs, k + 1);
                if run > m {
                    m = run;
                }
            } else if c == '\\' || c == '\n' {
                has_escape = true;
            }
            k = k + 1;
        }
        proof {
            if has_quote {
                let j = choose|j: int| 0 <= j < k && cs@[j] == '"';
                assert(s@.contains('"')) by {
                    assert(s@[j] == '"');
                }
                lemma_max_piece_run_bound(cs@, cs@.len() as int);
            } else {
                assert(!s@.contains('"'));
            }
            if has_escape {
                let j = choose|j: int| 0 <= j < k && (cs@[j] == '\\' || cs@[j] == '\n');
                assert(s@[j] == '\\' || s@[j] == '\n');
            } else {
                assert(!s@.contains('\\'));
                assert(!s@.contains('\n'));
            }
        }
        if has_quote {
            StrLitKind::Raw(m + 1)
        } else if has_escape {
            StrLitKind::Raw(1)
        } else {
            StrLitKind::Normal
        }
    }
}

impl<'a> vstd::std_specs::convert::FromSpecImpl<&'a str> for StrLitKind {
    open spec fn obeys_from_spec() -> bool {
        true
    }

    open spec fn from_spec(s: &'a str) -> StrLitKind {
        lit_kind_of(s@)
    }
}

} // verus!
