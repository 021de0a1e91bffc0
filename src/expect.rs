use vstd::prelude::*;
use vstd::string::StringSliceAdditionalSpecFns;

use crate::text::{
    byte_index, char_at_byte, lead_ws_bytes, lemma_part_len, span_utf8_len, utf8_len,
    append_chars, byte_pos, byte_positions, chars_of, find_char, find_from, find_from_facts,
    is_blank, is_blank_span, lemma_byte_range, line_spans, lines_of, push_char, same_text, skip_whitespace,
    skip_ws, skip_ws_facts, span_texts,
};

verus! {

/// Where an assertion stands in its source file (both counted from 1).
#[derive(Debug, Clone, Hash, PartialEq, Eq)]
pub struct FilePosition {
    pub file: &'static str,
    pub line: u32,
    pub column: u32,
}

/// One assertion: its position, the source text of its actual expression and
/// of each expected literal, the values of those literals, and which of them
/// this evaluation compares against.
#[derive(Debug, Clone, Hash, PartialEq, Eq)]
pub struct Expect<const N: usize> {
    pub file_position: FilePosition,
    pub raw_actual: &'static str,
    pub expected: [&'static str; N],
    pub raw_expected: [&'static str; N],
    pub assertion_index: usize,
}

/// Where an assertion's parts stand in its file, as byte offsets.
#[derive(Debug)]
pub struct ExpectLocation {
    pub line_indent: usize,
    pub expected_ranges: Vec<std::ops::Range<usize>>,
    pub start_index: usize,
    pub end_index: usize,
}

/// Why the parts of an assertion could not be found in its file.
#[derive(Debug, Clone, Copy, PartialEq, Eq, Structural)]
pub enum LocateError {
    /// The file has fewer lines than the position names.
    LineNotFound,
    /// No `!` followed by a character comes after the position.
    MacroNotFound,
    /// The actual expression does not follow the `!` and its opening bracket.
    ActualNotFound,
    /// The expected literal of this index does not follow the previous part.
    ExpectedNotFound(usize),
}

/// Where line `k` (counted from 0) starts.
pub open spec fn line_start(f: Seq<char>, k: nat) -> Option<int>
    decreases k,
{
    if k == 0 {
        Some(0)
    } else {
        match line_start(f, (k - 1) as nat) {
            Some(p) => match find_from(f, '\n', p) {
                Some(q) => Some(q + 1),
                None => None,
            },
            None => None,
        }
    }
}

/// Where the text after the `!` of the assertion starts: the first `!` at or
/// after `col` characters from `ls` must have a character after it.
pub open spec fn macro_start(f: Seq<char>, ls: int, col: int) -> Option<int> {
    match find_from(f, '!', ls + col) {
        Some(m) => if m + 1 < f.len() {
            Some(m + 1)
        } else {
            None
        },
        None => None,
    }
}

/// Matching `p` from `i`, with whitespace skipped before each of its
/// non-whitespace characters and whitespace in `p` ignored: where the match ends.
pub open spec fn loose_match_end(f: Seq<char>, p: Seq<char>, i: int) -> Option<int>
    decreases p.len(),
{
    if p.len() == 0 {
        Some(i)
    } else if crate::text::is_ws(p[0]) {
        loose_match_end(f, p.drop_first(), i)
    } else {
        let j = skip_ws(f, i);
        if j < f.len() && f[j] == p[0] {
            loose_match_end(f, p.drop_first(), j + 1)
        } else {
            None
        }
    }
}

/// Whether `p` occurs in `f` at `i`.
pub open spec fn occurs_at(f: Seq<char>, p: Seq<char>, i: int) -> bool {
    0 <= i && i + p.len() <= f.len() && f.subrange(i, i + p.len()) == p
}

/// Where the actual expression stands, looking from `m`: past whitespace and
/// one single-byte opening character, then past whitespace again, either the
/// exact text or a whitespace-insensitive match of it.
pub open spec fn actual_span(f: Seq<char>, m: int, p: Seq<char>) -> Option<(int, int)> {
    let t0 = skip_ws(f, m);
    if t0 >= f.len() || f[t0] as u32 >= 0x80 {
        None
    } else {
        let t2 = skip_ws(f, t0 + 1);
        if occurs_at(f, p, t2) {
            Some((t2, t2 + p.len()))
        } else {
            match loose_match_end(f, p, t2) {
                Some(e) => Some((t2, e)),
                None => None,
            }
        }
    }
}

/// The first occurrence of `p` in `f` at or after `i`.
pub open spec fn find_seq(f: Seq<char>, p: Seq<char>, i: int) -> Option<int>
    decreases f.len() + 1 - i,
{
    if i < 0 || i + p.len() > f.len() {
        None
    } else if occurs_at(f, p, i) {
        Some(i)
    } else {
        find_seq(f, p, i + 1)
    }
}

/// The spans of the first `n` expected literals, each the first occurrence
/// at or after the end of the one before, starting from `c0`, with where the
/// last ends; or the index of the first one that does not occur.
pub open spec fn expected_spans(f: Seq<char>, es: Seq<Seq<char>>, c0: int, n: int) -> Result<
    (Seq<(int, int)>, int),
    int,
>
    decreases n,
{
    if n <= 0 {
        Ok((Seq::<(int, int)>::empty(), c0))
    } else {
        match expected_spans(f, es, c0, n - 1) {
            Ok((sp, cur)) => match find_seq(f, es[n - 1], cur) {
                Some(j) => Ok((sp.push((j, j + es[n - 1].len())), j + es[n - 1].len())),
                None => Err(n - 1),
            },
            Err(i) => Err(i),
        }
    }
}

/// The number of spaces in a row from `i`.
pub open spec fn space_run(f: Seq<char>, i: int) -> nat
    decreases f.len() - i,
{
    if 0 <= i < f.len() && f[i] == ' ' {
        1 + space_run(f, i + 1)
    } else {
        0
    }
}

/// The parts of an assertion in a file, in character indices.
pub struct LocatedSpans {
    pub indent: nat,
    pub ranges: Seq<(int, int)>,
    pub start: int,
    pub end: int,
}

/// Where the parts of an assertion at `line`:`col` stand in `f`.
pub open spec fn locate(f: Seq<char>, line: nat, col: nat, actual: Seq<char>, es: Seq<Seq<char>>) -> Result<LocatedSpans, LocateError> {
    match line_start(f, (line - 1) as nat) {
        None => Err(LocateError::LineNotFound),
        Some(ls) => match macro_start(f, ls, col - 1) {
            None => Err(LocateError::MacroNotFound),
            Some(m) => match actual_span(f, m, actual) {
                None => Err(LocateError::ActualNotFound),
                Some((a, b)) => match expected_spans(f, es, b, es.len() as int) {
                    Err(i) => Err(LocateError::ExpectedNotFound(i as usize)),
                    Ok((sp, cur)) => Ok(
                        LocatedSpans { indent: space_run(f, ls), ranges: sp, start: a, end: cur },
                    ),
                },
            },
        },
    }
}

/// The texts of an array of strings.
pub open spec fn texts<const N: usize>(a: [&'static str; N]) -> Seq<Seq<char>> {
    a@.map_values(|s: &'static str| s@)
}

impl ExpectLocation {
    /// This location is `spans` in `f`, with character indices turned into byte offsets.
    pub open spec fn is_bytes_of(&self, f: Seq<char>, spans: LocatedSpans) -> bool {
        &&& self.line_indent == spans.indent
        &&& self.start_index == byte_pos(f, spans.start)
        &&& self.end_index == byte_pos(f, spans.end)
        &&& self.expected_ranges@.len() == spans.ranges.len()
        &&& forall|i: int|
            0 <= i < spans.ranges.len() ==> (#[trigger] self.expected_ranges@[i]).start == byte_pos(
                f,
                spans.ranges[i].0,
            ) && self.expected_ranges@[i].end == byte_pos(f, spans.ranges[i].1)
    }
}

fn line_start_at(f: &Vec<char>, k: u32) -> (r: Option<usize>)
    ensures
        match r {
            Some(p) => line_start(f@, k as nat) == Some(p as int) && p <= f@.len(),
            None => line_start(f@, k as nat) is None,
        },
{
    let n = f.len();
    let mut p: usize = 0;
    let mut i: u32 = 0;
    while i < k
        invariant
            n == f@.len(),
            i <= k,
            p <= f@.len(),
            line_start(f@, i as nat) == Some(p as int),
        decreases k - i,
    {
        proof {
            find_from_facts(f@, '\n', p as int);
        }
        match find_char(f, '\n', p) {
            Some(q) => {
                p = q + 1;
            },
            None => {
                proof {
                    lemma_line_start_none(f@, (i + 1) as nat, k as nat);
                }
                return None;
            },
        }
        i = i + 1;
    }
    Some(p)
}

proof fn lemma_line_start_none(f: Seq<char>, i: nat, k: nat)
    requires
        i <= k,
        line_start(f, i) is None,
    ensures
        line_start(f, k) is None,
    decreases k - i,
{
    if i < k {
        lemma_line_start_none(f, i + 1, k);
    }
}

fn loose_match(f: &Vec<char>, p: &Vec<char>, i: usize) -> (r: Option<usize>)
    requires
        i <= f@.len(),
    ensures
        match r {
            Some(e) => loose_match_end(f@, p@, i as int) == Some(e as int) && e <= f@.len(),
            None => loose_match_end(f@, p@, i as int) is None,
        },
{
    let mut k: usize = 0;
    let mut cur: usize = i;
    proof {
        assert(p@.subrange(0, p@.len() as int) =~= p@);
    }
    while k < p.len()
        invariant
            k <= p@.len(),
            cur <= f@.len(),
            loose_match_end(f@, p@, i as int) == loose_match_end(
                f@,
                p@.subrange(k as int, p@.len() as int),
                cur as int,
            ),
        decreases p.len() - k,
    {
        let ghost rest = p@.subrange(k as int, p@.len() as int);
        proof {
            assert(rest.drop_first() =~= p@.subrange(k + 1, p@.len() as int));
            assert(rest[0] == p@[k as int]);
        }
        let c = p[k];
        if !crate::text::is_whitespace(c) {
            let j = skip_whitespace(f, cur);
            proof {
                skip_ws_facts(f@, cur as int);
            }
            if j < f.len() && f[j] == c {
                cur = j + 1;
            } else {
                return None;
            }
        }
        k = k + 1;
    }
    proof {
        assert(p@.subrange(k as int, p@.len() as int) =~= Seq::<char>::empty());
    }
    Some(cur)
}

fn occurs_at_exec(f: &Vec<char>, p: &Vec<char>, i: usize) -> (r: bool)
    ensures
        r == occurs_at(f@, p@, i as int),
{
    if i > f.len() || p.len() > f.len() - i {
        return false;
    }
    let n = f.len();
    let mut k: usize = 0;
    while k < p.len()
        invariant
            n == f@.len(),
            i + p@.len() <= f@.len(),
            k <= p@.len(),
            forall|t: int| 0 <= t < k ==> f@[i + t] == p@[t],
        decreases p.len() - k,
    {
        if f[i + k] != p[k] {
            assert(f@.subrange(i as int, i + p@.len())[k as int] != p@[k as int]);
            return false;
        }
        k = k + 1;
    }
    assert(f@.subrange(i as int, i + p@.len()) =~= p@);
    true
}

fn find_seq_at(f: &Vec<char>, p: &Vec<char>, i: usize) -> (r: Option<usize>)
    ensures
        match r {
            Some(j) => find_seq(f@, p@, i as int) == Some(j as int) && occurs_at(f@, p@, j as int),
            None => find_seq(f@, p@, i as int) is None,
        },
{
    let n = f.len();
    let mut j: usize = i;
    while j <= f.len() && p.len() <= f.len() - j
        invariant
            n == f@.len(),
            i <= j,
            find_seq(f@, p@, i as int) == find_seq(f@, p@, j as int),
        decreases f.len() + 1 - j,
    {
        if occurs_at_exec(f, p, j) {
            return Some(j);
        }
        proof {
            if j == n {
                assert(f@.subrange(j as int, j as int) =~= p@);
            }
        }
        j = j + 1;
    }
    None
}

fn space_run_at(f: &Vec<char>, i: usize) -> (r: usize)
    requires
        i <= f@.len(),
    ensures
        r == space_run(f@, i as int),
{
    let mut j: usize = i;
    while j < f.len() && f[j] == ' '
        invariant
            i <= j <= f@.len(),
            space_run(f@, i as int) == (j - i) + space_run(f@, j as int),
        decreases f.len() - j,
    {
        j = j + 1;
    }
    j - i
}

fn actual_span_at(f: &Vec<char>, m: usize, p: &Vec<char>) -> (r: Option<(usize, usize)>)
    requires
        m <= f@.len(),
    ensures
        match r {
            Some((a, b)) => actual_span(f@, m as int, p@) == Some((a as int, b as int)) && a <= b
                <= f@.len(),
            None => actual_span(f@, m as int, p@) is None,
        },
{
    proof {
        skip_ws_facts(f@, m as int);
    }
    let t0 = skip_whitespace(f, m);
    if t0 >= f.len() || f[t0] as u32 >= 0x80 {
        return None;
    }
    proof {
        skip_ws_facts(f@, t0 + 1);
    }
    let t2 = skip_whitespace(f, t0 + 1);
    if occurs_at_exec(f, p, t2) {
        return Some((t2, t2 + p.len()));
    }
    match loose_match(f, p, t2) {
        Some(e) => {
            proof {
                lemma_loose_match_forward(f@, p@, t2 as int);
            }
            Some((t2, e))
        },
        None => None,
    }
}

proof fn lemma_loose_match_forward(f: Seq<char>, p: Seq<char>, i: int)
    requires
        0 <= i <= f.len(),
    ensures
        match loose_match_end(f, p, i) {
            Some(e) => i <= e <= f.len(),
            None => true,
        },
    decreases p.len(),
{
    if p.len() > 0 {
        skip_ws_facts(f, i);
        if crate::text::is_ws(p[0]) {
            lemma_loose_match_forward(f, p.drop_first(), i);
        } else {
            let j = skip_ws(f, i);
            if j < f.len() && f[j] == p[0] {
                lemma_loose_match_forward(f, p.drop_first(), j + 1);
            }
        }
    }
}

/// The number of bytes of the leading whitespace of `l`.
pub open spec fn lead_bytes(l: Seq<char>) -> int {
    byte_pos(l, skip_ws(l, 0)) as int
}

/// The smallest indentation, in bytes, of the lines of `ls` that are not blank.
pub open spec fn min_indent(ls: Seq<Seq<char>>) -> Option<int>
    decreases ls.len(),
{
    if ls.len() == 0 {
        None
    } else {
        let m = min_indent(ls.drop_last());
        let l = ls.last();
        if is_blank(l) {
            m
        } else {
            match m {
                Some(v) => if lead_bytes(l) < v {
                    Some(lead_bytes(l))
                } else {
                    Some(v)
                },
                None => Some(lead_bytes(l)),
            }
        }
    }
}

/// `l` without its first `amt` bytes; empty if it is shorter.
pub open spec fn cut_line(l: Seq<char>, amt: int) -> Seq<char> {
    if utf8_len(l) < amt {
        Seq::<char>::empty()
    } else {
        match byte_index(l, amt) {
            Some(c) => l.subrange(c, l.len() as int),
            None => Seq::<char>::empty(),
        }
    }
}

/// Whether cutting `amt` bytes off `l` falls between two characters.
pub open spec fn cut_defined(l: Seq<char>, amt: int) -> bool {
    utf8_len(l) < amt || byte_index(l, amt) is Some
}

/// The cut lines, joined by line breaks.
pub open spec fn join_cut(ls: Seq<Seq<char>>, amt: int) -> Seq<char>
    decreases ls.len(),
{
    if ls.len() == 0 {
        Seq::<char>::empty()
    } else if ls.len() == 1 {
        cut_line(ls[0], amt)
    } else {
        join_cut(ls.drop_last(), amt) + seq!['\n'] + cut_line(ls.last(), amt)
    }
}

/// A text on several lines without its one leading line break.
pub open spec fn trim_body(x: Seq<char>) -> Seq<char> {
    if x[0] == '\n' {
        x.drop_first()
    } else {
        x
    }
}

/// The indentation, in bytes, that the non-blank lines of `ls` share.
pub open spec fn trim_amount(ls: Seq<Seq<char>>) -> int {
    match min_indent(ls) {
        Some(v) => v,
        None => 0,
    }
}

/// How an expected literal is read: a text on several lines loses one
/// leading line break and the indentation, in bytes, that all its non-blank
/// lines share.
pub open spec fn trim_text(x: Seq<char>) -> Seq<char> {
    if x.contains('\n') {
        let t = trim_body(x);
        let ls = lines_of(t);
        join_cut(ls, trim_amount(ls)) + (if t.len() > 0 && t.last() == '\n' {
            seq!['\n']
        } else {
            Seq::<char>::empty()
        })
    } else {
        x
    }
}

/// Whether the shared indentation can be cut off every line of `x` between
/// two characters.
pub open spec fn trim_defined(x: Seq<char>) -> bool {
    x.contains('\n') ==> {
        let ls = lines_of(trim_body(x));
        forall|i: int| 0 <= i < ls.len() ==> cut_defined(#[trigger] ls[i], trim_amount(ls))
    }
}

fn tail_from(cs: &Vec<char>, start: usize) -> (r: Vec<char>)
    requires
        start <= cs@.len(),
    ensures
        r@ == cs@.subrange(start as int, cs@.len() as int),
{
    let mut r: Vec<char> = Vec::new();
    let mut i: usize = start;
    while i < cs.len()
        invariant
            start <= i <= cs@.len(),
            r@ == cs@.subrange(start as int, i as int),
        decreases cs.len() - i,
    {
        r.push(cs[i]);
        proof {
            assert(r@ =~= cs@.subrange(start as int, i + 1));
        }
        i = i + 1;
    }
    r
}

/// The smallest indentation, in bytes, of the non-blank lines among `spans`
/// of `t`, or 0.
fn common_indent(t: &Vec<char>, spans: &Vec<(usize, usize)>) -> (r: usize)
    requires
        forall|i: int| 0 <= i < spans@.len() ==> (#[trigger] spans@[i]).0 <= spans@[i].1 <= t@.len(),
        utf8_len(t@) <= usize::MAX,
    ensures
        r == trim_amount(span_texts(t@, spans@)),
{
    let ghost ls = span_texts(t@, spans@);
    let mut found = false;
    let mut m: usize = 0;
    let mut j: usize = 0;
    while j < spans.len()
        invariant
            j <= spans@.len(),
            ls == span_texts(t@, spans@),
            utf8_len(t@) <= usize::MAX,
            forall|i: int| 0 <= i < spans@.len() ==> (#[trigger] spans@[i]).0 <= spans@[i].1 <= t@.len(),
            found == (min_indent(ls.subrange(0, j as int)) is Some),
            found ==> min_indent(ls.subrange(0, j as int)) == Some(m as int),
            !found ==> m == 0,
        decreases spans.len() - j,
    {
        let (a, b) = spans[j];
        proof {
            assert(ls.subrange(0, j + 1).drop_last() =~= ls.subrange(0, j as int));
            assert(ls.subrange(0, j + 1).last() == t@.subrange(a as int, b as int));
        }
        if !is_blank_span(t, a, b) {
            let w = lead_ws_bytes(t, a, b);
            if !found || w < m {
                m = w;
            }
            found = true;
        }
        j = j + 1;
    }
    proof {
        assert(ls.subrange(0, spans@.len() as int) =~= ls);
    }
    m
}

/// Appends the cut lines of `spans` of `t`, joined by line breaks; false,
/// with `buf` in any state, where a cut falls inside a character.
fn append_cut_lines(buf: &mut String, t: &Vec<char>, spans: &Vec<(usize, usize)>, amt: usize) -> (ok: bool)
    requires
        forall|i: int| 0 <= i < spans@.len() ==> (#[trigger] spans@[i]).0 <= spans@[i].1 <= t@.len(),
        utf8_len(t@) <= usize::MAX,
    ensures
        ok <==> forall|i: int|
            0 <= i < spans@.len() ==> cut_defined(#[trigger] span_texts(t@, spans@)[i], amt as int),
        ok ==> final(buf)@ == old(buf)@ + join_cut(span_texts(t@, spans@), amt as int),
{
    let ghost ls = span_texts(t@, spans@);
    let ghost start = buf@;
    let mut j: usize = 0;
    while j < spans.len()
        invariant
            j <= spans@.len(),
            ls == span_texts(t@, spans@),
            utf8_len(t@) <= usize::MAX,
            forall|i: int| 0 <= i < spans@.len() ==> (#[trigger] spans@[i]).0 <= spans@[i].1 <= t@.len(),
            forall|i: int| 0 <= i < j ==> cut_defined(#[trigger] ls[i], amt as int),
            buf@ == start + join_cut(ls.subrange(0, j as int), amt as int),
        decreases spans.len() - j,
    {
        let (a, b) = spans[j];
        let ghost l = t@.subrange(a as int, b as int);
        assert(ls[j as int] == l);
        if j > 0 {
            push_char(buf, '\n');
        }
        let w = span_utf8_len(t, a, b);
        if w >= amt {
            match char_at_byte(t, a, b, amt) {
                Some(c) => {
                    append_chars(buf, t, a + c, b);
                    proof {
                        assert(l.subrange(c as int, l.len() as int) =~= t@.subrange(a + c, b as int));
                    }
                },
                None => {
                    return false;
                },
            }
        }
        proof {
            let next = ls.subrange(0, j + 1);
            assert(next.drop_last() =~= ls.subrange(0, j as int));
            assert(next.last() == l);
            if j == 0 {
                assert(next.len() == 1 && next[0] == next.last());
            }
            assert(buf@ =~= start + join_cut(next, amt as int));
        }
        j = j + 1;
    }
    proof {
        assert(ls.subrange(0, spans@.len() as int) =~= ls);
    }
    true
}

/// The text of an expected literal as the assertions read it, or `None`
/// where cutting the shared indentation would split a character.
fn trim_core(text: &str) -> (r: Option<String>)
    ensures
        r is Some <==> trim_defined(text@),
        r is Some ==> r->Some_0@ == trim_text(text@),
{
    let cs = chars_of(text);
    let total = text.as_bytes().len();
    let nl = find_char(&cs, '\n', 0);
    proof {
        find_from_facts(cs@, '\n', 0);
        if nl is Some {
            assert(cs@[nl->Some_0 as int] == '\n');
        }
    }
    if nl.is_none() {
        return Some(text.to_owned());
    }
    let start: usize = if cs[0] == '\n' {
        1
    } else {
        0
    };
    let t = tail_from(&cs, start);
    proof {
        if start == 1 {
            assert(t@ =~= cs@.drop_first());
        } else {
            assert(t@ =~= cs@);
        }
        lemma_part_len(cs@, start as int, cs@.len() as int, 0);
    }
    let spans = line_spans(&t);
    let amt = common_indent(&t, &spans);
    let mut buf = String::new();
    if !append_cut_lines(&mut buf, &t, &spans, amt) {
        return None;
    }
    if t.len() > 0 && t[t.len() - 1] == '\n' {
        push_char(&mut buf, '\n');
    }
    proof {
        assert(buf@ =~= trim_text(text@));
    }
    Some(buf)
}

/// Relies on `format!("{:#?}", _)`: the pretty `Debug` text of a value.
#[verifier::external_body]
fn pretty_debug<T: std::fmt::Debug>(value: &T) -> String {
    format!("{:#?}", value)
}

impl<const N: usize> Expect<N> {
    /// Compares the pretty `Debug` text of `actual` with the expected value,
    /// as `assert_eq` does.
    pub fn assert_debug_eq<T: std::fmt::Debug>(&self, actual: T) -> (r: Result<(), String>)
        requires
            self.readable(),
        ensures
            r is Ok ==> self.expected_text() is Some,
            match self.expected_text() {
                Some(e) => r is Err ==> r->Err_0@ == e,
                None => r is Err && r->Err_0@ == Seq::<char>::empty(),
            },
    {
        let text = pretty_debug(&actual);
        self.assert_eq(text.as_str())
    }

    /// Whether `trimmed` can read `text`: cutting the shared indentation off
    /// its lines falls between characters.
    pub fn can_trim(&self, text: &str) -> (r: bool)
        ensures
            r == trim_defined(text@),
    {
        trim_core(text).is_some()
    }

    /// The value of an expected literal as the assertion reads it (`trim_text`).
    pub fn trimmed(&self, text: &str) -> (r: String)
        requires
            trim_defined(text@),
        ensures
            r@ == trim_text(text@),
    {
        match trim_core(text) {
            Some(r) => r,
            None => String::new(),
        }
    }

    /// Whether the expected literal of this evaluation, if there is one, can
    /// be read (`trim_defined`).
    pub open spec fn readable(&self) -> bool {
        self.assertion_index < N ==> trim_defined(self.expected@[self.assertion_index as int]@)
    }

    pub fn can_read(&self) -> (r: bool)
        ensures
            r == self.readable(),
    {
        if self.assertion_index < N {
            self.can_trim(self.expected[self.assertion_index])
        } else {
            true
        }
    }

    /// What this evaluation is compared against: the trimmed expected literal
    /// of its index, if the assertion has one.
    pub open spec fn expected_text(&self) -> Option<Seq<char>> {
        if self.assertion_index < N {
            Some(trim_text(self.expected@[self.assertion_index as int]@))
        } else {
            None
        }
    }

    /// Compares `actual` with the expected value of this evaluation. On a
    /// mismatch the error holds the expected text (empty when the assertion
    /// has no literal for this evaluation).
    pub fn assert_eq(&self, actual: &str) -> (r: Result<(), String>)
        requires
            self.readable(),
        ensures
            match self.expected_text() {
                Some(e) => (r is Ok <==> e == actual@) && (r is Err ==> r->Err_0@ == e),
                None => r is Err && r->Err_0@ == Seq::<char>::empty(),
            },
    {
        if self.assertion_index < N {
            let expected = self.trimmed(self.expected[self.assertion_index]);
            if same_text(expected.as_str(), actual) {
                Ok(())
            } else {
                Err(expected)
            }
        } else {
            Err(String::new())
        }
    }

    /// Finds, in `file_contents`, the assertion's actual expression and its
    /// expected literals: the ranges hold exactly the literals' source text,
    /// and `end_index` is where the last of them ends (or the actual
    /// expression, if there are none).
    pub fn find_expect_location(&self, file_contents: &str) -> (r: Result<ExpectLocation, LocateError>)
        requires
            self.file_position.line >= 1,
            self.file_position.column >= 1,
        ensures
            match r {
                Ok(loc) => locate(
                    file_contents@,
                    self.file_position.line as nat,
                    self.file_position.column as nat,
                    self.raw_actual@,
                    texts(self.raw_expected),
                ) is Ok && loc.is_bytes_of(
                    file_contents@,
                    locate(
                        file_contents@,
                        self.file_position.line as nat,
                        self.file_position.column as nat,
                        self.raw_actual@,
                        texts(self.raw_expected),
                    )->Ok_0,
                ),
                Err(e) => locate(
                    file_contents@,
                    self.file_position.line as nat,
                    self.file_position.column as nat,
                    self.raw_actual@,
                    texts(self.raw_expected),
                ) == Err::<LocatedSpans, LocateError>(e),
            },
            r is Ok ==> ({
                let loc = r->Ok_0;
                let bytes = file_contents.spec_bytes();
                &&& loc.expected_ranges@.len() == N
                &&& forall|i: int|
                    0 <= i < N ==> (#[trigger] loc.expected_ranges@[i]).start <= loc.expected_ranges@[i].end
                        <= bytes.len() && bytes.subrange(
                        loc.expected_ranges@[i].start as int,
                        loc.expected_ranges@[i].end as int,
                    ) == self.raw_expected@[i].spec_bytes()
                &&& N > 0 ==> loc.end_index == loc.expected_ranges@[N - 1].end
                &&& N > 0 ==> loc.start_index <= loc.expected_ranges@[0].start
                &&& forall|i: int|
                    0 <= i < N - 1 ==> (#[trigger] loc.expected_ranges@[i]).end
                        <= loc.expected_ranges@[i + 1].start
                &&& loc.start_index <= loc.end_index <= bytes.len()
            }),
    {
        let f = chars_of(file_contents);
        let pos = byte_positions(file_contents, &f);
        let ls = match line_start_at(&f, self.file_position.line - 1) {
            Some(p) => p,
            None => return Err(LocateError::LineNotFound),
        };
        let col = (self.file_position.column - 1) as usize;
        if col > f.len() - ls {
            proof {
                find_from_facts(f@, '!', ls + col);
            }
            return Err(LocateError::MacroNotFound);
        }
        proof {
            find_from_facts(f@, '!', ls + col);
        }
        let m = match find_char(&f, '!', ls + col) {
            Some(q) => {
                if q + 1 < f.len() {
                    q + 1
                } else {
                    return Err(LocateError::MacroNotFound);
                }
            },
            None => return Err(LocateError::MacroNotFound),
        };
        let actual = chars_of(self.raw_actual);
        let (a, b) = match actual_span_at(&f, m, &actual) {
            Some(span) => span,
            None => return Err(LocateError::ActualNotFound),
        };
        let ghost es = texts(self.raw_expected);
        let (ranges, cur) = match find_expected(&f, &pos, &self.raw_expected, b) {
            Ok(found) => found,
            Err(e) => return Err(e),
        };
        proof {
            lemma_spans_facts(f@, es, b as int, N as int);
        }
        let line_indent = space_run_at(&f, ls);
        let loc = ExpectLocation {
            line_indent,
            expected_ranges: ranges,
            start_index: pos[a],
            end_index: pos[cur],
        };
        proof {
            let spans = expected_spans(f@, es, b as int, N as int)->Ok_0.0;
            lemma_spans_facts(f@, es, b as int, N as int);
            let bytes = file_contents.spec_bytes();
            lemma_byte_range(f@, a as int, cur as int);
            assert forall|t: int| 0 <= t < N implies (#[trigger] loc.expected_ranges@[t]).start
                <= loc.expected_ranges@[t].end <= bytes.len() && bytes.subrange(
                loc.expected_ranges@[t].start as int,
                loc.expected_ranges@[t].end as int,
            ) == self.raw_expected@[t].spec_bytes() by {
                lemma_byte_range(f@, spans[t].0, spans[t].1);
                assert(f@.subrange(spans[t].0, spans[t].1) == es[t]);
                assert(es[t] == self.raw_expected@[t]@);
            }
            if N > 0 {
                lemma_byte_range(f@, a as int, spans[0].0);
            }
            assert forall|t: int| 0 <= t < N - 1 implies (#[trigger] loc.expected_ranges@[t]).end
                <= loc.expected_ranges@[t + 1].start by {
                assert(spans[t].1 <= spans[t + 1].0);
                lemma_byte_range(f@, spans[t].1, spans[t + 1].0);
            }
        }
        Ok(loc)
    }
}

/// Finds each expected literal after the one before, from `c0`: their byte
/// ranges and where the last ends.
fn find_expected<const N: usize>(
    f: &Vec<char>,
    pos: &Vec<usize>,
    raw_expected: &[&'static str; N],
    c0: usize,
) -> (r: Result<(Vec<std::ops::Range<usize>>, usize), LocateError>)
    requires
        c0 <= f@.len(),
        pos@.len() == f@.len() + 1,
        forall|t: int| 0 <= t <= f@.len() ==> pos@[t] == byte_pos(f@, t),
    ensures
        match r {
            Ok((ranges, cur)) => {
                let sp = expected_spans(f@, texts(*raw_expected), c0 as int, N as int);
                &&& sp is Ok
                &&& cur == sp->Ok_0.1
                &&& ranges@.len() == N
                &&& forall|t: int|
                    0 <= t < N ==> (#[trigger] ranges@[t]).start == byte_pos(f@, sp->Ok_0.0[t].0)
                        && ranges@[t].end == byte_pos(f@, sp->Ok_0.0[t].1)
            },
            Err(e) => exists|i: int|
                expected_spans(f@, texts(*raw_expected), c0 as int, N as int) == Err::<
                    (Seq<(int, int)>, int),
                    int,
                >(i) && e == LocateError::ExpectedNotFound(i as usize),
        },
{
    let ghost es = texts(*raw_expected);
    let n = f.len();
    let mut cur = c0;
    let mut ranges: Vec<std::ops::Range<usize>> = Vec::new();
    let mut i: usize = 0;
    assert(es.len() == N);
    while i < N
        invariant
            i <= N,
            es == texts(*raw_expected),
            es.len() == N,
            n == f@.len(),
            c0 <= cur <= f@.len(),
            pos@.len() == f@.len() + 1,
            forall|t: int| 0 <= t <= f@.len() ==> pos@[t] == byte_pos(f@, t),
            expected_spans(f@, es, c0 as int, i as int) is Ok,
            expected_spans(f@, es, c0 as int, i as int)->Ok_0.1 == cur,
            expected_spans(f@, es, c0 as int, i as int)->Ok_0.0.len() == i,
            ranges@.len() == i,
            forall|t: int|
                0 <= t < i ==> (#[trigger] ranges@[t]).start == byte_pos(
                    f@,
                    expected_spans(f@, es, c0 as int, i as int)->Ok_0.0[t].0,
                ) && ranges@[t].end == byte_pos(
                    f@,
                    expected_spans(f@, es, c0 as int, i as int)->Ok_0.0[t].1,
                ),
        decreases N - i,
    {
        let e = chars_of(raw_expected[i]);
        assert(e@ == es[i as int]);
        match find_seq_at(f, &e, cur) {
            Some(j) => {
                proof {
                    lemma_find_seq_forward(f@, e@, cur as int);
                }
                let end = j + e.len();
                ranges.push(pos[j]..pos[end]);
                cur = end;
            },
            None => {
                proof {
                    lemma_spans_error_stays(f@, es, c0 as int, i as int + 1, N as int);
                }
                return Err(LocateError::ExpectedNotFound(i));
            },
        }
        i = i + 1;
    }
    Ok((ranges, cur))
}

/// What the spans of the expected literals are: each is an occurrence of its
/// literal, after the one before, and the last ends where the search ended.
proof fn lemma_spans_facts(f: Seq<char>, es: Seq<Seq<char>>, c0: int, n: int)
    requires
        0 <= c0 <= f.len(),
        0 <= n <= es.len(),
        expected_spans(f, es, c0, n) is Ok,
    ensures
        ({
            let (sp, cur) = expected_spans(f, es, c0, n)->Ok_0;
            &&& sp.len() == n
            &&& c0 <= cur <= f.len()
            &&& n > 0 ==> sp[n - 1].1 == cur
            &&& forall|t: int| 0 <= t < n - 1 ==> (#[trigger] sp[t]).1 <= sp[t + 1].0
            &&& forall|t: int|
                0 <= t < n ==> c0 <= (#[trigger] sp[t]).0 && sp[t].1 == sp[t].0 + es[t].len() && sp[t].1
                    <= cur && occurs_at(f, es[t], sp[t].0)
        }),
    decreases n,
{
    if n > 0 {
        lemma_spans_facts(f, es, c0, n - 1);
        let (sp, cur) = expected_spans(f, es, c0, n - 1)->Ok_0;
        lemma_find_seq_forward(f, es[n - 1], cur);
    }
}

proof fn lemma_spans_error_stays(f: Seq<char>, es: Seq<Seq<char>>, c0: int, k: int, n: int)
    requires
        1 <= k <= n,
        expected_spans(f, es, c0, k) is Err,
    ensures
        expected_spans(f, es, c0, n) == expected_spans(f, es, c0, k),
    decreases n - k,
{
    if k < n {
        lemma_spans_error_stays(f, es, c0, k + 1, n);
    }
}

proof fn lemma_find_seq_forward(f: Seq<char>, p: Seq<char>, i: int)
    requires
        0 <= i,
    ensures
        match find_seq(f, p, i) {
            Some(j) => i <= j && occurs_at(f, p, j),
            None => true,
        },
    decreases f.len() + 1 - i,
{
    if !(i + p.len() > f.len()) && !occurs_at(f, p, i) {
        lemma_find_seq_forward(f, p, i + 1);
    }
}

} // verus!

verus! {

/// Where the parts of a call are found, they lie in order in the file: the
/// actual expression starts at or before where the last part ends, which is
/// within the file.
pub proof fn lemma_locate_order(
    f: Seq<char>,
    line: nat,
    col: nat,
    actual: Seq<char>,
    es: Seq<Seq<char>>,
)
    requires
        locate(f, line, col, actual, es) is Ok,
    ensures
        ({
            let s = locate(f, line, col, actual, es)->Ok_0;
            0 <= s.start <= s.end <= f.len()
        }),
{
    let ls = line_start(f, (line - 1) as nat)->Some_0;
    let m = macro_start(f, ls, col - 1)->Some_0;
    find_from_facts(f, '!', ls + col - 1);
    let t0 = skip_ws(f, m);
    skip_ws_facts(f, m);
    skip_ws_facts(f, t0 + 1);
    let t2 = skip_ws(f, t0 + 1);
    lemma_loose_match_forward(f, actual, t2);
    let (a, b) = actual_span(f, m, actual)->Some_0;
    lemma_spans_facts(f, es, b, es.len() as int);
}

} // verus!
