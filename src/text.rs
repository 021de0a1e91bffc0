use vstd::prelude::*;
use vstd::std_specs::iter::IteratorSpec;
use vstd::string::StringSliceAdditionalSpecFns;
use vstd::utf8::{encode_scalar, encode_utf8};

verus! {

broadcast use {vstd::string::axiom_spec_iter, vstd::string::next_postcondition};

/// Unicode `White_Space`, the set that `char::is_whitespace` tests.
pub open spec fn is_ws(c: char) -> bool {
    let v = c as u32;
    ||| 0x09 <= v <= 0x0D
    ||| v == 0x20
    ||| v == 0x85
    ||| v == 0xA0
    ||| v == 0x1680
    ||| 0x2000 <= v <= 0x200A
    ||| v == 0x2028
    ||| v == 0x2029
    ||| v == 0x202F
    ||| v == 0x205F
    ||| v == 0x3000
}

/// Whether every character of `s` is whitespace (`s.trim().is_empty()`).
pub open spec fn is_blank(s: Seq<char>) -> bool {
    forall|i: int| 0 <= i < s.len() ==> is_ws(#[trigger] s[i])
}

/// The first index at or after `i` that holds `c`.
pub open spec fn find_from(s: Seq<char>, c: char, i: int) -> Option<int>
    decreases s.len() - i,
{
    if i < 0 || i >= s.len() {
        None
    } else if s[i] == c {
        Some(i)
    } else {
        find_from(s, c, i + 1)
    }
}

/// The first index at or after `i` that does not hold whitespace, or the length of `s`.
pub open spec fn skip_ws(s: Seq<char>, i: int) -> int
    decreases s.len() - i,
{
    if i < 0 || i >= s.len() {
        if i < 0 { 0 } else { s.len() as int }
    } else if is_ws(s[i]) {
        skip_ws(s, i + 1)
    } else {
        i
    }
}

/// `s` without one trailing carriage return.
pub open spec fn strip_cr(s: Seq<char>) -> Seq<char> {
    if s.len() > 0 && s.last() == '\r' {
        s.drop_last()
    } else {
        s
    }
}

/// The lines of `s[i..]` as `str::lines` gives them: split at each `\n`, with a
/// `\r` before it dropped, and no empty line after a final `\n`.
pub open spec fn lines_from(s: Seq<char>, i: int) -> Seq<Seq<char>>
    decreases s.len() - i,
    via lines_from_decreases
{
    if i < 0 || i >= s.len() {
        seq![]
    } else {
        match find_from(s, '\n', i) {
            Some(k) => seq![strip_cr(s.subrange(i, k))] + lines_from(s, k + 1),
            None => seq![s.subrange(i, s.len() as int)],
        }
    }
}

#[via_fn]
proof fn lines_from_decreases(s: Seq<char>, i: int) {
    find_from_facts(s, '\n', i);
}

pub open spec fn lines_of(s: Seq<char>) -> Seq<Seq<char>> {
    lines_from(s, 0)
}

/// The number of bytes of the UTF-8 encoding of `s`.
pub open spec fn utf8_len(s: Seq<char>) -> nat {
    encode_utf8(s).len()
}

/// Where character `i` of `s` starts in its UTF-8 encoding.
pub open spec fn byte_pos(s: Seq<char>, i: int) -> nat {
    utf8_len(s.subrange(0, i))
}

pub proof fn find_from_facts(s: Seq<char>, c: char, i: int)
    ensures
        match find_from(s, c, i) {
            Some(k) => 0 <= i <= k < s.len() && s[k] == c && forall|j: int|
                i <= j < k ==> s[j] != c,
            None => forall|j: int| 0 <= i <= j < s.len() ==> s[j] != c,
        },
    decreases s.len() - i,
{
    if 0 <= i < s.len() && s[i] != c {
        find_from_facts(s, c, i + 1);
    }
}

pub proof fn skip_ws_facts(s: Seq<char>, i: int)
    requires
        0 <= i <= s.len(),
    ensures
        i <= skip_ws(s, i) <= s.len(),
        forall|j: int| i <= j < skip_ws(s, i) ==> is_ws(s[j]),
        skip_ws(s, i) < s.len() ==> !is_ws(s[skip_ws(s, i)]),
    decreases s.len() - i,
{
    if i < s.len() && is_ws(s[i]) {
        skip_ws_facts(s, i + 1);
    }
}

/// The encoding of a concatenation is the concatenation of the encodings.
pub proof fn lemma_encode_concat(a: Seq<char>, b: Seq<char>)
    ensures
        encode_utf8(a + b) == encode_utf8(a) + encode_utf8(b),
    decreases a.len(),
{
    if a.len() == 0 {
        assert(a + b =~= b);
    } else {
        lemma_encode_concat(a.drop_first(), b);
        assert((a + b).drop_first() =~= a.drop_first() + b);
        assert(encode_utf8(a + b) == encode_scalar((a + b)[0] as u32) + encode_utf8(
            (a + b).drop_first(),
        ));
        assert(encode_utf8(a) + encode_utf8(b) =~= encode_scalar(a[0] as u32) + (encode_utf8(
            a.drop_first(),
        ) + encode_utf8(b)));
    }
}

/// The bytes of `s[i..j]` are those between the byte positions of `i` and `j`.
pub proof fn lemma_byte_range(s: Seq<char>, i: int, j: int)
    requires
        0 <= i <= j <= s.len(),
    ensures
        byte_pos(s, i) <= byte_pos(s, j) <= utf8_len(s),
        encode_utf8(s).subrange(byte_pos(s, i) as int, byte_pos(s, j) as int) == encode_utf8(
            s.subrange(i, j),
        ),
{
    let a = s.subrange(0, i);
    let b = s.subrange(i, j);
    let c = s.subrange(j, s.len() as int);
    assert(s.subrange(0, j) =~= a + b);
    assert(s =~= (a + b) + c);
    lemma_encode_concat(a, b);
    lemma_encode_concat(a + b, c);
    assert(encode_utf8(s).subrange(byte_pos(s, i) as int, byte_pos(s, j) as int) =~= encode_utf8(
        b,
    ));
}

/// Relies on `String::push`: appends one character.
#[verifier::external_body]
pub fn push_char(w: &mut String, c: char)
    ensures
        final(w)@ == old(w)@.push(c),
{
    w.push(c)
}

/// Appends `cs[a..b]` to `w`.
pub fn append_chars(w: &mut String, cs: &Vec<char>, a: usize, b: usize)
    requires
        a <= b <= cs@.len(),
    ensures
        final(w)@ == old(w)@ + cs@.subrange(a as int, b as int),
{
    let mut i: usize = a;
    while i < b
        invariant
            a <= i <= b <= cs@.len(),
            w@ == old(w)@ + cs@.subrange(a as int, i as int),
        decreases b - i,
    {
        push_char(w, cs[i]);
        proof {
            assert(cs@.subrange(a as int, i + 1) =~= cs@.subrange(a as int, i as int).push(
                cs@[i as int],
            ));
        }
        i = i + 1;
    }
}

/// The text of each span of `cs`.
pub open spec fn span_texts(cs: Seq<char>, spans: Seq<(usize, usize)>) -> Seq<Seq<char>> {
    Seq::new(spans.len(), |i: int| cs.subrange(spans[i].0 as int, spans[i].1 as int))
}

/// Where each line of `cs` (as `lines_of` gives them) starts and ends.
pub fn line_spans(cs: &Vec<char>) -> (r: Vec<(usize, usize)>)
    ensures
        forall|i: int| 0 <= i < r@.len() ==> (#[trigger] r@[i]).0 <= r@[i].1 <= cs@.len(),
        span_texts(cs@, r@) == lines_of(cs@),
{
    let mut r: Vec<(usize, usize)> = Vec::new();
    let mut pos: usize = 0;
    while pos < cs.len()
        invariant
            pos <= cs@.len(),
            forall|i: int| 0 <= i < r@.len() ==> (#[trigger] r@[i]).0 <= r@[i].1 <= cs@.len(),
            lines_of(cs@) == span_texts(cs@, r@) + lines_from(cs@, pos as int),
        decreases cs.len() - pos,
    {
        let ghost old_r = r@;
        proof {
            find_from_facts(cs@, '\n', pos as int);
        }
        match find_char(cs, '\n', pos) {
            Some(k) => {
                let mut end = k;
                if k > pos && cs[k - 1] == '\r' {
                    end = k - 1;
                }
                r.push((pos, end));
                proof {
                    assert(cs@.subrange(pos as int, end as int) == strip_cr(
                        cs@.subrange(pos as int, k as int),
                    )) by {
                        if k > pos && cs@[k - 1] == '\r' {
                            assert(cs@.subrange(pos as int, end as int) =~= cs@.subrange(
                                pos as int,
                                k as int,
                            ).drop_last());
                        }
                    }
                    assert(span_texts(cs@, r@) =~= span_texts(cs@, old_r) + seq![
                        strip_cr(cs@.subrange(pos as int, k as int)),
                    ]);
                    assert(lines_from(cs@, pos as int) == seq![
                        strip_cr(cs@.subrange(pos as int, k as int)),
                    ] + lines_from(cs@, k + 1));
                    assert(lines_of(cs@) =~= span_texts(cs@, r@) + lines_from(cs@, k + 1));
                }
                pos = k + 1;
            },
            None => {
                r.push((pos, cs.len()));
                proof {
                    assert(span_texts(cs@, r@) =~= span_texts(cs@, old_r) + seq![
                        cs@.subrange(pos as int, cs@.len() as int),
                    ]);
                    assert(lines_from(cs@, cs@.len() as int) =~= Seq::<Seq<char>>::empty());
                    assert(lines_of(cs@) =~= span_texts(cs@, r@) + lines_from(
                        cs@,
                        cs@.len() as int,
                    ));
                }
                pos = cs.len();
            },
        }
    }
    proof {
        assert(lines_of(cs@) =~= span_texts(cs@, r@));
    }
    r
}

/// Whether two texts hold the same characters.
pub fn same_text(a: &str, b: &str) -> (r: bool)
    ensures
        r == (a@ == b@),
{
    let x = chars_of(a);
    let y = chars_of(b);
    if x.len() != y.len() {
        return false;
    }
    let mut i: usize = 0;
    while i < x.len()
        invariant
            x@ == a@,
            y@ == b@,
            x@.len() == y@.len(),
            i <= x@.len(),
            forall|t: int| 0 <= t < i ==> x@[t] == y@[t],
        decreases x.len() - i,
    {
        if x[i] != y[i] {
            assert(x@[i as int] != y@[i as int]);
            return false;
        }
        i = i + 1;
    }
    assert(x@ =~= y@);
    true
}

/// Whether `cs[a..b]` is all whitespace.
pub fn is_blank_span(cs: &Vec<char>, a: usize, b: usize) -> (r: bool)
    requires
        a <= b <= cs@.len(),
    ensures
        r == is_blank(cs@.subrange(a as int, b as int)),
{
    let mut i: usize = a;
    while i < b
        invariant
            a <= i <= b <= cs@.len(),
            forall|j: int| a <= j < i ==> is_ws(#[trigger] cs@[j]),
        decreases b - i,
    {
        if !is_whitespace(cs[i]) {
            assert(!is_ws(cs@.subrange(a as int, b as int)[i - a]));
            return false;
        }
        i = i + 1;
    }
    true
}

/// Each character adds its UTF-8 width, at least one byte, to the byte position.
pub proof fn lemma_byte_pos_step(s: Seq<char>, i: int)
    requires
        0 <= i < s.len(),
    ensures
        byte_pos(s, i + 1) == byte_pos(s, i) + encode_scalar(s[i] as u32).len(),
        encode_scalar(s[i] as u32).len() >= 1,
{
    let one = seq![s[i]];
    assert(one.drop_first() =~= Seq::<char>::empty());
    assert(encode_utf8(Seq::<char>::empty()) =~= Seq::<u8>::empty());
    assert(one[0] == s[i]);
    assert(encode_utf8(one) =~= encode_scalar(s[i] as u32));
    assert(s.subrange(0, i + 1) =~= s.subrange(0, i) + one);
    lemma_encode_concat(s.subrange(0, i), one);
}

/// Byte positions grow strictly with the character index.
pub proof fn lemma_byte_pos_strict(s: Seq<char>, i: int, j: int)
    requires
        0 <= i < j <= s.len(),
    ensures
        byte_pos(s, i) < byte_pos(s, j),
    decreases j - i,
{
    lemma_byte_pos_step(s, j - 1);
    if i < j - 1 {
        lemma_byte_pos_strict(s, i, j - 1);
    }
}

/// The character index at which byte `b` of `l` starts a character (or the
/// end), if there is one.
pub open spec fn byte_index(l: Seq<char>, b: int) -> Option<int> {
    if exists|c: int| 0 <= c <= l.len() && #[trigger] byte_pos(l, c) == b {
        Some(choose|c: int| 0 <= c <= l.len() && #[trigger] byte_pos(l, c) == b)
    } else {
        None
    }
}

pub proof fn lemma_byte_index_at(l: Seq<char>, c: int)
    requires
        0 <= c <= l.len(),
    ensures
        byte_index(l, byte_pos(l, c) as int) == Some(c),
{
    let b = byte_pos(l, c) as int;
    assert(exists|d: int| 0 <= d <= l.len() && #[trigger] byte_pos(l, d) == b);
    let d = choose|d: int| 0 <= d <= l.len() && #[trigger] byte_pos(l, d) == b;
    if d < c {
        lemma_byte_pos_strict(l, d, c);
    } else if c < d {
        lemma_byte_pos_strict(l, c, d);
    }
}

/// Byte lengths of a part of `t` and of its prefixes are bounded by `t`'s.
pub proof fn lemma_part_len(t: Seq<char>, a: int, b: int, k: int)
    requires
        0 <= a <= b <= t.len(),
        0 <= k <= b - a,
    ensures
        byte_pos(t.subrange(a, b), k) <= utf8_len(t.subrange(a, b)) <= utf8_len(t),
{
    let l = t.subrange(a, b);
    lemma_byte_range(l, 0, k);
    assert(l.subrange(0, l.len() as int) =~= l);
    lemma_byte_range(t, a, b);
}

/// The number of UTF-8 bytes of `t[a..b]`.
pub fn span_utf8_len(t: &Vec<char>, a: usize, b: usize) -> (r: usize)
    requires
        a <= b <= t@.len(),
        utf8_len(t@) <= usize::MAX,
    ensures
        r == utf8_len(t@.subrange(a as int, b as int)),
{
    let ghost l = t@.subrange(a as int, b as int);
    let mut k: usize = a;
    let mut acc: usize = 0;
    assert(l.subrange(0, 0) =~= Seq::<char>::empty());
    while k < b
        invariant
            a <= k <= b <= t@.len(),
            l == t@.subrange(a as int, b as int),
            utf8_len(t@) <= usize::MAX,
            acc == byte_pos(l, k - a),
        decreases b - k,
    {
        proof {
            lemma_byte_pos_step(l, k - a);
            assert(l[k - a] == t@[k as int]);
            lemma_part_len(t@, a as int, b as int, k + 1 - a);
        }
        acc = acc + char_utf8_len(t[k]);
        k = k + 1;
    }
    assert(l.subrange(0, l.len() as int) =~= l);
    acc
}

/// The character index (from `a`) at which byte `amt` of `t[a..b]` starts a
/// character, if there is one.
pub fn char_at_byte(t: &Vec<char>, a: usize, b: usize, amt: usize) -> (r: Option<usize>)
    requires
        a <= b <= t@.len(),
        utf8_len(t@) <= usize::MAX,
    ensures
        match r {
            Some(c) => byte_index(t@.subrange(a as int, b as int), amt as int) == Some(c as int),
            None => byte_index(t@.subrange(a as int, b as int), amt as int) is None,
        },
{
    let ghost l = t@.subrange(a as int, b as int);
    let mut k: usize = a;
    let mut acc: usize = 0;
    assert(l.subrange(0, 0) =~= Seq::<char>::empty());
    while k < b && acc < amt
        invariant
            a <= k <= b <= t@.len(),
            l == t@.subrange(a as int, b as int),
            utf8_len(t@) <= usize::MAX,
            acc == byte_pos(l, k - a),
            forall|c: int| 0 <= c < k - a ==> byte_pos(l, c) < amt,
        decreases b - k,
    {
        proof {
            lemma_byte_pos_step(l, k - a);
            assert(l[k - a] == t@[k as int]);
            lemma_part_len(t@, a as int, b as int, k + 1 - a);
        }
        acc = acc + char_utf8_len(t[k]);
        k = k + 1;
    }
    let c = k - a;
    if acc == amt {
        proof {
            lemma_byte_index_at(l, c as int);
        }
        Some(c)
    } else {
        proof {
            assert forall|d: int| 0 <= d <= l.len() implies #[trigger] byte_pos(l, d) != amt by {
                if d > c {
                    lemma_byte_pos_strict(l, c as int, d);
                }
            }
        }
        None
    }
}

/// The number of UTF-8 bytes of the leading whitespace of `t[a..b]`.
pub fn lead_ws_bytes(t: &Vec<char>, a: usize, b: usize) -> (r: usize)
    requires
        a <= b <= t@.len(),
        utf8_len(t@) <= usize::MAX,
    ensures
        r == byte_pos(
            t@.subrange(a as int, b as int),
            skip_ws(t@.subrange(a as int, b as int), 0),
        ),
{
    let ghost l = t@.subrange(a as int, b as int);
    let mut k: usize = a;
    let mut acc: usize = 0;
    assert(l.subrange(0, 0) =~= Seq::<char>::empty());
    proof {
        skip_ws_facts(l, 0);
    }
    while k < b && is_whitespace(t[k])
        invariant
            a <= k <= b <= t@.len(),
            l == t@.subrange(a as int, b as int),
            utf8_len(t@) <= usize::MAX,
            acc == byte_pos(l, k - a),
            skip_ws(l, 0) == skip_ws(l, k - a),
        decreases b - k,
    {
        proof {
            lemma_byte_pos_step(l, k - a);
            assert(l[k - a] == t@[k as int]);
            lemma_part_len(t@, a as int, b as int, k + 1 - a);
        }
        acc = acc + char_utf8_len(t[k]);
        k = k + 1;
    }
    proof {
        if k < b {
            assert(l[k - a] == t@[k as int]);
        }
    }
    acc
}

/// The characters of `s`, in order.
pub fn chars_of(s: &str) -> (r: Vec<char>)
    ensures
        r@ == s@,
{
    let mut r: Vec<char> = Vec::new();
    let mut it = s.chars();
    loop
        invariant
            r@ + it.remaining() == s@,
            it.obeys_prophetic_iter_laws(),
            it.decrease() is Some,
        decreases it.decrease()->0,
    {
        match it.next() {
            Some(c) => {
                r.push(c);
            },
            None => {
                assert(r@ + it.remaining() == r@);
                return r;
            },
        }
    }
}

/// The same test as `char::is_whitespace`.
pub fn is_whitespace(c: char) -> (r: bool)
    ensures
        r == is_ws(c),
{
    let v = c as u32;
    (0x09 <= v && v <= 0x0D) || v == 0x20 || v == 0x85 || v == 0xA0 || v == 0x1680 || (0x2000
        <= v && v <= 0x200A) || v == 0x2028 || v == 0x2029 || v == 0x202F || v == 0x205F || v
        == 0x3000
}

/// The number of bytes that `c` takes in UTF-8.
pub fn char_utf8_len(c: char) -> (r: usize)
    ensures
        r == encode_scalar(c as u32).len(),
        1 <= r <= 4,
{
    let v = c as u32;
    if v <= 0x7F {
        1
    } else if v <= 0x7FF {
        2
    } else if v <= 0xFFFF {
        proof {
            vstd::utf8::char_is_scalar(c);
        }
        3
    } else {
        4
    }
}

pub fn find_char(s: &Vec<char>, c: char, i: usize) -> (r: Option<usize>)
    ensures
        match r {
            Some(k) => find_from(s@, c, i as int) == Some(k as int),
            None => find_from(s@, c, i as int) is None,
        },
{
    let mut j: usize = i;
    while j < s.len()
        invariant
            i <= j,
            find_from(s@, c, i as int) == find_from(s@, c, j as int),
        decreases s.len() - j,
    {
        if s[j] == c {
            return Some(j);
        }
        j = j + 1;
    }
    None
}

pub fn skip_whitespace(s: &Vec<char>, i: usize) -> (r: usize)
    requires
        i <= s.len(),
    ensures
        r == skip_ws(s@, i as int),
{
    let mut j: usize = i;
    while j < s.len() && is_whitespace(s[j])
        invariant
            i <= j <= s.len(),
            skip_ws(s@, i as int) == skip_ws(s@, j as int),
        decreases s.len() - j,
    {
        j = j + 1;
    }
    j
}

/// `byte_pos` of every character index of `s`, and of its end.
pub fn byte_positions(s: &str, cs: &Vec<char>) -> (r: Vec<usize>)
    requires
        cs@ == s@,
    ensures
        r@.len() == cs@.len() + 1,
        forall|i: int| 0 <= i <= cs@.len() ==> r@[i] == byte_pos(cs@, i),
{
    let bytes = s.as_bytes();
    let total = bytes.len();
    let mut r: Vec<usize> = Vec::new();
    let mut pos: usize = 0;
    let mut i: usize = 0;
    assert(cs@.subrange(0, 0) =~= Seq::<char>::empty());
    r.push(0);
    while i < cs.len()
        invariant
            i <= cs@.len(),
            cs@ == s@,
            total == utf8_len(cs@),
            r@.len() == i + 1,
            pos == byte_pos(cs@, i as int),
            forall|j: int| 0 <= j <= i ==> r@[j] == byte_pos(cs@, j),
        decreases cs.len() - i,
    {
        let n = char_utf8_len(cs[i]);
        proof {
            lemma_encode_concat(cs@.subrange(0, i as int), seq![cs@[i as int]]);
            assert(cs@.subrange(0, i + 1) =~= cs@.subrange(0, i as int) + seq![cs@[i as int]]);
            let one = seq![cs@[i as int]];
            assert(one.drop_first() =~= Seq::<char>::empty());
            assert(encode_utf8(Seq::<char>::empty()) =~= Seq::<u8>::empty());
            assert(one[0] == cs@[i as int]);
            assert(encode_utf8(one) =~= encode_scalar(cs@[i as int] as u32));
            lemma_byte_range(cs@, 0, i + 1);
        }
        pos = pos + n;
        i = i + 1;
        r.push(pos);
    }
    r
}

} // verus!
