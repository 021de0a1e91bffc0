use vstd::prelude::*;
use vstd::utf8::encode_utf8;

use crate::expect::{cut_line, join_cut, lead_bytes, min_indent, trim_body, trim_text};
use crate::runtime::{encode_literal, literal_body, rendered_lines};
use crate::str_lit_kind::{
    denotes, hash_run, lemma_max_piece_run, lemma_max_piece_run_bound, lit_kind_of, repeat_char,
    StrLitKind,
};
use crate::text::{
    byte_pos, lemma_byte_index_at, lemma_encode_concat, utf8_len,
    find_from, find_from_facts, is_blank, is_ws, lines_from, lines_of, skip_ws,
    skip_ws_facts, strip_cr,
};

verus! {

/// The pieces joined by line breaks, from the left.
pub open spec fn join_lines(ls: Seq<Seq<char>>) -> Seq<char>
    decreases ls.len(),
{
    if ls.len() == 0 {
        Seq::<char>::empty()
    } else if ls.len() == 1 {
        ls[0]
    } else {
        ls[0] + seq!['\n'] + join_lines(ls.drop_first())
    }
}

/// A line as a multi-line literal holds it: indented unless blank.
pub open spec fn indented(indent: nat, l: Seq<char>) -> Seq<char> {
    if is_blank(l) {
        l
    } else {
        repeat_char(' ', indent + 4) + l
    }
}

/// A payload on several lines that the literal written for it gives back
/// when read as an expected literal: no carriage return, every blank line
/// empty, and some line that starts with a character that is not whitespace.
pub open spec fn reads_back(x: Seq<char>) -> bool {
    &&& x.contains('\n')
    &&& !x.contains('\r')
    &&& forall|i: int|
        0 <= i < lines_of(x).len() && is_blank(#[trigger] lines_of(x)[i]) ==> lines_of(x)[i].len()
            == 0
    &&& exists|i: int|
        0 <= i < lines_of(x).len() && (#[trigger] lines_of(x)[i]).len() > 0 && !is_ws(
            lines_of(x)[i][0],
        )
}

proof fn lemma_join_push(a: Seq<Seq<char>>, b: Seq<char>)
    requires
        a.len() >= 1,
    ensures
        join_lines(a.push(b)) == join_lines(a) + seq!['\n'] + b,
    decreases a.len(),
{
    if a.len() == 1 {
        assert(a.push(b).drop_first() =~= seq![b]);
        assert(join_lines(seq![b]) == b);
    } else {
        assert(a.push(b).drop_first() =~= a.drop_first().push(b));
        lemma_join_push(a.drop_first(), b);
        assert(join_lines(a.push(b)) =~= join_lines(a) + seq!['\n'] + b);
    }
}

/// The first `c` at or after `i` is at `k`.
proof fn lemma_find_at(s: Seq<char>, c: char, i: int, k: int)
    requires
        0 <= i <= k < s.len(),
        s[k] == c,
        forall|j: int| i <= j < k ==> s[j] != c,
    ensures
        find_from(s, c, i) == Some(k),
    decreases k - i,
{
    if i < k {
        lemma_find_at(s, c, i + 1, k);
    }
}

proof fn lemma_find_none(s: Seq<char>, c: char, i: int)
    requires
        0 <= i,
        forall|j: int| i <= j < s.len() ==> s[j] != c,
    ensures
        find_from(s, c, i) is None,
    decreases s.len() - i,
{
    if i < s.len() {
        lemma_find_none(s, c, i + 1);
    }
}

/// Splitting joined pieces into lines gives the pieces back.
proof fn lemma_lines_of_join(s: Seq<char>, i: int, t: Seq<Seq<char>>)
    requires
        0 <= i <= s.len(),
        t.len() >= 1,
        s.subrange(i, s.len() as int) == join_lines(t),
        forall|j: int| 0 <= j < t.len() ==> !(#[trigger] t[j]).contains('\n'),
        forall|j: int| 0 <= j < t.len() ==> strip_cr(#[trigger] t[j]) == t[j],
        t.last().len() > 0,
    ensures
        lines_from(s, i) == t,
    decreases t.len(),
{
    let t0 = t[0];
    if t.len() == 1 {
        assert(join_lines(t) == t0);
        assert forall|j: int| i <= j < s.len() implies s[j] != '\n' by {
            assert(s.subrange(i, s.len() as int)[j - i] == s[j]);
            assert(t0[j - i] == s[j]);
        }
        lemma_find_none(s, '\n', i);
        assert(lines_from(s, i) =~= t);
    } else {
        let rest = t.drop_first();
        assert(join_lines(t) == t0 + seq!['\n'] + join_lines(rest));
        let k = i + t0.len();
        assert forall|j: int| i <= j < k implies s[j] != '\n' by {
            assert(s.subrange(i, s.len() as int)[j - i] == s[j]);
            assert((t0 + seq!['\n'] + join_lines(rest))[j - i] == t0[j - i]);
        }
        assert(s[k] == '\n') by {
            assert(s.subrange(i, s.len() as int)[k - i] == s[k]);
            assert((t0 + seq!['\n'] + join_lines(rest))[k - i] == '\n');
        }
        lemma_find_at(s, '\n', i, k);
        assert(s.subrange(i, k) =~= t0) by {
            assert forall|j: int| 0 <= j < t0.len() implies s.subrange(i, k)[j] == t0[j] by {
                assert(s.subrange(i, s.len() as int)[j] == s[i + j]);
                assert((t0 + seq!['\n'] + join_lines(rest))[j] == t0[j]);
            }
        }
        assert(s.subrange(k + 1, s.len() as int) =~= join_lines(rest)) by {
            assert forall|j: int| 0 <= j < join_lines(rest).len() implies s.subrange(
                k + 1,
                s.len() as int,
            )[j] == join_lines(rest)[j] by {
                assert(s.subrange(i, s.len() as int)[k + 1 + j - i] == s[k + 1 + j]);
                assert((t0 + seq!['\n'] + join_lines(rest))[t0.len() + 1 + j] == join_lines(
                    rest,
                )[j]);
            }
        }
        assert forall|j: int| 0 <= j < rest.len() implies !(#[trigger] rest[j]).contains('\n') by {
            assert(rest[j] == t[j + 1]);
        }
        assert forall|j: int| 0 <= j < rest.len() implies strip_cr(#[trigger] rest[j]) == rest[j] by {
            assert(rest[j] == t[j + 1]);
        }
        lemma_lines_of_join(s, k + 1, rest);
        assert(strip_cr(t[0]) == t0);
        assert(lines_from(s, i) =~= t);
    }
}

/// A text without carriage returns is its lines joined, with its final line
/// break if it has one; its lines hold no line break and the last is not
/// empty unless the text ends with a line break.
proof fn lemma_join_of_lines(x: Seq<char>, i: int)
    requires
        0 <= i < x.len(),
        !x.contains('\r'),
    ensures
        lines_from(x, i).len() >= 1,
        x.subrange(i, x.len() as int) == join_lines(lines_from(x, i)) + (if x.last() == '\n' {
            seq!['\n']
        } else {
            Seq::<char>::empty()
        }),
        forall|j: int|
            0 <= j < lines_from(x, i).len() ==> !(#[trigger] lines_from(x, i)[j]).contains('\n')
                && !lines_from(x, i)[j].contains('\r'),
        x.last() != '\n' ==> lines_from(x, i).last().len() > 0,
    decreases x.len() - i,
{
    find_from_facts(x, '\n', i);
    let n = x.len() as int;
    match find_from(x, '\n', i) {
        None => {
            let l = x.subrange(i, n);
            assert(lines_from(x, i) =~= seq![l]);
            assert(x.last() != '\n') by {
                assert(x[n - 1] != '\n');
            }
            assert(!l.contains('\n')) by {
                assert forall|j: int| 0 <= j < l.len() implies l[j] != '\n' by {
                    assert(l[j] == x[i + j]);
                }
            }
            assert(!l.contains('\r')) by {
                assert forall|j: int| 0 <= j < l.len() implies l[j] != '\r' by {
                    assert(l[j] == x[i + j]);
                    assert(!x.contains('\r'));
                }
            }
            assert(x.subrange(i, n) =~= join_lines(seq![l]) + Seq::<char>::empty());
        },
        Some(k) => {
            let l = x.subrange(i, k);
            assert(!l.contains('\r')) by {
                assert forall|j: int| 0 <= j < l.len() implies l[j] != '\r' by {
                    assert(l[j] == x[i + j]);
                }
            }
            assert(!l.contains('\n')) by {
                assert forall|j: int| 0 <= j < l.len() implies l[j] != '\n' by {
                    assert(l[j] == x[i + j]);
                }
            }
            assert(strip_cr(l) == l) by {
                if l.len() > 0 {
                    assert(l.last() != '\r');
                }
            }
            if k + 1 == n {
                assert(lines_from(x, k + 1) =~= Seq::<Seq<char>>::empty());
                assert(lines_from(x, i) =~= seq![l]);
                assert(x.subrange(i, n) =~= l + seq!['\n']);
            } else {
                lemma_join_of_lines(x, k + 1);
                let rest = lines_from(x, k + 1);
                assert(lines_from(x, i) =~= seq![l] + rest);
                let all = seq![l] + rest;
                assert(all.drop_first() =~= rest);
                assert(join_lines(all) == l + seq!['\n'] + join_lines(rest));
                assert(x.subrange(i, n) =~= l + seq!['\n'] + x.subrange(k + 1, n));
                assert forall|j: int|
                    0 <= j < all.len() implies !(#[trigger] all[j]).contains('\n')
                        && !all[j].contains('\r') by {
                    if j > 0 {
                        assert(all[j] == rest[j - 1]);
                    }
                }
                assert(all.last() == rest.last());
            }
        },
    }
}

/// The lines of a multi-line literal, after its first line break.
proof fn lemma_rendered_lines(indent: nat, ls: Seq<Seq<char>>)
    requires
        ls.len() >= 1,
    ensures
        rendered_lines(indent, ls) == seq!['\n'] + join_lines(
            Seq::new(ls.len(), |i: int| indented(indent, ls[i])),
        ),
    decreases ls.len(),
{
    let t = Seq::new(ls.len(), |i: int| indented(indent, ls[i]));
    if ls.len() == 1 {
        assert(ls.drop_last() =~= Seq::<Seq<char>>::empty());
        assert(rendered_lines(indent, ls.drop_last()) =~= Seq::<char>::empty());
        assert(join_lines(t) == t[0]);
        assert(rendered_lines(indent, ls) =~= seq!['\n'] + join_lines(t));
    } else {
        lemma_rendered_lines(indent, ls.drop_last());
        let t0 = Seq::new(ls.drop_last().len(), |i: int| indented(indent, ls.drop_last()[i]));
        assert(t =~= t0.push(indented(indent, ls.last())));
        lemma_join_push(t0, indented(indent, ls.last()));
        assert(rendered_lines(indent, ls) =~= seq!['\n'] + join_lines(t));
    }
}

/// Cutting every piece and joining is joining the cut pieces.
proof fn lemma_join_cut(t: Seq<Seq<char>>, amt: int)
    requires
        t.len() >= 1,
    ensures
        join_cut(t, amt) == join_lines(Seq::new(t.len(), |i: int| cut_line(t[i], amt))),
    decreases t.len(),
{
    let m = Seq::new(t.len(), |i: int| cut_line(t[i], amt));
    if t.len() == 1 {
        assert(join_lines(m) == m[0]);
    } else {
        lemma_join_cut(t.drop_last(), amt);
        let m0 = Seq::new(t.drop_last().len(), |i: int| cut_line(t.drop_last()[i], amt));
        assert(m =~= m0.push(cut_line(t.last(), amt)));
        lemma_join_push(m0, cut_line(t.last(), amt));
    }
}

/// The smallest indentation among the non-blank pieces is `a` when none is
/// less and one is `a`.
proof fn lemma_min_indent(t: Seq<Seq<char>>, a: int)
    requires
        forall|i: int| 0 <= i < t.len() && !is_blank(#[trigger] t[i]) ==> lead_bytes(t[i]) >= a,
        exists|i: int| 0 <= i < t.len() && !is_blank(#[trigger] t[i]) && lead_bytes(t[i]) == a,
    ensures
        min_indent(t) == Some(a),
    decreases t.len(),
{
    let l = t.last();
    let k = t.len() - 1;
    if exists|i: int| 0 <= i < k && !is_blank(#[trigger] t.drop_last()[i]) && lead_bytes(t.drop_last()[i]) == a {
        assert forall|i: int| 0 <= i < t.drop_last().len() && !is_blank(#[trigger] t.drop_last()[i]) implies lead_bytes(t.drop_last()[i]) >= a by {
            assert(t.drop_last()[i] == t[i]);
        }
        lemma_min_indent(t.drop_last(), a);
        if !is_blank(l) {
            assert(lead_bytes(t[k]) >= a);
        }
    } else {
        let w = choose|i: int| 0 <= i < t.len() && !is_blank(#[trigger] t[i]) && lead_bytes(t[i]) == a;
        if w < k {
            assert(t.drop_last()[w] == t[w]);
        }
        assert(w == k);
        lemma_min_indent_at_least(t.drop_last(), a);
    }
}

proof fn lemma_min_indent_at_least(t: Seq<Seq<char>>, a: int)
    requires
        forall|i: int| 0 <= i < t.len() && !is_blank(#[trigger] t[i]) ==> lead_bytes(t[i]) >= a,
    ensures
        match min_indent(t) {
            Some(v) => v >= a,
            None => true,
        },
    decreases t.len(),
{
    if t.len() > 0 {
        assert forall|i: int| 0 <= i < t.drop_last().len() && !is_blank(#[trigger] t.drop_last()[i]) implies lead_bytes(t.drop_last()[i]) >= a by {
            assert(t.drop_last()[i] == t[i]);
        }
        lemma_min_indent_at_least(t.drop_last(), a);
        if !is_blank(t.last()) {
            assert(lead_bytes(t[t.len() - 1]) >= a);
        }
    }
}

/// Indentation counts the spaces put before a line.
proof fn lemma_skip_spaces(n: nat, l: Seq<char>, j: int)
    requires
        0 <= j <= n,
    ensures
        skip_ws(repeat_char(' ', n) + l, j) == n + skip_ws(l, 0),
    decreases n - j,
{
    let s = repeat_char(' ', n) + l;
    if j < n {
        assert(s[j] == ' ');
        lemma_skip_spaces(n, l, j + 1);
    } else {
        lemma_skip_shift(repeat_char(' ', n), l, 0);
    }
}

proof fn lemma_skip_shift(p: Seq<char>, l: Seq<char>, j: int)
    requires
        0 <= j <= l.len(),
    ensures
        skip_ws(p + l, p.len() + j) == p.len() + skip_ws(l, j),
    decreases l.len() - j,
{
    if j < l.len() {
        assert((p + l)[p.len() + j] == l[j]);
        lemma_skip_shift(p, l, j + 1);
    }
}

/// Spaces take one byte each.
proof fn lemma_spaces_utf8(m: nat)
    ensures
        utf8_len(repeat_char(' ', m)) == m,
    decreases m,
{
    let sp = repeat_char(' ', m);
    if m > 0 {
        assert(sp.drop_first() =~= repeat_char(' ', (m - 1) as nat));
        lemma_spaces_utf8((m - 1) as nat);
        assert(sp[0] == ' ');
    } else {
        assert(encode_utf8(sp) =~= Seq::<u8>::empty());
    }
}

/// Byte positions after spaces put before a line.
proof fn lemma_byte_pos_after_spaces(m: nat, l: Seq<char>, k: int)
    requires
        0 <= k <= l.len(),
    ensures
        byte_pos(repeat_char(' ', m) + l, m + k) == m + byte_pos(l, k),
{
    let sp = repeat_char(' ', m);
    assert((sp + l).subrange(0, m + k) =~= sp + l.subrange(0, k));
    lemma_encode_concat(sp, l.subrange(0, k));
    lemma_spaces_utf8(m);
}

/// An indented line: its indentation is that of the line plus the spaces, and
/// cutting the spaces off gives the line back.
proof fn lemma_indented_line(m: nat, l: Seq<char>)
    ensures
        lead_bytes(repeat_char(' ', m) + l) == m + lead_bytes(l),
        cut_line(repeat_char(' ', m) + l, m as int) == l,
{
    let sp = repeat_char(' ', m);
    let s = sp + l;
    lemma_skip_spaces(m, l, 0);
    skip_ws_facts(l, 0);
    lemma_byte_pos_after_spaces(m, l, skip_ws(l, 0));
    lemma_byte_pos_after_spaces(m, l, l.len() as int);
    assert(l.subrange(0, l.len() as int) =~= l);
    assert(s.subrange(0, s.len() as int) =~= s);
    lemma_byte_pos_after_spaces(m, l, 0);
    assert(l.subrange(0, 0) =~= Seq::<char>::empty());
    assert(encode_utf8(Seq::<char>::empty()) =~= Seq::<u8>::empty());
    lemma_byte_index_at(s, m as int);
    assert(s.subrange(m as int, s.len() as int) =~= l);
}

/// A multi-line payload, rendered as a literal and read back as the
/// assertions read an expected literal, is the payload again, where every
/// blank line of it is empty, some line starts without whitespace, and it
/// holds no carriage return.
pub proof fn lemma_multi_line_round_trip(indent: nat, x: Seq<char>)
    requires
        reads_back(x),
    ensures
        trim_text(literal_body(indent, x)) == x,
{
    let ls = lines_of(x);
    let sp = repeat_char(' ', indent + 4);
    let nl = seq!['\n'];
    let ends = x.last() == '\n';
    let k0 = choose|i: int| 0 <= i < x.len() && x[i] == '\n';
    lemma_join_of_lines(x, 0);
    assert(x.subrange(0, x.len() as int) =~= x);
    let lp = Seq::new(ls.len(), |i: int| indented(indent, ls[i]));
    lemma_rendered_lines(indent, ls);
    let t = if ends {
        lp.push(sp)
    } else {
        lp
    };
    let tail = if ends {
        nl + sp
    } else {
        Seq::<char>::empty()
    };
    let body = literal_body(indent, x);
    assert(body == rendered_lines(indent, ls) + tail);
    if ends {
        lemma_join_push(lp, sp);
    }
    let tt = join_lines(t);
    assert(body =~= nl + tt);
    assert(body[0] == '\n');
    assert(body.drop_first() =~= tt);
    // the lines of what follows the first line break
    assert forall|j: int| 0 <= j < t.len() implies !(#[trigger] t[j]).contains('\n') && strip_cr(
        t[j],
    ) == t[j] by {
        if j < ls.len() {
            assert(t[j] == indented(indent, ls[j]));
            let l = ls[j];
            assert(!l.contains('\n') && !l.contains('\r'));
            if !is_blank(l) {
                let s = sp + l;
                assert forall|q: int| 0 <= q < s.len() implies s[q] != '\n' by {
                    if q >= sp.len() {
                        assert(s[q] == l[q - sp.len()]);
                    }
                }
                assert(s.last() != '\r') by {
                    assert(s.last() == l.last() || l.len() == 0);
                    if l.len() > 0 {
                        assert(l.last() == l[l.len() - 1]);
                    }
                }
            } else {
                assert(l.len() == 0);
            }
        } else {
            assert(t[j] == sp);
            assert(sp.last() == ' ');
        }
    }
    assert(t.last().len() > 0) by {
        if !ends {
            let l = ls.last();
            assert(l.len() > 0);
            assert(t.last() == indented(indent, l));
        }
    }
    assert(tt.subrange(0, tt.len() as int) =~= tt);
    lemma_lines_of_join(tt, 0, t);
    assert(lines_of(tt) == t);
    // the indentation they share
    let a = indent + 4;
    assert forall|i: int| 0 <= i < t.len() && !is_blank(#[trigger] t[i]) implies lead_bytes(t[i]) >= a by {
        if i < ls.len() {
            let l = ls[i];
            assert(t[i] == indented(indent, l));
            if !is_blank(l) {
                lemma_indented_line(indent + 4, l);
                skip_ws_facts(l, 0);
            }
        } else {
            assert(t[i] == sp);
            assert(is_blank(sp)) by {
                assert forall|q: int| 0 <= q < sp.len() implies is_ws(#[trigger] sp[q]) by {
                    assert(sp[q] == ' ');
                }
            }
        }
    }
    let w = choose|i: int| 0 <= i < ls.len() && (#[trigger] ls[i]).len() > 0 && !is_ws(ls[i][0]);
    assert(!is_blank(ls[w]));
    lemma_indented_line(indent + 4, ls[w]);
    assert(skip_ws(ls[w], 0) == 0);
    assert(ls[w].subrange(0, 0) =~= Seq::<char>::empty());
    assert(encode_utf8(Seq::<char>::empty()) =~= Seq::<u8>::empty());
    assert(lead_bytes(ls[w]) == 0);
    assert(t[w] == sp + ls[w]);
    assert(!is_blank(t[w])) by {
        assert(t[w][a as int] == ls[w][0]);
    }
    lemma_min_indent(t, a as int);
    // cutting it off
    lemma_join_cut(t, a as int);
    let cut = Seq::new(t.len(), |i: int| cut_line(t[i], a as int));
    assert forall|i: int| 0 <= i < ls.len() implies cut[i] == ls[i] by {
        let l = ls[i];
        if is_blank(l) {
            assert(l.len() == 0);
            assert(encode_utf8(l) =~= Seq::<u8>::empty());
            assert(cut_line(l, a as int) =~= l);
        } else {
            lemma_indented_line(indent + 4, l);
        }
    }
    if ends {
        lemma_indented_line(indent + 4, Seq::<char>::empty());
        assert(sp + Seq::<char>::empty() =~= sp);
        assert(cut[ls.len() as int] =~= Seq::<char>::empty());
        assert(cut =~= ls.push(Seq::<char>::empty()));
        lemma_join_push(ls, Seq::<char>::empty());
        assert(tt.last() == ' ') by {
            assert(tt == join_lines(lp) + nl + sp);
        }
    } else {
        assert(cut =~= ls);
        assert(tt.last() != '\n') by {
            let l = t.last();
            assert(l.len() > 0);
            assert(!l.contains('\n'));
            lemma_join_last(t);
            assert(l[l.len() - 1] != '\n');
        }
    }
    assert(trim_text(body) =~= x);
}

proof fn lemma_join_last(t: Seq<Seq<char>>)
    requires
        t.len() >= 1,
        t.last().len() > 0,
    ensures
        join_lines(t).len() > 0,
        join_lines(t).last() == t.last().last(),
    decreases t.len(),
{
    if t.len() > 1 {
        assert(t.drop_first().last() == t.last());
        lemma_join_last(t.drop_first());
    }
}

} // verus!

verus! {

/// No `"` in `s` is followed by `n` or more `#`: raw quotes with `n` `#`
/// round `s` close only at the end.
pub open spec fn no_close(s: Seq<char>, n: nat) -> bool {
    forall|j: int| 0 <= j < s.len() && s[j] == '"' ==> hash_run(s, j + 1) < n
}

proof fn lemma_hash_run_shift(a: Seq<char>, b: Seq<char>, j: int)
    requires
        0 <= j <= b.len(),
    ensures
        hash_run(a + b, a.len() + j) == hash_run(b, j),
    decreases b.len() - j,
{
    if j < b.len() {
        assert((a + b)[a.len() + j] == b[j]);
        lemma_hash_run_shift(a, b, j + 1);
    }
}

proof fn lemma_hash_run_prefix(a: Seq<char>, b: Seq<char>, j: int)
    requires
        0 <= j <= a.len(),
        b.len() == 0 || b[0] != '#',
    ensures
        hash_run(a + b, j) == hash_run(a, j),
    decreases a.len() - j,
{
    if j < a.len() {
        assert((a + b)[j] == a[j]);
        lemma_hash_run_prefix(a, b, j + 1);
    } else if b.len() > 0 {
        assert((a + b)[j] == b[0]);
    }
}

proof fn lemma_no_close_concat(a: Seq<char>, b: Seq<char>, n: nat)
    requires
        no_close(a, n),
        no_close(b, n),
        b.len() == 0 || b[0] != '#' || !a.contains('"'),
    ensures
        no_close(a + b, n),
{
    let s = a + b;
    assert forall|j: int| 0 <= j < s.len() && s[j] == '"' implies hash_run(s, j + 1) < n by {
        if j < a.len() {
            assert(a[j] == '"');
            lemma_hash_run_prefix(a, b, j + 1);
        } else {
            assert(b[j - a.len()] == '"');
            lemma_hash_run_shift(a, b, j - a.len() + 1);
        }
    }
}

proof fn lemma_hash_run_sub(x: Seq<char>, i: int, k: int, q: int)
    requires
        0 <= i <= k <= x.len(),
        0 <= q <= k - i,
    ensures
        hash_run(x.subrange(i, k), q) <= hash_run(x, i + q),
    decreases k - i - q,
{
    let l = x.subrange(i, k);
    if q < l.len() && l[q] == '#' {
        lemma_hash_run_sub(x, i, k, q + 1);
    }
}

proof fn lemma_no_close_sub(x: Seq<char>, i: int, k: int, n: nat)
    requires
        0 <= i <= k <= x.len(),
        no_close(x, n),
    ensures
        no_close(x.subrange(i, k), n),
{
    let l = x.subrange(i, k);
    assert forall|q: int| 0 <= q < l.len() && l[q] == '"' implies hash_run(l, q + 1) < n by {
        assert(x[i + q] == '"');
        lemma_hash_run_sub(x, i, k, q + 1);
    }
}

/// Every line of `x[i..]` is a piece of `x`.
proof fn lemma_lines_are_pieces(x: Seq<char>, i: int, n: nat)
    requires
        0 <= i,
        no_close(x, n),
    ensures
        forall|j: int| 0 <= j < lines_from(x, i).len() ==> no_close(#[trigger] lines_from(x, i)[j], n),
    decreases x.len() - i,
{
    if i < x.len() {
        find_from_facts(x, '\n', i);
        match find_from(x, '\n', i) {
            Some(k) => {
                lemma_lines_are_pieces(x, k + 1, n);
                let l = x.subrange(i, k);
                lemma_no_close_sub(x, i, k, n);
                if l.len() > 0 && l.last() == '\r' {
                    assert(l.drop_last() =~= x.subrange(i, k - 1));
                    lemma_no_close_sub(x, i, k - 1, n);
                }
                let all = seq![strip_cr(l)] + lines_from(x, k + 1);
                assert(lines_from(x, i) == all);
                assert forall|j: int| 0 <= j < all.len() implies no_close(#[trigger] all[j], n) by {
                    if j > 0 {
                        assert(all[j] == lines_from(x, k + 1)[j - 1]);
                    }
                }
            },
            None => {
                lemma_no_close_sub(x, i, x.len() as int, n);
            },
        }
    }
}

proof fn lemma_no_close_join(t: Seq<Seq<char>>, n: nat)
    requires
        forall|j: int| 0 <= j < t.len() ==> no_close(#[trigger] t[j], n),
    ensures
        no_close(join_lines(t), n),
    decreases t.len(),
{
    if t.len() == 1 {
        assert(no_close(t[0], n));
    } else if t.len() > 1 {
        let rest = t.drop_first();
        assert forall|j: int| 0 <= j < rest.len() implies no_close(#[trigger] rest[j], n) by {
            assert(rest[j] == t[j + 1]);
        }
        lemma_no_close_join(rest, n);
        let nl = seq!['\n'];
        assert(no_close(nl, n));
        assert(!nl.contains('"'));
        lemma_no_close_concat(nl, join_lines(rest), n);
        assert(no_close(t[0], n));
        lemma_no_close_concat(t[0], nl + join_lines(rest), n);
        assert(join_lines(t) =~= t[0] + (nl + join_lines(rest)));
    }
}

proof fn lemma_spaces_no_quote(m: nat)
    ensures
        !repeat_char(' ', m).contains('"'),
{
}

/// The literal for a multi-line payload closes only at its end: read as a
/// Rust string literal it denotes its whole body.
pub proof fn lemma_multi_line_literal_parses(indent: nat, x: Seq<char>)
    requires
        x.contains('\n'),
        x.len() <= usize::MAX,
    ensures
        denotes(encode_literal(indent, x), literal_body(indent, x)),
{
    let k = lit_kind_of(x);
    let n: nat = match k {
        StrLitKind::Raw(m) => m as nat,
        StrLitKind::Normal => 0,
    };
    assert(k is Raw);
    // the payload has no closing delimiter
    assert(no_close(x, n)) by {
        if x.contains('"') {
            lemma_max_piece_run_bound(x, x.len() as int);
            assert forall|j: int| 0 <= j < x.len() && x[j] == '"' implies hash_run(x, j + 1) < n by {
                lemma_max_piece_run(x, j, x.len() as int);
            }
        } else {
            assert forall|j: int| 0 <= j < x.len() && x[j] == '"' implies hash_run(x, j + 1) < n by {
                assert(x.contains('"'));
            }
        }
    }
    // nor have its lines, indented
    let ls = lines_of(x);
    lemma_lines_are_pieces(x, 0, n);
    let sp = repeat_char(' ', indent + 4);
    lemma_spaces_no_quote(indent + 4);
    assert(no_close(sp, n));
    let lp = Seq::new(ls.len(), |i: int| indented(indent, ls[i]));
    assert forall|j: int| 0 <= j < lp.len() implies no_close(#[trigger] lp[j], n) by {
        assert(no_close(ls[j], n));
        if !is_blank(ls[j]) {
            lemma_no_close_concat(sp, ls[j], n);
        }
    }
    assert(ls.len() >= 1) by {
        assert(x.len() > 0);
    }
    lemma_rendered_lines(indent, ls);
    lemma_no_close_join(lp, n);
    let nl = seq!['\n'];
    let tail = if x.last() == '\n' {
        nl + sp
    } else {
        Seq::<char>::empty()
    };
    assert(no_close(tail, n)) by {
        if x.last() == '\n' {
            assert(!nl.contains('"'));
            lemma_no_close_concat(nl, sp, n);
        }
    }
    assert(!tail.contains('"')) by {
        if x.last() == '\n' {
            assert forall|j: int| 0 <= j < tail.len() implies tail[j] != '"' by {
                if j > 0 {
                    assert(tail[j] == sp[j - 1]);
                }
            }
        }
    }
    let body = literal_body(indent, x);
    assert(!nl.contains('"'));
    lemma_no_close_concat(nl, join_lines(lp), n);
    lemma_no_close_concat(nl + join_lines(lp), tail, n);
    assert(body =~= nl + join_lines(lp) + tail);
    // the tail is no run of `#` that a quote could reach
    assert(no_close(body, n));
    assert(encode_literal(indent, x) =~= seq!['r'] + repeat_char('#', n) + seq!['"'] + body
        + seq!['"'] + repeat_char('#', n));
}

} // verus!

verus! {

/// A payload on one line, rendered by `format_patch` and read back as a
/// string literal, is the payload again: the chosen delimiters never occur
/// inside it.
pub proof fn lemma_literal_round_trip(indent: nat, x: Seq<char>)
    requires
        !x.contains('\n'),
        x.len() <= usize::MAX,
    ensures
        denotes(encode_literal(indent, x), x),
{
    let lit = encode_literal(indent, x);
    match lit_kind_of(x) {
        StrLitKind::Normal => {
            assert(lit =~= seq!['"'] + x + seq!['"']);
        },
        StrLitKind::Raw(n) => {
            if x.contains('"') {
                let j0 = choose|j: int| 0 <= j < x.len() && x[j] == '"';
                lemma_max_piece_run_bound(x, x.len() as int);
                assert forall|j: int| 0 <= j < x.len() && x[j] == '"' implies hash_run(x, j + 1)
                    < n as nat by {
                    lemma_max_piece_run(x, j, x.len() as int);
                }
            } else {
                assert forall|j: int| 0 <= j < x.len() && x[j] == '"' implies hash_run(x, j + 1)
                    < n as nat by {
                    assert(x.contains('"'));
                }
            }
            assert(lit =~= seq!['r'] + repeat_char('#', n as nat) + seq!['"'] + x + seq!['"']
                + repeat_char('#', n as nat));
        },
    }
}

/// A payload, rendered by `format_patch` and read back as an assertion reads
/// its expected literal (parsed as a Rust string literal, then trimmed), is
/// the payload again; on several lines, where `reads_back` holds.
pub proof fn lemma_literal_reads_back(indent: nat, x: Seq<char>)
    requires
        x.len() <= usize::MAX,
        !x.contains('\n') || reads_back(x),
    ensures
        exists|body: Seq<char>| denotes(encode_literal(indent, x), body) && trim_text(body) == x,
{
    if x.contains('\n') {
        lemma_multi_line_literal_parses(indent, x);
        lemma_multi_line_round_trip(indent, x);
        let body = literal_body(indent, x);
        assert(denotes(encode_literal(indent, x), body) && trim_text(body) == x);
    } else {
        lemma_literal_round_trip(indent, x);
        assert(denotes(encode_literal(indent, x), x) && trim_text(x) == x);
    }
}

} // verus!
