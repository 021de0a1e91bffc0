use vstd::prelude::*;
use vstd::utf8::{encode_utf8, encode_utf8_valid_utf8, valid_utf8};

use crate::expect::{lemma_locate_order, locate, texts, Expect, ExpectLocation, LocateError, LocatedSpans};
use crate::patchwork::{
    disjoint_edits, edits_on_chars, end_of, key_le, lemma_edits_fit, on_char, records, replay,
    start_of, tier, valid_edit, Edit,
    deleted_sum, fits_bytes, inserted_sum, patch_of, slot, sorted_patches, step_patches,
    step_text, take_while_len, Patch, PatchOrdering, Patchwork,
};
use crate::str_lit_kind::{lit_kind_of, repeat_char, StrLitKind};
use crate::text::{
    lemma_byte_index_at, lemma_byte_range, utf8_len,
    append_chars, byte_pos, chars_of, find_char, find_from, find_from_facts, is_blank,
    is_blank_span, line_spans, lines_of, push_char, same_text, span_texts,
};

verus! {

/// One line of a multi-line literal: a line break, the indentation unless the
/// line is blank, and the line.
pub open spec fn rendered_line(indent: nat, line: Seq<char>) -> Seq<char> {
    seq!['\n'] + (if is_blank(line) {
        Seq::<char>::empty()
    } else {
        repeat_char(' ', indent + 4)
    }) + line
}

pub open spec fn rendered_lines(indent: nat, ls: Seq<Seq<char>>) -> Seq<char>
    decreases ls.len(),
{
    if ls.len() == 0 {
        Seq::<char>::empty()
    } else {
        rendered_lines(indent, ls.drop_last()) + rendered_line(indent, ls.last())
    }
}

/// What stands between the delimiters of the literal for `p`: on several
/// lines, each line on a line of its own, and after a final line break the
/// indentation before the closing delimiter.
pub open spec fn literal_body(indent: nat, p: Seq<char>) -> Seq<char> {
    if p.contains('\n') {
        rendered_lines(indent, lines_of(p)) + (if p.last() == '\n' {
            seq!['\n'] + repeat_char(' ', indent + 4)
        } else {
            Seq::<char>::empty()
        })
    } else {
        p
    }
}

/// The literal that `format_patch` writes for `p` at indentation `indent`.
pub open spec fn encode_literal(indent: nat, p: Seq<char>) -> Seq<char> {
    let k = lit_kind_of(p);
    k.start_spec() + literal_body(indent, p) + k.end_spec()
}

fn append_body_lines(buf: &mut String, cs: &Vec<char>, indent: &String, desired_indent: usize)
    requires
        cs@.contains('\n'),
        indent@ == repeat_char(' ', desired_indent as nat + 4),
    ensures
        final(buf)@ == old(buf)@ + literal_body(desired_indent as nat, cs@),
{
    let spans = line_spans(cs);
    let ghost ls = lines_of(cs@);
    let ghost start = buf@;
    let mut j: usize = 0;
    while j < spans.len()
        invariant
            j <= spans@.len(),
            indent@ == repeat_char(' ', desired_indent as nat + 4),
            forall|t: int|
                0 <= t < spans@.len() ==> (#[trigger] spans@[t]).0 <= spans@[t].1 <= cs@.len(),
            span_texts(cs@, spans@) == ls,
            buf@ == start + rendered_lines(desired_indent as nat, ls.subrange(0, j as int)),
        decreases spans.len() - j,
    {
        let (a, b) = spans[j];
        push_char(buf, '\n');
        if !is_blank_span(cs, a, b) {
            buf.append(indent.as_str());
        }
        append_chars(buf, cs, a, b);
        proof {
            let prev = ls.subrange(0, j as int);
            let next = ls.subrange(0, j + 1);
            assert(next.drop_last() =~= prev);
            assert(next.last() == cs@.subrange(a as int, b as int));
            assert(buf@ =~= start + rendered_lines(desired_indent as nat, next));
        }
        j = j + 1;
    }
    proof {
        assert(ls.subrange(0, spans@.len() as int) =~= ls);
    }
    if cs[cs.len() - 1] == '\n' {
        push_char(buf, '\n');
        buf.append(indent.as_str());
    }
    proof {
        assert(buf@ =~= start + literal_body(desired_indent as nat, cs@));
    }
}

/// Renders `patch` as a string literal whose lines, when there are several,
/// are indented to `desired_indent` plus one level.
pub fn format_patch(desired_indent: usize, patch: &str) -> (r: String)
    ensures
        r@ == encode_literal(desired_indent as nat, patch@),
{
    let lit_kind = StrLitKind::from(patch);
    let cs = chars_of(patch);
    let mut indent = String::new();
    let mut i: usize = 0;
    while i < desired_indent
        invariant
            i <= desired_indent,
            indent@ == repeat_char(' ', i as nat),
        decreases desired_indent - i,
    {
        push_char(&mut indent, ' ');
        proof {
            assert(indent@ =~= repeat_char(' ', (i + 1) as nat));
        }
        i = i + 1;
    }
    indent.append("    ");
    proof {
        reveal_strlit("    ");
        assert(indent@ =~= repeat_char(' ', desired_indent as nat + 4));
    }
    let is_multiline = find_char(&cs, '\n', 0).is_some();
    proof {
        find_from_facts(cs@, '\n', 0);
        if is_multiline {
            let k = find_from(cs@, '\n', 0)->0;
            assert(cs@[k] == '\n');
        }
    }
    let mut buf = String::new();
    lit_kind.write_start(&mut buf);
    if is_multiline {
        append_body_lines(&mut buf, &cs, &indent, desired_indent);
    } else {
        buf.append(patch);
    }
    lit_kind.write_end(&mut buf);
    proof {
        assert(buf@ =~= encode_literal(desired_indent as nat, patch@));
    }
    buf
}

} // verus!

verus! {

/// One edit that an update makes, in original coordinates.
#[derive(Debug)]
pub struct PlannedEdit {
    pub range: std::ops::Range<usize>,
    pub text: String,
    pub ordering: PatchOrdering,
}

pub open spec fn planned_view(es: Seq<PlannedEdit>) -> Seq<(int, int, Seq<char>, PatchOrdering)> {
    Seq::new(
        es.len(),
        |i: int| (es[i].range.start as int, es[i].range.end as int, es[i].text@, es[i].ordering),
    )
}

/// The edits that write literal `lit` for evaluation `index` of an assertion
/// on a line indented by `indent`, whose expected literals stand at `ranges`
/// and whose actual expression starts at `start`, with the last part ending
/// at `end`. An existing literal is replaced. A new one is appended after
/// a comma: on the same line when it is on one line; else on a line of its
/// own, and, when it is the first expected literal of the call, the actual
/// expression moves to a line of its own and the closing bracket to the next.
pub open spec fn plan_spec(
    indent: nat,
    ranges: Seq<(int, int)>,
    start: int,
    end: int,
    index: int,
    lit: Seq<char>,
) -> Seq<(int, int, Seq<char>, PatchOrdering)> {
    if 0 <= index < ranges.len() {
        seq![(ranges[index].0, ranges[index].1, lit, PatchOrdering::Normal)]
    } else if lit.contains('\n') {
        let inner = repeat_char(' ', indent + 4);
        let append = seq![(end, end, seq![',', '\n'] + inner + lit, PatchOrdering::Normal)];
        if index == 0 {
            seq![
                (start, start, seq!['\n'] + inner, PatchOrdering::BeforeOtherPatches),
                (end, end, seq!['\n'] + repeat_char(' ', indent), PatchOrdering::AfterOtherPatches),
            ] + append
        } else {
            append
        }
    } else {
        seq![(end, end, seq![',', ' '] + lit, PatchOrdering::Normal)]
    }
}

/// The byte ranges of a location.
pub open spec fn ranges_view(loc: ExpectLocation) -> Seq<(int, int)> {
    Seq::new(
        loc.expected_ranges@.len(),
        |i: int| (loc.expected_ranges@[i].start as int, loc.expected_ranges@[i].end as int),
    )
}

fn spaces(n: usize) -> (r: String)
    ensures
        r@ == repeat_char(' ', n as nat),
{
    let mut s = String::new();
    let mut i: usize = 0;
    while i < n
        invariant
            i <= n,
            s@ == repeat_char(' ', i as nat),
        decreases n - i,
    {
        push_char(&mut s, ' ');
        proof {
            assert(s@ =~= repeat_char(' ', (i + 1) as nat));
        }
        i = i + 1;
    }
    s
}

fn contains_newline(s: &String) -> (r: bool)
    ensures
        r == s@.contains('\n'),
{
    let cs = chars_of(s.as_str());
    let found = find_char(&cs, '\n', 0);
    proof {
        find_from_facts(cs@, '\n', 0);
        if found is Some {
            assert(cs@[found->Some_0 as int] == '\n');
        }
    }
    found.is_some()
}

/// The edits that write `actual` for evaluation `index` at `loc`.
pub fn plan_update(loc: &ExpectLocation, index: usize, actual: &str) -> (r: Vec<PlannedEdit>)
    ensures
        planned_view(r@) == plan_spec(
            loc.line_indent as nat,
            ranges_view(*loc),
            loc.start_index as int,
            loc.end_index as int,
            index as int,
            encode_literal(loc.line_indent as nat, actual@),
        ),
{
    let lit = format_patch(loc.line_indent, actual);
    let ghost l = lit@;
    let mut r: Vec<PlannedEdit> = Vec::new();
    if index < loc.expected_ranges.len() {
        let range = loc.expected_ranges[index].start..loc.expected_ranges[index].end;
        r.push(PlannedEdit { range, text: lit, ordering: PatchOrdering::Normal });
        proof {
            assert(planned_view(r@) =~= seq![(range.start as int, range.end as int, l, PatchOrdering::Normal)]);
        }
    } else {
        let end = loc.end_index;
        if contains_newline(&lit) {
            let mut inner = spaces(loc.line_indent);
            inner.append("    ");
            proof {
                reveal_strlit("    ");
                assert(inner@ =~= repeat_char(' ', loc.line_indent as nat + 4));
            }
            if index == 0 {
                let mut before = String::new();
                push_char(&mut before, '\n');
                before.append(inner.as_str());
                let mut after = String::new();
                push_char(&mut after, '\n');
                after.append(spaces(loc.line_indent).as_str());
                proof {
                    assert(before@ =~= seq!['\n'] + inner@);
                    assert(after@ =~= seq!['\n'] + repeat_char(' ', loc.line_indent as nat));
                }
                r.push(
                    PlannedEdit {
                        range: loc.start_index..loc.start_index,
                        text: before,
                        ordering: PatchOrdering::BeforeOtherPatches,
                    },
                );
                r.push(
                    PlannedEdit {
                        range: end..end,
                        text: after,
                        ordering: PatchOrdering::AfterOtherPatches,
                    },
                );
            }
            let mut text = String::new();
            push_char(&mut text, ',');
            push_char(&mut text, '\n');
            text.append(inner.as_str());
            text.append(lit.as_str());
            proof {
                assert(text@ =~= seq![',', '\n'] + inner@ + l);
            }
            let ghost prev = r@;
            r.push(PlannedEdit { range: end..end, text, ordering: PatchOrdering::Normal });
            proof {
                assert(planned_view(r@) =~= planned_view(prev) + seq![
                    (end as int, end as int, seq![',', '\n'] + inner@ + l, PatchOrdering::Normal),
                ]);
            }
        } else {
            let mut text = String::new();
            push_char(&mut text, ',');
            push_char(&mut text, ' ');
            text.append(lit.as_str());
            proof {
                assert(text@ =~= seq![',', ' '] + l);
            }
            r.push(PlannedEdit { range: end..end, text, ordering: PatchOrdering::Normal });
            proof {
                assert(planned_view(r@) =~= seq![
                    (end as int, end as int, seq![',', ' '] + l, PatchOrdering::Normal),
                ]);
            }
        }
    }
    proof {
        assert(planned_view(r@) =~= plan_spec(
            loc.line_indent as nat,
            ranges_view(*loc),
            loc.start_index as int,
            loc.end_index as int,
            index as int,
            l,
        ));
    }
    r
}

} // verus!

verus! {

/// The state after the edits `es` are applied in order to `text` with records `ps`.
pub open spec fn apply_plan(
    text: Seq<u8>,
    ps: Seq<Patch>,
    es: Seq<(int, int, Seq<char>, PatchOrdering)>,
) -> (Seq<u8>, Seq<Patch>)
    decreases es.len(),
{
    if es.len() == 0 {
        (text, ps)
    } else {
        let (t, q) = apply_plan(text, ps, es.drop_last());
        let e = es.last();
        (
            step_text(t, q, e.0, e.1, encode_utf8(e.2), e.3),
            step_patches(q, e.0, e.1, encode_utf8(e.2).len() as int, e.3),
        )
    }
}

/// Whether each of the edits `es` can be applied after the ones before it.
pub open spec fn plan_fits(
    text: Seq<u8>,
    ps: Seq<Patch>,
    es: Seq<(int, int, Seq<char>, PatchOrdering)>,
) -> bool
    decreases es.len(),
{
    if es.len() == 0 {
        true
    } else {
        let (t, q) = apply_plan(text, ps, es.drop_last());
        let e = es.last();
        plan_fits(text, ps, es.drop_last()) && fits_bytes(t, q, e.0, e.1, encode_utf8(e.2).len(), e.3)
    }
}

/// The byte ranges of located expected literals.
pub open spec fn byte_ranges(f: Seq<char>, sp: LocatedSpans) -> Seq<(int, int)> {
    Seq::new(
        sp.ranges.len(),
        |i: int| (byte_pos(f, sp.ranges[i].0) as int, byte_pos(f, sp.ranges[i].1) as int),
    )
}

/// Why an update could not be made.
#[derive(Debug, Clone, Copy, PartialEq, Eq, Structural)]
pub enum UpdateError {
    /// The assertion's parts were not found in the original text.
    Locate(LocateError),
    /// An edit overlaps what earlier edits changed.
    Overlap,
}

/// One source file: its text as first read, and the patches applied to it.
pub struct FileRuntime {
    original_text: String,
    patchwork: Patchwork,
}

pub struct FileRuntimeView {
    pub original: Seq<char>,
    pub text: Seq<char>,
    pub patches: Seq<Patch>,
}

impl View for FileRuntime {
    type V = FileRuntimeView;

    closed spec fn view(&self) -> FileRuntimeView {
        FileRuntimeView {
            original: self.original_text@,
            text: self.patchwork@.text,
            patches: self.patchwork@.patches,
        }
    }
}

/// Applies the edits of `plan` to `pw` in order; stops at the first that
/// does not fit.
fn apply_edits(pw: &mut Patchwork, plan: &Vec<PlannedEdit>) -> (r: Result<(), UpdateError>)
    requires
        old(pw).wf(),
    ensures
        final(pw).wf(),
        r is Ok <==> plan_fits(encode_utf8(old(pw)@.text), old(pw)@.patches, planned_view(plan@)),
        r is Err ==> r == Err::<(), UpdateError>(UpdateError::Overlap),
        r is Ok ==> (encode_utf8(final(pw)@.text), final(pw)@.patches) == apply_plan(
            encode_utf8(old(pw)@.text),
            old(pw)@.patches,
            planned_view(plan@),
        ),
{
    let ghost es = planned_view(plan@);
    let ghost text0 = encode_utf8(pw@.text);
    let ghost ps0 = pw@.patches;
    let mut i: usize = 0;
    proof {
        assert(es.subrange(0, 0) =~= Seq::<(int, int, Seq<char>, PatchOrdering)>::empty());
    }
    while i < plan.len()
        invariant
            i <= plan@.len(),
            es == planned_view(plan@),
            text0 == encode_utf8(old(pw)@.text),
            ps0 == old(pw)@.patches,
            pw.wf(),
            plan_fits(text0, ps0, es.subrange(0, i as int)),
            (encode_utf8(pw@.text), pw@.patches) == apply_plan(
                text0,
                ps0,
                es.subrange(0, i as int),
            ),
        decreases plan.len() - i,
    {
        let e = &plan[i];
        proof {
            let next = es.subrange(0, i + 1);
            assert(next.drop_last() =~= es.subrange(0, i as int));
            assert(next.last() == es[i as int]);
        }
        let text = e.text.as_str();
        if !pw.can_patch(&e.range, text, e.ordering) {
            proof {
                let next = es.subrange(0, i + 1);
                assert(es[i as int].2 == e.text@);
                assert(!fits_bytes(
                    encode_utf8(pw@.text),
                    pw@.patches,
                    es[i as int].0,
                    es[i as int].1,
                    encode_utf8(es[i as int].2).len(),
                    es[i as int].3,
                ));
                assert(!plan_fits(text0, ps0, next));
                lemma_plan_fits_prefix(text0, ps0, es, i + 1);

            }
            return Err(UpdateError::Overlap);
        }
        let range = e.range.start..e.range.end;
        pw.patch_range(range, text, e.ordering);
        i = i + 1;
    }
    proof {
        assert(es.subrange(0, es.len() as int) =~= es);
    }
    Ok(())
}

impl FileRuntime {
    /// The records are sorted and their sums fit in a `usize`.
    pub open spec fn wf(&self) -> bool {
        &&& sorted_patches(self@.patches)
        &&& inserted_sum(self@.patches, self@.patches.len() as int) <= usize::MAX
        &&& deleted_sum(self@.patches, self@.patches.len() as int) <= usize::MAX
    }

    pub fn new(original_text: String) -> (r: FileRuntime)
        ensures
            r@.original == original_text@,
            r@.text == original_text@,
            r@.patches.len() == 0,
            r.wf(),
    {
        let patchwork = Patchwork::new(original_text.clone());
        FileRuntime { original_text, patchwork }
    }

    /// The current text, with every update so far.
    pub fn text(&self) -> (r: &str)
        ensures
            r@ == self@.text,
    {
        self.patchwork.text()
    }

    /// Applies the edits of `plan` in order, all or none: where one does not
    /// fit, the session is left as it was.
    fn apply_plan(&mut self, plan: &Vec<PlannedEdit>) -> (r: Result<(), UpdateError>)
        requires
            old(self).wf(),
        ensures
            final(self).wf(),
            final(self)@.original == old(self)@.original,
            r is Ok <==> plan_fits(
                encode_utf8(old(self)@.text),
                old(self)@.patches,
                planned_view(plan@),
            ),
            r is Err ==> r == Err::<(), UpdateError>(UpdateError::Overlap) && final(self)@ == old(
                self,
            )@,
            r is Ok ==> (encode_utf8(final(self)@.text), final(self)@.patches) == apply_plan(
                encode_utf8(old(self)@.text),
                old(self)@.patches,
                planned_view(plan@),
            ),
    {
        let mut pw = self.patchwork.duplicate();
        match apply_edits(&mut pw, plan) {
            Ok(()) => {
                self.patchwork = pw;
                Ok(())
            },
            Err(e) => Err(e),
        }
    }

    /// What `update` promises of the session before (`s0`) and after (`s1`).
    pub open spec fn update_ensures<const N: usize>(
        s0: FileRuntime,
        s1: FileRuntime,
        expect: &Expect<N>,
        actual: &str,
        r: Result<(), UpdateError>,
    ) -> bool {
        &&& s1.wf()
        &&& s1@.original == s0@.original
        &&& ({
            let f = s0@.original;
            let sp = locate(
                f,
                expect.file_position.line as nat,
                expect.file_position.column as nat,
                expect.raw_actual@,
                texts(expect.raw_expected),
            );
            match sp {
                Err(e) => r == Err::<(), UpdateError>(UpdateError::Locate(e)) && s1@
                    == s0@,
                Ok(s) => {
                    let plan = plan_spec(
                        s.indent,
                        byte_ranges(f, s),
                        byte_pos(f, s.start) as int,
                        byte_pos(f, s.end) as int,
                        expect.assertion_index as int,
                        encode_literal(s.indent, actual@),
                    );
                    &&& (r is Ok <==> plan_fits(
                        encode_utf8(s0@.text),
                        s0@.patches,
                        plan,
                    ))
                    &&& (r is Err ==> r == Err::<(), UpdateError>(UpdateError::Overlap) && s1@
                        == s0@)
                    &&& (r is Ok ==> (encode_utf8(s1@.text), s1@.patches)
                        == apply_plan(encode_utf8(s0@.text), s0@.patches, plan))
                },
            }
        })
    }

    /// Writes `actual` into the text as the expected literal of this
    /// evaluation of `expect`, located in the original text.
    pub fn update<const N: usize>(&mut self, expect: &Expect<N>, actual: &str) -> (r: Result<(), UpdateError>)
        requires
            old(self).wf(),
            expect.file_position.line >= 1,
            expect.file_position.column >= 1,
        ensures
            final(self).wf(),
            final(self)@.original == old(self)@.original,
            Self::update_ensures(*old(self), *final(self), expect, actual, r),
    {
        let loc = match expect.find_expect_location(self.original_text.as_str()) {
            Ok(loc) => loc,
            Err(e) => return Err(UpdateError::Locate(e)),
        };
        let plan = plan_update(&loc, expect.assertion_index, actual);
        proof {
            let f = self@.original;
            let s = locate(
                f,
                expect.file_position.line as nat,
                expect.file_position.column as nat,
                expect.raw_actual@,
                texts(expect.raw_expected),
            )->Ok_0;
            assert(ranges_view(loc) =~= byte_ranges(f, s));
        }
        self.apply_plan(&plan)
    }
}

proof fn lemma_plan_fits_prefix(
    text: Seq<u8>,
    ps: Seq<Patch>,
    es: Seq<(int, int, Seq<char>, PatchOrdering)>,
    k: int,
)
    requires
        0 <= k <= es.len(),
        !plan_fits(text, ps, es.subrange(0, k)),
    ensures
        !plan_fits(text, ps, es),
    decreases es.len() - k,
{
    if k < es.len() {
        let next = es.subrange(0, k + 1);
        assert(next.drop_last() =~= es.subrange(0, k));
        lemma_plan_fits_prefix(text, ps, es, k + 1);
    } else {
        assert(es.subrange(0, k) =~= es);
    }
}

} // verus!

verus! {

/// Writing the first expected literal of a call that has none: a literal on
/// several lines goes on a line of its own after the actual expression, which
/// moves to a line of its own, and the closing bracket moves to the line
/// after the literal; a literal on one line is appended as `, <literal>`.
pub proof fn lemma_first_literal_layout(
    orig: Seq<u8>,
    indent: nat,
    start: int,
    end: int,
    lit: Seq<char>,
)
    requires
        0 <= start <= end <= orig.len() <= usize::MAX,
        encode_utf8(seq!['\n'] + repeat_char(' ', indent + 4)).len() <= usize::MAX,
        encode_utf8(seq!['\n'] + repeat_char(' ', indent)).len() <= usize::MAX,
        encode_utf8(seq![',', '\n'] + repeat_char(' ', indent + 4) + lit).len() <= usize::MAX,
        encode_utf8(seq![',', ' '] + lit).len() <= usize::MAX,
    ensures
        ({
            let out = apply_plan(
                orig,
                Seq::<Patch>::empty(),
                plan_spec(indent, Seq::<(int, int)>::empty(), start, end, 0, lit),
            ).0;
            let inner = repeat_char(' ', indent + 4);
            if lit.contains('\n') {
                out == orig.subrange(0, start) + encode_utf8(seq!['\n'] + inner) + orig.subrange(
                    start,
                    end,
                ) + encode_utf8(seq![',', '\n'] + inner + lit) + encode_utf8(
                    seq!['\n'] + repeat_char(' ', indent),
                ) + orig.subrange(end, orig.len() as int)
            } else {
                out == orig.subrange(0, end) + encode_utf8(seq![',', ' '] + lit) + orig.subrange(
                    end,
                    orig.len() as int,
                )
            }
        }),
{
    let inner = repeat_char(' ', indent + 4);
    let empty = Seq::<Patch>::empty();
    let plan = plan_spec(indent, Seq::<(int, int)>::empty(), start, end, 0, lit);
    let n = orig.len() as int;
    if lit.contains('\n') {
        let x = encode_utf8(seq!['\n'] + inner);
        let y = encode_utf8(seq!['\n'] + repeat_char(' ', indent));
        let z = encode_utf8(seq![',', '\n'] + inner + lit);
        assert(plan.len() == 3);
        assert(plan.drop_last().drop_last().drop_last() =~= Seq::<
            (int, int, Seq<char>, PatchOrdering),
        >::empty());
        // the line break before the actual expression
        let pl1 = plan.drop_last().drop_last();
        let s1 = apply_plan(orig, empty, pl1);
        assert(pl1.drop_last() =~= Seq::<(int, int, Seq<char>, PatchOrdering)>::empty());
        assert(apply_plan(orig, empty, pl1.drop_last()) == (orig, empty));
        assert(pl1.last() == (start, start, seq!['\n'] + inner, PatchOrdering::BeforeOtherPatches));
        assert(slot(empty, start, 0) == 0);
        assert(inserted_sum(empty, 0) == 0 && deleted_sum(empty, 0) == 0);
        let t1 = orig.subrange(0, start) + x + orig.subrange(start, n);
        assert(s1.0 =~= t1);
        let rec_a = patch_of(start, start, x.len() as int, PatchOrdering::BeforeOtherPatches);
        assert(s1.1 =~= seq![rec_a]);
        // the line break before the closing bracket
        let s2 = apply_plan(orig, empty, plan.drop_last());
        assert(take_while_len(seq![rec_a], end, 2, 1) == 1);
        assert(slot(seq![rec_a], end, 2) == 1);
        assert(inserted_sum(seq![rec_a], 0) == 0 && deleted_sum(seq![rec_a], 0) == 0);
        assert(seq![rec_a][0] == rec_a);
        assert(inserted_sum(seq![rec_a], 1) == x.len());
        assert(deleted_sum(seq![rec_a], 1) == 0);
        let t2 = orig.subrange(0, start) + x + orig.subrange(start, end) + y + orig.subrange(end, n);
        assert(s2.0 =~= t2);
        let rec_b = patch_of(end, end, y.len() as int, PatchOrdering::AfterOtherPatches);
        assert(s2.1 =~= seq![rec_a, rec_b]);
        // the literal, between the two
        let s3 = apply_plan(orig, empty, plan);
        assert(take_while_len(seq![rec_a, rec_b], end, 1, 1) == 1);
        assert(take_while_len(seq![rec_a, rec_b], end, 1, 0) == 1);
        assert(inserted_sum(seq![rec_a, rec_b], 0) == 0 && deleted_sum(seq![rec_a, rec_b], 0) == 0);
        assert(seq![rec_a, rec_b][0] == rec_a);
        assert(inserted_sum(seq![rec_a, rec_b], 1) == x.len());
        assert(deleted_sum(seq![rec_a, rec_b], 1) == 0);
        assert(s3.0 =~= orig.subrange(0, start) + x + orig.subrange(start, end) + z + y
            + orig.subrange(end, n));
    } else {
        let z = encode_utf8(seq![',', ' '] + lit);
        assert(plan.drop_last() =~= Seq::<(int, int, Seq<char>, PatchOrdering)>::empty());
        assert(apply_plan(orig, empty, plan.drop_last()) == (orig, empty));
        assert(plan.last() == (end, end, seq![',', ' '] + lit, PatchOrdering::Normal));
        assert(slot(empty, end, 1) == 0);
        assert(inserted_sum(empty, 0) == 0 && deleted_sum(empty, 0) == 0);
        assert(apply_plan(orig, empty, plan).0 =~= orig.subrange(0, end) + z + orig.subrange(end, n));
    }
}

/// The style chosen for a payload, and the literal written for it, depend on
/// the payload's characters alone: the same text always gets the same literal.
pub proof fn lemma_style_depends_on_text(a: Seq<char>, b: Seq<char>, indent: nat)
    requires
        a == b,
    ensures
        lit_kind_of(a) == lit_kind_of(b),
        encode_literal(indent, a) == encode_literal(indent, b),
{
}

} // verus!

verus! {

/// The sessions of one process: one `FileRuntime` for each source file that
/// an update has touched, keyed by the file's name, and whether the help text
/// has been shown.
pub struct Runtime {
    help_printed: bool,
    files: Vec<&'static str>,
    per_file: Vec<FileRuntime>,
}

pub struct RuntimeView {
    pub help_printed: bool,
    pub files: Seq<Seq<char>>,
    pub per_file: Seq<FileRuntime>,
}

impl View for Runtime {
    type V = RuntimeView;

    closed spec fn view(&self) -> RuntimeView {
        RuntimeView {
            help_printed: self.help_printed,
            files: self.files@.map_values(|f: &'static str| f@),
            per_file: self.per_file@,
        }
    }
}

impl Runtime {
    /// One session for each file name, no name twice, each session well formed.
    pub open spec fn wf(&self) -> bool {
        &&& self@.files.len() == self@.per_file.len()
        &&& forall|i: int, j: int|
            0 <= i < j < self@.files.len() ==> #[trigger] self@.files[i] != #[trigger] self@.files[j]
        &&& forall|i: int| 0 <= i < self@.per_file.len() ==> (#[trigger] self@.per_file[i]).wf()
    }

    pub fn new() -> (r: Runtime)
        ensures
            r.wf(),
            !r@.help_printed,
            r@.files.len() == 0,
    {
        let r = Runtime { help_printed: false, files: Vec::new(), per_file: Vec::new() };
        proof {
            assert(r@.files =~= Seq::<Seq<char>>::empty());
        }
        r
    }

    /// Whether the help text is still to be shown; it is shown once.
    pub fn take_help(&mut self) -> (r: bool)
        requires
            old(self).wf(),
        ensures
            final(self).wf(),
            r == !old(self)@.help_printed,
            final(self)@.help_printed,
            final(self)@.files == old(self)@.files,
            final(self)@.per_file == old(self)@.per_file,
    {
        let shown = self.help_printed;
        self.help_printed = true;
        !shown
    }

    /// The index of the session of `file`, if there is one.
    pub fn file_index(&self, file: &str) -> (r: Option<usize>)
        requires
            self.wf(),
        ensures
            match r {
                Some(i) => i < self@.files.len() && self@.files[i as int] == file@,
                None => forall|i: int| 0 <= i < self@.files.len() ==> self@.files[i] != file@,
            },
    {
        let mut i: usize = 0;
        while i < self.files.len()
            invariant
                i <= self.files@.len(),
                forall|j: int| 0 <= j < i ==> self@.files[j] != file@,
            decreases self.files.len() - i,
        {
            if same_text(self.files[i], file) {
                return Some(i);
            }
            i = i + 1;
        }
        None
    }

    /// Starts the session of a file not seen before, from its text as first read.
    pub fn add_file(&mut self, file: &'static str, original_text: String) -> (r: usize)
        requires
            old(self).wf(),
            forall|i: int| 0 <= i < old(self)@.files.len() ==> old(self)@.files[i] != file@,
        ensures
            final(self).wf(),
            r == old(self)@.files.len(),
            final(self)@.files == old(self)@.files.push(file@),
            final(self)@.per_file.len() == r + 1,
            forall|i: int| 0 <= i < r ==> final(self)@.per_file[i] == old(self)@.per_file[i],
            final(self)@.per_file[r as int]@.original == original_text@,
            final(self)@.per_file[r as int]@.text == original_text@,
            final(self)@.per_file[r as int]@.patches.len() == 0,
            final(self)@.help_printed == old(self)@.help_printed,
    {
        let r = self.files.len();
        self.files.push(file);
        self.per_file.push(FileRuntime::new(original_text));
        proof {
            assert(self@.files =~= old(self)@.files.push(file@));
        }
        r
    }

    /// Makes an update in the session of index `i` (see `FileRuntime::update`).
    pub fn update_file<const N: usize>(&mut self, i: usize, expect: &Expect<N>, actual: &str) -> (r: Result<(), UpdateError>)
        requires
            old(self).wf(),
            i < old(self)@.files.len(),
            expect.file_position.line >= 1,
            expect.file_position.column >= 1,
        ensures
            final(self).wf(),
            final(self)@.files == old(self)@.files,
            final(self)@.help_printed == old(self)@.help_printed,
            final(self)@.per_file.len() == old(self)@.per_file.len(),
            forall|j: int|
                0 <= j < old(self)@.per_file.len() && j != i ==> final(self)@.per_file[j]
                    == old(self)@.per_file[j],
            FileRuntime::update_ensures(
                old(self)@.per_file[i as int],
                final(self)@.per_file[i as int],
                expect,
                actual,
                r,
            ),
    {
        self.per_file[i].update(expect, actual)
    }

    /// The current text of the session of index `i`.
    pub fn file_text(&self, i: usize) -> (r: &str)
        requires
            self.wf(),
            i < self@.files.len(),
        ensures
            r@ == self@.per_file[i as int]@.text,
    {
        self.per_file[i].text()
    }
}

impl Default for Runtime {
    fn default() -> (r: Runtime)
        ensures
            r.wf(),
            !r@.help_printed,
            r@.files.len() == 0,
    {
        Runtime::new()
    }
}

} // verus!

verus! {

/// A planned edit as the composition laws speak of it.
pub open spec fn as_edit(e: (int, int, Seq<char>, PatchOrdering)) -> Edit {
    Edit { patch: patch_of(e.0, e.1, encode_utf8(e.2).len() as int, e.3), ins: encode_utf8(e.2) }
}

pub open spec fn as_edits(es: Seq<(int, int, Seq<char>, PatchOrdering)>) -> Seq<Edit> {
    es.map_values(|e: (int, int, Seq<char>, PatchOrdering)| as_edit(e))
}

/// The offsets and sizes of the planned edits fit in a `usize`.
pub open spec fn plan_in_range(es: Seq<(int, int, Seq<char>, PatchOrdering)>) -> bool {
    forall|i: int|
        0 <= i < es.len() ==> 0 <= (#[trigger] es[i]).0 <= es[i].1 <= usize::MAX && encode_utf8(
            es[i].2,
        ).len() <= usize::MAX
}

proof fn lemma_apply_is_replay(orig: Seq<u8>, es: Seq<(int, int, Seq<char>, PatchOrdering)>)
    requires
        plan_in_range(es),
    ensures
        apply_plan(orig, Seq::<Patch>::empty(), es) == replay(orig, as_edits(es)),
    decreases es.len(),
{
    if es.len() > 0 {
        assert(plan_in_range(es.drop_last())) by {
            assert forall|i: int| 0 <= i < es.drop_last().len() implies 0 <= (
            #[trigger] es.drop_last()[i]).0 <= es.drop_last()[i].1 <= usize::MAX && encode_utf8(
                es.drop_last()[i].2,
            ).len() <= usize::MAX by {
                assert(es.drop_last()[i] == es[i]);
            }
        }
        lemma_apply_is_replay(orig, es.drop_last());
        assert(as_edits(es).drop_last() =~= as_edits(es.drop_last()));
        assert(es[es.len() - 1] == es.last());
    }
}

/// Planned edits that do not overlap and lie between characters of the
/// original text all fit on a session with no records.
pub proof fn lemma_plan_fits_on_fresh(
    oc: Seq<char>,
    es: Seq<(int, int, Seq<char>, PatchOrdering)>,
    k: int,
)
    requires
        plan_in_range(es),
        edits_on_chars(oc, as_edits(es)),
        disjoint_edits(as_edits(es)),
        0 <= k <= es.len(),
    ensures
        plan_fits(encode_utf8(oc), Seq::<Patch>::empty(), es.subrange(0, k)),
    decreases k,
{
    let orig = encode_utf8(oc);
    if k == 0 {
        assert(es.subrange(0, 0) =~= Seq::<(int, int, Seq<char>, PatchOrdering)>::empty());
    } else {
        lemma_plan_fits_on_fresh(oc, es, k - 1);
        let pre = es.subrange(0, k);
        let prev = es.subrange(0, k - 1);
        assert(pre.drop_last() =~= prev);
        assert(pre.last() == es[k - 1]);
        assert(plan_in_range(prev)) by {
            assert forall|i: int| 0 <= i < prev.len() implies 0 <= (#[trigger] prev[i]).0
                <= prev[i].1 <= usize::MAX && encode_utf8(prev[i].2).len() <= usize::MAX by {
                assert(prev[i] == es[i]);
            }
        }
        lemma_apply_is_replay(orig, prev);
        assert(as_edits(prev) =~= as_edits(es).subrange(0, k - 1));
        lemma_edits_fit(oc, as_edits(es), k - 1);
        assert(as_edits(es)[k - 1] == as_edit(es[k - 1]));
        assert(es[k - 1] == es[k - 1]);
        assert(0 <= es[k - 1].0 <= es[k - 1].1 <= usize::MAX);
    }
}

} // verus!

verus! {

/// Writing the first expected literal into a call that has none, on a session
/// with no records, always fits: positions between characters of the original
/// text, with sizes that fit in a `usize`, give an update that succeeds.
pub proof fn lemma_first_literal_fits(f: Seq<char>, indent: nat, sc: int, ec: int, lit: Seq<char>)
    requires
        0 <= sc <= ec <= f.len(),
        utf8_len(f) <= usize::MAX,
        encode_utf8(seq!['\n'] + repeat_char(' ', indent + 4)).len() + encode_utf8(
            seq!['\n'] + repeat_char(' ', indent),
        ).len() + encode_utf8(seq![',', '\n'] + repeat_char(' ', indent + 4) + lit).len()
            <= usize::MAX,
        encode_utf8(seq![',', ' '] + lit).len() <= usize::MAX,
    ensures
        plan_fits(
            encode_utf8(f),
            Seq::<Patch>::empty(),
            plan_spec(
                indent,
                Seq::<(int, int)>::empty(),
                byte_pos(f, sc) as int,
                byte_pos(f, ec) as int,
                0,
                lit,
            ),
        ),
{
    let s = byte_pos(f, sc) as int;
    let e = byte_pos(f, ec) as int;
    let plan = plan_spec(indent, Seq::<(int, int)>::empty(), s, e, 0, lit);
    let es = as_edits(plan);
    let orig = encode_utf8(f);
    lemma_byte_range(f, sc, ec);
    lemma_byte_range(f, ec, f.len() as int);
    assert(f.subrange(0, f.len() as int) =~= f);
    lemma_byte_index_at(f, sc);
    lemma_byte_index_at(f, ec);
    assert(plan_in_range(plan));
    assert forall|i: int| 0 <= i < es.len() implies valid_edit(orig, #[trigger] es[i]) && on_char(
        f,
        start_of(es[i]),
    ) && on_char(f, end_of(es[i])) && valid_utf8(es[i].ins) by {
        assert(es[i] == as_edit(plan[i]));
        encode_utf8_valid_utf8(plan[i].2);
    }
    let rs = records(es);
    if lit.contains('\n') {
        assert(plan.len() == 3);
        assert(inserted_sum(rs, 0) == 0 && deleted_sum(rs, 0) == 0);
        assert(rs[0] == es[0].patch && rs[1] == es[1].patch && rs[2] == es[2].patch);
        assert(es[0] == as_edit(plan[0]) && es[1] == as_edit(plan[1]) && es[2] == as_edit(plan[2]));
        assert(plan[0].2 == seq!['\n'] + repeat_char(' ', indent + 4));
        assert(plan[1].2 == seq!['\n'] + repeat_char(' ', indent));
        assert(plan[2].2 == seq![',', '\n'] + repeat_char(' ', indent + 4) + lit);
        assert(inserted_sum(rs, 1) == rs[0].insertion_size && deleted_sum(rs, 1) == 0);
        assert(inserted_sum(rs, 2) == rs[0].insertion_size + rs[1].insertion_size && deleted_sum(
            rs,
            2,
        ) == 0);
        assert(inserted_sum(rs, 3) <= usize::MAX);
        assert(deleted_sum(rs, 3) == 0);
    } else {
        assert(plan.len() == 1);
        assert(inserted_sum(rs, 0) == 0 && deleted_sum(rs, 0) == 0);
        assert(rs[0] == es[0].patch);
        assert(es[0] == as_edit(plan[0]));
    }
    assert(edits_on_chars(f, es));
    assert(disjoint_edits(es)) by {
        assert forall|i: int, j: int| 0 <= i < j < es.len() implies if key_le(
            (#[trigger] es[i]).patch,
            start_of(#[trigger] es[j]),
            tier(es[j].patch.ordering),
        ) {
            end_of(es[i]) <= start_of(es[j])
        } else {
            end_of(es[j]) <= start_of(es[i])
        } by {
            assert(es[i] == as_edit(plan[i]) && es[j] == as_edit(plan[j]));
        }
    }
    lemma_plan_fits_on_fresh(f, plan, plan.len() as int);
    assert(plan.subrange(0, plan.len() as int) =~= plan);
}

} // verus!

verus! {

/// The first expected literal written into a call that has none, on a session
/// with no records: the update succeeds, and the text is laid out as
/// `lemma_first_literal_layout` says.
pub proof fn lemma_first_literal_update<const N: usize>(
    s0: FileRuntime,
    s1: FileRuntime,
    expect: &Expect<N>,
    actual: &str,
    r: Result<(), UpdateError>,
)
    requires
        N == 0,
        expect.assertion_index == 0,
        s0@.patches.len() == 0,
        s0@.text == s0@.original,
        utf8_len(s0@.original) <= usize::MAX,
        locate(
            s0@.original,
            expect.file_position.line as nat,
            expect.file_position.column as nat,
            expect.raw_actual@,
            texts(expect.raw_expected),
        ) is Ok,
        ({
            let s = locate(
                s0@.original,
                expect.file_position.line as nat,
                expect.file_position.column as nat,
                expect.raw_actual@,
                texts(expect.raw_expected),
            )->Ok_0;
            let lit = encode_literal(s.indent, actual@);
            &&& encode_utf8(seq!['\n'] + repeat_char(' ', s.indent + 4)).len() + encode_utf8(
                seq!['\n'] + repeat_char(' ', s.indent),
            ).len() + encode_utf8(seq![',', '\n'] + repeat_char(' ', s.indent + 4) + lit).len()
                <= usize::MAX
            &&& encode_utf8(seq![',', ' '] + lit).len() <= usize::MAX
        }),
        FileRuntime::update_ensures(s0, s1, expect, actual, r),
    ensures
        r is Ok,
        ({
            let f = s0@.original;
            let s = locate(
                f,
                expect.file_position.line as nat,
                expect.file_position.column as nat,
                expect.raw_actual@,
                texts(expect.raw_expected),
            )->Ok_0;
            let orig = encode_utf8(f);
            let start = byte_pos(f, s.start) as int;
            let end = byte_pos(f, s.end) as int;
            let lit = encode_literal(s.indent, actual@);
            let inner = repeat_char(' ', s.indent + 4);
            if lit.contains('\n') {
                encode_utf8(s1@.text) == orig.subrange(0, start) + encode_utf8(seq!['\n'] + inner)
                    + orig.subrange(start, end) + encode_utf8(seq![',', '\n'] + inner + lit)
                    + encode_utf8(seq!['\n'] + repeat_char(' ', s.indent)) + orig.subrange(
                    end,
                    orig.len() as int,
                )
            } else {
                encode_utf8(s1@.text) == orig.subrange(0, end) + encode_utf8(seq![',', ' '] + lit)
                    + orig.subrange(end, orig.len() as int)
            }
        }),
{
    let f = s0@.original;
    let es = texts(expect.raw_expected);
    let s = locate(
        f,
        expect.file_position.line as nat,
        expect.file_position.column as nat,
        expect.raw_actual@,
        es,
    )->Ok_0;
    lemma_locate_order(
        f,
        expect.file_position.line as nat,
        expect.file_position.column as nat,
        expect.raw_actual@,
        es,
    );
    assert(es.len() == 0);
    assert(s.ranges.len() == 0);
    assert(byte_ranges(f, s) =~= Seq::<(int, int)>::empty());
    assert(s0@.patches =~= Seq::<Patch>::empty());
    let lit = encode_literal(s.indent, actual@);
    let plan = plan_spec(
        s.indent,
        Seq::<(int, int)>::empty(),
        byte_pos(f, s.start) as int,
        byte_pos(f, s.end) as int,
        0,
        lit,
    );
    assert(plan == plan_spec(
        s.indent,
        byte_ranges(f, s),
        byte_pos(f, s.start) as int,
        byte_pos(f, s.end) as int,
        expect.assertion_index as int,
        lit,
    ));
    lemma_first_literal_fits(f, s.indent, s.start, s.end, lit);
    lemma_byte_range(f, s.start, s.end);
    lemma_byte_range(f, s.end, f.len() as int);
    assert(f.subrange(0, f.len() as int) =~= f);
    lemma_first_literal_layout(
        encode_utf8(f),
        s.indent,
        byte_pos(f, s.start) as int,
        byte_pos(f, s.end) as int,
        lit,
    );
}

} // verus!
