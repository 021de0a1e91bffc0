use vstd::prelude::*;
use vstd::string::StringSliceAdditionalSpecFns;
use vstd::utf8::{
    encode_utf8, encode_utf8_valid_utf8, is_char_boundary, length_of_first_scalar,
    pop_first_scalar, valid_utf8, valid_utf8_concat,
};

use crate::text::{
    byte_index, lemma_byte_index_at, lemma_byte_pos_strict, lemma_byte_range, lemma_encode_concat,
};

verus! {

/// Orders patches that start at the same offset.
#[derive(Debug, Clone, Copy, PartialEq, Eq, PartialOrd, Ord, Structural)]
pub enum PatchOrdering {
    BeforeOtherPatches,
    Normal,
    AfterOtherPatches,
}

/// The rank of an ordering: lower ranks go first.
pub open spec fn tier(o: PatchOrdering) -> int {
    match o {
        PatchOrdering::BeforeOtherPatches => 0,
        PatchOrdering::Normal => 1,
        PatchOrdering::AfterOtherPatches => 2,
    }
}

impl PatchOrdering {
    pub fn rank(&self) -> (r: u8)
        ensures
            r as int == tier(*self),
    {
        match self {
            PatchOrdering::BeforeOtherPatches => 0,
            PatchOrdering::Normal => 1,
            PatchOrdering::AfterOtherPatches => 2,
        }
    }
}

/// One recorded edit, in coordinates of the original text.
#[derive(Debug)]
pub struct Patch {
    pub deletion_range: std::ops::Range<usize>,
    pub insertion_size: usize,
    pub ordering: PatchOrdering,
}

/// Whether `p` sorts at or before the key `(start, t)`.
pub open spec fn key_le(p: Patch, start: int, t: int) -> bool {
    p.deletion_range.start < start || (p.deletion_range.start == start && tier(p.ordering) <= t)
}

/// The number of leading patches of `ps[i..]` that sort at or before `(start, t)`,
/// plus `i`.
pub open spec fn take_while_len(ps: Seq<Patch>, start: int, t: int, i: int) -> int
    decreases ps.len() - i,
{
    if 0 <= i < ps.len() && key_le(ps[i], start, t) {
        take_while_len(ps, start, t, i + 1)
    } else {
        i
    }
}

/// Where a patch with key `(start, t)` goes among `ps`.
pub open spec fn slot(ps: Seq<Patch>, start: int, t: int) -> int {
    take_while_len(ps, start, t, 0)
}

/// Bytes inserted by the first `k` patches.
pub open spec fn inserted_sum(ps: Seq<Patch>, k: int) -> int
    decreases k,
{
    if k <= 0 || k > ps.len() {
        0
    } else {
        inserted_sum(ps, k - 1) + ps[k - 1].insertion_size
    }
}

/// Bytes deleted by the first `k` patches.
pub open spec fn deleted_sum(ps: Seq<Patch>, k: int) -> int
    decreases k,
{
    if k <= 0 || k > ps.len() {
        0
    } else {
        deleted_sum(ps, k - 1) + (ps[k - 1].deletion_range.end - ps[k - 1].deletion_range.start)
    }
}

/// Where original offset `x` lies in the current text for a patch with key
/// `(start, t)`.
pub open spec fn shifted(ps: Seq<Patch>, start: int, t: int, x: int) -> int {
    let k = slot(ps, start, t);
    x + inserted_sum(ps, k) - deleted_sum(ps, k)
}

/// The current text after replacing original `start..end` by `ins`.
pub open spec fn step_text(
    text: Seq<u8>,
    ps: Seq<Patch>,
    start: int,
    end: int,
    ins: Seq<u8>,
    o: PatchOrdering,
) -> Seq<u8> {
    let a = shifted(ps, start, tier(o), start);
    let b = shifted(ps, start, tier(o), end);
    text.subrange(0, a) + ins + text.subrange(b, text.len() as int)
}

/// The record of that replacement.
pub open spec fn patch_of(start: int, end: int, size: int, o: PatchOrdering) -> Patch {
    Patch {
        deletion_range: std::ops::Range { start: start as usize, end: end as usize },
        insertion_size: size as usize,
        ordering: o,
    }
}

/// The records after it.
pub open spec fn step_patches(ps: Seq<Patch>, start: int, end: int, size: int, o: PatchOrdering) -> Seq<Patch> {
    ps.insert(slot(ps, start, tier(o)), patch_of(start, end, size, o))
}

/// Patches are ordered by start, then by ordering, and their ranges are forward.
pub open spec fn sorted_patches(ps: Seq<Patch>) -> bool {
    &&& forall|i: int|
        0 <= i < ps.len() ==> (#[trigger] ps[i]).deletion_range.start <= ps[i].deletion_range.end
    &&& forall|i: int, j: int|
        0 <= i < j < ps.len() ==> key_le(
            #[trigger] ps[i],
            (#[trigger] ps[j]).deletion_range.start as int,
            tier(ps[j].ordering),
        )
}

/// Whether replacing original `start..end` by `ins_len` bytes can be applied
/// to `text` with records `ps`: the range is forward, lands on character
/// boundaries of the current text, and the sums of all records still fit in a
/// `usize`.
pub open spec fn fits_bytes(
    text: Seq<u8>,
    ps: Seq<Patch>,
    start: int,
    end: int,
    ins_len: nat,
    ordering: PatchOrdering,
) -> bool {
    let a = shifted(ps, start, tier(ordering), start);
    let b = shifted(ps, start, tier(ordering), end);
    &&& start <= end
    &&& 0 <= a <= b <= text.len()
    &&& is_char_boundary(text, a)
    &&& is_char_boundary(text, b)
    &&& inserted_sum(ps, ps.len() as int) + ins_len <= usize::MAX
    &&& deleted_sum(ps, ps.len() as int) + (end - start) <= usize::MAX
}

/// The text being patched, with the patches applied so far.
#[derive(Debug)]
pub struct Patchwork {
    text: String,
    patches: Vec<Patch>,
}

/// What a `Patchwork` holds: its current text and its records, in order.
pub struct PatchworkView {
    pub text: Seq<char>,
    pub patches: Seq<Patch>,
}

impl View for Patchwork {
    type V = PatchworkView;

    closed spec fn view(&self) -> PatchworkView {
        PatchworkView { text: self.text@, patches: self.patches@ }
    }
}

impl Patchwork {
    /// The records are sorted and their sums fit in a `usize`.
    pub open spec fn wf(&self) -> bool {
        &&& sorted_patches(self@.patches)
        &&& inserted_sum(self@.patches, self@.patches.len() as int) <= usize::MAX
        &&& deleted_sum(self@.patches, self@.patches.len() as int) <= usize::MAX
    }

    pub fn new(text: String) -> (r: Patchwork)
        ensures
            r@.text == text@,
            r@.patches.len() == 0,
            r.wf(),
    {
        Patchwork { text, patches: Vec::new() }
    }

    /// Inserts `patch` at original offset `offset`.
    pub fn patch_insert(&mut self, offset: usize, patch: &str, ordering: PatchOrdering)
        requires
            old(self).wf(),
            Self::patch_fits(
                old(self)@,
                offset as int,
                offset as int,
                patch.spec_bytes().len(),
                ordering,
            ),
        ensures
            final(self).wf(),
            encode_utf8(final(self)@.text) == step_text(
                encode_utf8(old(self)@.text),
                old(self)@.patches,
                offset as int,
                offset as int,
                patch.spec_bytes(),
                ordering,
            ),
            final(self)@.patches == step_patches(
                old(self)@.patches,
                offset as int,
                offset as int,
                patch.spec_bytes().len() as int,
                ordering,
            ),
    {
        self.patch_range(offset..offset, patch, ordering)
    }

    /// Whether replacing original `start..end` by `ins_len` bytes can be
    /// applied now.
    pub open spec fn patch_fits(
        v: PatchworkView,
        start: int,
        end: int,
        ins_len: nat,
        ordering: PatchOrdering,
    ) -> bool {
        fits_bytes(encode_utf8(v.text), v.patches, start, end, ins_len, ordering)
    }

    /// Replaces original `range` by `patch`: the offsets are shifted by what
    /// the patches that sort at or before it inserted and deleted.
    pub fn patch_range(&mut self, range: std::ops::Range<usize>, patch: &str, ordering: PatchOrdering)
        requires
            old(self).wf(),
            Self::patch_fits(
                old(self)@,
                range.start as int,
                range.end as int,
                patch.spec_bytes().len(),
                ordering,
            ),
        ensures
            final(self).wf(),
            encode_utf8(final(self)@.text) == step_text(
                encode_utf8(old(self)@.text),
                old(self)@.patches,
                range.start as int,
                range.end as int,
                patch.spec_bytes(),
                ordering,
            ),
            final(self)@.patches == step_patches(
                old(self)@.patches,
                range.start as int,
                range.end as int,
                patch.spec_bytes().len() as int,
                ordering,
            ),
    {
        let ghost ps = self.patches@;
        let (k, insert, delete) = self.slot_and_sums(range.start, ordering);
        let total = self.text.as_str().as_bytes().len();
        let a = if insert >= delete {
            range.start + (insert - delete)
        } else {
            range.start - (delete - insert)
        };
        let b = if insert >= delete {
            range.end + (insert - delete)
        } else {
            range.end - (delete - insert)
        };
        let new_text = replaced(self.text.as_str(), a, b, patch);
        self.text = new_text;
        let size = patch.len();
        let ghost p = patch_of(range.start as int, range.end as int, size as int, ordering);
        proof {
            lemma_slot_bounds(ps, range.start as int, tier(ordering));
        }
        self.patches.insert(
            k,
            Patch { deletion_range: range.start..range.end, insertion_size: size, ordering },
        );
        proof {
            lemma_slot_bounds(ps, range.start as int, tier(ordering));
            lemma_insert_keeps_sums(ps, k as int, p);
            assert(self.patches@ =~= ps.insert(k as int, p));
            lemma_insert_sorted(ps, k as int, p);
        }
    }

    /// The slot of the key `(start, ordering)` among the records, and what the
    /// records before it inserted and deleted.
    fn slot_and_sums(&self, start: usize, ordering: PatchOrdering) -> (r: (usize, usize, usize))
        requires
            self.wf(),
        ensures
            r.0 == slot(self@.patches, start as int, tier(ordering)),
            r.1 == inserted_sum(self@.patches, r.0 as int),
            r.2 == deleted_sum(self@.patches, r.0 as int),
    {
        let ghost ps = self.patches@;
        let t = ordering.rank();
        let mut k: usize = 0;
        let mut insert: usize = 0;
        let mut delete: usize = 0;
        while k < self.patches.len() && (self.patches[k].deletion_range.start < start || (
        self.patches[k].deletion_range.start == start && self.patches[k].ordering.rank() <= t))
            invariant
                ps == self.patches@,
                sorted_patches(ps),
                inserted_sum(ps, ps.len() as int) <= usize::MAX,
                deleted_sum(ps, ps.len() as int) <= usize::MAX,
                k <= ps.len(),
                take_while_len(ps, start as int, t as int, 0) == take_while_len(
                    ps,
                    start as int,
                    t as int,
                    k as int,
                ),
                insert == inserted_sum(ps, k as int),
                delete == deleted_sum(ps, k as int),
            decreases ps.len() - k,
        {
            proof {
                lemma_sums_monotone(ps, k + 1, ps.len() as int);
            }
            let p = &self.patches[k];
            insert = insert + p.insertion_size;
            delete = delete + (p.deletion_range.end - p.deletion_range.start);
            k = k + 1;
        }
        proof {
            assert(take_while_len(ps, start as int, t as int, k as int) == k);
        }
        (k, insert, delete)
    }

    /// Whether `patch_range(range, patch, ordering)` can be applied now.
    pub fn can_patch(&self, range: &std::ops::Range<usize>, patch: &str, ordering: PatchOrdering) -> (r: bool)
        requires
            self.wf(),
        ensures
            r == Self::patch_fits(
                self@,
                range.start as int,
                range.end as int,
                patch.spec_bytes().len(),
                ordering,
            ),
    {
        let s = self.text.as_str();
        let total = s.as_bytes().len();
        if range.start > range.end {
            return false;
        }
        let (k, insert, delete) = self.slot_and_sums(range.start, ordering);
        let (all_insert, all_delete) = self.total_sums();
        let (a, b) = if insert >= delete {
            let d = insert - delete;
            if range.end > usize::MAX - d {
                return false;
            }
            (range.start + d, range.end + d)
        } else {
            let d = delete - insert;
            if range.start < d {
                return false;
            }
            (range.start - d, range.end - d)
        };
        b <= total && s.is_char_boundary(a) && s.is_char_boundary(b) && patch.as_bytes().len()
            <= usize::MAX - all_insert && range.end - range.start <= usize::MAX - all_delete
    }

    /// What all the records inserted and deleted.
    fn total_sums(&self) -> (r: (usize, usize))
        requires
            self.wf(),
        ensures
            r.0 == inserted_sum(self@.patches, self@.patches.len() as int),
            r.1 == deleted_sum(self@.patches, self@.patches.len() as int),
    {
        let ghost ps = self.patches@;
        let mut k: usize = 0;
        let mut insert: usize = 0;
        let mut delete: usize = 0;
        while k < self.patches.len()
            invariant
                ps == self.patches@,
                sorted_patches(ps),
                inserted_sum(ps, ps.len() as int) <= usize::MAX,
                deleted_sum(ps, ps.len() as int) <= usize::MAX,
                k <= ps.len(),
                insert == inserted_sum(ps, k as int),
                delete == deleted_sum(ps, k as int),
            decreases ps.len() - k,
        {
            proof {
                lemma_sums_monotone(ps, k + 1, ps.len() as int);
            }
            let p = &self.patches[k];
            insert = insert + p.insertion_size;
            delete = delete + (p.deletion_range.end - p.deletion_range.start);
            k = k + 1;
        }
        (insert, delete)
    }

    /// A copy of this patchwork.
    pub fn duplicate(&self) -> (r: Patchwork)
        ensures
            r@ == self@,
    {
        let mut patches: Vec<Patch> = Vec::new();
        let mut i: usize = 0;
        while i < self.patches.len()
            invariant
                i <= self.patches@.len(),
                patches@ == self.patches@.subrange(0, i as int),
            decreases self.patches.len() - i,
        {
            let p = &self.patches[i];
            patches.push(
                Patch {
                    deletion_range: p.deletion_range.start..p.deletion_range.end,
                    insertion_size: p.insertion_size,
                    ordering: p.ordering,
                },
            );
            proof {
                assert(patches@ =~= self.patches@.subrange(0, i + 1));
            }
            i = i + 1;
        }
        let r = Patchwork { text: self.text.clone(), patches };
        proof {
            assert(r.patches@ =~= self.patches@);
        }
        r
    }

    pub fn text(&self) -> (r: &str)
        ensures
            r@ == self@.text,
    {
        self.text.as_str()
    }
}

/// `s` with the bytes `a..b` replaced by those of `patch`.
fn replaced(s: &str, a: usize, b: usize, patch: &str) -> (r: String)
    requires
        a <= b <= s.spec_bytes().len(),
        is_char_boundary(s.spec_bytes(), a as int),
        is_char_boundary(s.spec_bytes(), b as int),
    ensures
        encode_utf8(r@) == s.spec_bytes().subrange(0, a as int) + patch.spec_bytes()
            + s.spec_bytes().subrange(b as int, s.spec_bytes().len() as int),
{
    let (front, _) = s.split_at(a);
    let (_, back) = s.split_at(b);
    let mut t = front.to_owned();
    t.append(patch);
    t.append(back);
    proof {
        lemma_encode_concat(front@, patch@);
        lemma_encode_concat(front@ + patch@, back@);
    }
    t
}

/// A record put at its slot keeps the records sorted.
proof fn lemma_insert_sorted(ps: Seq<Patch>, k: int, p: Patch)
    requires
        sorted_patches(ps),
        p.deletion_range.start <= p.deletion_range.end,
        k == slot(ps, p.deletion_range.start as int, tier(p.ordering)),
    ensures
        sorted_patches(ps.insert(k, p)),
{
    lemma_slot_bounds(ps, p.deletion_range.start as int, tier(p.ordering));
    let qs = ps.insert(k, p);
    assert forall|i: int, j: int| 0 <= i < j < qs.len() implies key_le(
        #[trigger] qs[i],
        (#[trigger] qs[j]).deletion_range.start as int,
        tier(qs[j].ordering),
    ) by {
        if j < k {
        } else if j == k {
        } else if i < k {
            assert(key_le(ps[i], p.deletion_range.start as int, tier(p.ordering)));
            assert(!key_le(ps[j - 1], p.deletion_range.start as int, tier(p.ordering)));
        } else if i == k {
            assert(!key_le(ps[j - 1], p.deletion_range.start as int, tier(p.ordering)));
        } else {
            assert(key_le(ps[i - 1], ps[j - 1].deletion_range.start as int, tier(ps[j - 1].ordering)));
        }
    }
    assert forall|i: int| 0 <= i < qs.len() implies (#[trigger] qs[i]).deletion_range.start
        <= qs[i].deletion_range.end by {
        if i < k {
        } else if i > k {
            assert(qs[i] == ps[i - 1]);
        }
    }
}

/// Sums over a longer prefix are no smaller.
proof fn lemma_sums_monotone(ps: Seq<Patch>, k: int, n: int)
    requires
        0 <= k <= n <= ps.len(),
        sorted_patches(ps),
    ensures
        inserted_sum(ps, k) <= inserted_sum(ps, n),
        deleted_sum(ps, k) <= deleted_sum(ps, n),
    decreases n - k,
{
    if k < n {
        lemma_sums_monotone(ps, k, n - 1);
        assert(ps[n - 1].deletion_range.start <= ps[n - 1].deletion_range.end);
    }
}

/// The slot of a key: everything before it sorts at or before the key,
/// everything after it after the key.
proof fn lemma_slot_bounds(ps: Seq<Patch>, start: int, t: int)
    requires
        sorted_patches(ps),
    ensures
        0 <= slot(ps, start, t) <= ps.len(),
        forall|i: int| 0 <= i < slot(ps, start, t) ==> key_le(#[trigger] ps[i], start, t),
        forall|i: int| slot(ps, start, t) <= i < ps.len() ==> !key_le(#[trigger] ps[i], start, t),
{
    lemma_take_while(ps, start, t, 0);
    let k = slot(ps, start, t);
    assert forall|i: int| k <= i < ps.len() implies !key_le(#[trigger] ps[i], start, t) by {
        if i > k {
            assert(key_le(ps[k], ps[i].deletion_range.start as int, tier(ps[i].ordering)));
        }
    }
}

proof fn lemma_take_while(ps: Seq<Patch>, start: int, t: int, i: int)
    requires
        0 <= i <= ps.len(),
    ensures
        i <= take_while_len(ps, start, t, i) <= ps.len(),
        forall|j: int| i <= j < take_while_len(ps, start, t, i) ==> key_le(#[trigger] ps[j], start, t),
        take_while_len(ps, start, t, i) < ps.len() ==> !key_le(
            ps[take_while_len(ps, start, t, i)],
            start,
            t,
        ),
    decreases ps.len() - i,
{
    if i < ps.len() && key_le(ps[i], start, t) {
        lemma_take_while(ps, start, t, i + 1);
    }
}

/// Inserting a record adds its sizes to the totals.
proof fn lemma_insert_keeps_sums(ps: Seq<Patch>, k: int, p: Patch)
    requires
        0 <= k <= ps.len(),
    ensures
        inserted_sum(ps.insert(k, p), ps.len() + 1 as int) == inserted_sum(ps, ps.len() as int)
            + p.insertion_size,
        deleted_sum(ps.insert(k, p), ps.len() + 1 as int) == deleted_sum(ps, ps.len() as int) + (
        p.deletion_range.end - p.deletion_range.start),
    decreases ps.len() - k,
{
    let qs = ps.insert(k, p);
    if k == ps.len() {
        assert(qs.subrange(0, ps.len() as int) =~= ps);
        lemma_sums_prefix(qs, ps, ps.len() as int);
    } else {
        lemma_insert_keeps_sums(ps.drop_last(), k, p);
        let rs = ps.drop_last().insert(k, p);
        assert(qs.drop_last() =~= rs);
        assert(qs.last() == ps.last());
        lemma_sums_prefix(qs, rs, rs.len() as int);
        lemma_sums_prefix(ps, ps.drop_last(), ps.len() - 1);
    }
}

/// Sums over a prefix depend on the prefix alone.
proof fn lemma_sums_prefix(a: Seq<Patch>, b: Seq<Patch>, k: int)
    requires
        0 <= k <= b.len(),
        k <= a.len(),
        forall|i: int| 0 <= i < k ==> a[i] == b[i],
    ensures
        inserted_sum(a, k) == inserted_sum(b, k),
        deleted_sum(a, k) == deleted_sum(b, k),
    decreases k,
{
    if k > 0 {
        lemma_sums_prefix(a, b, k - 1);
    }
}

} // verus!

verus! {

/// An edit as the composition law speaks of it: a record and the bytes that
/// it inserts.
pub struct Edit {
    pub patch: Patch,
    pub ins: Seq<u8>,
}

pub open spec fn records(es: Seq<Edit>) -> Seq<Patch> {
    es.map_values(|e: Edit| e.patch)
}

pub open spec fn start_of(e: Edit) -> int {
    e.patch.deletion_range.start as int
}

pub open spec fn end_of(e: Edit) -> int {
    e.patch.deletion_range.end as int
}

/// The state after applying `edits` in call order to `orig`, one `patch_range`
/// at a time: the current text and the records.
pub open spec fn replay(orig: Seq<u8>, edits: Seq<Edit>) -> (Seq<u8>, Seq<Patch>)
    decreases edits.len(),
{
    if edits.len() == 0 {
        (orig, Seq::<Patch>::empty())
    } else {
        let (t, ps) = replay(orig, edits.drop_last());
        let e = edits.last();
        (
            step_text(t, ps, start_of(e), end_of(e), e.ins, e.patch.ordering),
            step_patches(ps, start_of(e), end_of(e), e.ins.len() as int, e.patch.ordering),
        )
    }
}

/// `edits` sorted by start offset, then ordering, then call order.
pub open spec fn sort_edits(edits: Seq<Edit>) -> Seq<Edit>
    decreases edits.len(),
{
    if edits.len() == 0 {
        Seq::<Edit>::empty()
    } else {
        let s = sort_edits(edits.drop_last());
        let e = edits.last();
        s.insert(slot(records(s), start_of(e), tier(e.patch.ordering)), e)
    }
}

/// `orig[x..n]` with the sorted edits `s`, which all lie in it, spliced in.
pub open spec fn splice(orig: Seq<u8>, s: Seq<Edit>, x: int, n: int) -> Seq<u8>
    decreases s.len(),
{
    if s.len() == 0 {
        orig.subrange(x, n)
    } else {
        let e = s.last();
        splice(orig, s.drop_last(), x, start_of(e)) + e.ins + orig.subrange(end_of(e), n)
    }
}

/// The edits lie in `orig[x..n]`, each after the one before.
pub open spec fn placed(orig: Seq<u8>, s: Seq<Edit>, x: int, n: int) -> bool {
    &&& 0 <= x <= n <= orig.len()
    &&& forall|i: int| 0 <= i < s.len() ==> x <= start_of(#[trigger] s[i]) <= end_of(s[i]) <= n
    &&& forall|i: int, j: int| 0 <= i < j < s.len() ==> end_of(#[trigger] s[i]) <= start_of(#[trigger] s[j])
}

/// No two edits overlap once sorted: of two edits, the one that sorts first
/// ends at or before the start of the other.
pub open spec fn disjoint_edits(edits: Seq<Edit>) -> bool {
    forall|i: int, j: int|
        0 <= i < j < edits.len() ==> if key_le(
            (#[trigger] edits[i]).patch,
            start_of(#[trigger] edits[j]),
            tier(edits[j].patch.ordering),
        ) {
            end_of(edits[i]) <= start_of(edits[j])
        } else {
            end_of(edits[j]) <= start_of(edits[i])
        }
}

/// Each edit's range is forward, lies in `orig`, and its record counts its bytes.
pub open spec fn valid_edit(orig: Seq<u8>, e: Edit) -> bool {
    &&& start_of(e) <= end_of(e) <= orig.len()
    &&& e.patch.insertion_size == e.ins.len()
}

proof fn lemma_splice_extend(orig: Seq<u8>, s: Seq<Edit>, x: int, p: int, n: int)
    requires
        placed(orig, s, x, p),
        p <= n <= orig.len(),
    ensures
        splice(orig, s, x, n) == splice(orig, s, x, p) + orig.subrange(p, n),
{
    if s.len() == 0 {
        assert(orig.subrange(x, n) =~= orig.subrange(x, p) + orig.subrange(p, n));
    } else {
        let e = s.last();
        assert(end_of(s[s.len() - 1]) <= p);
        assert(orig.subrange(end_of(e), n) =~= orig.subrange(end_of(e), p) + orig.subrange(p, n));
        assert(splice(orig, s, x, n) =~= splice(orig, s, x, p) + orig.subrange(p, n));
    }
}

proof fn lemma_placed_prefix(orig: Seq<u8>, s: Seq<Edit>, x: int, n: int)
    requires
        placed(orig, s, x, n),
        s.len() > 0,
    ensures
        placed(orig, s.drop_last(), x, start_of(s.last())),
{
    let t = s.drop_last();
    assert forall|i: int| 0 <= i < t.len() implies x <= start_of(#[trigger] t[i]) <= end_of(t[i])
        <= start_of(s.last()) by {
        assert(t[i] == s[i]);
        assert(end_of(s[i]) <= start_of(s[s.len() - 1]));
    }
    assert forall|i: int, j: int| 0 <= i < j < t.len() implies end_of(#[trigger] t[i]) <= start_of(
        #[trigger] t[j],
    ) by {
        assert(t[i] == s[i] && t[j] == s[j]);
    }
}

/// Splicing `a + b` is splicing `a` up to `p` and `b` from `p`.
proof fn lemma_splice_split(orig: Seq<u8>, a: Seq<Edit>, b: Seq<Edit>, x: int, p: int, n: int)
    requires
        placed(orig, a, x, p),
        placed(orig, b, p, n),
    ensures
        splice(orig, a + b, x, n) == splice(orig, a, x, p) + splice(orig, b, p, n),
    decreases b.len(),
{
    if b.len() == 0 {
        assert(a + b =~= a);
        lemma_splice_extend(orig, a, x, p, n);
    } else {
        let e = b.last();
        assert((a + b).drop_last() =~= a + b.drop_last());
        assert((a + b).last() == e);
        lemma_placed_prefix(orig, b, p, n);
        lemma_splice_split(orig, a, b.drop_last(), x, p, start_of(e));
        assert(splice(orig, a + b, x, n) =~= splice(orig, a, x, p) + splice(orig, b, p, n));
    }
}

/// The untouched bytes before the first edit can be split off.
proof fn lemma_splice_head(orig: Seq<u8>, b: Seq<Edit>, p: int, q: int, n: int)
    requires
        placed(orig, b, q, n),
        0 <= p <= q,
    ensures
        splice(orig, b, p, n) == orig.subrange(p, q) + splice(orig, b, q, n),
    decreases b.len(),
{
    if b.len() == 0 {
        assert(orig.subrange(p, n) =~= orig.subrange(p, q) + orig.subrange(q, n));
    } else {
        let e = b.last();
        lemma_placed_prefix(orig, b, q, n);
        lemma_splice_head(orig, b.drop_last(), p, q, start_of(e));
        assert(splice(orig, b, p, n) =~= orig.subrange(p, q) + splice(orig, b, q, n));
    }
}

/// The length of a splice: what the edits inserted minus what they deleted.
proof fn lemma_splice_len(orig: Seq<u8>, s: Seq<Edit>, x: int, n: int)
    requires
        placed(orig, s, x, n),
        forall|i: int| 0 <= i < s.len() ==> valid_edit(orig, #[trigger] s[i]),
    ensures
        splice(orig, s, x, n).len() == n - x + inserted_sum(records(s), s.len() as int)
            - deleted_sum(records(s), s.len() as int),
    decreases s.len(),
{
    if s.len() > 0 {
        let e = s.last();
        lemma_placed_prefix(orig, s, x, n);
        lemma_splice_len(orig, s.drop_last(), x, start_of(e));
        assert(records(s.drop_last()) =~= records(s).drop_last());
        lemma_sums_prefix(records(s), records(s.drop_last()), s.len() - 1);
        assert(valid_edit(orig, s[s.len() - 1]));
    }
}

proof fn lemma_insert_placed(orig: Seq<u8>, s: Seq<Edit>, k: int, e: Edit)
    requires
        placed(orig, s, 0, orig.len() as int),
        valid_edit(orig, e),
        0 <= k <= s.len(),
        forall|i: int| 0 <= i < k ==> end_of(#[trigger] s[i]) <= start_of(e),
        forall|i: int| k <= i < s.len() ==> end_of(e) <= start_of(#[trigger] s[i]),
    ensures
        placed(orig, s.subrange(0, k), 0, start_of(e)),
        placed(orig, s.subrange(k, s.len() as int), end_of(e), orig.len() as int),
        placed(orig, s.subrange(k, s.len() as int), start_of(e), orig.len() as int),
        placed(orig, s.subrange(0, k) + seq![e], 0, end_of(e)),
{
    let n = orig.len() as int;
    let a = s.subrange(0, k);
    let b = s.subrange(k, s.len() as int);
    assert(placed(orig, a, 0, start_of(e))) by {
        assert forall|i: int, j: int| 0 <= i < j < a.len() implies end_of(#[trigger] a[i])
            <= start_of(#[trigger] a[j]) by {
            assert(a[i] == s[i] && a[j] == s[j]);
        }
        assert forall|i: int| 0 <= i < a.len() implies 0 <= start_of(#[trigger] a[i]) <= end_of(a[i])
            <= start_of(e) by {
            assert(a[i] == s[i]);
        }
    }
    assert(placed(orig, b, end_of(e), n)) by {
        assert forall|i: int, j: int| 0 <= i < j < b.len() implies end_of(#[trigger] b[i])
            <= start_of(#[trigger] b[j]) by {
            assert(b[i] == s[k + i] && b[j] == s[k + j]);
        }
        assert forall|i: int| 0 <= i < b.len() implies end_of(e) <= start_of(#[trigger] b[i])
            <= end_of(b[i]) <= n by {
            assert(b[i] == s[k + i]);
        }
    }
    let ae = a + seq![e];
    assert(placed(orig, ae, 0, end_of(e))) by {
        assert forall|i: int, j: int| 0 <= i < j < ae.len() implies end_of(#[trigger] ae[i])
            <= start_of(#[trigger] ae[j]) by {
            if j < a.len() {
                assert(ae[i] == a[i] && ae[j] == a[j]);
            } else {
                assert(ae[i] == a[i]);
            }
        }
        assert forall|i: int| 0 <= i < ae.len() implies 0 <= start_of(#[trigger] ae[i]) <= end_of(
            ae[i],
        ) <= end_of(e) by {
            if i < a.len() {
                assert(ae[i] == a[i]);
            }
        }
    }
}

proof fn lemma_insert_placed_all(orig: Seq<u8>, s: Seq<Edit>, k: int, e: Edit)
    requires
        placed(orig, s, 0, orig.len() as int),
        valid_edit(orig, e),
        0 <= k <= s.len(),
        forall|i: int| 0 <= i < k ==> end_of(#[trigger] s[i]) <= start_of(e),
        forall|i: int| k <= i < s.len() ==> end_of(e) <= start_of(#[trigger] s[i]),
    ensures
        placed(orig, s.insert(k, e), 0, orig.len() as int),
{
    let n = orig.len() as int;
    let t = s.insert(k, e);
    assert(placed(orig, t, 0, n)) by {
        assert forall|i: int, j: int| 0 <= i < j < t.len() implies end_of(#[trigger] t[i])
            <= start_of(#[trigger] t[j]) by {
            if j < k {
                assert(t[i] == s[i] && t[j] == s[j]);
            } else if j == k {
                assert(t[i] == s[i]);
            } else if i < k {
                assert(t[i] == s[i] && t[j] == s[j - 1]);
            } else if i == k {
                assert(t[j] == s[j - 1]);
            } else {
                assert(t[i] == s[i - 1] && t[j] == s[j - 1]);
            }
        }
        assert forall|i: int| 0 <= i < t.len() implies 0 <= start_of(#[trigger] t[i]) <= end_of(t[i])
            <= n by {
            if i < k {
                assert(t[i] == s[i]);
            } else if i > k {
                assert(t[i] == s[i - 1]);
            }
        }
    }
}

/// Putting an edit at its slot among sorted, placed edits changes the spliced
/// text as `patch_range` changes the current text.
proof fn lemma_splice_insert(orig: Seq<u8>, s: Seq<Edit>, k: int, e: Edit)
    requires
        placed(orig, s, 0, orig.len() as int),
        forall|i: int| 0 <= i < s.len() ==> valid_edit(orig, #[trigger] s[i]),
        valid_edit(orig, e),
        0 <= k <= s.len(),
        forall|i: int| 0 <= i < k ==> end_of(#[trigger] s[i]) <= start_of(e),
        forall|i: int| k <= i < s.len() ==> end_of(e) <= start_of(#[trigger] s[i]),
        k == slot(records(s), start_of(e), tier(e.patch.ordering)),
    ensures
        placed(orig, s.insert(k, e), 0, orig.len() as int),
        splice(orig, s.insert(k, e), 0, orig.len() as int) == step_text(
            splice(orig, s, 0, orig.len() as int),
            records(s),
            start_of(e),
            end_of(e),
            e.ins,
            e.patch.ordering,
        ),
        splice(orig, s, 0, orig.len() as int) == splice(orig, s.subrange(0, k), 0, start_of(e))
            + orig.subrange(start_of(e), end_of(e)) + splice(
            orig,
            s.subrange(k, s.len() as int),
            end_of(e),
            orig.len() as int,
        ),
        shifted(records(s), start_of(e), tier(e.patch.ordering), start_of(e)) == splice(
            orig,
            s.subrange(0, k),
            0,
            start_of(e),
        ).len(),
        placed(orig, s.subrange(0, k), 0, start_of(e)),
        placed(orig, s.subrange(k, s.len() as int), end_of(e), orig.len() as int),
{
    let n = orig.len() as int;
    let a = s.subrange(0, k);
    let b = s.subrange(k, s.len() as int);
    let t = s.insert(k, e);
    assert(s =~= a + b);
    assert(t =~= (a + seq![e]) + b);
    lemma_insert_placed(orig, s, k, e);
    lemma_insert_placed_all(orig, s, k, e);
    let ae = a + seq![e];
    // the new text
    lemma_splice_split(orig, ae, b, 0, end_of(e), n);
    assert(ae.drop_last() =~= a);
    assert(splice(orig, ae, 0, end_of(e)) == splice(orig, a, 0, start_of(e)) + e.ins
        + orig.subrange(end_of(e), end_of(e)));
    // the old text
    assert(placed(orig, b, start_of(e), n));
    lemma_splice_split(orig, a, b, 0, start_of(e), n);
    lemma_splice_head(orig, b, start_of(e), end_of(e), n);
    // where the edit lands
    let front = splice(orig, a, 0, start_of(e));
    assert forall|i: int| 0 <= i < a.len() implies valid_edit(orig, #[trigger] a[i]) by {
        assert(a[i] == s[i]);
    }
    lemma_splice_len(orig, a, 0, start_of(e));
    assert(records(a) =~= records(s).subrange(0, k));
    lemma_sums_prefix(records(s), records(a), k);
    let old_text = splice(orig, s, 0, n);
    let mid = orig.subrange(start_of(e), end_of(e));
    let back = splice(orig, b, end_of(e), n);
    assert(old_text =~= front + mid + back);
    let q = front.len() as int;
    assert(shifted(records(s), start_of(e), tier(e.patch.ordering), start_of(e)) == q);
    assert(shifted(records(s), start_of(e), tier(e.patch.ordering), end_of(e)) == q + mid.len());
    assert(old_text.subrange(0, q) =~= front);
    assert(old_text.subrange(q + mid.len(), old_text.len() as int) =~= back);
    assert(splice(orig, t, 0, n) =~= front + e.ins + back);
}

/// Applying non-overlapping edits one at a time, each in original
/// coordinates, gives the text that splicing them all into the original in one
/// pass gives, in the order of their start offsets, with the ordering and then
/// the call order breaking ties; the records come out in that order.
pub proof fn lemma_patch_composition(orig: Seq<u8>, edits: Seq<Edit>)
    requires
        forall|i: int| 0 <= i < edits.len() ==> valid_edit(orig, #[trigger] edits[i]),
        disjoint_edits(edits),
    ensures
        replay(orig, edits).0 == splice(orig, sort_edits(edits), 0, orig.len() as int),
        replay(orig, edits).1 == records(sort_edits(edits)),
        sorted_patches(records(sort_edits(edits))),
        placed(orig, sort_edits(edits), 0, orig.len() as int),
        sort_edits(edits).len() == edits.len(),
        drawn_from(sort_edits(edits), edits),
{
    lemma_composition_inv(orig, edits);
}

/// Every entry of `s` is one of `edits`.
pub open spec fn drawn_from(s: Seq<Edit>, edits: Seq<Edit>) -> bool {
    forall|i: int|
        0 <= i < s.len() ==> exists|j: int| 0 <= j < edits.len() && #[trigger] s[i] == edits[j]
}

proof fn lemma_prefix_conditions(orig: Seq<u8>, edits: Seq<Edit>)
    requires
        edits.len() > 0,
        forall|i: int| 0 <= i < edits.len() ==> valid_edit(orig, #[trigger] edits[i]),
        disjoint_edits(edits),
    ensures
        forall|i: int|
            0 <= i < edits.drop_last().len() ==> valid_edit(orig, #[trigger] edits.drop_last()[i]),
        disjoint_edits(edits.drop_last()),
{
    let prev = edits.drop_last();
    assert forall|i: int| 0 <= i < prev.len() implies valid_edit(orig, #[trigger] prev[i]) by {
        assert(prev[i] == edits[i]);
    }
    assert forall|i: int, j: int| 0 <= i < j < prev.len() implies if key_le(
        (#[trigger] prev[i]).patch,
        start_of(#[trigger] prev[j]),
        tier(prev[j].patch.ordering),
    ) {
        end_of(prev[i]) <= start_of(prev[j])
    } else {
        end_of(prev[j]) <= start_of(prev[i])
    } by {
        assert(prev[i] == edits[i] && prev[j] == edits[j]);
    }
}

/// The sorted earlier edits that go before the last one end before it, and
/// those that go after it start after it.
proof fn lemma_neighbours(orig: Seq<u8>, edits: Seq<Edit>, s: Seq<Edit>)
    requires
        edits.len() > 0,
        forall|i: int| 0 <= i < edits.len() ==> valid_edit(orig, #[trigger] edits[i]),
        disjoint_edits(edits),
        drawn_from(s, edits.drop_last()),
        sorted_patches(records(s)),
    ensures
        ({
            let e = edits.last();
            let k = slot(records(s), start_of(e), tier(e.patch.ordering));
            &&& 0 <= k <= s.len()
            &&& forall|i: int| 0 <= i < k ==> end_of(#[trigger] s[i]) <= start_of(e)
            &&& forall|i: int| k <= i < s.len() ==> end_of(e) <= start_of(#[trigger] s[i])
            &&& forall|i: int| 0 <= i < s.len() ==> valid_edit(orig, #[trigger] s[i])
        }),
{
    let prev = edits.drop_last();
    let e = edits.last();
    let rs = records(s);
    let k = slot(rs, start_of(e), tier(e.patch.ordering));
    lemma_slot_bounds(rs, start_of(e), tier(e.patch.ordering));
    let last = edits.len() - 1;
    assert(edits[last] == e);
    assert forall|i: int| 0 <= i < k implies end_of(#[trigger] s[i]) <= start_of(e) by {
        assert(rs[i] == s[i].patch);
        let j = choose|j: int| 0 <= j < prev.len() && s[i] == prev[j];
        assert(prev[j] == edits[j]);
        assert(key_le(edits[j].patch, start_of(edits[last]), tier(edits[last].patch.ordering)));
    }
    assert forall|i: int| k <= i < s.len() implies end_of(e) <= start_of(#[trigger] s[i]) by {
        assert(rs[i] == s[i].patch);
        let j = choose|j: int| 0 <= j < prev.len() && s[i] == prev[j];
        assert(prev[j] == edits[j]);
        assert(!key_le(edits[j].patch, start_of(edits[last]), tier(edits[last].patch.ordering)));
    }
    assert forall|i: int| 0 <= i < s.len() implies valid_edit(orig, #[trigger] s[i]) by {
        let j = choose|j: int| 0 <= j < prev.len() && s[i] == prev[j];
        assert(prev[j] == edits[j]);
    }
}

proof fn lemma_drawn_insert(edits: Seq<Edit>, s: Seq<Edit>, k: int)
    requires
        edits.len() > 0,
        drawn_from(s, edits.drop_last()),
        0 <= k <= s.len(),
    ensures
        drawn_from(s.insert(k, edits.last()), edits),
{
    let prev = edits.drop_last();
    let t = s.insert(k, edits.last());
    let last = edits.len() - 1;
    assert forall|i: int| 0 <= i < t.len() implies exists|j: int|
        0 <= j < edits.len() && #[trigger] t[i] == edits[j] by {
        if i < k {
            assert(t[i] == s[i]);
            let j = choose|j: int| 0 <= j < prev.len() && s[i] == prev[j];
            assert(prev[j] == edits[j]);
        } else if i == k {
            assert(t[i] == edits[last]);
        } else {
            assert(t[i] == s[i - 1]);
            let j = choose|j: int| 0 <= j < prev.len() && s[i - 1] == prev[j];
            assert(prev[j] == edits[j]);
        }
    }
}

proof fn lemma_composition_inv(orig: Seq<u8>, edits: Seq<Edit>)
    requires
        forall|i: int| 0 <= i < edits.len() ==> valid_edit(orig, #[trigger] edits[i]),
        disjoint_edits(edits),
    ensures
        replay(orig, edits).0 == splice(orig, sort_edits(edits), 0, orig.len() as int),
        replay(orig, edits).1 == records(sort_edits(edits)),
        sorted_patches(records(sort_edits(edits))),
        placed(orig, sort_edits(edits), 0, orig.len() as int),
        sort_edits(edits).len() == edits.len(),
        drawn_from(sort_edits(edits), edits),
    decreases edits.len(),
{
    let n = orig.len() as int;
    if edits.len() == 0 {
        assert(records(Seq::<Edit>::empty()) =~= Seq::<Patch>::empty());
        assert(orig.subrange(0, n) =~= orig);
    } else {
        let prev = edits.drop_last();
        let e = edits.last();
        lemma_prefix_conditions(orig, edits);
        lemma_composition_inv(orig, prev);
        let s = sort_edits(prev);
        let rs = records(s);
        let k = slot(rs, start_of(e), tier(e.patch.ordering));
        lemma_neighbours(orig, edits, s);
        assert(valid_edit(orig, edits[edits.len() - 1]));
        lemma_splice_insert(orig, s, k, e);
        let t = s.insert(k, e);
        assert(sort_edits(edits) == t);
        assert(records(t) =~= rs.insert(k, e.patch));
        assert(e.patch == patch_of(start_of(e), end_of(e), e.ins.len() as int, e.patch.ordering));
        lemma_insert_sorted(rs, k, e.patch);
        lemma_drawn_insert(edits, s, k);
    }
}

} // verus!

verus! {

/// A concatenation of two valid encodings has a character boundary where
/// they meet.
pub proof fn lemma_boundary_concat(b1: Seq<u8>, b2: Seq<u8>)
    requires
        valid_utf8(b1),
        valid_utf8(b2),
    ensures
        valid_utf8(b1 + b2),
        is_char_boundary(b1 + b2, b1.len() as int),
    decreases b1.len(),
{
    valid_utf8_concat(b1, b2);
    if b1.len() > 0 {
        let l = length_of_first_scalar(b1);
        assert(1 <= l <= b1.len());
        let rest = pop_first_scalar(b1);
        assert((b1 + b2)[0] == b1[0]);
        if l >= 2 {
            assert((b1 + b2)[1] == b1[1]);
        }
        if l >= 3 {
            assert((b1 + b2)[2] == b1[2]);
        }
        if l >= 4 {
            assert((b1 + b2)[3] == b1[3]);
        }
        assert(length_of_first_scalar(b1 + b2) == l);
        assert(pop_first_scalar(b1 + b2) =~= rest + b2);
        lemma_boundary_concat(rest, b2);
    }
}

/// Whether byte offset `b` of the encoding of `oc` lies between characters.
pub open spec fn on_char(oc: Seq<char>, b: int) -> bool {
    byte_index(oc, b) is Some
}

/// What `lemma_edits_fit` asks of the edits: each lies in the encoding of
/// `oc` between characters, inserts a valid encoding, and all the sizes sum
/// to at most `usize::MAX`.
pub open spec fn edits_on_chars(oc: Seq<char>, edits: Seq<Edit>) -> bool {
    &&& forall|i: int| 0 <= i < edits.len() ==> valid_edit(encode_utf8(oc), #[trigger] edits[i])
    &&& forall|i: int|
        0 <= i < edits.len() ==> on_char(oc, start_of(#[trigger] edits[i])) && on_char(
            oc,
            end_of(edits[i]),
        ) && valid_utf8(edits[i].ins)
    &&& inserted_sum(records(edits), edits.len() as int) <= usize::MAX
    &&& deleted_sum(records(edits), edits.len() as int) <= usize::MAX
}

proof fn lemma_piece_valid(oc: Seq<char>, x: int, n: int)
    requires
        on_char(oc, x),
        on_char(oc, n),
        x <= n,
    ensures
        valid_utf8(encode_utf8(oc).subrange(x, n)),
{
    let cx = byte_index(oc, x)->Some_0;
    let cn = byte_index(oc, n)->Some_0;
    if cn < cx {
        lemma_byte_pos_strict(oc, cn, cx);
    }
    lemma_byte_range(oc, cx, cn);
    encode_utf8_valid_utf8(oc.subrange(cx, cn));
}

/// A splice of valid encodings between characters is a valid encoding.
proof fn lemma_splice_valid(oc: Seq<char>, s: Seq<Edit>, x: int, n: int)
    requires
        placed(encode_utf8(oc), s, x, n),
        on_char(oc, x),
        on_char(oc, n),
        forall|i: int|
            0 <= i < s.len() ==> on_char(oc, start_of(#[trigger] s[i])) && on_char(oc, end_of(s[i]))
                && valid_utf8(s[i].ins),
    ensures
        valid_utf8(splice(encode_utf8(oc), s, x, n)),
    decreases s.len(),
{
    let orig = encode_utf8(oc);
    if s.len() == 0 {
        lemma_piece_valid(oc, x, n);
    } else {
        let e = s.last();
        assert(s[s.len() - 1] == e);
        lemma_placed_prefix(orig, s, x, n);
        assert forall|i: int| 0 <= i < s.drop_last().len() implies on_char(
            oc,
            start_of(#[trigger] s.drop_last()[i]),
        ) && on_char(oc, end_of(s.drop_last()[i])) && valid_utf8(s.drop_last()[i].ins) by {
            assert(s.drop_last()[i] == s[i]);
        }
        lemma_splice_valid(oc, s.drop_last(), x, start_of(e));
        lemma_piece_valid(oc, end_of(e), n);
        valid_utf8_concat(splice(orig, s.drop_last(), x, start_of(e)), e.ins);
        valid_utf8_concat(
            splice(orig, s.drop_last(), x, start_of(e)) + e.ins,
            orig.subrange(end_of(e), n),
        );
    }
}

proof fn lemma_sort_keeps_sums(edits: Seq<Edit>)
    ensures
        sort_edits(edits).len() == edits.len(),
        inserted_sum(records(sort_edits(edits)), edits.len() as int) == inserted_sum(
            records(edits),
            edits.len() as int,
        ),
        deleted_sum(records(sort_edits(edits)), edits.len() as int) == deleted_sum(
            records(edits),
            edits.len() as int,
        ),
    decreases edits.len(),
{
    if edits.len() > 0 {
        let prev = edits.drop_last();
        lemma_sort_keeps_sums(prev);
        let s = sort_edits(prev);
        let e = edits.last();
        let k = slot(records(s), start_of(e), tier(e.patch.ordering));
        lemma_take_while(records(s), start_of(e), tier(e.patch.ordering), 0);
        lemma_insert_keeps_sums(records(s), k, e.patch);
        assert(records(s.insert(k, e)) =~= records(s).insert(k, e.patch));
        assert(records(prev) =~= records(edits).drop_last());
        lemma_sums_prefix(records(edits), records(prev), prev.len() as int);
    }
}

proof fn lemma_call_sums_monotone(edits: Seq<Edit>, k: int)
    requires
        0 <= k <= edits.len(),
        forall|i: int| 0 <= i < edits.len() ==> start_of(#[trigger] edits[i]) <= end_of(edits[i]),
    ensures
        inserted_sum(records(edits.subrange(0, k)), k) <= inserted_sum(
            records(edits),
            edits.len() as int,
        ),
        deleted_sum(records(edits.subrange(0, k)), k) <= deleted_sum(
            records(edits),
            edits.len() as int,
        ),
    decreases edits.len() - k,
{
    let rs = records(edits);
    assert(records(edits.subrange(0, k)) =~= rs.subrange(0, k));
    lemma_sums_prefix(rs, rs.subrange(0, k), k);
    if k < edits.len() {
        lemma_call_sums_monotone(edits, k + 1);
        assert(records(edits.subrange(0, k + 1)) =~= rs.subrange(0, k + 1));
        lemma_sums_prefix(rs, rs.subrange(0, k + 1), k + 1);
        assert(rs[k] == edits[k].patch);
        assert(start_of(edits[k]) <= end_of(edits[k]));
    }
}

proof fn lemma_prefix_ok(orig: Seq<u8>, edits: Seq<Edit>, k: int)
    requires
        forall|i: int| 0 <= i < edits.len() ==> valid_edit(orig, #[trigger] edits[i]),
        disjoint_edits(edits),
        0 <= k < edits.len(),
    ensures
        forall|i: int|
            0 <= i < edits.subrange(0, k + 1).len() ==> valid_edit(
                orig,
                #[trigger] edits.subrange(0, k + 1)[i],
            ),
        disjoint_edits(edits.subrange(0, k + 1)),
        edits.subrange(0, k + 1).drop_last() == edits.subrange(0, k),
        edits.subrange(0, k + 1).last() == edits[k],
{
    let pre = edits.subrange(0, k + 1);
    assert(pre.drop_last() =~= edits.subrange(0, k));
    assert forall|i: int| 0 <= i < pre.len() implies valid_edit(orig, #[trigger] pre[i]) by {
        assert(pre[i] == edits[i]);
    }
    assert forall|i: int, j: int| 0 <= i < j < pre.len() implies if key_le(
        (#[trigger] pre[i]).patch,
        start_of(#[trigger] pre[j]),
        tier(pre[j].patch.ordering),
    ) {
        end_of(pre[i]) <= start_of(pre[j])
    } else {
        end_of(pre[j]) <= start_of(pre[i])
    } by {
        assert(pre[i] == edits[i] && pre[j] == edits[j]);
    }
}

proof fn lemma_drawn_on_chars(oc: Seq<char>, edits: Seq<Edit>, k: int, s: Seq<Edit>)
    requires
        edits_on_chars(oc, edits),
        0 <= k <= edits.len(),
        drawn_from(s, edits.subrange(0, k)),
    ensures
        forall|i: int|
            0 <= i < s.len() ==> on_char(oc, start_of(#[trigger] s[i])) && on_char(oc, end_of(s[i]))
                && valid_utf8(s[i].ins),
{
    let prev = edits.subrange(0, k);
    assert forall|i: int| 0 <= i < s.len() implies on_char(oc, start_of(#[trigger] s[i])) && on_char(
        oc,
        end_of(s[i]),
    ) && valid_utf8(s[i].ins) by {
        let j = choose|j: int| 0 <= j < prev.len() && s[i] == prev[j];
        assert(prev[j] == edits[j]);
    }
}

/// Where an edit lands in a splice of valid pieces, the text has character
/// boundaries at both ends of the replaced bytes.
proof fn lemma_landing_boundaries(oc: Seq<char>, s: Seq<Edit>, kk: int, e: Edit)
    requires
        0 <= kk <= s.len(),
        placed(encode_utf8(oc), s.subrange(0, kk), 0, start_of(e)),
        placed(encode_utf8(oc), s.subrange(kk, s.len() as int), end_of(e), encode_utf8(oc).len() as int),
        forall|i: int|
            0 <= i < s.len() ==> on_char(oc, start_of(#[trigger] s[i])) && on_char(oc, end_of(s[i]))
                && valid_utf8(s[i].ins),
        on_char(oc, start_of(e)),
        on_char(oc, end_of(e)),
        start_of(e) <= end_of(e),
    ensures
        ({
            let orig = encode_utf8(oc);
            let front = splice(orig, s.subrange(0, kk), 0, start_of(e));
            let mid = orig.subrange(start_of(e), end_of(e));
            let back = splice(orig, s.subrange(kk, s.len() as int), end_of(e), orig.len() as int);
            &&& is_char_boundary(front + mid + back, front.len() as int)
            &&& is_char_boundary(front + mid + back, (front.len() + mid.len()) as int)
        }),
{
    let orig = encode_utf8(oc);
    let n = orig.len() as int;
    let a = s.subrange(0, kk);
    let b = s.subrange(kk, s.len() as int);
    let front = splice(orig, a, 0, start_of(e));
    let mid = orig.subrange(start_of(e), end_of(e));
    let back = splice(orig, b, end_of(e), n);
    assert forall|i: int| 0 <= i < a.len() implies on_char(oc, start_of(#[trigger] a[i])) && on_char(
        oc,
        end_of(a[i]),
    ) && valid_utf8(a[i].ins) by {
        assert(a[i] == s[i]);
    }
    assert forall|i: int| 0 <= i < b.len() implies on_char(oc, start_of(#[trigger] b[i])) && on_char(
        oc,
        end_of(b[i]),
    ) && valid_utf8(b[i].ins) by {
        assert(b[i] == s[kk + i]);
    }
    assert(on_char(oc, 0)) by {
        assert(oc.subrange(0, 0) =~= Seq::<char>::empty());
        assert(encode_utf8(Seq::<char>::empty()) =~= Seq::<u8>::empty());
        lemma_byte_index_at(oc, 0);
    }
    assert(on_char(oc, n)) by {
        assert(oc.subrange(0, oc.len() as int) =~= oc);
        lemma_byte_index_at(oc, oc.len() as int);
    }
    lemma_splice_valid(oc, a, 0, start_of(e));
    lemma_splice_valid(oc, b, end_of(e), n);
    lemma_piece_valid(oc, start_of(e), end_of(e));
    valid_utf8_concat(mid, back);
    valid_utf8_concat(front, mid);
    lemma_boundary_concat(front, mid + back);
    lemma_boundary_concat(front + mid, back);
    assert(front + mid + back =~= front + (mid + back));
}

proof fn lemma_prefix_sums(edits: Seq<Edit>, k: int)
    requires
        0 <= k < edits.len(),
        forall|i: int| 0 <= i < edits.len() ==> start_of(#[trigger] edits[i]) <= end_of(edits[i]),
        forall|i: int| 0 <= i < edits.len() ==> (#[trigger] edits[i]).patch.insertion_size == edits[i].ins.len(),
    ensures
        inserted_sum(records(sort_edits(edits.subrange(0, k))), k) + edits[k].ins.len()
            <= inserted_sum(records(edits), edits.len() as int),
        deleted_sum(records(sort_edits(edits.subrange(0, k))), k) + (end_of(edits[k]) - start_of(
            edits[k],
        )) <= deleted_sum(records(edits), edits.len() as int),
{
    let prev = edits.subrange(0, k);
    let pre = edits.subrange(0, k + 1);
    let e = edits[k];
    lemma_sort_keeps_sums(prev);
    lemma_call_sums_monotone(edits, k + 1);
    assert(records(pre) =~= records(prev).push(e.patch));
    assert(records(prev).push(e.patch).drop_last() =~= records(prev));
    lemma_sums_prefix(records(pre), records(prev), k);
}

/// Edits that do not overlap, that lie between characters of the original
/// text and insert valid encodings, always fit: applied in call order to a
/// patchwork that starts with no records, each one meets `patch_fits`.
#[verifier::rlimit(100)]
pub proof fn lemma_edits_fit(oc: Seq<char>, edits: Seq<Edit>, k: int)
    requires
        edits_on_chars(oc, edits),
        disjoint_edits(edits),
        0 <= k < edits.len(),
    ensures
        ({
            let (t, ps) = replay(encode_utf8(oc), edits.subrange(0, k));
            let e = edits[k];
            fits_bytes(t, ps, start_of(e), end_of(e), e.ins.len(), e.patch.ordering)
        }),
{
    let orig = encode_utf8(oc);
    let pre = edits.subrange(0, k + 1);
    let prev = edits.subrange(0, k);
    let e = edits[k];
    lemma_prefix_ok(orig, edits, k);
    lemma_prefix_conditions(orig, pre);
    lemma_composition_inv(orig, prev);
    let s = sort_edits(prev);
    let kk = slot(records(s), start_of(e), tier(e.patch.ordering));
    lemma_neighbours(orig, pre, s);
    assert(valid_edit(orig, edits[k]));
    lemma_splice_insert(orig, s, kk, e);
    lemma_drawn_on_chars(oc, edits, k, s);
    lemma_landing_boundaries(oc, s, kk, e);
    assert forall|i: int| 0 <= i < edits.len() implies start_of(#[trigger] edits[i]) <= end_of(
        edits[i],
    ) by {
        assert(valid_edit(orig, edits[i]));
    }
    assert forall|i: int| 0 <= i < edits.len() implies (#[trigger] edits[i]).patch.insertion_size
        == edits[i].ins.len() by {
        assert(valid_edit(orig, edits[i]));
    }
    lemma_prefix_sums(edits, k);
}

} // verus!

verus! {

/// Insertions that all stand at one offset never overlap; the composition
/// law then orders their texts by ordering, and by call order among equals.
pub proof fn lemma_inserts_at_one_offset_disjoint(edits: Seq<Edit>, o: int)
    requires
        forall|i: int|
            0 <= i < edits.len() ==> start_of(#[trigger] edits[i]) == o && end_of(edits[i]) == o,
    ensures
        disjoint_edits(edits),
{
}

} // verus!
