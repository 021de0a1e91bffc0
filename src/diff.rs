use vstd::prelude::*;

verus! {

/// One piece of the difference between an expected and an actual text.
#[derive(Debug, Clone, PartialEq, Eq)]
pub enum DiffChunk {
    Equal(String),
    Delete(String),
    Insert(String),
}

/// The text that the chunks say was there before: the equal and deleted parts.
pub open spec fn old_side(cs: Seq<DiffChunk>) -> Seq<char>
    decreases cs.len(),
{
    if cs.len() == 0 {
        Seq::<char>::empty()
    } else {
        old_side(cs.drop_last()) + match cs.last() {
            DiffChunk::Equal(t) => t@,
            DiffChunk::Delete(t) => t@,
            DiffChunk::Insert(_) => Seq::<char>::empty(),
        }
    }
}

/// The text that the chunks say is there now: the equal and inserted parts.
pub open spec fn new_side(cs: Seq<DiffChunk>) -> Seq<char>
    decreases cs.len(),
{
    if cs.len() == 0 {
        Seq::<char>::empty()
    } else {
        new_side(cs.drop_last()) + match cs.last() {
            DiffChunk::Equal(t) => t@,
            DiffChunk::Delete(_) => Seq::<char>::empty(),
            DiffChunk::Insert(t) => t@,
        }
    }
}

/// Terminal escapes: underlined red, underlined green, reset.
pub open spec fn deleted_style() -> Seq<char> {
    seq!['\x1b', '[', '4', 'm', '\x1b', '[', '3', '1', 'm']
}

pub open spec fn inserted_style() -> Seq<char> {
    seq!['\x1b', '[', '4', 'm', '\x1b', '[', '3', '2', 'm']
}

pub open spec fn reset_style() -> Seq<char> {
    seq!['\x1b', '[', '0', 'm']
}

/// A chunk as the report shows it: equal text plain, deleted text underlined
/// red, inserted text underlined green.
pub open spec fn rendered_chunk(c: DiffChunk) -> Seq<char> {
    match c {
        DiffChunk::Equal(t) => t@,
        DiffChunk::Delete(t) => deleted_style() + t@ + reset_style(),
        DiffChunk::Insert(t) => inserted_style() + t@ + reset_style(),
    }
}

pub open spec fn rendered(cs: Seq<DiffChunk>) -> Seq<char>
    decreases cs.len(),
{
    if cs.len() == 0 {
        Seq::<char>::empty()
    } else {
        rendered(cs.drop_last()) + rendered_chunk(cs.last())
    }
}

/// Relies on `dissimilar::diff`: its equal and deleted chunks are consecutive
/// slices of `text1` and its equal and inserted chunks consecutive slices of
/// `text2`, together covering both texts.
#[verifier::external_body]
fn diff_chunks(text1: &str, text2: &str) -> (r: Vec<DiffChunk>)
    ensures
        old_side(r@) == text1@,
        new_side(r@) == text2@,
{
    dissimilar::diff(text1, text2).into_iter().map(
        |chunk| match chunk {
            dissimilar::Chunk::Equal(t) => DiffChunk::Equal(t.to_string()),
            dissimilar::Chunk::Delete(t) => DiffChunk::Delete(t.to_string()),
            dissimilar::Chunk::Insert(t) => DiffChunk::Insert(t.to_string()),
        },
    ).collect()
}

/// Renders the chunks for a terminal.
pub fn format_chunks(chunks: Vec<DiffChunk>) -> (r: String)
    ensures
        r@ == rendered(chunks@),
{
    let mut buf = String::new();
    let mut i: usize = 0;
    while i < chunks.len()
        invariant
            i <= chunks@.len(),
            buf@ == rendered(chunks@.subrange(0, i as int)),
        decreases chunks.len() - i,
    {
        let ghost before = buf@;
        match &chunks[i] {
            DiffChunk::Equal(t) => {
                buf.append(t.as_str());
            },
            DiffChunk::Delete(t) => {
                buf.append("\x1b[4m\x1b[31m");
                buf.append(t.as_str());
                buf.append("\x1b[0m");
                proof {
                    reveal_strlit("\x1b[4m\x1b[31m");
                    reveal_strlit("\x1b[0m");
                    assert("\x1b[4m\x1b[31m"@ =~= deleted_style());
                    assert("\x1b[0m"@ =~= reset_style());
                }
            },
            DiffChunk::Insert(t) => {
                buf.append("\x1b[4m\x1b[32m");
                buf.append(t.as_str());
                buf.append("\x1b[0m");
                proof {
                    reveal_strlit("\x1b[4m\x1b[32m");
                    reveal_strlit("\x1b[0m");
                    assert("\x1b[4m\x1b[32m"@ =~= inserted_style());
                    assert("\x1b[0m"@ =~= reset_style());
                }
            },
        }
        proof {
            let next = chunks@.subrange(0, i + 1);
            assert(next.drop_last() =~= chunks@.subrange(0, i as int));
            assert(next.last() == chunks@[i as int]);
            assert(buf@ =~= rendered(next));
        }
        i = i + 1;
    }
    proof {
        assert(chunks@.subrange(0, chunks@.len() as int) =~= chunks@);
    }
    buf
}

/// The difference between `expected` and `actual`, rendered for a terminal:
/// the text of chunks that spell `expected` on their old side and `actual` on
/// their new side.
pub fn diff_report(expected: &str, actual: &str) -> (r: String)
    ensures
        exists|cs: Seq<DiffChunk>|
            old_side(cs) == expected@ && new_side(cs) == actual@ && r@ == rendered(cs),
{
    let chunks = diff_chunks(expected, actual);
    let ghost cs = chunks@;
    format_chunks(chunks)
}

} // verus!
