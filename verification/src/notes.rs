//! The note document for a section: an ordered list of text and tab blocks.
//! Tab blocks are a fixed grid (`strings` rows × `width` columns, `-` for an
//! empty cell); the bottom row is the lowest string.
use vstd::prelude::*;
use crate::text::{chars_of, decimal, push_decimal, push_str, trim, trim_chars};

verus! {

#[derive(Debug, Clone, PartialEq)]
pub enum Block {
    Text { text: String },
    Tab { strings: usize, width: usize, rows: Vec<String> },
}

#[derive(Debug, Clone, PartialEq)]
pub struct NotesDoc {
    pub blocks: Vec<Block>,
}

impl Default for NotesDoc {
    fn default() -> (r: NotesDoc)
        ensures
            r.blocks@.len() == 0,
    {
        NotesDoc { blocks: Vec::new() }
    }
}

/// A block holds nothing worth storing: whitespace-only text.
pub open spec fn block_is_blank(b: Block) -> bool {
    match b {
        Block::Text { text } => trim(text@).len() == 0,
        Block::Tab { .. } => false,
    }
}

/// What `{s:?}` renders for a string: the quoted, escaped form.
pub uninterp spec fn debug_rendering(s: Seq<char>) -> Seq<char>;

/// Formats `s` with `{:?}` (the standard library's quoted, escaped form); the
/// rendering is named, not restated.
#[verifier::external_body]
fn debug_quoted(s: &String) -> (r: String)
    ensures
        r@ == debug_rendering(s@),
{
    format!("{s:?}")
}

/// Index of the first row whose character count is not `width`, if any.
pub open spec fn first_bad_row(rows: Seq<String>, width: nat) -> Option<int> {
    if exists|k: int| 0 <= k < rows.len() && (#[trigger] rows[k])@.len() != width {
        Some(choose|k: int| 0 <= k < rows.len() && (#[trigger] rows[k])@.len() != width
            && forall|j: int| 0 <= j < k ==> (#[trigger] rows[j])@.len() == width)
    } else {
        None
    }
}

pub open spec fn rows_msg(n_rows: nat, strings: nat) -> Seq<char> {
    "tab: "@ + decimal(n_rows) + " rows for "@ + decimal(strings) + " strings"@
}

pub open spec fn width_msg(row: Seq<char>, width: nat) -> Seq<char> {
    "tab: row "@ + debug_rendering(row) + " is not "@ + decimal(width) + " wide"@
}

/// The grid error a single block carries, if any.
pub open spec fn block_error(b: Block) -> Option<Seq<char>> {
    match b {
        Block::Text { .. } => None,
        Block::Tab { strings, width, rows } => if rows@.len() != strings {
            Some(rows_msg(rows@.len(), strings as nat))
        } else {
            match first_bad_row(rows@, width as nat) {
                Some(k) => Some(width_msg(rows@[k]@, width as nat)),
                None => None,
            }
        },
    }
}

/// The error of the first malformed block, scanning in order.
pub open spec fn doc_error(blocks: Seq<Block>) -> Option<Seq<char>>
    decreases blocks.len(),
{
    if blocks.len() == 0 {
        None
    } else {
        match block_error(blocks[0]) {
            Some(e) => Some(e),
            None => doc_error(blocks.drop_first()),
        }
    }
}

proof fn lemma_doc_error_prefix(blocks: Seq<Block>, i: int)
    requires
        0 <= i < blocks.len(),
        forall|j: int| 0 <= j < i ==> block_error(#[trigger] blocks[j]) is None,
    ensures
        doc_error(blocks) == doc_error(blocks.subrange(i, blocks.len() as int)),
    decreases i,
{
    if i == 0 {
        assert(blocks.subrange(0, blocks.len() as int) == blocks);
    } else {
        assert(block_error(blocks[0]) is None);
        let rest = blocks.drop_first();
        assert forall|j: int| 0 <= j < i - 1 implies block_error(#[trigger] rest[j]) is None by {
            assert(rest[j] == blocks[j + 1]);
        }
        lemma_doc_error_prefix(rest, i - 1);
        assert(rest.subrange(i - 1, rest.len() as int) == blocks.subrange(i, blocks.len() as int));
    }
}

proof fn lemma_doc_error_none(blocks: Seq<Block>)
    requires
        forall|j: int| 0 <= j < blocks.len() ==> block_error(#[trigger] blocks[j]) is None,
    ensures
        doc_error(blocks) is None,
    decreases blocks.len(),
{
    if blocks.len() > 0 {
        let rest = blocks.drop_first();
        assert(block_error(blocks[0]) is None);
        assert forall|j: int| 0 <= j < rest.len() implies block_error(#[trigger] rest[j]) is None by {
            assert(rest[j] == blocks[j + 1]);
        }
        lemma_doc_error_none(rest);
    }
}

impl NotesDoc {
    /// True when there's nothing worth storing: no blocks, or only blank text.
    pub fn is_empty(&self) -> (r: bool)
        ensures
            r == forall|k: int| 0 <= k < self.blocks@.len() ==> block_is_blank(#[trigger] self.blocks@[k]),
    {
        let mut i: usize = 0;
        while i < self.blocks.len()
            invariant
                i <= self.blocks@.len(),
                forall|k: int| 0 <= k < i ==> block_is_blank(#[trigger] self.blocks@[k]),
            decreases self.blocks.len() - i,
        {
            match &self.blocks[i] {
                Block::Text { text } => {
                    let t = trim_chars(&chars_of(text.as_str()));
                    if t.len() > 0 {
                        assert(!block_is_blank(self.blocks@[i as int]));
                        return false;
                    }
                }
                Block::Tab { .. } => {
                    assert(!block_is_blank(self.blocks@[i as int]));
                    return false;
                }
            }
            i = i + 1;
        }
        true
    }

    /// Enforce the grid invariants on every tab block: `rows.len() == strings`
    /// and every row is exactly `width` characters. The error names the first
    /// offending block.
    pub fn validate(&self) -> (r: Result<(), String>)
        ensures
            match r {
                Ok(()) => doc_error(self.blocks@) is None,
                Err(e) => doc_error(self.blocks@) == Some(e@),
            },
    {
        let mut i: usize = 0;
        while i < self.blocks.len()
            invariant
                i <= self.blocks@.len(),
                forall|j: int| 0 <= j < i ==> block_error(#[trigger] self.blocks@[j]) is None,
            decreases self.blocks.len() - i,
        {
            proof {
                lemma_doc_error_prefix(self.blocks@, i as int);
                assert(self.blocks@.subrange(i as int, self.blocks@.len() as int)[0] == self.blocks@[i as int]);
            }
            if let Block::Tab { strings, width, rows } = &self.blocks[i] {
                if rows.len() != *strings {
                    let mut msg = String::new();
                    push_str(&mut msg, "tab: ");
                    push_decimal(&mut msg, rows.len() as u64);
                    push_str(&mut msg, " rows for ");
                    push_decimal(&mut msg, *strings as u64);
                    push_str(&mut msg, " strings");
                    return Err(msg);
                }
                let mut k: usize = 0;
                while k < rows.len()
                    invariant
                        k <= rows@.len(),
                        i < self.blocks@.len(),
                        self.blocks@[i as int] == (Block::Tab { strings: *strings, width: *width, rows: *rows }),
                        rows@.len() == *strings,
                        forall|j: int| 0 <= j < i ==> block_error(#[trigger] self.blocks@[j]) is None,
                        doc_error(self.blocks@) == doc_error(self.blocks@.subrange(i as int, self.blocks@.len() as int)),
                        forall|j: int| 0 <= j < k ==> (#[trigger] rows@[j])@.len() == *width,
                    decreases rows.len() - k,
                {
                    let n = chars_of(rows[k].as_str()).len();
                    if n != *width {
                        proof {
                            let f = first_bad_row(rows@, *width as nat);
                            assert(f is Some);
                            let fk = f->0;
                            if fk < k {
                                assert(rows@[fk]@.len() == *width);
                            } else if fk > k {
                                assert(rows@[k as int]@.len() != *width);
                            }
                            assert(fk == k);
                            assert(block_error(self.blocks@[i as int]) == Some(width_msg(rows@[k as int]@, *width as nat)));
                        }
                        let mut msg = String::new();
                        push_str(&mut msg, "tab: row ");
                        let q = debug_quoted(&rows[k]);
                        push_str(&mut msg, q.as_str());
                        push_str(&mut msg, " is not ");
                        push_decimal(&mut msg, *width as u64);
                        push_str(&mut msg, " wide");
                        assert(msg@ == width_msg(rows@[k as int]@, *width as nat));
                        return Err(msg);
                    }
                    k = k + 1;
                }
                assert(first_bad_row(rows@, *width as nat) is None);
            }
            i = i + 1;
        }
        proof {
            lemma_doc_error_none(self.blocks@);
        }
        Ok(())
    }
}

} // verus!
