//! Splitting card text into blocks of plain (markdown) text and inline math.
//!
//! Card text may embed a math expression between a `` `math `` opener and a
//! closing backtick. The parser walks the text once: outside math it looks for
//! the opener, inside math it looks for the closing backtick; the end of the
//! text closes whatever block is open, and a final empty block is dropped.

use vstd::prelude::*;
use vstd::string::StrSliceExecFns;

verus! {

/// One block of card text.
#[derive(Debug, PartialEq)]
pub enum TextBlock {
    /// Plain text, rendered as markdown.
    Raw(String),
    /// An inline math expression.
    AsciiMath(String),
}

/// The mathematical value of a [`TextBlock`].
pub enum BlockModel {
    Raw(Seq<char>),
    AsciiMath(Seq<char>),
}

impl View for TextBlock {
    type V = BlockModel;

    open spec fn view(&self) -> BlockModel {
        match self {
            TextBlock::Raw(s) => BlockModel::Raw(s@),
            TextBlock::AsciiMath(s) => BlockModel::AsciiMath(s@),
        }
    }
}

impl DeepView for TextBlock {
    type V = BlockModel;

    open spec fn deep_view(&self) -> BlockModel {
        self.view()
    }
}

/// The text a block carries, whichever kind it is.
pub open spec fn block_text(b: BlockModel) -> Seq<char> {
    match b {
        BlockModel::Raw(t) => t,
        BlockModel::AsciiMath(t) => t,
    }
}

/// The sequence of model values of a sequence of blocks.
pub open spec fn blocks_view(s: Seq<TextBlock>) -> Seq<BlockModel> {
    Seq::new(s.len(), |i: int| s[i]@)
}

impl TextBlock {
    /// Whether the block carries no text.
    pub fn is_empty(&self) -> (r: bool)
        ensures
            r == (block_text(self@).len() == 0),
    {
        match self {
            TextBlock::Raw(text) => text.as_str().is_empty(),
            TextBlock::AsciiMath(text) => text.as_str().is_empty(),
        }
    }
}

/// How far a match attempt got: the full pattern, or the count of characters
/// consumed when it stopped short.
#[derive(PartialEq, Eq, Structural, Debug)]
pub enum Parsed {
    Yes(usize),
    No(usize),
}

/// How many leading characters of `pat` stand in `text` from position `from`
/// on: matching stops at the first difference or at the end of either side.
pub open spec fn match_len(pat: Seq<char>, text: Seq<char>, from: int) -> nat
    decreases pat.len(),
{
    if pat.len() == 0 {
        0
    } else if from < 0 || from >= text.len() {
        0
    } else if text[from] != pat[0] {
        0
    } else {
        1 + match_len(pat.drop_first(), text, from + 1)
    }
}

/// The opener of an inline math expression.
pub open spec fn math_pat() -> Seq<char> {
    seq!['`', 'm', 'a', 't', 'h', ' ']
}

/// Attempts to read `s` at position `from` of `text`: `Yes` with the length of
/// `s` on a full match, else `No` with one more than the count of matching
/// characters — the characters a scan of the text consumes either way.
pub fn match_str(s: &str, text: &str, from: usize) -> (r: Parsed)
    requires
        from <= text@.len(),
    ensures
        match_len(s@, text@, from as int) <= s@.len(),
        match_len(s@, text@, from as int) == s@.len() ==> r == Parsed::Yes(s@.len() as usize),
        match_len(s@, text@, from as int) < s@.len() ==> r == Parsed::No(
            (match_len(s@, text@, from as int) + 1) as usize,
        ),
{
    let n = text.unicode_len();
    let p = s.unicode_len();
    let mut k: usize = 0;
    while k < p
        invariant
            k <= p,
            p == s@.len(),
            n == text@.len(),
            from <= n,
            k > 0 ==> from + k <= n,
            forall|j: int| 0 <= j < k ==> text@[from + j] == #[trigger] s@[j],
        decreases p - k,
    {
        if k >= n - from {
            proof {
                lemma_match_len_at(s@, text@, from as int, k as int);
            }
            return Parsed::No(k + 1);
        }
        let tc = text.get_char(from + k);
        let pc = s.get_char(k);
        if tc != pc {
            proof {
                lemma_match_len_at(s@, text@, from as int, k as int);
            }
            return Parsed::No(k + 1);
        }
        k = k + 1;
    }
    proof {
        lemma_match_len_at(s@, text@, from as int, p as int);
    }
    Parsed::Yes(p)
}

/// `match_len` is pinned down by the characterization its callers establish.
proof fn lemma_match_len_at(pat: Seq<char>, text: Seq<char>, from: int, m: int)
    requires
        0 <= from,
        0 <= m <= pat.len(),
        m > 0 ==> from + m <= text.len(),
        forall|k: int| 0 <= k < m ==> text[from + k] == #[trigger] pat[k],
        m < pat.len() ==> (from + m >= text.len() || text[from + m] != pat[m]),
    ensures
        match_len(pat, text, from) == m,
    decreases m,
{
    if m == 0 {
    } else {
        assert(text[from + 0] == pat[0]);
        let p1 = pat.drop_first();
        assert forall|k: int| 0 <= k < m - 1 implies text[(from + 1) + k] == #[trigger] p1[k] by {
            assert(p1[k] == pat[k + 1]);
            assert(text[from + (k + 1)] == pat[k + 1]);
            assert((from + 1) + k == from + (k + 1));
        }
        if m - 1 < p1.len() {
            assert(p1[m - 1] == pat[m]);
        }
        lemma_match_len_at(p1, text, from + 1, m - 1);
    }
}

/// The blocks that the parser, standing in the given state, produces from the
/// rest of the text. `math` says whether a math block is open; `start` is
/// where the open block began; `end` is the position the scan has reached.
pub open spec fn rich_from(text: Seq<char>, math: bool, start: int, end: int) -> Seq<BlockModel>
    decreases text.len() - end,
{
    if !(0 <= start <= end <= text.len()) {
        Seq::empty()
    } else if end == text.len() {
        let tail = text.subrange(start, end);
        if tail.len() == 0 {
            Seq::empty()
        } else if math {
            seq![BlockModel::AsciiMath(tail)]
        } else {
            seq![BlockModel::Raw(tail)]
        }
    } else if math {
        if text[end] == '`' {
            seq![BlockModel::AsciiMath(text.subrange(start, end))] + rich_from(
                text,
                false,
                end + 1,
                end + 1,
            )
        } else {
            rich_from(text, true, start, end + 1)
        }
    } else {
        let m = match_len(math_pat(), text, end) as int;
        if m == math_pat().len() {
            let e = if end + m <= text.len() {
                end + m
            } else {
                text.len() as int
            };
            seq![BlockModel::Raw(text.subrange(start, end))] + rich_from(text, true, e, e)
        } else {
            let e = if end + m + 1 <= text.len() {
                end + m + 1
            } else {
                text.len() as int
            };
            rich_from(text, false, start, e)
        }
    }
}

/// The blocks of a whole card text.
pub open spec fn rich_model(text: Seq<char>) -> Seq<BlockModel> {
    rich_from(text, false, 0, 0)
}

/// Splits card text into raw-text and math blocks.
pub fn parse_rich_text(text: &str) -> (r: Vec<TextBlock>)
    ensures
        blocks_view(r@) == rich_model(text@),
{
    let n = text.unicode_len();
    let mut blocks: Vec<TextBlock> = Vec::new();
    let mut math = false;
    let mut start: usize = 0;
    let mut end: usize = 0;
    proof {
        assert(blocks_view(blocks@) =~= Seq::<BlockModel>::empty());
    }
    while end < n
        invariant
            n == text@.len(),
            start <= end <= n,
            blocks_view(blocks@) + rich_from(text@, math, start as int, end as int) == rich_model(
                text@,
            ),
        decreases n - end,
    {
        if math {
            let c = text.get_char(end);
            if c == '`' {
                let ghost old_blocks = blocks@;
                let piece = text.substring_char(start, end).to_owned();
                let ghost pm = BlockModel::AsciiMath(piece@);
                blocks.push(TextBlock::AsciiMath(piece));
                proof {
                    lemma_blocks_push(old_blocks, pm);
                    assert(blocks@ == old_blocks.push(blocks@[old_blocks.len() as int]));
                    assert(blocks_view(blocks@) + rich_from(text@, false, end + 1, end + 1)
                        =~= rich_model(text@));
                }
                math = false;
                start = end + 1;
                end = end + 1;
            } else {
                end = end + 1;
            }
        } else {
            let m = match_str("`math ", text, end);
            proof {
                reveal_strlit("`math ");
                assert("`math "@ =~= math_pat());
            }
            match m {
                Parsed::Yes(k) => {
                    let ghost old_blocks = blocks@;
                    let piece = text.substring_char(start, end).to_owned();
                    let ghost pm = BlockModel::Raw(piece@);
                    blocks.push(TextBlock::Raw(piece));
                    let next = if k > n - end {
                        n
                    } else {
                        end + k
                    };
                    proof {
                        lemma_blocks_push(old_blocks, pm);
                        assert(blocks@ == old_blocks.push(blocks@[old_blocks.len() as int]));
                        assert(blocks_view(blocks@) + rich_from(text@, true, next as int, next as int)
                            =~= rich_model(text@));
                    }
                    math = true;
                    start = next;
                    end = next;
                },
                Parsed::No(k) => {
                    let next = if k > n - end {
                        n
                    } else {
                        end + k
                    };
                    proof {
                        assert(rich_from(text@, false, start as int, next as int) == rich_from(
                            text@,
                            false,
                            start as int,
                            end as int,
                        ));
                    }
                    end = next;
                },
            }
        }
    }
    let ghost old_blocks = blocks@;
    let tail = text.substring_char(start, end).to_owned();
    if !tail.as_str().is_empty() {
        let ghost tm = if math {
            BlockModel::AsciiMath(tail@)
        } else {
            BlockModel::Raw(tail@)
        };
        let block = if math {
            TextBlock::AsciiMath(tail)
        } else {
            TextBlock::Raw(tail)
        };
        blocks.push(block);
        proof {
            lemma_blocks_push(old_blocks, tm);
            assert(blocks@ == old_blocks.push(blocks@[old_blocks.len() as int]));
            assert(blocks_view(blocks@) =~= rich_model(text@));
        }
    } else {
        proof {
            assert(blocks_view(blocks@) =~= rich_model(text@));
        }
    }
    blocks
}

proof fn lemma_blocks_push(s: Seq<TextBlock>, xm: BlockModel)
    ensures
        forall|x: TextBlock| x@ == xm ==> blocks_view(#[trigger] s.push(x)) == blocks_view(s).push(
            xm,
        ),
{
    assert forall|x: TextBlock| x@ == xm implies blocks_view(#[trigger] s.push(x)) == blocks_view(
        s,
    ).push(xm) by {
        assert forall|k: int| 0 <= k < blocks_view(s.push(x)).len()
            implies blocks_view(s.push(x))[k] == blocks_view(s).push(xm)[k] by {
            if k < s.len() {
                assert(s.push(x)[k] == s[k]);
            } else {
                assert(s.push(x)[k] == x);
            }
        }
        assert(blocks_view(s.push(x)) =~= blocks_view(s).push(xm));
    }
}

} // verus!
