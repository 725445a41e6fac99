use vstd::prelude::*;

verus! {

use crate::buffer::{
    Buffer,
    line_of_offset_spec,
    offset_of_line_spec,
    line_end_spec,
    lemma_line_start_mono,
    lemma_line_start_bounds,
};
use crate::mode::VisualMode;
use crate::selection::{Selection, SelRegion, region_min, region_max, regions_compat};


/// The left column and exclusive right column of a block-wise range:
/// the smaller and one past the larger of the two endpoint columns.
pub open spec fn block_cols(text: Seq<char>, mn: int, mx: int) -> (int, int) {
    let c1 = mn - offset_of_line_spec(text, line_of_offset_spec(text, mn));
    let c2 = mx - offset_of_line_spec(text, line_of_offset_spec(text, mx));
    (
        if c1 <= c2 {
            c1
        } else {
            c2
        },
        (if c1 <= c2 {
            c2
        } else {
            c1
        }) + 1,
    )
}

/// The rectangle rows over the lines `[l1, line)`: on every line that
/// reaches the left column, the span from the left column to the
/// right one, clamped to the line end.
pub open spec fn block_rows(text: Seq<char>, left: int, right: int, l1: int, line: int) -> Seq<
    SelRegion,
>
    decreases line - l1,
{
    if line <= l1 {
        Seq::empty()
    } else {
        let pre = block_rows(text, left, right, l1, line - 1);
        let ls = offset_of_line_spec(text, line - 1);
        let le = line_end_spec(text, line - 1, true);
        if le - ls >= left {
            let rc = if right <= le - ls {
                right
            } else {
                le - ls
            };
            pre.push(SelRegion { start: (ls + left) as usize, end: (ls + rc) as usize, horiz: None })
        } else {
            pre
        }
    }
}

/// The block-wise rectangle between two offsets, or a caret at the
/// range's start when it touches no line.
pub open spec fn blockwise_regions(text: Seq<char>, mn: int, mx: int) -> Seq<SelRegion> {
    let l1 = line_of_offset_spec(text, mn);
    let l2 = line_of_offset_spec(text, mx);
    let c = block_cols(text, mn, mx);
    let base = block_rows(text, c.0, c.1, l1, l2 + 1);
    if base.len() == 0 {
        seq![SelRegion { start: mn as usize, end: mn as usize, horiz: None }]
    } else {
        base
    }
}

/// The cursor's state: Normal at an offset, Insert with a selection, or
/// Visual with a range and a sub-kind.  Exactly one state is active.
#[derive(Debug)]
pub enum CursorMode {
    Normal(usize),
    Insert(Selection),
    Visual { start: usize, end: usize, mode: VisualMode },
}

impl CursorMode {
    /// The primary offset of the state: the Normal offset, the Visual
    /// range's end, or the end of the most recently inserted region.
    pub open spec fn offset_spec(&self) -> int {
        match self {
            CursorMode::Normal(o) => *o as int,
            CursorMode::Visual { end, .. } => *end as int,
            CursorMode::Insert(sel) => if sel@.len() == 0 {
                0int
            } else {
                sel@[sel.last_inserted_spec()].end as int
            },
        }
    }
}

/// Current mode plus the optional remembered horizontal column used by
/// vertical movement.
#[derive(Debug)]
pub struct Cursor {
    pub mode: CursorMode,
    pub horiz: Option<usize>,
}

impl Cursor {
    /// The cursor state is consistent with a text of length `len`: its
    /// offsets are within the text and an Insert selection is a
    /// non-empty, well-formed selection.
    pub open spec fn wf(&self, len: int) -> bool {
        match self.mode {
            CursorMode::Normal(o) => o <= len,
            CursorMode::Insert(sel) => sel.inv() && sel@.len() > 0 && sel.in_bounds(len),
            CursorMode::Visual { start, end, .. } => start <= len && end <= len,
        }
    }

    pub fn new(mode: CursorMode, horiz: Option<usize>) -> (c: Cursor)
        ensures
            c == (Cursor { mode, horiz }),
    {
        Cursor { mode, horiz }
    }

    pub fn offset(&self) -> (r: usize)
        requires
            (self.mode matches CursorMode::Insert(sel) ==> sel.inv()),
        ensures
            r as int == self.mode.offset_spec(),
    {
        match &self.mode {
            CursorMode::Normal(o) => *o,
            CursorMode::Visual { end, .. } => *end,
            CursorMode::Insert(sel) => match sel.last_inserted() {
                Some(region) => region.end,
                None => 0,
            },
        }
    }

    pub fn is_insert(&self) -> (r: bool)
        ensures
            r == (self.mode is Insert),
    {
        match &self.mode {
            CursorMode::Insert(_) => true,
            _ => false,
        }
    }

    pub fn is_visual(&self) -> (r: bool)
        ensures
            r == (self.mode is Visual),
    {
        match &self.mode {
            CursorMode::Visual { .. } => true,
            _ => false,
        }
    }

    /// The selection an edit should act on: the Insert selection
    /// itself; in Normal mode the character under the caret; in Visual
    /// mode the range extended per sub-kind, a rectangle of per-line
    /// regions for the block-wise kind.
    pub fn edit_selection(&self, buffer: &Buffer) -> (r: Selection)
        requires
            self.wf(buffer@.len() as int),
            (self.mode matches CursorMode::Insert(sel) ==> regions_compat(sel@)),
            buffer@.len() + 1 <= usize::MAX,
        ensures
            r.inv(),
            r.in_bounds(buffer@.len() as int),
            regions_compat(r@),
            (self.mode matches CursorMode::Insert(sel) ==> r@ == sel@),
            (self.mode matches CursorMode::Normal(o) ==> r@ =~= seq![
                SelRegion {
                    start: o,
                    end: (if o as int + 1 <= buffer@.len() {
                        (o + 1) as usize
                    } else {
                        buffer@.len() as usize
                    }),
                    horiz: None,
                },
            ]),
            (match self.mode {
                CursorMode::Visual { start, end, mode: VisualMode::Normal } => r@ =~= seq![
                    SelRegion {
                        start: (if start <= end {
                            start
                        } else {
                            end
                        }),
                        end: (if (if start <= end {
                            end
                        } else {
                            start
                        }) as int + 1 <= buffer@.len() {
                            ((if start <= end {
                                end
                            } else {
                                start
                            }) + 1) as usize
                        } else {
                            buffer@.len() as usize
                        }),
                        horiz: None,
                    },
                ],
                _ => true,
            }),
            (match self.mode {
                CursorMode::Visual { start, end, mode: VisualMode::Blockwise } => {
                    let mn = if start <= end {
                        start as int
                    } else {
                        end as int
                    };
                    let mx = if start <= end {
                        end as int
                    } else {
                        start as int
                    };
                    r@ =~~= blockwise_regions(buffer@, mn, mx)
                },
                _ => true,
            }),
            (match self.mode {
                CursorMode::Visual { start, end, mode: VisualMode::Linewise } => {
                    let mn = if start <= end {
                        start as int
                    } else {
                        end as int
                    };
                    let mx = if start <= end {
                        end as int
                    } else {
                        start as int
                    };
                    r@ =~= seq![
                        SelRegion {
                            start: offset_of_line_spec(
                                buffer@,
                                line_of_offset_spec(buffer@, mn),
                            ) as usize,
                            end: offset_of_line_spec(
                                buffer@,
                                line_of_offset_spec(buffer@, mx) + 1,
                            ) as usize,
                            horiz: None,
                        },
                    ]
                },
                _ => true,
            }),
            r@.len() > 0,
    {
        match &self.mode {
            CursorMode::Insert(sel) => sel.clone(),
            CursorMode::Normal(o) => {
                let e = buffer.next_grapheme_offset(*o, 1, buffer.len());
                Selection::region(*o, e)
            },
            CursorMode::Visual { start, end, mode } => {
                let mn = if *start <= *end {
                    *start
                } else {
                    *end
                };
                let mx = if *start <= *end {
                    *end
                } else {
                    *start
                };
                match mode {
                    VisualMode::Normal => {
                        let e = buffer.next_grapheme_offset(mx, 1, buffer.len());
                        Selection::region(mn, e)
                    },
                    VisualMode::Linewise => {
                        proof {
                            crate::buffer::lemma_newlines_mono(buffer@, mn as int, mx as int);
                        }
                        let l1 = buffer.line_of_offset(mn);
                        let l2 = buffer.line_of_offset(mx);
                        let s = buffer.offset_of_line(l1);
                        let e = buffer.offset_of_line(l2 + 1);
                        proof {
                            lemma_line_start_mono(buffer@, l1 as int, l2 as int + 1, 0);
                        }
                        Selection::region(s, e)
                    },
                    VisualMode::Blockwise => self.blockwise_selection(buffer, mn, mx),
                }
            },
        }
    }

    /// The block-wise rectangle between two offsets: on every line of
    /// the range that reaches the left column, the span from the left
    /// column to the right one, clamped to the line end.
    #[verifier::loop_isolation(false)]
    fn blockwise_selection(&self, buffer: &Buffer, mn: usize, mx: usize) -> (r: Selection)
        requires
            mn <= mx <= buffer@.len(),
            buffer@.len() + 1 <= usize::MAX,
        ensures
            r.inv(),
            r.in_bounds(buffer@.len() as int),
            regions_compat(r@),
            r@.len() > 0,
            r@ =~~= blockwise_regions(buffer@, mn as int, mx as int),
    {
        proof {
            crate::buffer::lemma_newlines_mono(buffer@, mn as int, mx as int);
            crate::buffer::lemma_line_start_of_offset(buffer@, mn as int);
            crate::buffer::lemma_line_start_of_offset(buffer@, mx as int);
        }
        let l1 = buffer.line_of_offset(mn);
        let l2 = buffer.line_of_offset(mx);
        let c1 = mn - buffer.offset_of_line(l1);
        let c2 = mx - buffer.offset_of_line(l2);
        let left = if c1 <= c2 {
            c1
        } else {
            c2
        };
        let right = (if c1 <= c2 {
            c2
        } else {
            c1
        }) + 1;
        let mut out = Selection::new();
        let mut line = l1;
        while line <= l2
            invariant
                l1 <= line,
                line <= l2 + 1,
                l2 as int + 1 <= usize::MAX,
                buffer@.len() + 1 <= usize::MAX,
                out.inv(),
                left as int == block_cols(buffer@, mn as int, mx as int).0,
                right as int == block_cols(buffer@, mn as int, mx as int).1,
                out@ =~~= block_rows(
                    buffer@,
                    left as int,
                    right as int,
                    l1 as int,
                    line as int,
                ),
                out.in_bounds(offset_of_line_spec(buffer@, line as int)),
                forall|t: int| 0 <= t < out@.len() ==> region_max(#[trigger] out@[t])
                    <= offset_of_line_spec(buffer@, line as int),
                regions_compat(out@),
            decreases l2 + 1 - line,
        {
            let ls = buffer.offset_of_line(line);
            let le = buffer.line_end_offset(line, true);
            proof {
                lemma_line_start_mono(buffer@, line as int, line as int + 1, 0);
            }
            if le - ls >= left {
                let rcol = if right <= le - ls {
                    right
                } else {
                    le - ls
                };
                let ghost prev = out@;
                out.add_region(SelRegion::new(ls + left, ls + rcol, None));
                proof {
                    assert(forall|t: int| 0 <= t < prev.len() ==> out@[t] == prev[t]);
                    assert(region_min(out@[prev.len() as int]) == ls + left);
                    assert(region_max(out@[prev.len() as int]) == ls + rcol);
                    assert(ls + rcol <= line_end_spec(buffer@, line as int, true));
                    assert(line_end_spec(buffer@, line as int, true) <= offset_of_line_spec(
                        buffer@,
                        line as int + 1,
                    ));
                }
            }
            proof {
                lemma_line_start_mono(buffer@, line as int, line as int + 1, 0);
            }
            line = line + 1;
        }
        proof {
            lemma_line_start_bounds(buffer@, line as int, 0);
        }
        if out.len() == 0 {
            // a degenerate rectangle that touches no line: fall back to
            // a caret at the range's start
            out.add_region(SelRegion::caret(mn));
        }
        out
    }
}

} // verus!
