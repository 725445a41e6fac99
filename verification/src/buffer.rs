use vstd::prelude::*;

verus! {

use vstd::string::StrSliceExecFns;
use crate::syntax::{Syntax, counterpart_spec, matching_char};
use crate::delta::{
    Delta,
    DeltaRepl,
    ReplSpec,
    repls_wf,
    shift_at,
    new_len_of,
    apply_from,
    apply_repls,
    cap_at,
    lemma_cap_mono,
};
use crate::selection::{Selection, SelRegion, region_min, region_max};
use crate::order::{sorted_idx, sorted_by_keys, lemma_sorted_idx_props};
use crate::editor::EditType;

/// Line range invalidated by an edit batch: the first touched line, how
/// many old lines are invalid, and how many new lines replace them.
#[derive(Clone, Copy, Debug, PartialEq, Eq, Structural)]
pub struct InvalLines {
    pub start_line: usize,
    pub inval_count: usize,
    pub new_count: usize,
}

/// The replacements requested by one `(selection, content)` pair: every
/// region of the selection is replaced by the content.
pub open spec fn sel_repls(sel: Seq<SelRegion>, content: Seq<char>) -> Seq<ReplSpec> {
    Seq::new(sel.len(), |k: int| (region_min(sel[k]), region_max(sel[k]), content))
}

/// The replacements of the first `i` pairs of an edit batch, in order.
pub open spec fn gather_upto(edits: Seq<(Selection, Vec<char>)>, i: int) -> Seq<ReplSpec>
    decreases i,
{
    if i <= 0 {
        Seq::empty()
    } else {
        gather_upto(edits, i - 1) + sel_repls(edits[i - 1].0@, edits[i - 1].1@)
    }
}

/// All replacements of an edit batch, in request order.
pub open spec fn gather_repls(edits: Seq<(Selection, Vec<char>)>) -> Seq<ReplSpec> {
    gather_upto(edits, edits.len() as int)
}

/// The replacements are within the text and pairwise non-overlapping;
/// where two share a start, the earlier one is a pure insertion.
pub open spec fn repls_compat(rs: Seq<ReplSpec>, base: int) -> bool {
    &&& forall|i: int| 0 <= i < rs.len() ==> 0 <= (#[trigger] rs[i]).0 && rs[i].0 <= rs[i].1
        && rs[i].1 <= base
    &&& forall|i: int, j: int| #![trigger rs[i], rs[j]] 0 <= i < rs.len() && 0 <= j < rs.len() && i
        != j ==> (rs[i].1 <= rs[j].0 || rs[j].1 <= rs[i].0)
    &&& forall|i: int, j: int| #![trigger rs[i], rs[j]] 0 <= i < j < rs.len() && rs[i].0 == rs[j].0
        ==> rs[i].1 == rs[i].0
}

/// The start offsets of the replacements.
pub open spec fn repl_starts(rs: Seq<ReplSpec>) -> Seq<usize> {
    Seq::new(rs.len(), |i: int| rs[i].0 as usize)
}

/// The replacements of an edit batch in ascending start order, requests
/// with equal starts keeping their order.
pub open spec fn sorted_gather(edits: Seq<(Selection, Vec<char>)>) -> Seq<ReplSpec> {
    let rs = gather_repls(edits);
    let ord = sorted_idx(repl_starts(rs));
    Seq::new(rs.len(), |k: int| rs[ord[k] as int])
}

/// The flat replacement list as spec values.
pub open spec fn flat_view(v: Seq<(usize, usize, Vec<char>)>) -> Seq<ReplSpec> {
    Seq::new(v.len(), |i: int| (v[i].0 as int, v[i].1 as int, v[i].2@))
}

/// Number of line breaks in `text[..end]`.
pub open spec fn newlines_up_to(text: Seq<char>, end: int) -> int
    decreases end,
{
    if end <= 0 {
        0
    } else {
        newlines_up_to(text, end - 1) + if text[end - 1] == '\n' {
            1int
        } else {
            0int
        }
    }
}

/// The line an offset lies on: the number of line breaks before it
/// (offsets past the end count as lying on the last line).
pub open spec fn line_of_offset_spec(text: Seq<char>, offset: int) -> int {
    newlines_up_to(
        text,
        if offset <= text.len() {
            offset
        } else {
            text.len() as int
        },
    )
}

/// First offset of line number `line`, starting the scan at offset `i`
/// with `line` lines still to skip; the end of text if there are fewer
/// lines.
pub open spec fn line_start_from(text: Seq<char>, line: int, i: int) -> int
    decreases text.len() - i,
{
    if line <= 0 || i >= text.len() {
        i
    } else {
        line_start_from(
            text,
            if text[i] == '\n' {
                line - 1
            } else {
                line
            },
            i + 1,
        )
    }
}

/// First offset of line number `line` (the end of text if the line does
/// not exist).
pub open spec fn offset_of_line_spec(text: Seq<char>, line: int) -> int {
    line_start_from(text, line, 0)
}

/// Length of the run of blanks (spaces and tabs) starting at `i`.
pub open spec fn blank_run(text: Seq<char>, i: int) -> int
    decreases text.len() - i,
{
    if i < 0 || i >= text.len() || !(text[i] == ' ' || text[i] == '\t') {
        0
    } else {
        1 + blank_run(text, i + 1)
    }
}

/// End of line `line`: just before its line break if `caret` is true
/// (also skipping a `\r` of a `\r\n` break), and additionally one
/// character earlier if `caret` is false and the line is not empty.
pub open spec fn line_end_spec(text: Seq<char>, line: int, caret: bool) -> int {
    let s = offset_of_line_spec(text, line);
    let nx = offset_of_line_spec(text, line + 1);
    let e = if nx - s >= 2 && text[nx - 2] == '\r' && text[nx - 1] == '\n' {
        nx - 2
    } else if nx - s >= 1 && text[nx - 1] == '\n' {
        nx - 1
    } else {
        nx
    };
    if caret || e <= s {
        e
    } else {
        e - 1
    }
}

/// Offset of the unmatched opening character `open_c` found scanning
/// backward from `i`, skipping over balanced pairs: a closing character
/// deepens the nesting, an opening one resolves the innermost level.
pub open spec fn unmatched_before(
    text: Seq<char>,
    open_c: char,
    close_c: char,
    i: int,
    depth: int,
) -> Option<int>
    decreases i,
{
    if i <= 0 {
        None
    } else if text[i - 1] == open_c && depth == 0 {
        Some(i - 1)
    } else {
        let d = if text[i - 1] == close_c {
            depth + 1
        } else if text[i - 1] == open_c {
            depth - 1
        } else {
            depth
        };
        unmatched_before(text, open_c, close_c, i - 1, d)
    }
}

pub proof fn lemma_newlines_mono(text: Seq<char>, a: int, b: int)
    requires
        a <= b,
    ensures
        newlines_up_to(text, a) <= newlines_up_to(text, b),
    decreases b - a,
{
    if a < b {
        lemma_newlines_mono(text, a, b - 1);
    }
}

pub proof fn lemma_line_start_bounds(text: Seq<char>, line: int, i: int)
    requires
        0 <= i <= text.len(),
    ensures
        i <= line_start_from(text, line, i) <= text.len(),
    decreases text.len() - i,
{
    if !(line <= 0 || i >= text.len()) {
        lemma_line_start_bounds(
            text,
            if text[i] == '\n' {
                line - 1
            } else {
                line
            },
            i + 1,
        );
    }
}

pub proof fn lemma_line_start_le(text: Seq<char>, x: int, i: int)
    requires
        0 <= i <= x <= text.len(),
    ensures
        line_start_from(text, newlines_up_to(text, x) - newlines_up_to(text, i), i) <= x,
    decreases x - i,
{
    if i < x {
        lemma_line_start_le(text, x, i + 1);
        lemma_newlines_mono(text, i + 1, x);
    }
}

/// The start of the line an offset lies on is at or before the offset.
pub proof fn lemma_line_start_of_offset(text: Seq<char>, x: int)
    requires
        0 <= x <= text.len(),
    ensures
        offset_of_line_spec(text, line_of_offset_spec(text, x)) <= x,
{
    lemma_line_start_le(text, x, 0);
}

pub proof fn lemma_line_start_mono(text: Seq<char>, l1: int, l2: int, i: int)
    requires
        l1 <= l2,
        0 <= i <= text.len(),
    ensures
        line_start_from(text, l1, i) <= line_start_from(text, l2, i),
    decreases text.len() - i,
{
    if l1 <= 0 || i >= text.len() {
        lemma_line_start_bounds(text, l2, i);
    } else {
        lemma_line_start_mono(
            text,
            if text[i] == '\n' {
                l1 - 1
            } else {
                l1
            },
            if text[i] == '\n' {
                l2 - 1
            } else {
                l2
            },
            i + 1,
        );
    }
}

/// Appending an edit pair does not change the earlier replacements.
pub proof fn lemma_gather_push(es: Seq<(Selection, Vec<char>)>, e: (Selection, Vec<char>), i: int)
    requires
        0 <= i <= es.len(),
    ensures
        gather_upto(es.push(e), i) == gather_upto(es, i),
    decreases i,
{
    if i > 0 {
        lemma_gather_push(es, e, i - 1);
        assert(es.push(e)[i - 1] == es[i - 1]);
    }
}

/// The characters of a string slice as a vector.
pub fn str_chars(s: &str) -> (v: Vec<char>)
    ensures
        v@ == s@,
{
    let n = s.unicode_len();
    let mut v: Vec<char> = Vec::new();
    let mut i: usize = 0;
    while i < n
        invariant
            n == s@.len(),
            i <= n,
            v@ =~= s@.subrange(0, i as int),
        decreases n - i,
    {
        v.push(s.get_char(i));
        i = i + 1;
    }
    proof {
        assert(v@ =~= s@);
    }
    v
}

/// Copies a character vector.
pub(crate) fn copy_chars(v: &Vec<char>) -> (r: Vec<char>)
    ensures
        r@ == v@,
{
    let mut r: Vec<char> = Vec::new();
    let mut i: usize = 0;
    while i < v.len()
        invariant
            i <= v@.len(),
            r@ =~= v@.subrange(0, i as int),
        decreases v@.len() - i,
    {
        r.push(v[i]);
        i = i + 1;
    }
    proof {
        assert(r@ =~= v@);
    }
    r
}

/// Relies on `String`'s `FromIterator` implementation (`collect`): the
/// resulting string holds exactly the characters of the iterator, in
/// order.
#[verifier::external_body]
fn chars_to_string(v: &Vec<char>) -> (r: String)
    ensures
        r@ == v@,
{
    v.iter().collect()
}

/// A character-indexed text store.  Offsets, line numbers and grapheme
/// steps are all in units of characters.
pub struct Buffer {
    text: Vec<char>,
}

impl View for Buffer {
    type V = Seq<char>;

    closed spec fn view(&self) -> Seq<char> {
        self.text@
    }
}

impl Buffer {
    pub fn new(s: &str) -> (b: Buffer)
        ensures
            b@ == s@,
    {
        let n = s.unicode_len();
        let mut v: Vec<char> = Vec::new();
        let mut i: usize = 0;
        while i < n
            invariant
                n == s@.len(),
                i <= n,
                v@ =~= s@.subrange(0, i as int),
            decreases n - i,
        {
            v.push(s.get_char(i));
            i = i + 1;
        }
        proof {
            assert(v@ =~= s@);
        }
        Buffer { text: v }
    }

    pub fn len(&self) -> (n: usize)
        ensures
            n == self@.len(),
    {
        self.text.len()
    }

    /// The character at an offset known to be within the text.
    pub fn char_at(&self, offset: usize) -> (r: char)
        requires
            (offset as int) < self@.len(),
        ensures
            r == self@[offset as int],
    {
        self.text[offset]
    }

    /// The character at an offset, if the offset is within the text.
    pub fn char_at_offset(&self, offset: usize) -> (r: Option<char>)
        ensures
            r == (if (offset as int) < self@.len() {
                Some(self@[offset as int])
            } else {
                None::<char>
            }),
    {
        if offset < self.text.len() {
            Some(self.text[offset])
        } else {
            None
        }
    }

    /// The characters of `[start, end)` as a vector.
    pub fn slice_chars(&self, start: usize, end: usize) -> (r: Vec<char>)
        requires
            start <= end <= self@.len(),
        ensures
            r@ == self@.subrange(start as int, end as int),
    {
        let mut r: Vec<char> = Vec::new();
        let mut i: usize = start;
        while i < end
            invariant
                start <= i <= end <= self@.len(),
                r@ =~= self@.subrange(start as int, i as int),
            decreases end - i,
        {
            r.push(self.text[i]);
            i = i + 1;
        }
        proof {
            assert(r@ =~= self@.subrange(start as int, end as int));
        }
        r
    }

    /// The text of `[start, end)` as a string.
    pub fn slice_to_cow(&self, start: usize, end: usize) -> (r: String)
        requires
            start <= end <= self@.len(),
        ensures
            r@ == self@.subrange(start as int, end as int),
    {
        let v = self.slice_chars(start, end);
        chars_to_string(&v)
    }

    /// The line an offset lies on; offsets past the end count as lying
    /// on the last line.
    pub fn line_of_offset(&self, offset: usize) -> (r: usize)
        ensures
            r as int == line_of_offset_spec(self@, offset as int),
            r <= offset,
            r <= self@.len(),
    {
        let n = self.text.len();
        let m = if offset < n {
            offset
        } else {
            n
        };
        let mut i: usize = 0;
        let mut cnt: usize = 0;
        while i < m
            invariant
                i <= m,
                m <= n,
                n == self@.len(),
                m == if (offset as int) <= self@.len() {
                    offset as int
                } else {
                    self@.len() as int
                },
                cnt <= i,
                cnt as int == newlines_up_to(self@, i as int),
            decreases m - i,
        {
            if self.text[i] == '\n' {
                cnt = cnt + 1;
            }
            i = i + 1;
        }
        cnt
    }

    /// First offset of a line (the end of text if the line does not
    /// exist).
    pub fn offset_of_line(&self, line: usize) -> (r: usize)
        ensures
            r as int == offset_of_line_spec(self@, line as int),
            r <= self@.len(),
    {
        let n = self.text.len();
        let mut i: usize = 0;
        let mut rem: usize = line;
        while i < n && rem > 0
            invariant
                i <= n,
                n == self@.len(),
                offset_of_line_spec(self@, line as int) == line_start_from(
                    self@,
                    rem as int,
                    i as int,
                ),
            decreases n - i,
        {
            if self.text[i] == '\n' {
                rem = rem - 1;
            }
            i = i + 1;
        }
        i
    }

    /// End of a line, excluding its line break; with `caret` false the
    /// offset of the last character of the line instead.
    pub fn line_end_offset(&self, line: usize, caret: bool) -> (r: usize)
        requires
            (line as int) + 1 <= usize::MAX,
        ensures
            r as int == line_end_spec(self@, line as int, caret),
            offset_of_line_spec(self@, line as int) <= r as int,
            r <= self@.len(),
    {
        let s = self.offset_of_line(line);
        let nx = self.offset_of_line(line + 1);
        proof {
            lemma_line_start_mono(self@, line as int, line as int + 1, 0);
        }
        let mut e = nx;
        if nx - s >= 2 && self.text[nx - 2] == '\r' && self.text[nx - 1] == '\n' {
            e = nx - 2;
        } else if nx - s >= 1 && self.text[nx - 1] == '\n' {
            e = nx - 1;
        }
        if !caret && e > s {
            e = e - 1;
        }
        e
    }

    /// End of the line an offset lies on.
    pub fn offset_line_end(&self, offset: usize, caret: bool) -> (r: usize)
        requires
            self@.len() + 1 <= usize::MAX,
        ensures
            r as int == line_end_spec(self@, line_of_offset_spec(self@, offset as int), caret),
            r <= self@.len(),
    {
        let line = self.line_of_offset(offset);
        self.line_end_offset(line, caret)
    }

    /// The content of a line, including its line break.
    pub fn line_content(&self, line: usize) -> (r: String)
        requires
            (line as int) + 1 <= usize::MAX,
        ensures
            r@ == self@.subrange(
                offset_of_line_spec(self@, line as int),
                offset_of_line_spec(self@, line as int + 1),
            ),
    {
        let s = self.offset_of_line(line);
        let nx = self.offset_of_line(line + 1);
        proof {
            lemma_line_start_mono(self@, line as int, line as int + 1, 0);
        }
        self.slice_to_cow(s, nx)
    }

    /// Offset of the first character of a line that is not a space or a
    /// tab (its line break or the end of text if there is none).
    pub fn first_non_blank_character_on_line(&self, line: usize) -> (r: usize)
        ensures
            r as int == offset_of_line_spec(self@, line as int) + blank_run(
                self@,
                offset_of_line_spec(self@, line as int),
            ),
            offset_of_line_spec(self@, line as int) <= r,
            r <= self@.len(),
    {
        let s = self.offset_of_line(line);
        let n = self.text.len();
        let mut i: usize = s;
        while i < n && (self.text[i] == ' ' || self.text[i] == '\t')
            invariant
                s <= i <= n,
                n == self@.len(),
                blank_run(self@, s as int) == i - s + blank_run(self@, i as int),
            decreases n - i,
        {
            i = i + 1;
        }
        i
    }

    /// The leading blanks (spaces and tabs) of a line.
    pub fn indent_on_line(&self, line: usize) -> (r: String)
        ensures
            r@ == self@.subrange(
                offset_of_line_spec(self@, line as int),
                offset_of_line_spec(self@, line as int) + blank_run(
                    self@,
                    offset_of_line_spec(self@, line as int),
                ),
            ),
    {
        let s = self.offset_of_line(line);
        let e = self.first_non_blank_character_on_line(line);
        self.slice_to_cow(s, e)
    }

    /// Steps `count` characters forward, not past `limit`.
    pub fn next_grapheme_offset(&self, offset: usize, count: usize, limit: usize) -> (r: usize)
        ensures
            r as int == if offset as int + count as int <= limit as int {
                offset as int + count as int
            } else {
                limit as int
            },
    {
        if offset >= limit {
            limit
        } else if count <= limit - offset {
            offset + count
        } else {
            limit
        }
    }

    /// Steps `count` characters backward, not before `limit`.
    pub fn prev_grapheme_offset(&self, offset: usize, count: usize, limit: usize) -> (r: usize)
        ensures
            r as int == if offset as int - count as int >= limit as int {
                offset as int - count as int
            } else {
                limit as int
            },
    {
        if offset >= limit && count <= offset - limit {
            offset - count
        } else {
            limit
        }
    }

    /// Backward search for the unmatched opening character `c`, through
    /// the syntax collaborator; without one the search is skipped and
    /// the caller falls back to plain insertion.
    pub fn previous_unmatched(&self, syntax: Option<&Syntax>, c: char, offset: usize) -> (r: Option<
        usize,
    >)
        requires
            offset <= self@.len(),
        ensures
            ({
                let sres = if syntax is Some && counterpart_spec(c) is Some {
                    unmatched_before(self@, c, counterpart_spec(c).unwrap(), offset as int, 0)
                } else {
                    None
                };
                match r {
                    Some(u) => sres == Some(u as int) && u < offset,
                    None => sres is None,
                }
            }),
    {
        if syntax.is_none() {
            return None;
        }
        let close_c = match matching_char(c) {
            Some(cc) => cc,
            None => {
                return None;
            },
        };
        let mut i: usize = offset;
        let mut depth: usize = 0;
        while i > 0
            invariant
                i <= offset,
                offset <= self@.len(),
                depth <= offset - i,
                syntax is Some,
                counterpart_spec(c) == Some(close_c),
                unmatched_before(self@, c, close_c, offset as int, 0) == unmatched_before(
                    self@,
                    c,
                    close_c,
                    i as int,
                    depth as int,
                ),
            decreases i,
        {
            let ch = self.text[i - 1];
            if ch == c && depth == 0 {
                proof {
                    assert(unmatched_before(self@, c, close_c, i as int, depth as int) == Some(
                        i as int - 1,
                    ));
                }
                return Some(i - 1);
            }
            if ch == close_c {
                depth = depth + 1;
            } else if ch == c {
                depth = depth - 1;
            }
            i = i - 1;
        }
        None
    }

    /// Applies an edit batch atomically: every region of every
    /// selection is replaced by the paired content, all replacements
    /// taken simultaneously in coordinates of the old text.  Returns
    /// the delta describing the transformation and the invalidated
    /// line range.
    #[verifier::loop_isolation(false)]
    #[verifier::rlimit(60)]
    pub fn edit(&mut self, edits: &Vec<(Selection, Vec<char>)>, _edit_type: EditType) -> (res: (
        Delta,
        InvalLines,
    ))
        requires
            repls_compat(gather_repls(edits@), old(self)@.len() as int),
        ensures
            final(self)@ == apply_repls(old(self)@, sorted_gather(edits@)),
            res.0.wf(),
            res.0.base_len == old(self)@.len(),
            res.0.repls_spec() == sorted_gather(edits@),
            res.0.new_len == final(self)@.len(),
            ({
                let rs = sorted_gather(edits@);
                &&& res.1.start_line as int == (if rs.len() == 0 {
                    0int
                } else {
                    line_of_offset_spec(old(self)@, rs[0].0)
                })
                &&& res.1.inval_count as int == (if rs.len() == 0 {
                    0int
                } else {
                    let d = line_of_offset_spec(old(self)@, rs[rs.len() - 1].1)
                        - line_of_offset_spec(old(self)@, rs[0].0);
                    if d < usize::MAX {
                        d + 1
                    } else {
                        d
                    }
                })
                &&& res.1.new_count as int == (if rs.len() == 0 {
                    0int
                } else {
                    let d = line_of_offset_spec(
                        final(self)@,
                        rs[rs.len() - 1].0 + shift_at(rs, rs.len() - 1) + rs[rs.len() - 1].2.len(),
                    ) - line_of_offset_spec(final(self)@, rs[0].0);
                    if d < usize::MAX {
                        d + 1
                    } else {
                        d
                    }
                })
            }),
    {
        let ghost ge = edits@;
        let ghost told = self@;
        let base = self.text.len();

        // flatten the batch into one replacement per region, in request order
        let mut flat: Vec<(usize, usize, Vec<char>)> = Vec::new();
        let mut i: usize = 0;
        while i < edits.len()
            invariant
                i <= ge.len(),
                flat_view(flat@) =~~= gather_upto(ge, i as int),
            decreases ge.len() - i,
        {
            let ghost pre = flat_view(flat@);
            let n_regions = edits[i].0.len();
            let mut k: usize = 0;
            while k < n_regions
                invariant
                    k <= n_regions,
                    flat_view(flat@) =~~= pre + sel_repls(ge[i as int].0@, ge[i as int].1@).take(
                        k as int,
                    ),
                decreases n_regions - k,
            {
                let r = edits[i].0.regions()[k];
                let content = copy_chars(&edits[i].1);
                let ghost cv = content@;
                let ghost prev_flat = flat@;
                let mn = r.min();
                let mx = r.max();
                flat.push((mn, mx, content));
                proof {
                    let sr = sel_repls(ge[i as int].0@, ge[i as int].1@);
                    assert(r == ge[i as int].0@[k as int]);
                    assert(flat@ == prev_flat.push((mn, mx, flat@[flat@.len() - 1].2)));
                    assert(flat@[flat@.len() - 1].2@ == cv);
                    assert(flat_view(flat@)[prev_flat.len() as int].0 == sr[k as int].0);
                    assert(flat_view(flat@)[prev_flat.len() as int].1 == sr[k as int].1);
                    assert(flat_view(flat@)[prev_flat.len() as int].2 == sr[k as int].2);
                    assert(flat_view(flat@)[prev_flat.len() as int] =~~= sr[k as int]);
                    assert(flat_view(flat@).len() == (pre + sr.take(k as int + 1)).len());
                    assert forall|t: int| 0 <= t < flat_view(flat@).len() implies flat_view(
                        flat@,
                    )[t] =~~= (pre + sr.take(k as int + 1))[t] by {
                        if t < prev_flat.len() {
                            assert(flat@[t] == prev_flat[t]);
                            assert(flat_view(flat@)[t] == flat_view(prev_flat)[t]);
                            assert((pre + sr.take(k as int))[t] == (pre + sr.take(k as int + 1))[t]);
                        }
                    }
                    assert(flat_view(flat@) =~~= pre + sr.take(k as int + 1));
                }
                k = k + 1;
            }
            proof {
                assert(sel_repls(ge[i as int].0@, ge[i as int].1@).take(n_regions as int)
                    =~~= sel_repls(ge[i as int].0@, ge[i as int].1@));
                assert(flat_view(flat@) =~~= gather_upto(ge, i as int + 1));
            }
            i = i + 1;
        }
        let ghost rs0 = flat_view(flat@);
        proof {
            assert(rs0 =~~= gather_repls(ge));
        }
        let n = flat.len();

        // stable sort of the replacements by their start offsets
        let mut keys: Vec<usize> = Vec::new();
        let mut j: usize = 0;
        while j < n
            invariant
                j <= n,
                keys@.len() == j as int,
                forall|t: int| 0 <= t < j as int ==> keys@[t] == (#[trigger] flat@[t]).0,
            decreases n - j,
        {
            keys.push(flat[j].0);
            j = j + 1;
        }
        proof {
            assert(keys@ =~= repl_starts(rs0));
            lemma_sorted_idx_props(keys@, keys@.len() as int);
        }
        let order = sorted_by_keys(&keys);
        let mut permuted: Vec<(usize, usize, Vec<char>)> = Vec::new();
        let mut k: usize = 0;
        while k < n
            invariant
                k <= n,
                flat_view(permuted@) =~~= Seq::new(
                    k as nat,
                    |t: int| rs0[sorted_idx(repl_starts(rs0))[t] as int],
                ),
            decreases n - k,
        {
            let oi = order[k];
            let c2 = copy_chars(&flat[oi].2);
            let ghost c2v = c2@;
            let ghost prev_p = permuted@;
            let s0 = flat[oi].0;
            let e0 = flat[oi].1;
            permuted.push((s0, e0, c2));
            proof {
                assert(keys@ == repl_starts(rs0));
                assert(order@ == sorted_idx(repl_starts(rs0)));
                assert(oi == sorted_idx(repl_starts(rs0))[k as int]);
                assert(permuted@[permuted@.len() - 1].2@ == c2v);
                assert(flat_view(permuted@)[prev_p.len() as int].0 == rs0[oi as int].0);
                assert(flat_view(permuted@)[prev_p.len() as int].1 == rs0[oi as int].1);
                assert(flat_view(permuted@)[prev_p.len() as int].2 == rs0[oi as int].2);
                assert(flat_view(permuted@)[prev_p.len() as int] =~~= rs0[oi as int]);
                assert forall|t: int| 0 <= t < flat_view(permuted@).len() implies flat_view(
                    permuted@,
                )[t] =~~= Seq::new(
                    (k + 1) as nat,
                    |u: int| rs0[sorted_idx(repl_starts(rs0))[u] as int],
                )[t] by {
                    if t < prev_p.len() {
                        assert(permuted@[t] == prev_p[t]);
                        assert(flat_view(permuted@)[t] == flat_view(prev_p)[t]);
                    }
                }
                assert(flat_view(permuted@) =~~= Seq::new(
                    (k + 1) as nat,
                    |t: int| rs0[sorted_idx(repl_starts(rs0))[t] as int],
                ));
            }
            k = k + 1;
        }
        let ghost rs = flat_view(permuted@);
        proof {
            assert(rs =~~= sorted_gather(ge));
            let ord = sorted_idx(repl_starts(rs0));
            assert forall|a: int, b: int| #![trigger rs[a], rs[b]] 0 <= a < b < rs.len() implies rs[
                a
            ].1 <= rs[b].0 by {
                let x = ord[a] as int;
                let y = ord[b] as int;
                assert(keys@[x] <= keys@[y]);
                assert(x != y);
                assert(rs0[x].0 <= rs0[y].0);
                if rs0[x].0 == rs0[y].0 {
                    assert(ord[a] < ord[b]);
                    assert(rs0[x].1 == rs0[x].0);
                } else {
                    assert(rs0[x].1 <= rs0[y].0 || rs0[y].1 <= rs0[x].0);
                    assert(rs0[y].0 <= rs0[y].1);
                }
            }
            assert(repls_wf(rs, base as int));
        }

        // apply the replacements left to right
        let mut new_text: Vec<char> = Vec::new();
        let mut drepls: Vec<DeltaRepl> = Vec::new();
        let mut pos: usize = 0;
        let mut w: usize = 0;
        while w < n
            invariant
                w <= n,
                pos as int == if w == 0 {
                    0int
                } else {
                    rs[w as int - 1].1
                },
                pos <= base,
                (w as int) < rs.len() ==> pos as int <= rs[w as int].0,
                new_text@.len() == pos as int + shift_at(rs, w as int),
                apply_repls(told, rs) == new_text@ + apply_from(told, rs, w as int, pos as int),
                drepls@.len() == w as int,
                forall|t: int| 0 <= t < w as int ==> {
                    let d = #[trigger] drepls@[t];
                    &&& d.start as int == rs[t].0
                    &&& d.end as int == rs[t].1
                    &&& d.ins@ == rs[t].2
                    &&& d.new_start as int == rs[t].0 + shift_at(rs, t)
                    &&& d.new_start + d.ins@.len() <= new_text@.len()
                },
            decreases n - w,
        {
            let s = permuted[w].0;
            let e = permuted[w].1;
            proof {
                if w as int + 1 < rs.len() {
                    assert(rs[w as int].1 <= rs[w as int + 1].0);
                }
            }
            let ghost nt0 = new_text@;
            let ghost p0 = pos as int;
            while pos < s
                invariant
                    p0 <= pos as int <= s as int,
                    new_text@ =~= nt0 + told.subrange(p0, pos as int),
                decreases s - pos,
            {
                new_text.push(self.text[pos]);
                proof {
                    assert(new_text@ =~= nt0 + told.subrange(p0, pos as int + 1));
                }
                pos = pos + 1;
            }
            let ns = new_text.len();
            let mut insv = copy_chars(&permuted[w].2);
            let ghost nt1 = new_text@;
            new_text.append(&mut insv);
            drepls.push(
                DeltaRepl { start: s, end: e, ins: copy_chars(&permuted[w].2), new_start: ns },
            );
            pos = e;
            proof {
                assert(new_text@ =~= nt1 + rs[w as int].2);
                assert(new_text@.len() == pos as int + shift_at(rs, w as int + 1));
                assert(apply_from(told, rs, w as int, p0) == told.subrange(p0, rs[w as int].0) + rs[
                    w as int
                ].2 + apply_from(told, rs, w as int + 1, rs[w as int].1));
                assert(nt0 + (told.subrange(p0, rs[w as int].0) + rs[w as int].2 + apply_from(
                    told,
                    rs,
                    w as int + 1,
                    rs[w as int].1,
                )) =~= (nt0 + told.subrange(p0, rs[w as int].0) + rs[w as int].2) + apply_from(
                    told,
                    rs,
                    w as int + 1,
                    rs[w as int].1,
                ));
                assert(apply_repls(told, rs) == new_text@ + apply_from(
                    told,
                    rs,
                    w as int + 1,
                    pos as int,
                ));
            }
            w = w + 1;
        }
        let ghost nt2 = new_text@;
        let ghost p2 = pos as int;
        while pos < base
            invariant
                p2 <= pos as int <= base as int,
                new_text@ =~= nt2 + told.subrange(p2, pos as int),
            decreases base - pos,
        {
            new_text.push(self.text[pos]);
            proof {
                assert(new_text@ =~= nt2 + told.subrange(p2, pos as int + 1));
            }
            pos = pos + 1;
        }
        proof {
            assert(apply_from(told, rs, n as int, p2) == told.subrange(p2, told.len() as int));
            assert(new_text@ =~= apply_repls(told, rs));
        }
        let new_len = new_text.len();

        // the invalidated line range, old side before the text is swapped
        let mut start_line: usize = 0;
        let mut inval_count: usize = 0;
        let mut new_count: usize = 0;
        if n > 0 {
            let first_start = permuted[0].0;
            let last_end = permuted[n - 1].1;
            proof {
                if n > 1 {
                    assert(rs[0].1 <= rs[n as int - 1].0);
                }
                lemma_newlines_mono(told, first_start as int, last_end as int);
            }
            start_line = self.line_of_offset(first_start);
            let el = self.line_of_offset(last_end);
            // the count of invalidated lines saturates at the machine limit
            inval_count = if el - start_line < usize::MAX {
                el - start_line + 1
            } else {
                el - start_line
            };
        }
        self.text = new_text;
        if n > 0 {
            let ns_first = drepls[0].new_start;
            let ne_last = drepls[n - 1].new_start + drepls[n - 1].ins.len();
            proof {
                lemma_cap_mono(rs, base as int, 0, n as int - 1);
                assert(cap_at(rs, base as int, 0) == rs[0].0);
                assert(cap_at(rs, base as int, n as int - 1) == rs[n as int - 1].0 + shift_at(
                    rs,
                    n as int - 1,
                ));
                lemma_newlines_mono(self@, ns_first as int, ne_last as int);
                lemma_cap_mono(rs, base as int, n as int - 1, n as int);
            }
            let nsl = self.line_of_offset(ns_first);
            let nel = self.line_of_offset(ne_last);
            // the count of new lines saturates at the machine limit
            new_count = if nel - nsl < usize::MAX {
                nel - nsl + 1
            } else {
                nel - nsl
            };
        }
        let delta = Delta { base_len: base, new_len, repls: drepls };
        proof {
            assert(delta.repls_spec() =~~= rs);
            assert(delta.new_len as int == new_len_of(rs, base as int));
            assert(delta.wf());
        }
        (delta, InvalLines { start_line, inval_count, new_count })
    }
}

} // verus!
