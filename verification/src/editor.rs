use vstd::prelude::*;

verus! {

use crate::buffer::{
    Buffer,
    line_of_offset_spec,
    offset_of_line_spec,
    blank_run,
    unmatched_before,
    sel_repls,
    gather_repls,
    gather_upto,
    repls_compat,
    repl_starts,
    sorted_gather,
    lemma_gather_push,
    str_chars,
};
use crate::selection::{Selection, SelRegion, InsertDrift, region_min, region_max, drift_flags};
use crate::cursor::{Cursor, CursorMode, blockwise_regions};
use crate::mode::VisualMode;
use crate::command::EditCommand;
use crate::register::RegisterData;
use crate::delta::Delta;
use crate::buffer::{
    InvalLines,
    line_end_spec,
    lemma_newlines_mono,
    lemma_line_start_mono,
    lemma_line_start_of_offset,
    lemma_line_start_bounds,
};
use crate::selection::{regions_compat, sel_min_from};
use crate::delta::{ReplSpec, shift_at, remap_upto, apply_repls, apply_from};
use crate::syntax::{
    Syntax,
    pair_direction_spec,
    counterpart_spec,
    matching_pair_direction,
    matching_char,
};
use crate::word::{WordProperty, word_property_spec, get_word_property};
use crate::order::{sorted_idx, sorted_idx_rec, sorted_by_keys, lemma_sorted_idx_props, lemma_sorted_idx_identity};

/// Classification attached to every edit batch, used to decide where
/// undo groups begin.
#[derive(Clone, Copy, Debug, PartialEq, Eq, Structural)]
pub enum EditType {
    Other,
    InsertChars,
    InsertNewline,
    Delete,
    Undo,
    Redo,
}

/// A new undo group starts before an edit classified `Other`, or whose
/// classification differs from the immediately preceding edit's.
pub open spec fn breaks_undo_group_spec(this: EditType, previous: EditType) -> bool {
    this == EditType::Other || this != previous
}

impl EditType {
    /// Checks whether a new undo group should be created between two edits.
    pub fn breaks_undo_group(self, previous: EditType) -> (r: bool)
        ensures
            r == breaks_undo_group_spec(self, previous),
    {
        self == EditType::Other || self != previous
    }
}

/// The replacements in ascending start order, equal starts keeping
/// their order.
pub open spec fn sorted_of(rs: Seq<ReplSpec>) -> Seq<ReplSpec> {
    Seq::new(rs.len(), |k: int| rs[sorted_idx(repl_starts(rs))[k] as int])
}

/// Only blanks between the two offsets.
pub open spec fn all_blank_between(text: Seq<char>, a: int, b: int) -> bool {
    forall|k: int| a <= k < b ==> (#[trigger] text[k]) == ' ' || text[k] == '\t' || text[k] == '\r'
}

/// Typing the closer `c` at this region only steps over an identical
/// closer already under the caret.
pub open spec fn skips_closer(text: Seq<char>, r: SelRegion, c: char) -> bool {
    pair_direction_spec(c) == Some(false) && r.end < text.len() && text[r.end as int] == c
}

/// The context after an offset allows auto-closing: end of text, a
/// line break, a blank, or punctuation.
pub open spec fn safe_ctx(text: Seq<char>, off: int) -> bool {
    off >= text.len() || {
        let p = word_property_spec(text[off]);
        p == WordProperty::Lf || p == WordProperty::Space || p == WordProperty::Punctuation
    }
}

/// The main edit a region contributes when the single character `c` is
/// typed: none for a skip-over; for a closer typed on a blank line
/// prefix with a matching unmatched opener in reach, the replacement of
/// the prefix by the opener line's indentation and `c`; otherwise the
/// plain insertion of `c` over the region.
pub open spec fn insert_region_repl(text: Seq<char>, r: SelRegion, c: char, has_syntax: bool) -> Option<ReplSpec> {
    if skips_closer(text, r, c) {
        None
    } else {
        let ls = offset_of_line_spec(text, line_of_offset_spec(text, r.end as int));
        if pair_direction_spec(c) == Some(false) && all_blank_between(text, ls, r.end as int)
            && has_syntax && counterpart_spec(c) is Some && unmatched_before(
            text,
            counterpart_spec(c).unwrap(),
            c,
            r.end as int,
            0,
        ) is Some {
            let po = unmatched_before(text, counterpart_spec(c).unwrap(), c, r.end as int, 0).unwrap();
            let pls = offset_of_line_spec(text, line_of_offset_spec(text, po));
            Some((ls, r.end as int, text.subrange(pls, pls + blank_run(text, pls)) + seq![c]))
        } else {
            Some((region_min(r), region_max(r), seq![c]))
        }
    }
}

/// The main edits of the first `i` regions, in order.
pub open spec fn main_repls_upto(
    text: Seq<char>,
    s: Seq<SelRegion>,
    c: char,
    has_syntax: bool,
    i: int,
) -> Seq<ReplSpec>
    decreases i,
{
    if i <= 0 {
        Seq::empty()
    } else {
        let pre = main_repls_upto(text, s, c, has_syntax, i - 1);
        match insert_region_repl(text, s[i - 1], c, has_syntax) {
            Some(r) => pre.push(r),
            None => pre,
        }
    }
}

/// The main edits of all regions.
pub open spec fn main_repls(text: Seq<char>, s: Seq<SelRegion>, c: char, has_syntax: bool) -> Seq<
    ReplSpec,
> {
    main_repls_upto(text, s, c, has_syntax, s.len() as int)
}

/// Typing the opener `c` at this region records a late edit for the
/// matching closer.
pub open spec fn auto_closes(text: Seq<char>, r: SelRegion, c: char) -> bool {
    pair_direction_spec(c) == Some(true) && safe_ctx(text, r.end as int)
}

/// The late edits recorded by the first `i` regions: pairs of region
/// index and closer character.
pub open spec fn lates_upto(text: Seq<char>, s: Seq<SelRegion>, c: char, i: int) -> Seq<
    (usize, char),
>
    decreases i,
{
    if i <= 0 {
        Seq::empty()
    } else {
        let pre = lates_upto(text, s, c, i - 1);
        if auto_closes(text, s[i - 1], c) && counterpart_spec(c) is Some {
            pre.push((((i - 1) as usize), counterpart_spec(c).unwrap()))
        } else {
            pre
        }
    }
}

/// A caret region at an offset.
pub open spec fn caret_at(o: int) -> SelRegion {
    SelRegion { start: o as usize, end: o as usize, horiz: None }
}

/// The regions with every skip-over region replaced by a caret just
/// past the stepped-over closer.
pub open spec fn skip_adjusted(text: Seq<char>, s: Seq<SelRegion>, c: char) -> Seq<SelRegion> {
    Seq::new(
        s.len(),
        |i: int| if skips_closer(text, s[i], c) {
            caret_at(s[i].end + 1)
        } else {
            s[i]
        },
    )
}

pub open spec fn all_carets(s: Seq<SelRegion>) -> bool {
    forall|i: int| 0 <= i < s.len() ==> (#[trigger] s[i]).start == s[i].end
}

/// Caret regions in strictly ascending position order.
pub open spec fn ascending_carets(s: Seq<SelRegion>) -> bool {
    all_carets(s) && forall|i: int, j: int| #![trigger s[i], s[j]] 0 <= i < j < s.len() ==> s[i].end
        < s[j].end
}

/// One insertion of `ins` at every caret.
pub open spec fn caret_repls(s: Seq<SelRegion>, ins: Seq<char>) -> Seq<ReplSpec> {
    Seq::new(s.len(), |i: int| (s[i].end as int, s[i].end as int, ins))
}

/// Every region takes the plain insertion: the character is not a
/// pairing one; or it is a closer with no closer to skip and no syntax
/// collaborator; or it is an opener whose context never allows
/// auto-closing.
pub open spec fn plain_insert_applies(
    text: Seq<char>,
    s: Seq<SelRegion>,
    c: char,
    has_syntax: bool,
) -> bool {
    ||| pair_direction_spec(c) is None
    ||| (pair_direction_spec(c) == Some(false) && (forall|i: int|
        0 <= i < s.len() ==> !((#[trigger] s[i]).end < text.len() && text[s[i].end as int] == c))
        && (!has_syntax || (forall|i: int|
        0 <= i < s.len() ==> unmatched_before(
            text,
            counterpart_spec(c).unwrap(),
            c,
            (#[trigger] s[i]).end as int,
            0,
        ) is None)))
    ||| (pair_direction_spec(c) == Some(true) && forall|i: int|
        0 <= i < s.len() ==> !safe_ctx(text, (#[trigger] s[i]).end as int))
}

/// The start offsets of the regions.
pub open spec fn sel_starts(s: Seq<SelRegion>) -> Seq<usize> {
    Seq::new(s.len(), |i: int| s[i].start)
}


/// The regions remapped through the replacements `rs`, both endpoints
/// with the same drift flag; horizontal hints cleared.
pub open spec fn remapped_with(rs: Seq<ReplSpec>, s: Seq<SelRegion>, after: bool) -> Seq<
    SelRegion,
> {
    Seq::new(
        s.len(),
        |i: int| SelRegion {
            start: remap_upto(rs, rs.len() as int, s[i].start as int, after) as usize,
            end: remap_upto(rs, rs.len() as int, s[i].end as int, after) as usize,
            horiz: None,
        },
    )
}

/// The insertion points of the late edits: the current start of the
/// region at each recorded index.
pub open spec fn late_points(ns: Seq<SelRegion>, lates: Seq<(usize, char)>) -> Seq<usize> {
    Seq::new(lates.len(), |w: int| ns[lates[w].0 as int].start)
}


/// The selection a character-wise paste targets, which for Insert and
/// Visual origins is the current edit selection: in Normal mode a
/// caret after the character under the cursor, clamped to the line
/// end; in Insert mode the selection itself; in Visual mode the range
/// extended per sub-kind, a per-line rectangle for the block-wise
/// kind.
pub open spec fn paste_target(m: CursorMode, text: Seq<char>) -> Seq<SelRegion> {
    match m {
        CursorMode::Normal(o) => {
            let le = line_end_spec(text, line_of_offset_spec(text, o as int), true);
            let t = if o as int + 1 <= le {
                o as int + 1
            } else {
                le
            };
            seq![SelRegion { start: t as usize, end: t as usize, horiz: None }]
        },
        CursorMode::Insert(sel) => sel@,
        CursorMode::Visual { start, end, mode } => {
            let mn = if start <= end {
                start
            } else {
                end
            };
            let mx = if start <= end {
                end
            } else {
                start
            };
            match mode {
                VisualMode::Normal => {
                    let e = if mx as int + 1 <= text.len() {
                        mx as int + 1
                    } else {
                        text.len() as int
                    };
                    seq![SelRegion { start: mn, end: e as usize, horiz: None }]
                },
                VisualMode::Linewise => seq![
                    SelRegion {
                        start: offset_of_line_spec(
                            text,
                            line_of_offset_spec(text, mn as int),
                        ) as usize,
                        end: offset_of_line_spec(
                            text,
                            line_of_offset_spec(text, mx as int) + 1,
                        ) as usize,
                        horiz: None,
                    },
                ],
                VisualMode::Blockwise => blockwise_regions(text, mn as int, mx as int),
            }
        },
    }
}

/// An addition that saturates at the machine limit.
pub open spec fn sat_add(a: int, b: int) -> int {
    if a + b <= usize::MAX {
        a + b
    } else {
        usize::MAX as int
    }
}

/// When every region contributes the plain insertion of `c` at its
/// caret, the main edits are exactly one insertion per caret.
pub proof fn lemma_main_repls_plain(
    text: Seq<char>,
    s: Seq<SelRegion>,
    c: char,
    has_syntax: bool,
    i: int,
)
    requires
        0 <= i <= s.len(),
        forall|j: int| 0 <= j < s.len() ==> insert_region_repl(text, #[trigger] s[j], c, has_syntax)
            == Some((s[j].end as int, s[j].end as int, seq![c])),
    ensures
        main_repls_upto(text, s, c, has_syntax, i) =~~= caret_repls(s, seq![c]).take(i),
    decreases i,
{
    if i > 0 {
        lemma_main_repls_plain(text, s, c, has_syntax, i - 1);
        assert(caret_repls(s, seq![c]).take(i) =~~= caret_repls(s, seq![c]).take(i - 1).push(
            caret_repls(s, seq![c])[i - 1],
        ));
    }
}

/// When every region skips, there are no main edits.
pub proof fn lemma_main_repls_skip(
    text: Seq<char>,
    s: Seq<SelRegion>,
    c: char,
    has_syntax: bool,
    i: int,
)
    requires
        0 <= i <= s.len(),
        forall|j: int| 0 <= j < s.len() ==> skips_closer(text, #[trigger] s[j], c),
    ensures
        main_repls_upto(text, s, c, has_syntax, i) =~~= Seq::<ReplSpec>::empty(),
    decreases i,
{
    if i > 0 {
        lemma_main_repls_skip(text, s, c, has_syntax, i - 1);
    }
}

/// When no region auto-closes, there are no late edits.
pub proof fn lemma_lates_none(text: Seq<char>, s: Seq<SelRegion>, c: char, i: int)
    requires
        0 <= i <= s.len(),
        forall|j: int| 0 <= j < s.len() ==> !auto_closes(text, #[trigger] s[j], c),
    ensures
        lates_upto(text, s, c, i) =~~= Seq::<(usize, char)>::empty(),
    decreases i,
{
    if i > 0 {
        lemma_lates_none(text, s, c, i - 1);
    }
}

/// When every region auto-closes, the late edits are one closer per
/// region, in region order.
pub proof fn lemma_lates_all(text: Seq<char>, s: Seq<SelRegion>, c: char, cp: char, i: int)
    requires
        0 <= i <= s.len(),
        counterpart_spec(c) == Some(cp),
        forall|j: int| 0 <= j < s.len() ==> auto_closes(text, #[trigger] s[j], c),
        s.len() <= usize::MAX,
    ensures
        lates_upto(text, s, c, i) =~~= Seq::new(i as nat, |t: int| (t as usize, cp)),
    decreases i,
{
    if i > 0 {
        lemma_lates_all(text, s, c, cp, i - 1);
        assert(lates_upto(text, s, c, i) =~~= Seq::new(
            (i - 1) as nat,
            |t: int| (t as usize, cp),
        ).push((((i - 1) as usize), cp)));
    }
}

/// Length change of a prefix of one-character pure insertions.
pub proof fn lemma_shift_ones(rs: Seq<ReplSpec>, i: int)
    requires
        0 <= i <= rs.len(),
        forall|j: int| 0 <= j < rs.len() ==> (#[trigger] rs[j]).1 == rs[j].0 && rs[j].2.len() == 1,
    ensures
        shift_at(rs, i) == i,
    decreases i,
{
    if i > 0 {
        lemma_shift_ones(rs, i - 1);
    }
}

/// Remapping the insertion point of one of a batch of pure insertions
/// at strictly ascending offsets, with drift after, lands just past
/// that insertion.
pub proof fn lemma_remap_insert_point(rs: Seq<ReplSpec>, k: int, i: int)
    requires
        0 <= i < k <= rs.len(),
        forall|j: int| 0 <= j < rs.len() ==> (#[trigger] rs[j]).1 == rs[j].0,
        forall|a: int, b: int| #![trigger rs[a], rs[b]] 0 <= a < b < rs.len() ==> rs[a].0 < rs[b].0,
    ensures
        remap_upto(rs, k, rs[i].0, true) == rs[i].0 + shift_at(rs, i) + rs[i].2.len(),
    decreases k,
{
    if k - 1 > i {
        assert(rs[i].0 < rs[k - 1].0);
        lemma_remap_insert_point(rs, k - 1, i);
    }
}

/// Undo-group law: in a sequence of classified edits a new group starts
/// exactly before an edit classified `Other` or one whose
/// classification differs from its predecessor's; in particular two
/// consecutive `InsertChars` edits never split a group, while
/// `InsertChars` followed by `Delete` always starts a new one.
pub proof fn lemma_undo_group_boundaries(cur: EditType, prev: EditType)
    ensures
        breaks_undo_group_spec(cur, prev) <==> (cur == EditType::Other || cur != prev),
        !breaks_undo_group_spec(EditType::InsertChars, EditType::InsertChars),
        breaks_undo_group_spec(EditType::Delete, EditType::InsertChars),
{
}

/// The replacements requested by the late edits over the remapped
/// regions: each a caret insertion of the recorded closer at the
/// current position of the region at the recorded index.
pub open spec fn late_repls_upto(lates: Seq<(usize, char)>, ns: Seq<SelRegion>, i: int) -> Seq<
    ReplSpec,
>
    decreases i,
{
    if i <= 0 {
        Seq::empty()
    } else {
        late_repls_upto(lates, ns, i - 1).push(
            (
                region_min(ns[lates[i - 1].0 as int]),
                region_max(ns[lates[i - 1].0 as int]),
                seq![lates[i - 1].1],
            ),
        )
    }
}

/// Shape of the late replacements: entry `a` is the recorded closer
/// inserted over the region at the recorded index.
pub proof fn lemma_late_props(lates: Seq<(usize, char)>, ns: Seq<SelRegion>, i: int, a: int)
    requires
        0 <= a < i <= lates.len(),
    ensures
        late_repls_upto(lates, ns, i).len() == i,
        late_repls_upto(lates, ns, i)[a] =~~= (
            region_min(ns[lates[a].0 as int]),
            region_max(ns[lates[a].0 as int]),
            seq![lates[a].1],
        ),
    decreases i,
{
    if a < i - 1 {
        lemma_late_props(lates, ns, i - 1, a);
    } else if i > 1 {
        lemma_late_props(lates, ns, i - 1, i - 2);
    }
    assert(late_repls_upto(lates, ns, i - 1).len() == i - 1);
}

/// A recorded late edit implies the typed character opens a pair.
pub proof fn lemma_lates_opener(text: Seq<char>, s: Seq<SelRegion>, c: char, i: int)
    ensures
        lates_upto(text, s, c, i).len() > 0 ==> pair_direction_spec(c) == Some(true),
    decreases i,
{
    if i > 0 {
        lemma_lates_opener(text, s, c, i - 1);
    }
}

/// With one late closer per region, in region order, over caret
/// regions, the late edits are one insertion per caret.
pub proof fn lemma_late_repls_carets(lates: Seq<(usize, char)>, ns: Seq<SelRegion>, cp: char, i: int)
    requires
        lates.len() == ns.len(),
        ns.len() <= usize::MAX,
        forall|t: int| 0 <= t < lates.len() ==> (#[trigger] lates[t]).0 == t as usize && lates[t].1
            == cp,
        all_carets(ns),
        0 <= i <= lates.len(),
    ensures
        late_repls_upto(lates, ns, i) =~~= caret_repls(ns, seq![cp]).take(i),
    decreases i,
{
    if i > 0 {
        lemma_late_repls_carets(lates, ns, cp, i - 1);
        assert(ns[i - 1].start == ns[i - 1].end);
        assert(caret_repls(ns, seq![cp]).take(i) =~~= caret_repls(ns, seq![cp]).take(i - 1).push(
            caret_repls(ns, seq![cp])[i - 1],
        ));
    }
}

/// There is a late insertion point equal to `x`.
pub open spec fn matches_pt(pts: Seq<usize>, x: int) -> bool {
    exists|t: int| 0 <= t < pts.len() && pts[t] == x
}

/// Running length adjustment after walking the first `w` regions in
/// ascending order: it grows by one for every region whose
/// pre-adjustment start is a late insertion point.
pub open spec fn adj_upto(ns: Seq<SelRegion>, ord: Seq<usize>, pts: Seq<usize>, w: int) -> int
    decreases w,
{
    if w <= 0 {
        0
    } else {
        adj_upto(ns, ord, pts, w - 1) + if matches_pt(pts, ns[ord[w - 1] as int].start as int) {
            1int
        } else {
            0int
        }
    }
}

pub proof fn lemma_adj_zero(ns: Seq<SelRegion>, ord: Seq<usize>, pts: Seq<usize>, w: int)
    requires
        pts.len() == 0,
        w >= 0,
    ensures
        adj_upto(ns, ord, pts, w) == 0,
    decreases w,
{
    if w > 0 {
        lemma_adj_zero(ns, ord, pts, w - 1);
    }
}

pub proof fn lemma_adj_all(ns: Seq<SelRegion>, ord: Seq<usize>, pts: Seq<usize>, w: int)
    requires
        0 <= w <= ord.len(),
        ord.len() <= usize::MAX,
        ord.len() == ns.len(),
        pts.len() == ns.len(),
        forall|t: int| 0 <= t < ord.len() ==> (#[trigger] ord[t]) == t as usize,
        forall|t: int| 0 <= t < pts.len() ==> (#[trigger] pts[t]) == ns[t].start,
    ensures
        adj_upto(ns, ord, pts, w) == w,
    decreases w,
{
    if w > 0 {
        lemma_adj_all(ns, ord, pts, w - 1);
        assert(pts[w - 1] == ns[ord[w - 1] as int].start);
        assert(matches_pt(pts, ns[ord[w - 1] as int].start as int));
    }
}

/// The three single-character scenarios, derived from the batched
/// edits and remaps: plain insertion at every caret, skip-over at
/// every caret, and auto-pairing at every caret.
#[verifier::rlimit(100)]
pub proof fn lemma_insert_scenarios(
    text0: Seq<char>,
    sel0: Seq<SelRegion>,
    c: char,
    hs: bool,
    s_chars: Seq<char>,
    edits: Seq<(Selection, Vec<char>)>,
    latesv: Seq<(usize, char)>,
    edits2: Seq<(Selection, Vec<char>)>,
    sel_modv: Seq<SelRegion>,
    ns_pre0: Seq<SelRegion>,
    ptsv: Seq<usize>,
    d1rs: Seq<ReplSpec>,
    text1: Seq<char>,
    text2: Seq<char>,
    finalv: Seq<SelRegion>,
)
    requires
        s_chars == seq![c],
        sel0.len() <= usize::MAX,
        forall|i: int| 0 <= i < sel0.len() ==> (#[trigger] sel0[i]).start <= text0.len() && sel0[
            i
        ].end <= text0.len(),
        text0.len() <= usize::MAX,
        gather_repls(edits) =~~= main_repls(text0, sel0, c, hs),
        latesv =~~= lates_upto(text0, sel0, c, sel0.len() as int),
        forall|t: int| 0 <= t < latesv.len() ==> (#[trigger] latesv[t]).0 < sel0.len(),
        sel_modv.len() == sel0.len(),
        forall|j: int| 0 <= j < sel0.len() ==> (#[trigger] sel_modv[j]) == skip_adjusted(
            text0,
            sel0,
            c,
        )[j],
        d1rs == sorted_gather(edits),
        text1 == apply_repls(text0, sorted_gather(edits)),
        ns_pre0.len() == sel_modv.len(),
        forall|i: int| 0 <= i < sel_modv.len() ==> (#[trigger] ns_pre0[i]).start as int
            == remap_upto(d1rs, d1rs.len() as int, sel_modv[i].start as int, true) && ns_pre0[
            i
        ].end as int == remap_upto(d1rs, d1rs.len() as int, sel_modv[i].end as int, true)
            && ns_pre0[i].horiz is None,
        gather_repls(edits2) =~~= late_repls_upto(latesv, ns_pre0, latesv.len() as int),
        text2 == apply_repls(text1, sorted_gather(edits2)),
        ptsv.len() == latesv.len(),
        forall|w: int| 0 <= w < latesv.len() ==> (#[trigger] ptsv[w]) == ns_pre0[latesv[w].0
            as int].start,
        finalv.len() == ns_pre0.len(),
        ({
            let ord = sorted_idx(sel_starts(ns_pre0));
            &&& (forall|w: int| 0 <= w < ns_pre0.len() ==> (#[trigger] finalv[ord[w] as int])
                =~~= (SelRegion {
                start: sat_add(
                    ns_pre0[ord[w] as int].start as int,
                    adj_upto(ns_pre0, ord, ptsv, w),
                ) as usize,
                end: sat_add(
                    ns_pre0[ord[w] as int].end as int,
                    adj_upto(ns_pre0, ord, ptsv, w),
                ) as usize,
                horiz: None,
            }))
            &&& (forall|j: int| 0 <= j < ns_pre0.len() && (forall|w: int|
                0 <= w < ns_pre0.len() ==> ord[w] != j as usize) ==> finalv[j] == ns_pre0[j])
        }),
    ensures
        ascending_carets(sel0) && plain_insert_applies(text0, sel0, c, hs) ==> text2
            == apply_repls(text0, caret_repls(sel0, s_chars)) && finalv =~~= Seq::new(
            sel0.len(),
            |i: int| caret_at(sel0[i].end + i + 1),
        ),
        all_carets(sel0) && pair_direction_spec(c) == Some(false) && (forall|i: int|
            0 <= i < sel0.len() ==> (#[trigger] sel0[i]).end < text0.len() && text0[sel0[i].end
                as int] == c) ==> text2 == text0 && finalv =~~= Seq::new(
            sel0.len(),
            |i: int| caret_at(sel0[i].end + 1),
        ),
        ascending_carets(sel0) && pair_direction_spec(c) == Some(true) && (forall|i: int|
            0 <= i < sel0.len() ==> safe_ctx(text0, (#[trigger] sel0[i]).end as int)) && text0.len()
            + 2 * sel0.len() <= usize::MAX ==> text2 == apply_repls(
            apply_repls(text0, caret_repls(sel0, s_chars)),
            caret_repls(
                Seq::new(sel0.len(), |i: int| caret_at(sel0[i].end + i + 1)),
                seq![counterpart_spec(c).unwrap()],
            ),
        ) && finalv =~~= Seq::new(sel0.len(), |i: int| caret_at(sel0[i].end + 2 * i + 1)),
{
    let s_at = s_chars;
    let nn = ns_pre0.len();
    let keys2v = sel_starts(ns_pre0);
    let ord2 = sorted_idx(keys2v);
        let nI = sel0.len() as int;
        let crs = caret_repls(sel0, seq![c]);
        if all_carets(sel0) && (plain_insert_applies(text0, sel0, c, hs)
            || pair_direction_spec(c) == Some(true)) {
            assert(gather_repls(edits) =~~= caret_repls(sel0, s_at)) by {
                assert forall|j: int| 0 <= j < nI implies insert_region_repl(
                    text0,
                    #[trigger] sel0[j],
                    c,
                    hs,
                ) == Some((sel0[j].end as int, sel0[j].end as int, seq![c])) && !skips_closer(
                    text0,
                    sel0[j],
                    c,
                ) by {
                    assert(sel0[j].start == sel0[j].end);
                    assert(region_min(sel0[j]) == sel0[j].end as int);
                }
                lemma_main_repls_plain(text0, sel0, c, hs, nI);
                assert(crs.take(nI) =~~= crs);
                assert(caret_repls(sel0, s_at) =~~= crs);
            }
            if ascending_carets(sel0) {
                assert(sorted_gather(edits) =~~= caret_repls(sel0, s_at) && text1
                    == apply_repls(text0, caret_repls(sel0, s_at)) && (forall|i: int|
                    0 <= i < nI ==> (#[trigger] ns_pre0[i]) =~~= caret_at(
                        sel0[i].end + i + 1,
                    ))) by {
                    assert(caret_repls(sel0, s_at) =~~= crs);
                    assert(gather_repls(edits) =~~= crs);
                    assert forall|a: int, b: int|
                        0 <= a < b < repl_starts(gather_repls(edits)).len() implies (
                    #[trigger] repl_starts(gather_repls(edits))[a]) < (#[trigger] repl_starts(
                        gather_repls(edits),
                    )[b]) by {
                        assert(sel0[a].end < sel0[b].end);
                    }
                    lemma_sorted_idx_identity(
                        repl_starts(gather_repls(edits)),
                        gather_repls(edits).len() as int,
                    );
                    assert(sorted_gather(edits) =~~= crs);
                    assert(text1 == apply_repls(text0, crs));
                    assert forall|i: int| 0 <= i < nI implies (#[trigger] ns_pre0[i])
                        =~~= caret_at(sel0[i].end + i + 1) by {
                        assert(sel_modv[i] == skip_adjusted(text0, sel0, c)[i]);
                        assert(sel_modv[i] == sel0[i]);
                        lemma_remap_insert_point(crs, crs.len() as int, i);
                        lemma_shift_ones(crs, i);
                        assert(d1rs == sorted_gather(edits));
                        assert(ns_pre0[i].start as int == remap_upto(d1rs, d1rs.len() as int, sel0[i].end as int, true));
                    }
                }
            }
        }
        if ascending_carets(sel0) && plain_insert_applies(text0, sel0, c, hs) {
            assert(text2 == apply_repls(text0, caret_repls(sel0, s_at)) && finalv
                =~~= Seq::new(sel0.len(), |i: int| caret_at(sel0[i].end + i + 1))) by {
                // no region auto-closes, so the late batch is empty and
                // the adjustment pass leaves the selection unchanged
                assert forall|j: int| 0 <= j < nI implies !auto_closes(
                    text0,
                    #[trigger] sel0[j],
                    c,
                ) by {
                    if pair_direction_spec(c) == Some(true) {
                        assert(!safe_ctx(text0, sel0[j].end as int));
                    }
                }
                lemma_lates_none(text0, sel0, c, nI);
                assert(latesv.len() == 0);
                assert(ptsv.len() == 0);
                assert(gather_repls(edits2).len() == 0);
                assert(sorted_gather(edits2) =~~= Seq::<ReplSpec>::empty());
                assert(text2 =~= text1);
                assert(text2 == apply_repls(text0, caret_repls(sel0, s_at)));
                assert forall|i: int| 0 <= i < nI implies (#[trigger] finalv[i]) =~~= ns_pre0[
                    i
                ] by {
                    if exists|w: int| 0 <= w < ns_pre0.len() as int && ord2[w] == i as usize {
                        let w = choose|w: int|
                            0 <= w < ns_pre0.len() as int && ord2[w] == i as usize;
                        assert(ord2[w] as int == i);
                        lemma_adj_zero(ns_pre0, ord2, ptsv, w);
                        assert(finalv[i] =~~= (SelRegion {
                            start: sat_add(ns_pre0[i].start as int, 0) as usize,
                            end: sat_add(ns_pre0[i].end as int, 0) as usize,
                            horiz: None,
                        }));
                        assert(ns_pre0[i].horiz is None);
                    }
                }
                assert(finalv =~~= Seq::new(sel0.len(), |i: int| caret_at(sel0[i].end + i + 1)));
            }
        }
        if all_carets(sel0) && pair_direction_spec(c) == Some(false) && (forall|i: int|
            0 <= i < nI ==> (#[trigger] sel0[i]).end < text0.len() && text0[sel0[i].end as int]
                == c) {
            assert(text2 == text0 && finalv =~~= Seq::new(
                sel0.len(),
                |i: int| caret_at(sel0[i].end + 1),
            )) by {
                // skip-over everywhere: no edits at all
                assert forall|j: int| 0 <= j < nI implies skips_closer(
                    text0,
                    #[trigger] sel0[j],
                    c,
                ) && !auto_closes(text0, sel0[j], c) by {}
                lemma_main_repls_skip(text0, sel0, c, hs, nI);
                assert(gather_repls(edits).len() == 0);
                assert(sorted_gather(edits) =~~= Seq::<ReplSpec>::empty());
                assert(text1 =~= text0);
                lemma_lates_none(text0, sel0, c, nI);
                assert(latesv.len() == 0);
                assert(ptsv.len() == 0);
                assert(gather_repls(edits2).len() == 0);
                assert(sorted_gather(edits2) =~~= Seq::<ReplSpec>::empty());
                assert(text2 =~= text1);
                assert(text2 == text0);
                assert forall|i: int| 0 <= i < nI implies (#[trigger] ns_pre0[i]) =~~= caret_at(
                    sel0[i].end + 1,
                ) by {
                    assert(sel_modv[i] == skip_adjusted(text0, sel0, c)[i]);
                    assert(sel_modv[i] =~~= caret_at(sel0[i].end + 1));
                    assert(d1rs.len() == 0);
                }
                assert forall|i: int| 0 <= i < nI implies (#[trigger] finalv[i]) =~~= ns_pre0[
                    i
                ] by {
                    if exists|w: int| 0 <= w < ns_pre0.len() as int && ord2[w] == i as usize {
                        let w = choose|w: int|
                            0 <= w < ns_pre0.len() as int && ord2[w] == i as usize;
                        assert(ord2[w] as int == i);
                        lemma_adj_zero(ns_pre0, ord2, ptsv, w);
                        assert(finalv[i] =~~= (SelRegion {
                            start: sat_add(ns_pre0[i].start as int, 0) as usize,
                            end: sat_add(ns_pre0[i].end as int, 0) as usize,
                            horiz: None,
                        }));
                        assert(ns_pre0[i].horiz is None);
                    }
                }
                assert(finalv =~~= Seq::new(sel0.len(), |i: int| caret_at(sel0[i].end + 1)));
            }
        }
        if ascending_carets(sel0) && pair_direction_spec(c) == Some(true) && (forall|i: int|
            0 <= i < nI ==> safe_ctx(text0, (#[trigger] sel0[i]).end as int)) && text0.len() + 2
            * nI <= usize::MAX {
            assert(text2 == apply_repls(
                apply_repls(text0, caret_repls(sel0, s_at)),
                caret_repls(
                    Seq::new(sel0.len(), |i: int| caret_at(sel0[i].end + i + 1)),
                    seq![counterpart_spec(c).unwrap()],
                ),
            ) && finalv =~~= Seq::new(
                sel0.len(),
                |i: int| caret_at(sel0[i].end + 2 * i + 1),
            )) by {
                // auto-pair everywhere: one closer per caret, applied at
                // the remapped positions, then the interference pass
                // shifts each caret by the number of earlier closers
                let cp = counterpart_spec(c).unwrap();
                assert(counterpart_spec(c) == Some(cp));
                assert forall|j: int| 0 <= j < nI implies auto_closes(
                    text0,
                    #[trigger] sel0[j],
                    c,
                ) by {}
                lemma_lates_all(text0, sel0, c, cp, nI);
                assert(latesv =~~= Seq::new(sel0.len(), |t: int| (t as usize, cp)));
                lemma_late_repls_carets(latesv, ns_pre0, cp, nI);
                assert(caret_repls(ns_pre0, seq![cp]).take(nI) =~~= caret_repls(
                    ns_pre0,
                    seq![cp],
                ));
                assert(gather_repls(edits2) =~~= caret_repls(ns_pre0, seq![cp]));
                assert forall|a: int, b: int|
                    0 <= a < b < repl_starts(gather_repls(edits2)).len() implies (
                #[trigger] repl_starts(gather_repls(edits2))[a]) < (#[trigger] repl_starts(
                    gather_repls(edits2),
                )[b]) by {
                    assert(ns_pre0[a] =~~= caret_at(sel0[a].end + a + 1));
                    assert(ns_pre0[b] =~~= caret_at(sel0[b].end + b + 1));
                    assert(sel0[a].end < sel0[b].end);
                }
                lemma_sorted_idx_identity(
                    repl_starts(gather_repls(edits2)),
                    gather_repls(edits2).len() as int,
                );
                assert(sorted_gather(edits2) =~~= caret_repls(ns_pre0, seq![cp]));
                assert(text2 == apply_repls(text1, caret_repls(ns_pre0, seq![cp])));
                let mid = Seq::new(sel0.len(), |i: int| caret_at(sel0[i].end + i + 1));
                assert(ns_pre0 =~~= mid);
                assert(caret_repls(ns_pre0, seq![cp]) =~~= caret_repls(mid, seq![cp]));
                assert(text2 == apply_repls(
                    apply_repls(text0, caret_repls(sel0, s_at)),
                    caret_repls(mid, seq![cp]),
                ));
                assert forall|a: int, b: int| 0 <= a < b < keys2v.len() implies (
                #[trigger] keys2v[a]) < (#[trigger] keys2v[b]) by {
                    assert(ns_pre0[a] =~~= caret_at(sel0[a].end + a + 1));
                    assert(ns_pre0[b] =~~= caret_at(sel0[b].end + b + 1));
                    assert(sel0[a].end < sel0[b].end);
                }
                lemma_sorted_idx_identity(keys2v, keys2v.len() as int);
                assert forall|i: int| 0 <= i < nI implies (#[trigger] finalv[i]) =~~= caret_at(
                    sel0[i].end + 2 * i + 1,
                ) by {
                    assert(ord2[i] == i as usize);
                    lemma_adj_all(ns_pre0, ord2, ptsv, i);
                    assert(finalv[i] =~~= (SelRegion {
                        start: sat_add(ns_pre0[i].start as int, i) as usize,
                        end: sat_add(ns_pre0[i].end as int, i) as usize,
                        horiz: None,
                    }));
                    assert(ns_pre0[i] =~~= caret_at(sel0[i].end + i + 1));
                    assert(sel0[i].end < text0.len() || sel0[i].end <= text0.len());
                    assert(sat_add(ns_pre0[i].start as int, i) == sel0[i].end + 2 * i + 1);
                }
                assert(finalv =~~= Seq::new(
                    sel0.len(),
                    |i: int| caret_at(sel0[i].end + 2 * i + 1),
                ));
            }
        }
}


/// The caret regions of an Insert selection snapped to the starts of
/// their own lines, as a line-wise paste targets them.
pub open spec fn snapped_regions(text: Seq<char>, s: Seq<SelRegion>) -> Seq<SelRegion> {
    Seq::new(
        s.len(),
        |i: int| if s[i].start == s[i].end {
            let ls = offset_of_line_spec(text, line_of_offset_spec(text, s[i].start as int));
            SelRegion { start: ls as usize, end: ls as usize, horiz: s[i].horiz }
        } else {
            s[i]
        },
    )
}


/// One MoveLineUp step: if the region's start line has a predecessor,
/// the span from that line's start through the end of the region's
/// last line is deleted and reinserted at the previous line's start
/// (swapping the block above the previous line), and the region's
/// offsets drop by the previous line's length; otherwise nothing
/// happens.
/// The two replacements a MoveLineUp step applies: the region's line
/// block reinserted at the previous line's start, and the block's old
/// span deleted.
pub open spec fn move_repls(text: Seq<char>, r: SelRegion) -> Seq<ReplSpec> {
    let sl = line_of_offset_spec(text, region_min(r));
    let p = offset_of_line_spec(text, sl - 1);
    let cs = offset_of_line_spec(text, sl);
    let el = line_of_offset_spec(text, region_max(r));
    let en = offset_of_line_spec(text, el + 1);
    seq![(p, p, text.subrange(cs, en)), (cs, en, Seq::<char>::empty())]
}

pub open spec fn move_region_up(text: Seq<char>, r: SelRegion) -> (Seq<char>, SelRegion, bool) {
    let sl = line_of_offset_spec(text, region_min(r));
    if sl >= 1 {
        let p = offset_of_line_spec(text, sl - 1);
        let cs = offset_of_line_spec(text, sl);
        let prev_len = cs - p;
        (
            apply_repls(text, move_repls(text, r)),
            SelRegion {
                start: (r.start - prev_len) as usize,
                end: (r.end - prev_len) as usize,
                horiz: r.horiz,
            },
            true,
        )
    } else {
        (text, r, false)
    }
}

/// The replacement batches MoveLineUp applies over the first `i`
/// regions, one per region that moves, in order.
pub open spec fn move_deltas(text: Seq<char>, s: Seq<SelRegion>, i: int) -> Seq<Seq<ReplSpec>>
    decreases i,
{
    if i <= 0 {
        Seq::empty()
    } else {
        let prev = move_lines_up(text, s, i - 1);
        let pd = move_deltas(text, s, i - 1);
        let st = move_region_up(prev.0, prev.1[i - 1]);
        if st.2 {
            pd.push(move_repls(prev.0, prev.1[i - 1]))
        } else {
            pd
        }
    }
}

/// MoveLineUp over the first `i` regions, in stored order, each step
/// applied to the text the earlier steps produced; the third component
/// counts the regions that moved.
pub open spec fn move_lines_up(text: Seq<char>, s: Seq<SelRegion>, i: int) -> (
    Seq<char>,
    Seq<SelRegion>,
    int,
)
    decreases i,
{
    if i <= 0 {
        (text, s, 0)
    } else {
        let prev = move_lines_up(text, s, i - 1);
        let st = move_region_up(prev.0, prev.1[i - 1]);
        (st.0, prev.1.update(i - 1, st.1), prev.2 + if st.2 {
            1int
        } else {
            0int
        })
    }
}

/// The offset Normal mode lands on when leaving the current mode: one
/// step before an Insert selection's minimum, not crossing the line
/// start; a Visual range's end, not crossing the line end; a Normal
/// offset unchanged.
pub open spec fn normal_mode_offset(c: Cursor, text: Seq<char>) -> int {
    match c.mode {
        CursorMode::Insert(sel) => {
            let mo = sel_min_from(sel@, 0);
            let ls = offset_of_line_spec(text, line_of_offset_spec(text, mo));
            if mo - 1 >= ls {
                mo - 1
            } else {
                ls
            }
        },
        CursorMode::Visual { end, .. } => {
            let le = line_end_spec(text, line_of_offset_spec(text, end as int), false);
            if le <= end as int {
                le
            } else {
                end as int
            }
        },
        CursorMode::Normal(o) => o as int,
    }
}

/// What toggling a visual sub-kind does: nothing when modal editing is
/// off; leaving Visual at the range's end when the kind is already
/// active; switching the kind in place when another is; entering
/// Visual at the current offset otherwise.
pub open spec fn toggle_post(oldc: Cursor, newc: Cursor, vm: VisualMode, modal: bool) -> bool {
    if !modal {
        newc == oldc
    } else {
        match oldc.mode {
            CursorMode::Visual { start, end, mode } => if mode != vm {
                newc.mode == (CursorMode::Visual { start, end, mode: vm }) && newc.horiz
                    == oldc.horiz
            } else {
                newc.mode == CursorMode::Normal(end) && newc.horiz == oldc.horiz
            },
            _ => (newc.mode matches CursorMode::Visual { start: s2, end: e2, mode: m2 } && s2
                as int == oldc.mode.offset_spec() && e2 as int == oldc.mode.offset_spec() && m2
                == vm) && newc.horiz == oldc.horiz,
        }
    }
}

/// Non-overlapping regions within the text give a compatible edit
/// batch, whatever the content.
pub proof fn lemma_regions_to_repls(s: Seq<SelRegion>, content: Seq<char>, base: int)
    requires
        regions_compat(s),
        forall|i: int| 0 <= i < s.len() ==> (#[trigger] s[i]).start <= base && s[i].end <= base,
    ensures
        repls_compat(sel_repls(s, content), base),
{
    let rs = sel_repls(s, content);
    assert forall|i: int| 0 <= i < rs.len() implies 0 <= (#[trigger] rs[i]).0 && rs[i].0 <= rs[i].1
        && rs[i].1 <= base by {
        assert(s[i].start <= base && s[i].end <= base);
    }
    assert forall|i: int, j: int| #![trigger rs[i], rs[j]] 0 <= i < rs.len() && 0 <= j < rs.len()
        && i != j implies (rs[i].1 <= rs[j].0 || rs[j].1 <= rs[i].0) by {
        assert(region_max(s[i]) <= region_min(s[j]) || region_max(s[j]) <= region_min(s[i]));
    }
    assert forall|i: int, j: int| #![trigger rs[i], rs[j]] 0 <= i < j < rs.len() && rs[i].0 == rs[
        j
    ].0 implies rs[i].1 == rs[i].0 by {
        assert(region_min(s[i]) == region_min(s[j]) ==> region_max(s[i]) == region_min(s[i]));
    }
}

/// Stateless orchestrator of the editing operations.
pub struct Editor {}

impl Editor {
    /// Builds the main edits, the recorded late closers, and the
    /// skip-adjusted regions for typing the single character `c`.
    #[verifier::loop_isolation(false)]
    #[verifier::rlimit(100)]
    fn build_main_edits(buffer: &Buffer, sel: &Selection, c: char, syntax: Option<&Syntax>) -> (r:
        (Vec<(Selection, Vec<char>)>, Vec<(usize, char)>, Selection))
        requires
            sel.inv(),
            sel.in_bounds(buffer@.len() as int),
        ensures
            gather_repls(r.0@) =~~= main_repls(buffer@, sel@, c, syntax is Some),
            r.1@ =~~= lates_upto(buffer@, sel@, c, sel@.len() as int),
            forall|t: int| 0 <= t < r.1@.len() ==> (#[trigger] r.1@[t]).0 < sel@.len(),
            r.2@.len() == sel@.len(),
            forall|j: int| 0 <= j < sel@.len() ==> r.2@[j] == skip_adjusted(buffer@, sel@, c)[j],
            r.2.inv(),
            r.2.in_bounds(buffer@.len() as int),
    {
        let ghost text0 = buffer@;
        let ghost sel0 = sel@;
        let pair = matching_pair_direction(c);
        let hs = syntax.is_some();
        let mut edits: Vec<(Selection, Vec<char>)> = Vec::new();
        let mut edits_after: Vec<(usize, char)> = Vec::new();
        let mut sel_mod = sel.clone();
        let n = sel_mod.len();
        let mut idx: usize = 0;
        while idx < n
            invariant
                idx <= n,
                sel_mod@.len() == n as int,
                gather_repls(edits@) =~~= main_repls_upto(text0, sel0, c, hs, idx as int),
                edits_after@ =~~= lates_upto(text0, sel0, c, idx as int),
                forall|j: int| idx as int <= j < n as int ==> sel_mod@[j] == sel0[j],
                forall|j: int| 0 <= j < idx as int ==> sel_mod@[j] == skip_adjusted(
                    text0,
                    sel0,
                    c,
                )[j],
                forall|t: int| 0 <= t < edits_after@.len() ==> (#[trigger] edits_after@[t]).0
                    < n,
                sel_mod.inv(),
                sel_mod.in_bounds(text0.len() as int),
            decreases n - idx,
        {
            let region = sel_mod.regions()[idx];
            let offset = region.end;
            let cursor_char = buffer.char_at_offset(offset);
            let ghost pre_edits = edits@;
            let ghost pre_lates = edits_after@;
            let mut resolved = false;
            if let Some(dir) = pair {
                if !dir {
                    let mut skipped = false;
                    if let Some(ch) = cursor_char {
                        if ch == c {
                            let new_offset = buffer.next_grapheme_offset(offset, 1, buffer.len());
                            sel_mod.set_region(idx, SelRegion::caret(new_offset));
                            proof {
                                assert(skips_closer(text0, sel0[idx as int], c));
                                assert(sel_mod@[idx as int] =~~= skip_adjusted(
                                    text0,
                                    sel0,
                                    c,
                                )[idx as int]);
                            }
                            skipped = true;
                            resolved = true;
                        }
                    }
                    if !skipped {
                        let line = buffer.line_of_offset(offset);
                        let line_start = buffer.offset_of_line(line);
                        proof {
                            crate::buffer::lemma_line_start_of_offset(text0, offset as int);
                        }
                        let mut blank = true;
                        let mut t: usize = line_start;
                        while t < offset
                            invariant
                                line_start <= t <= offset,
                                blank == all_blank_between(text0, line_start as int, t as int),
                            decreases offset - t,
                        {
                            let ch2 = buffer.char_at(t);
                            if !(ch2 == ' ' || ch2 == '\t' || ch2 == '\r') {
                                blank = false;
                            }
                            t = t + 1;
                        }
                        let mut indented = false;
                        if blank && hs {
                            if let Some(opening) = matching_char(c) {
                                if let Some(prev_off) = buffer.previous_unmatched(
                                    syntax,
                                    opening,
                                    offset,
                                ) {
                                    let prev_line = buffer.line_of_offset(prev_off);
                                    let pls = buffer.offset_of_line(prev_line);
                                    let fnb = buffer.first_non_blank_character_on_line(prev_line);
                                    let mut content = buffer.slice_chars(pls, fnb);
                                    content.push(c);
                                    edits.push((Selection::region(line_start, offset), content));
                                    proof {
                                        lemma_gather_push(
                                            pre_edits,
                                            edits@[edits@.len() - 1],
                                            pre_edits.len() as int,
                                        );
                                        assert(insert_region_repl(text0, sel0[idx as int], c, hs)
                                            matches Some(rr) && gather_repls(edits@)
                                            =~~= main_repls_upto(
                                            text0,
                                            sel0,
                                            c,
                                            hs,
                                            idx as int,
                                        ).push(rr));
                                    }
                                    indented = true;
                                    resolved = true;
                                }
                            }
                        }
                        proof {
                            if !indented {
                                assert(insert_region_repl(text0, sel0[idx as int], c, hs) == Some(
                                    (
                                        region_min(sel0[idx as int]),
                                        region_max(sel0[idx as int]),
                                        seq![c],
                                    ),
                                ));
                            }
                        }
                    }
                } else {
                    let safe = match cursor_char {
                        None => true,
                        Some(ch) => {
                            let p = get_word_property(ch);
                            p == WordProperty::Lf || p == WordProperty::Space || p
                                == WordProperty::Punctuation
                        },
                    };
                    if safe {
                        if let Some(cp) = matching_char(c) {
                            edits_after.push((idx, cp));
                            proof {
                                assert(auto_closes(text0, sel0[idx as int], c));
                                assert(edits_after@ =~~= pre_lates.push((idx, cp)));
                            }
                        }
                    }
                }
            }
            if !resolved {
                let mut content: Vec<char> = Vec::new();
                content.push(c);
                edits.push((Selection::region(region.start, region.end), content));
                proof {
                    lemma_gather_push(pre_edits, edits@[edits@.len() - 1], pre_edits.len() as int);
                    assert(content@ =~= seq![c]);
                    assert(insert_region_repl(text0, sel0[idx as int], c, hs) matches Some(rr)
                        && gather_repls(edits@) =~~= main_repls_upto(
                        text0,
                        sel0,
                        c,
                        hs,
                        idx as int,
                    ).push(rr));
                    assert(sel_mod@[idx as int] == skip_adjusted(text0, sel0, c)[idx as int]);
                }
            }
            idx = idx + 1;
        }
        proof {
            assert(gather_repls(edits@) =~~= main_repls(text0, sel0, c, hs));
        }
        (edits, edits_after, sel_mod)
    }

    /// Builds the late-closer batch at the current region positions,
    /// and the list of their insertion points.
    #[verifier::loop_isolation(false)]
    #[verifier::rlimit(100)]
    fn build_late_edits(new_sel: &Selection, edits_after: &Vec<(usize, char)>) -> (r: (
        Vec<(Selection, Vec<char>)>,
        Vec<usize>,
    ))
        requires
            forall|t: int| 0 <= t < edits_after@.len() ==> (#[trigger] edits_after@[t]).0
                < new_sel@.len(),
        ensures
            gather_repls(r.0@) =~~= late_repls_upto(
                edits_after@,
                new_sel@,
                edits_after@.len() as int,
            ),
            r.1@.len() == edits_after@.len(),
            forall|w: int| 0 <= w < edits_after@.len() ==> (#[trigger] r.1@[w]) == new_sel@[
                edits_after@[w].0 as int
            ].start,
    {
        let ghost ns_pre0 = new_sel@;
        // the late closers, resolved at the current region positions
        let mut edits2: Vec<(Selection, Vec<char>)> = Vec::new();
        let mut pts: Vec<usize> = Vec::new();
        let mut t1: usize = 0;
        while t1 < edits_after.len()
            invariant
                t1 <= edits_after@.len(),
                gather_repls(edits2@) =~~= late_repls_upto(edits_after@, ns_pre0, t1 as int),
                pts@.len() == t1 as int,
                forall|w: int| 0 <= w < t1 as int ==> (#[trigger] pts@[w]) == ns_pre0[edits_after@[
                    w
                ].0 as int].start,
            decreases edits_after@.len() - t1,
        {
            let pr = edits_after[t1];
            let region2 = new_sel.regions()[pr.0];
            let ghost pre2 = edits2@;
            let mut content: Vec<char> = Vec::new();
            content.push(pr.1);
            edits2.push((Selection::region(region2.start, region2.end), content));
            pts.push(region2.start);
            proof {
                lemma_gather_push(pre2, edits2@[edits2@.len() - 1], pre2.len() as int);
                assert(gather_repls(edits2@) =~~= late_repls_upto(
                    edits_after@,
                    ns_pre0,
                    t1 as int + 1,
                ));
            }
            t1 = t1 + 1;
        }
        (edits2, pts)
    }

    /// The interference correction: walks the regions in ascending
    /// start order, shifting each by the accumulated length of late
    /// insertions whose point matches an earlier region's start; the
    /// shift saturates at the machine limit.
    #[verifier::loop_isolation(false)]
    #[verifier::rlimit(100)]
    fn adjust_selection(new_sel: &mut Selection, pts: &Vec<usize>)
        requires
            old(new_sel).inv(),
        ensures
            final(new_sel)@.len() == old(new_sel)@.len(),
            final(new_sel).inv(),
            ({
                let ns_pre0 = old(new_sel)@;
                let ord = sorted_idx(sel_starts(ns_pre0));
                &&& (forall|w: int| 0 <= w < ns_pre0.len() ==> (#[trigger] final(new_sel)@[ord[
                    w
                ] as int]) =~~= (SelRegion {
                    start: sat_add(
                        ns_pre0[ord[w] as int].start as int,
                        adj_upto(ns_pre0, ord, pts@, w),
                    ) as usize,
                    end: sat_add(
                        ns_pre0[ord[w] as int].end as int,
                        adj_upto(ns_pre0, ord, pts@, w),
                    ) as usize,
                    horiz: None,
                }))
                &&& (forall|j: int| 0 <= j < ns_pre0.len() && (forall|w: int|
                    0 <= w < ns_pre0.len() ==> ord[w] != j as usize) ==> final(new_sel)@[j]
                    == ns_pre0[j])
            }),
    {
        let ghost ns_pre0 = new_sel@;
        // correct for interference between late edits: walk the regions
        // in ascending order and shift each by the accumulated length
        // of late insertions that landed before it
        let nn = new_sel.len();
        let mut keys2: Vec<usize> = Vec::new();
        let mut t2: usize = 0;
        while t2 < nn
            invariant
                t2 <= nn,
                nn == ns_pre0.len(),
                new_sel@ == ns_pre0,
                keys2@.len() == t2 as int,
                forall|w: int| 0 <= w < t2 as int ==> (#[trigger] keys2@[w]) == ns_pre0[w].start,
            decreases nn - t2,
        {
            keys2.push(new_sel.regions()[t2].start);
            t2 = t2 + 1;
        }
        let order2 = sorted_by_keys(&keys2);
        proof {
            lemma_sorted_idx_props(keys2@, keys2@.len() as int);
        }
        let mut adjustment: usize = 0;
        let mut k2: usize = 0;
        while k2 < nn
            invariant
                k2 <= nn,
                nn == ns_pre0.len(),
                new_sel@.len() == nn as int,
                new_sel.inv(),
                order2@ == sorted_idx(keys2@),
                adjustment as int == adj_upto(ns_pre0, order2@, pts@, k2 as int),
                adjustment <= k2,
                forall|w: int| 0 <= w < k2 as int ==> (#[trigger] new_sel@[order2@[w] as int])
                    =~~= (SelRegion {
                    start: sat_add(
                        ns_pre0[order2@[w] as int].start as int,
                        adj_upto(ns_pre0, order2@, pts@, w),
                    ) as usize,
                    end: sat_add(
                        ns_pre0[order2@[w] as int].end as int,
                        adj_upto(ns_pre0, order2@, pts@, w),
                    ) as usize,
                    horiz: None,
                }),
                forall|j: int| 0 <= j < nn as int && (forall|w: int|
                    0 <= w < k2 as int ==> order2@[w] != j as usize) ==> new_sel@[j] == ns_pre0[j],
            decreases nn - k2,
        {
            let i2 = order2[k2];
            proof {
                assert(i2 < nn);
                assert forall|w: int| 0 <= w < k2 as int implies order2@[w] != i2 by {
                    assert(order2@[w] != order2@[k2 as int]);
                }
            }
            let r = new_sel.regions()[i2];
            proof {
                assert(r == ns_pre0[i2 as int]);
            }
            let astart = if r.start <= usize::MAX - adjustment {
                r.start + adjustment
            } else {
                usize::MAX
            };
            let aend = if r.end <= usize::MAX - adjustment {
                r.end + adjustment
            } else {
                usize::MAX
            };
            new_sel.set_region(i2, SelRegion::new(astart, aend, None));
            let mut matched = false;
            let mut t3: usize = 0;
            while t3 < pts.len()
                invariant
                    t3 <= pts@.len(),
                    matched == exists|w: int| 0 <= w < t3 as int && pts@[w] == r.start,
                decreases pts@.len() - t3,
            {
                if pts[t3] == r.start {
                    matched = true;
                }
                t3 = t3 + 1;
            }
            proof {
                assert(matched == matches_pt(pts@, r.start as int));
            }
            if matched {
                adjustment = adjustment + 1;
            }
            k2 = k2 + 1;
        }
        proof {
            assert(keys2@ =~= sel_starts(ns_pre0));
        }
    }

    /// Multi-region character insertion.  A no-op unless the cursor is
    /// in Insert state.  Text of more than one character is applied
    /// verbatim to every region; a single character is processed per
    /// region with skip-over, auto-indent and auto-pair logic, the
    /// recorded late closers applied as a second batch, and the
    /// selection corrected for interference between late edits.
    #[verifier::loop_isolation(false)]
    #[verifier::rlimit(100)]
    pub fn insert(cursor: &mut Cursor, buffer: &mut Buffer, s: &str, syntax: Option<&Syntax>)
        requires
            old(cursor).wf(old(buffer)@.len() as int),
            old(buffer)@.len() < usize::MAX,
            (old(cursor).mode matches CursorMode::Insert(sel) ==> {
                &&& (s@.len() != 1 ==> repls_compat(
                    sel_repls(sel@, s@),
                    old(buffer)@.len() as int,
                ))
                &&& (s@.len() == 1 ==> repls_compat(
                    main_repls(old(buffer)@, sel@, s@[0], syntax is Some),
                    old(buffer)@.len() as int,
                ) && (pair_direction_spec(s@[0]) == Some(true) ==> all_carets(sel@)))
            }),
        ensures
            !(old(cursor).mode is Insert) ==> *final(cursor) == *old(cursor) && final(buffer)@ == old(buffer)@,
            (old(cursor).mode matches CursorMode::Insert(sel) ==> (final(cursor).mode
                matches CursorMode::Insert(ns) && ns@.len() == sel@.len() && ns.inv())),
            // verbatim application for multi-character text: no pairing logic
            (old(cursor).mode matches CursorMode::Insert(sel) ==> (s@.len() != 1 ==> {
                let rs = sorted_of(sel_repls(sel@, s@));
                &&& final(buffer)@ == apply_repls(old(buffer)@, rs)
                &&& (final(cursor).mode matches CursorMode::Insert(ns) && forall|i: int|
                    0 <= i < sel@.len() ==> (#[trigger] ns@[i]).start as int == remap_upto(
                        rs,
                        rs.len() as int,
                        sel@[i].start as int,
                        true,
                    ) && ns@[i].end as int == remap_upto(
                        rs,
                        rs.len() as int,
                        sel@[i].end as int,
                        true,
                    ) && ns@[i].horiz is None)
            })),
            // the single-character pipeline: the per-region main edits
            // applied in ascending order, the selection remapped past
            // its insertions, the recorded closers applied at the
            // remapped carets, and the interference correction walked
            // over the regions in ascending start order
            (old(cursor).mode matches CursorMode::Insert(sel) ==> (s@.len() == 1 ==> ({
                let c = s@[0];
                let hs = syntax is Some;
                let rs1 = sorted_of(main_repls(old(buffer)@, sel@, c, hs));
                let midsel = remapped_with(rs1, skip_adjusted(old(buffer)@, sel@, c), true);
                let lates = lates_upto(old(buffer)@, sel@, c, sel@.len() as int);
                let rs2 = sorted_of(late_repls_upto(lates, midsel, lates.len() as int));
                let ptsv = late_points(midsel, lates);
                let ord = sorted_idx(sel_starts(midsel));
                &&& final(buffer)@ == apply_repls(apply_repls(old(buffer)@, rs1), rs2)
                &&& (final(cursor).mode matches CursorMode::Insert(ns) && {
                    &&& (forall|w: int| 0 <= w < midsel.len() ==> (#[trigger] ns@[ord[w] as int])
                        =~~= (SelRegion {
                        start: sat_add(
                            midsel[ord[w] as int].start as int,
                            adj_upto(midsel, ord, ptsv, w),
                        ) as usize,
                        end: sat_add(
                            midsel[ord[w] as int].end as int,
                            adj_upto(midsel, ord, ptsv, w),
                        ) as usize,
                        horiz: None,
                    }))
                    &&& (forall|j: int| 0 <= j < midsel.len() && (forall|w: int|
                        0 <= w < midsel.len() ==> ord[w] != j as usize) ==> ns@[j] == midsel[j])
                })
            }))),
            // a single character that pairs nowhere is inserted at
            // every caret, each caret advancing past its insertion
            (old(cursor).mode matches CursorMode::Insert(sel) ==> (s@.len() == 1
                && ascending_carets(sel@) && plain_insert_applies(
                old(buffer)@,
                sel@,
                s@[0],
                syntax is Some,
            ) ==> {
                &&& final(buffer)@ == apply_repls(old(buffer)@, caret_repls(sel@, s@))
                &&& (final(cursor).mode matches CursorMode::Insert(ns) && ns@ =~~= Seq::new(
                    sel@.len(),
                    |i: int| caret_at(sel@[i].end + i + 1),
                ))
            })),
            // skip-over: a closer typed right before an identical
            // closer leaves the text unchanged and only advances carets
            (old(cursor).mode matches CursorMode::Insert(sel) ==> (s@.len() == 1 && all_carets(
                sel@,
            ) && pair_direction_spec(s@[0]) == Some(false) && (forall|i: int|
                0 <= i < sel@.len() ==> (#[trigger] sel@[i]).end < old(buffer)@.len() && old(
                    buffer,
                )@[sel@[i].end as int] == s@[0]) ==> {
                &&& final(buffer)@ == old(buffer)@
                &&& (final(cursor).mode matches CursorMode::Insert(ns) && ns@ =~~= Seq::new(
                    sel@.len(),
                    |i: int| caret_at(sel@[i].end + 1),
                ))
            })),
            // auto-pair: an opener typed in safe context inserts the
            // pair with each caret landing between its two characters
            (old(cursor).mode matches CursorMode::Insert(sel) ==> (s@.len() == 1
                && ascending_carets(sel@) && pair_direction_spec(s@[0]) == Some(true) && (forall|
                i: int,
            |
                0 <= i < sel@.len() ==> safe_ctx(old(buffer)@, (#[trigger] sel@[i]).end as int))
                && old(buffer)@.len() + 2 * sel@.len() <= usize::MAX ==> {
                let mid = Seq::new(sel@.len(), |i: int| caret_at(sel@[i].end + i + 1));
                &&& final(buffer)@ == apply_repls(
                    apply_repls(old(buffer)@, caret_repls(sel@, s@)),
                    caret_repls(mid, seq![counterpart_spec(s@[0]).unwrap()]),
                )
                &&& (final(cursor).mode matches CursorMode::Insert(ns) && ns@ =~~= Seq::new(
                    sel@.len(),
                    |i: int| caret_at(sel@[i].end + 2 * i + 1),
                ))
            })),
    {
        let sel = match &cursor.mode {
            CursorMode::Insert(sel0) => sel0.clone(),
            _ => {
                return ;
            },
        };
        let ghost text0 = buffer@;
        let ghost sel0 = sel@;
        let n_chars = s.unicode_len();
        if n_chars != 1 {
            let content = str_chars(s);
            let mut edits: Vec<(Selection, Vec<char>)> = Vec::new();
            edits.push((sel.clone(), content));
            proof {
                assert(edits@.len() == 1);
                assert(edits@[0].0@ == sel0);
                assert(edits@[0].1@ == s@);
                assert(sel_repls(edits@[0].0@, edits@[0].1@) =~~= sel_repls(sel0, s@));
                assert(gather_upto(edits@, 1) == gather_upto(edits@, 0) + sel_repls(
                    edits@[0].0@,
                    edits@[0].1@,
                ));
                assert(Seq::<ReplSpec>::empty() + sel_repls(edits@[0].0@, edits@[0].1@)
                    =~~= sel_repls(edits@[0].0@, edits@[0].1@));
                assert(gather_repls(edits@) =~~= sel_repls(sel0, s@));
            }
            let (delta, _il) = buffer.edit(&edits, EditType::InsertChars);
            proof {
                assert(sorted_gather(edits@) =~~= sorted_of(sel_repls(sel0, s@)));
            }
            let new_sel = sel.apply_delta(&delta, true, InsertDrift::Default);
            cursor.mode = CursorMode::Insert(new_sel);
            return ;
        }
        let c = s.get_char(0);
        proof {
            assert(s@ =~= seq![c]);
        }
        let ghost hs = syntax is Some;
        let trip = Self::build_main_edits(buffer, &sel, c, syntax);
        let edits = trip.0;
        let edits_after = trip.1;
        let sel_mod = trip.2;
        let n_regions = sel_mod.len();
        proof {
            assert(sel0.len() == n_regions as int);
        }
        let (delta1, _il1) = buffer.edit(&edits, EditType::InsertChars);
        let ghost text1 = buffer@;
        let mut new_sel = sel_mod.apply_delta(&delta1, true, InsertDrift::Default);
        let ghost ns_pre0 = new_sel@;
        let pair2 = Self::build_late_edits(&new_sel, &edits_after);
        let edits2 = pair2.0;
        let pts = pair2.1;
        proof {
            // a late edit only exists when an opener was typed, and
            // then every region is a caret whose remap is again a
            // caret, so the late edits are compatible pure insertions
            let lrs = late_repls_upto(edits_after@, ns_pre0, edits_after@.len() as int);
            if edits_after@.len() > 0 {
                lemma_late_props(edits_after@, ns_pre0, edits_after@.len() as int, 0);
            }
            assert(lrs.len() == edits_after@.len());
            assert forall|a: int| 0 <= a < lrs.len() implies (#[trigger] lrs[a]).0 == lrs[a].1
                && 0 <= lrs[a].0 && lrs[a].1 <= text1.len() by {
                lemma_late_props(edits_after@, ns_pre0, edits_after@.len() as int, a);
                lemma_lates_opener(text0, sel0, c, sel0.len() as int);
                assert(pair_direction_spec(c) == Some(true));
                assert(all_carets(sel0));
                let idx2 = edits_after@[a].0 as int;
                assert(!skips_closer(text0, sel0[idx2], c));
                assert(sel_mod@[idx2] == skip_adjusted(text0, sel0, c)[idx2]);
                assert(sel_mod@[idx2].start == sel_mod@[idx2].end);
                let rg = ns_pre0[idx2];
                assert(rg.start == rg.end);
                assert(rg.start <= text1.len() && rg.end <= text1.len());
            }
            assert(repls_compat(gather_repls(edits2@), text1.len() as int));
        }
        let (delta2, _il2) = buffer.edit(&edits2, EditType::InsertChars);
        Self::adjust_selection(&mut new_sel, &pts);
        let ghost nn = ns_pre0.len();
        let ghost keys2v = sel_starts(ns_pre0);
        let ghost ord2 = sorted_idx(keys2v);
        cursor.mode = CursorMode::Insert(new_sel);
        proof {
            assert(drift_flags(sel_mod@[0], true, InsertDrift::Default) == (true, true)) by {
                assert(sel_mod@.len() > 0);
            }
            assert forall|i: int| 0 <= i < sel_mod@.len() implies (#[trigger] ns_pre0[i]).start
                as int == remap_upto(
                delta1.repls_spec(),
                delta1.repls_spec().len() as int,
                sel_mod@[i].start as int,
                true,
            ) && ns_pre0[i].end as int == remap_upto(
                delta1.repls_spec(),
                delta1.repls_spec().len() as int,
                sel_mod@[i].end as int,
                true,
            ) && ns_pre0[i].horiz is None by {
                assert(drift_flags(sel_mod@[i], true, InsertDrift::Default) == (true, true));
            }
            assert(sorted_of(main_repls(text0, sel0, c, hs)) =~~= sorted_gather(edits@));
            let ghost rs1g = sorted_of(main_repls(text0, sel0, c, hs));
            assert(ns_pre0 =~~= remapped_with(rs1g, skip_adjusted(text0, sel0, c), true)) by {
                assert forall|i: int| 0 <= i < ns_pre0.len() implies (#[trigger] ns_pre0[i])
                    =~~= remapped_with(rs1g, skip_adjusted(text0, sel0, c), true)[i] by {
                    assert(sel_mod@[i] == skip_adjusted(text0, sel0, c)[i]);
                }
            }
            let ghost midg = remapped_with(rs1g, skip_adjusted(text0, sel0, c), true);
            assert(lates_upto(text0, sel0, c, sel0.len() as int) =~~= edits_after@);
            let ghost latg = lates_upto(text0, sel0, c, sel0.len() as int);
            assert(sorted_of(late_repls_upto(latg, midg, latg.len() as int)) =~~= sorted_gather(
                edits2@,
            ));
            assert(late_points(midg, latg) =~~= pts@);
            assert(sel_starts(midg) =~~= keys2v);
            assert(buffer@ == apply_repls(
                apply_repls(text0, rs1g),
                sorted_of(late_repls_upto(latg, midg, latg.len() as int)),
            ));
            lemma_insert_scenarios(
                text0,
                sel0,
                c,
                hs,
                s@,
                edits@,
                edits_after@,
                edits2@,
                sel_mod@,
                ns_pre0,
                pts@,
                delta1.repls_spec(),
                text1,
                buffer@,
                new_sel@,
            );
        }
    }

    /// Toggles a Visual sub-kind; a no-op unless modal editing is on.
    fn toggle_visual(cursor: &mut Cursor, visual_mode: VisualMode, modal: bool)
        requires
            (old(cursor).mode matches CursorMode::Insert(sel) ==> sel.inv()),
        ensures
            toggle_post(*old(cursor), *final(cursor), visual_mode, modal),
    {
        if !modal {
            return ;
        }
        let current = match &cursor.mode {
            CursorMode::Visual { start, end, mode } => Some((*start, *end, *mode)),
            _ => None,
        };
        match current {
            Some((s0, e0, m0)) => {
                if m0 != visual_mode {
                    cursor.mode = CursorMode::Visual { start: s0, end: e0, mode: visual_mode };
                } else {
                    cursor.mode = CursorMode::Normal(e0);
                }
            },
            None => {
                let offset = cursor.offset();
                cursor.mode = CursorMode::Visual { start: offset, end: offset, mode: visual_mode };
            },
        }
    }

    /// Command dispatch: line move, mode transitions, and the three
    /// visual toggles.
    #[verifier::loop_isolation(false)]
    #[verifier::rlimit(100)]
    pub fn do_edit(
        cursor: &mut Cursor,
        buffer: &mut Buffer,
        cmd: &EditCommand,
        _syntax: Option<&Syntax>,
        modal: bool,
    ) -> (deltas: Vec<(Delta, InvalLines)>)
        requires
            old(cursor).wf(old(buffer)@.len() as int),
            old(buffer)@.len() < usize::MAX,
        ensures
            *cmd != EditCommand::MoveLineUp ==> final(buffer)@ == old(buffer)@ && deltas@.len()
                == 0,
            // MoveLineUp swaps each region's lines with the previous
            // line, region by region; the text keeps its length
            *cmd == EditCommand::MoveLineUp ==> final(buffer)@.len() == old(buffer)@.len() && (!(
            old(cursor).mode is Insert) ==> *final(cursor) == *old(cursor) && final(buffer)@ == old(
                buffer,
            )@ && deltas@.len() == 0) && (old(cursor).mode matches CursorMode::Insert(sel) ==> (
            final(cursor).mode matches CursorMode::Insert(ns) && ns@.len() == sel@.len()
                && ns.inv() && ({
                let st = move_lines_up(old(buffer)@, sel@, sel@.len() as int);
                &&& final(buffer)@ == st.0
                &&& ns@ =~~= st.1
                &&& deltas@.len() == st.2
                &&& (forall|k: int| 0 <= k < deltas@.len() ==> (#[trigger] deltas@[k]).0.wf()
                    && deltas@[k].0.new_len == deltas@[k].0.base_len && deltas@[k].0.repls_spec()
                    =~~= move_deltas(old(buffer)@, sel@, sel@.len() as int)[k])
            }))),
            // with modal editing off, NormalMode only collapses an
            // Insert selection: to the most recently inserted region,
            // or a single non-caret region to a caret at its end
            *cmd == EditCommand::NormalMode && !modal ==> (old(cursor).mode
                matches CursorMode::Insert(sel) ==> {
                &&& (sel@.len() > 1 ==> (final(cursor).mode matches CursorMode::Insert(ns) && ns@
                    =~~= seq![
                    (SelRegion {
                        start: sel@[sel.last_inserted_spec()].start,
                        end: sel@[sel.last_inserted_spec()].end,
                        horiz: None,
                    }),
                ]))
                &&& (sel@.len() == 1 && sel@[0].start != sel@[0].end ==> (final(cursor).mode
                    matches CursorMode::Insert(ns) && ns@ =~~= seq![
                    (SelRegion { start: sel@[0].end, end: sel@[0].end, horiz: None }),
                ]))
                &&& (sel@.len() == 1 && sel@[0].start == sel@[0].end ==> *final(cursor) == *old(
                    cursor,
                ))
            }) && (!(old(cursor).mode is Insert) ==> *final(cursor) == *old(cursor)),
            *cmd == EditCommand::NormalMode && modal ==> (final(cursor).mode
                matches CursorMode::Normal(no) && no as int == normal_mode_offset(
                *old(cursor),
                old(buffer)@,
            ) && final(cursor).horiz is None),
            *cmd == EditCommand::InsertMode ==> (final(cursor).mode matches CursorMode::Insert(ns)
                && ns@ =~~= seq![caret_at(old(cursor).mode.offset_spec())] && final(cursor).horiz
                == old(cursor).horiz),
            *cmd == EditCommand::ToggleVisualMode ==> toggle_post(
                *old(cursor),
                *final(cursor),
                VisualMode::Normal,
                modal,
            ),
            *cmd == EditCommand::ToggleLinewiseVisualMode ==> toggle_post(
                *old(cursor),
                *final(cursor),
                VisualMode::Linewise,
                modal,
            ),
            *cmd == EditCommand::ToggleBlockwiseVisualMode ==> toggle_post(
                *old(cursor),
                *final(cursor),
                VisualMode::Blockwise,
                modal,
            ),
    {
        let mut deltas: Vec<(Delta, InvalLines)> = Vec::new();
        match cmd {
            EditCommand::MoveLineUp => {
                let sel_opt = match &cursor.mode {
                    CursorMode::Insert(s0) => Some(s0.clone()),
                    _ => None,
                };
                if let Some(mut selection) = sel_opt {
                    let ghost text0m = buffer@;
                    let ghost sel0m = selection@;
                    let n = selection.len();
                    let mut i: usize = 0;
                    while i < n
                        invariant
                            i <= n,
                            selection@.len() == n as int,
                            selection.inv(),
                            buffer@.len() == old(buffer)@.len(),
                            selection.in_bounds(buffer@.len() as int),
                            buffer@ == move_lines_up(text0m, sel0m, i as int).0,
                            selection@ =~~= move_lines_up(text0m, sel0m, i as int).1,
                            deltas@.len() == move_lines_up(text0m, sel0m, i as int).2,
                            deltas@.len() == move_deltas(text0m, sel0m, i as int).len(),
                            forall|k: int| 0 <= k < deltas@.len() ==> (#[trigger] deltas@[
                                k
                            ]).0.wf() && deltas@[k].0.new_len == deltas@[k].0.base_len && deltas@[
                                k
                            ].0.repls_spec() =~~= move_deltas(text0m, sel0m, i as int)[k],
                            forall|j: int| i as int <= j < n as int ==> selection@[j] == sel0m[j],
                        decreases n - i,
                    {
                        let ghost fold_pre = move_lines_up(text0m, sel0m, i as int);
                        proof {
                            assert(fold_pre.1[i as int] == sel0m[i as int]);
                        }
                        let region = selection.regions()[i];
                        let min_off = region.min();
                        proof {
                            lemma_line_start_of_offset(buffer@, min_off as int);
                        }
                        let start_line = buffer.line_of_offset(min_off);
                        if start_line > 0 {
                            let prev_start = buffer.offset_of_line(start_line - 1);
                            let cur_start = buffer.offset_of_line(start_line);
                            proof {
                                lemma_line_start_mono(
                                    buffer@,
                                    start_line as int - 1,
                                    start_line as int,
                                    0,
                                );
                                lemma_newlines_mono(
                                    buffer@,
                                    region_min(region),
                                    region_max(region),
                                );
                            }
                            let prev_len = cur_start - prev_start;
                            let max_off = region.max();
                            let end_line = buffer.line_of_offset(max_off);
                            let end_next = buffer.offset_of_line(end_line + 1);
                            proof {
                                lemma_line_start_mono(
                                    buffer@,
                                    start_line as int,
                                    end_line as int + 1,
                                    0,
                                );
                            }
                            let content = buffer.slice_chars(cur_start, end_next);
                            let mut ed: Vec<(Selection, Vec<char>)> = Vec::new();
                            ed.push((Selection::caret(prev_start), content));
                            let empty_v: Vec<char> = Vec::new();
                            ed.push((Selection::region(cur_start, end_next), empty_v));
                            proof {
                                let g = gather_repls(ed@);
                                assert(gather_upto(ed@, 1) == gather_upto(ed@, 0) + sel_repls(
                                    ed@[0].0@,
                                    ed@[0].1@,
                                ));
                                assert(g == gather_upto(ed@, 1) + sel_repls(ed@[1].0@, ed@[1].1@));
                                assert(g.len() == 2);
                                assert(g[0].0 == prev_start as int && g[0].1 == prev_start as int
                                    && g[0].2 == buffer@.subrange(
                                    cur_start as int,
                                    end_next as int,
                                ));
                                assert(g[1].0 == cur_start as int && g[1].1 == end_next as int
                                    && g[1].2.len() == 0);
                                assert(repls_compat(g, buffer@.len() as int));
                            }
                            let ghost pre_text = buffer@;
                            let (d, il) = buffer.edit(&ed, EditType::InsertChars);
                            proof {
                                let g = gather_repls(ed@);
                                lemma_sorted_idx_props(repl_starts(g), 2);
                                let ord = sorted_idx(repl_starts(g));
                                let sg = sorted_gather(ed@);
                                assert(sg.len() == 2);
                                assert(((ord[0] as int) < 2) && ((ord[1] as int) < 2) && (ord[0]
                                    != ord[1]));
                                assert(sg[0] == g[ord[0] as int] && sg[1] == g[ord[1] as int]);
                                assert(sg[0].2.len() - (sg[0].1 - sg[0].0) + (sg[1].2.len() - (sg[
                                    1
                                ].1 - sg[1].0)) == 0);
                                assert(shift_at(sg, 2) == shift_at(sg, 1) + sg[1].2.len() - (sg[
                                    1
                                ].1 - sg[1].0));
                                assert(shift_at(sg, 1) == shift_at(sg, 0) + sg[0].2.len() - (sg[
                                    0
                                ].1 - sg[0].0));
                                assert(shift_at(sg, 2) == 0);
                                assert(buffer@.len() == pre_text.len());
                            }
                            proof {
                                // the stable sort keeps the insertion
                                // before the deletion: their starts are
                                // ordered and the insertion comes first
                                let g = gather_repls(ed@);
                                let ks = repl_starts(g);
                                assert(ks.len() == 2);
                                assert(ks[0] == prev_start && ks[1] == cur_start);
                                assert(sorted_idx_rec(ks, 1) =~~= seq![0usize]);
                                assert(ks[0] <= ks[1]);
                                assert(sorted_idx_rec(ks, 2) =~~= seq![0usize, 1usize]);
                                assert(sorted_gather(ed@) =~~= g);
                                let st = move_region_up(pre_text, region);
                                assert(g =~~= seq![
                                    (
                                        prev_start as int,
                                        prev_start as int,
                                        pre_text.subrange(cur_start as int, end_next as int),
                                    ),
                                    (cur_start as int, end_next as int, Seq::<char>::empty()),
                                ]);
                                assert(buffer@ == st.0);
                            }
                            deltas.push((d, il));
                            let new_start = region.start - prev_len;
                            let new_end = region.end - prev_len;
                            selection.set_region(
                                i,
                                SelRegion::new(new_start, new_end, region.horiz),
                            );
                            proof {
                                let st = move_region_up(fold_pre.0, fold_pre.1[i as int]);
                                assert(deltas@[deltas@.len() - 1].0.repls_spec() =~~= move_repls(
                                    fold_pre.0,
                                    fold_pre.1[i as int],
                                ));
                                assert(move_deltas(text0m, sel0m, i as int + 1) =~~= move_deltas(
                                    text0m,
                                    sel0m,
                                    i as int,
                                ).push(move_repls(fold_pre.0, fold_pre.1[i as int])));
                                assert(selection@[i as int] =~~= st.1);
                                assert(selection@ =~~= move_lines_up(
                                    text0m,
                                    sel0m,
                                    i as int + 1,
                                ).1);
                                assert(buffer@ == move_lines_up(text0m, sel0m, i as int + 1).0);
                                assert(deltas@.len() == move_lines_up(
                                    text0m,
                                    sel0m,
                                    i as int + 1,
                                ).2);
                            }
                        } else {
                            proof {
                                let st = move_region_up(fold_pre.0, fold_pre.1[i as int]);
                                assert(!st.2);
                                assert(selection@ =~~= move_lines_up(
                                    text0m,
                                    sel0m,
                                    i as int + 1,
                                ).1);
                            }
                        }
                        i = i + 1;
                    }
                    cursor.mode = CursorMode::Insert(selection);
                }
            },
            EditCommand::NormalMode => {
                if !modal {
                    let collapsed = match &cursor.mode {
                        CursorMode::Insert(sel) => Some(sel.clone()),
                        _ => None,
                    };
                    if let Some(sel2) = collapsed {
                        let ln = sel2.len();
                        if ln > 1 {
                            if let Some(region) = sel2.last_inserted() {
                                cursor.mode = CursorMode::Insert(
                                    Selection::region(region.start, region.end),
                                );
                                return deltas;
                            }
                        } else if ln == 1 {
                            let region = sel2.regions()[0];
                            if !region.is_caret() {
                                cursor.mode = CursorMode::Insert(Selection::caret(region.end));
                                return deltas;
                            }
                        }
                    }
                    return deltas;
                }
                let offset: usize;
                match &cursor.mode {
                    CursorMode::Insert(sel) => {
                        let mo = sel.min_offset();
                        proof {
                            assert(region_min(sel@[0]) <= buffer@.len());
                            assert(sel_min_from(sel@, 0) <= region_min(sel@[0]));
                        }
                        let line = buffer.line_of_offset(mo);
                        let ls = buffer.offset_of_line(line);
                        offset = buffer.prev_grapheme_offset(mo, 1, ls);
                    },
                    CursorMode::Visual { end, .. } => {
                        let le = buffer.offset_line_end(*end, false);
                        offset = if le <= *end {
                            le
                        } else {
                            *end
                        };
                    },
                    CursorMode::Normal(o) => {
                        offset = *o;
                    },
                }
                cursor.mode = CursorMode::Normal(offset);
                cursor.horiz = None;
            },
            EditCommand::InsertMode => {
                let off = cursor.offset();
                cursor.mode = CursorMode::Insert(Selection::caret(off));
            },
            EditCommand::ToggleVisualMode => {
                Self::toggle_visual(cursor, VisualMode::Normal, modal);
            },
            EditCommand::ToggleLinewiseVisualMode => {
                Self::toggle_visual(cursor, VisualMode::Linewise, modal);
            },
            EditCommand::ToggleBlockwiseVisualMode => {
                Self::toggle_visual(cursor, VisualMode::Blockwise, modal);
            },
        }
        deltas
    }

    /// Character-wise paste: into the caret after the Normal-mode
    /// character (clamped to the line end) or over the current edit
    /// selection, with drift after when in Insert mode or the content
    /// has no line break.
    #[verifier::loop_isolation(false)]
    #[verifier::rlimit(100)]
    fn paste_charwise(cursor: &mut Cursor, buffer: &mut Buffer, data: &RegisterData) -> (deltas:
        Vec<(Delta, InvalLines)>)
        requires
            old(cursor).wf(old(buffer)@.len() as int),
            old(buffer)@.len() + data.content@.len() + 2 <= usize::MAX,
            (old(cursor).mode matches CursorMode::Insert(sel) ==> regions_compat(sel@)),
        ensures
            deltas@.len() == 1,
            (final(cursor).mode is Insert) == (old(cursor).mode is Insert),
            // the content replaces the target selection; the cursor
            // stays Insert with the selection remapped past its paste,
            // or becomes Normal one step before the remapped minimum
            ({
                let tg = paste_target(old(cursor).mode, old(buffer)@);
                let rs = sorted_of(sel_repls(tg, data.content@));
                let after = (old(cursor).mode is Insert) || !data.content@.contains('\n');
                let rsel = remapped_with(rs, tg, after);
                &&& final(buffer)@ == apply_repls(old(buffer)@, rs)
                &&& (deltas@[0].0.wf() && deltas@[0].0.base_len == old(buffer)@.len() && deltas@[
                    0
                ].0.repls_spec() == rs && deltas@[0].0.new_len == final(buffer)@.len())
                &&& (old(cursor).mode is Insert ==> (final(cursor).mode
                    matches CursorMode::Insert(ns) && ns@ =~~= rsel))
                &&& (!(old(cursor).mode is Insert) ==> (final(cursor).mode
                    matches CursorMode::Normal(no) && no as int == ({
                    let mv = sel_min_from(rsel, 0);
                    if mv >= 1 {
                        mv - 1
                    } else {
                        0
                    }
                })))
            }),
    {
        let mut deltas: Vec<(Delta, InvalLines)> = Vec::new();
        let was_insert = cursor.is_insert();
        let ghost text0 = buffer@;
        // character-wise
        let target = match &cursor.mode {
            CursorMode::Normal(o) => {
                let le = buffer.offset_line_end(*o, true);
                let t = if *o + 1 <= le {
                    *o + 1
                } else {
                    le
                };
                Selection::caret(t)
            },
            _ => cursor.edit_selection(buffer),
        };
        let cv = str_chars(data.content.as_str());
        let mut has_nl = false;
        let mut i: usize = 0;
        while i < cv.len()
            invariant
                i <= cv@.len(),
                has_nl == exists|k: int| 0 <= k < i as int && cv@[k] == '\n',
            decreases cv@.len() - i,
        {
            if cv[i] == '\n' {
                has_nl = true;
            }
            i = i + 1;
        }
        let after = was_insert || !has_nl;
        let target2 = target.clone();
        let mut ed: Vec<(Selection, Vec<char>)> = Vec::new();
        ed.push((target, cv));
        proof {
            assert(gather_upto(ed@, 1) == gather_upto(ed@, 0) + sel_repls(
                ed@[0].0@,
                ed@[0].1@,
            ));
            lemma_regions_to_repls(ed@[0].0@, ed@[0].1@, buffer@.len() as int);
            assert(repls_compat(gather_repls(ed@), buffer@.len() as int));
        }
        let (d, il) = buffer.edit(&ed, EditType::InsertChars);
        let sel2 = target2.apply_delta(&d, after, InsertDrift::Default);
        proof {
            let tg = paste_target(old(cursor).mode, text0);
            assert(ed@[0].0@ =~~= tg);
            assert(ed@[0].1@ == data.content@);
            assert(sorted_gather(ed@) =~~= sorted_of(sel_repls(tg, data.content@)));
            assert(has_nl == data.content@.contains('\n'));
            assert(sel2@ =~~= remapped_with(sorted_of(sel_repls(tg, data.content@)), tg, after));
        }
        deltas.push((d, il));
        if after && was_insert {
            cursor.mode = CursorMode::Insert(sel2);
        } else {
            let mo = sel2.min_offset();
            let no = buffer.prev_grapheme_offset(mo, 1, 0);
            cursor.mode = CursorMode::Normal(no);
        }
        deltas
    }

    /// Line-wise or block-wise paste: at the start of the line after a
    /// Normal-mode caret, at the line starts of Insert carets, or over
    /// a Visual edit selection with a line break prefixed unless the
    /// capture was line-wise; from Normal or Visual mode the cursor
    /// lands on the first non-blank character of the target line.
    #[verifier::loop_isolation(false)]
    #[verifier::rlimit(100)]
    fn paste_linewise(cursor: &mut Cursor, buffer: &mut Buffer, data: &RegisterData) -> (deltas:
        Vec<(Delta, InvalLines)>)
        requires
            old(cursor).wf(old(buffer)@.len() as int),
            old(buffer)@.len() + data.content@.len() + 2 <= usize::MAX,
            data.mode != VisualMode::Normal,
            (old(cursor).mode matches CursorMode::Insert(sel) ==> regions_compat(sel@)),
            (old(cursor).mode matches CursorMode::Insert(sel) ==> regions_compat(
                snapped_regions(old(buffer)@, sel@),
            )),
        ensures
            deltas@.len() == 1,
            (final(cursor).mode is Insert) == (old(cursor).mode is Insert),
            (old(cursor).mode matches CursorMode::Normal(o) ==> ({
                let q = offset_of_line_spec(
                    old(buffer)@,
                    line_of_offset_spec(old(buffer)@, o as int) + 1,
                );
                let nl = line_of_offset_spec(final(buffer)@, q);
                &&& final(buffer)@ == apply_repls(old(buffer)@, seq![(q, q, data.content@)])
                &&& (deltas@[0].0.wf() && deltas@[0].0.base_len == old(buffer)@.len() && (deltas@[
                    0
                ].0.repls_spec() == seq![(q, q, data.content@)]) && deltas@[0].0.new_len
                    == final(buffer)@.len())
                &&& (final(cursor).mode matches CursorMode::Normal(no) && no as int
                    == offset_of_line_spec(final(buffer)@, nl) + blank_run(
                    final(buffer)@,
                    offset_of_line_spec(final(buffer)@, nl),
                ))
            })),
            // from Insert mode the carets snap to their line starts,
            // the content is inserted unchanged, and the selection is
            // remapped past its insertions
            (old(cursor).mode matches CursorMode::Insert(sel) ==> ({
                let tg = snapped_regions(old(buffer)@, sel@);
                let rs = sorted_of(sel_repls(tg, data.content@));
                &&& final(buffer)@ == apply_repls(old(buffer)@, rs)
                &&& (deltas@[0].0.wf() && deltas@[0].0.base_len == old(buffer)@.len() && deltas@[
                    0
                ].0.repls_spec() == rs && deltas@[0].0.new_len == final(buffer)@.len())
                &&& (final(cursor).mode matches CursorMode::Insert(ns) && ns@ =~~= remapped_with(
                    rs,
                    tg,
                    true,
                ))
            })),
            // from Visual mode the edit selection is replaced by the
            // content, prefixed with a line break unless the capture
            // was line-wise, and the cursor lands on the first
            // non-blank character of the line one step past the
            // remapped minimum
            (old(cursor).mode matches CursorMode::Visual { mode: vk, .. } ==> (({
                let tg = paste_target(old(cursor).mode, old(buffer)@);
                let c2 = if data.mode == VisualMode::Linewise {
                    data.content@
                } else {
                    seq!['\n'] + data.content@
                };
                let rs = sorted_of(sel_repls(tg, c2));
                let rsel = remapped_with(rs, tg, false);
                let mv = sel_min_from(rsel, 0);
                let m2 = if mv + 1 <= usize::MAX {
                    mv + 1
                } else {
                    mv
                };
                let nl = line_of_offset_spec(final(buffer)@, m2);
                &&& final(buffer)@ == apply_repls(old(buffer)@, rs)
                &&& (deltas@[0].0.wf() && deltas@[0].0.base_len == old(buffer)@.len() && deltas@[
                    0
                ].0.repls_spec() == rs && deltas@[0].0.new_len == final(buffer)@.len())
                &&& (final(cursor).mode matches CursorMode::Normal(no) && no as int
                    == offset_of_line_spec(final(buffer)@, nl) + blank_run(
                    final(buffer)@,
                    offset_of_line_spec(final(buffer)@, nl),
                ))
            }))),
    {
        let mut deltas: Vec<(Delta, InvalLines)> = Vec::new();
        let was_insert = cursor.is_insert();
        let was_visual = cursor.is_visual();
        let ghost text0 = buffer@;
        // line-wise or block-wise
        let target: Selection;
        let mut content: Vec<char> = Vec::new();
        match &cursor.mode {
            CursorMode::Normal(o) => {
                let line = buffer.line_of_offset(*o);
                let q = buffer.offset_of_line(line + 1);
                target = Selection::caret(q);
                proof {
                    assert(target.in_bounds(text0.len() as int));
                    assert(regions_compat(target@));
                }
                let mut cv = str_chars(data.content.as_str());
                content.append(&mut cv);
            },
            CursorMode::Insert(sel) => {
                let mut snapped = sel.clone();
                let n = snapped.len();
                let mut i: usize = 0;
                while i < n
                    invariant
                        i <= n,
                        snapped@.len() == n as int,
                        snapped.inv(),
                        forall|j: int| 0 <= j < i as int ==> snapped@[j] == snapped_regions(
                            text0,
                            sel@,
                        )[j],
                        forall|j: int| i as int <= j < n as int ==> snapped@[j] == sel@[j],
                    decreases n - i,
                {
                    let region = snapped.regions()[i];
                    if region.is_caret() {
                        proof {
                            lemma_line_start_bounds(
                                text0,
                                line_of_offset_spec(text0, region.start as int),
                                0,
                            );
                        }
                        let line = buffer.line_of_offset(region.start);
                        let ls = buffer.offset_of_line(line);
                        snapped.set_region(i, SelRegion::new(ls, ls, region.horiz));
                    }
                    i = i + 1;
                }
                proof {
                    assert(snapped@ =~~= snapped_regions(text0, sel@));
                    assert(regions_compat(snapped@));
                    assert forall|j: int| 0 <= j < snapped@.len() implies (
                    #[trigger] snapped@[j]).start <= text0.len() && snapped@[j].end
                        <= text0.len() by {
                        lemma_line_start_bounds(
                            text0,
                            line_of_offset_spec(text0, sel@[j].start as int),
                            0,
                        );
                    }
                }
                target = snapped;
                proof {
                    assert(target.in_bounds(text0.len() as int));
                    assert(regions_compat(target@));
                }
                let mut cv = str_chars(data.content.as_str());
                content.append(&mut cv);
            },
            CursorMode::Visual { .. } => {
                target = cursor.edit_selection(buffer);
                proof {
                    assert(target.in_bounds(text0.len() as int));
                    assert(regions_compat(target@));
                }
                if data.mode != VisualMode::Linewise {
                    content.push('\n');
                }
                let mut cv = str_chars(data.content.as_str());
                content.append(&mut cv);
            },
        }
        proof {
            assert(target.in_bounds(text0.len() as int));
            assert(regions_compat(target@));
        }
        let target2 = target.clone();
        let mut ed: Vec<(Selection, Vec<char>)> = Vec::new();
        ed.push((target, content));
        proof {
            assert(gather_upto(ed@, 1) == gather_upto(ed@, 0) + sel_repls(
                ed@[0].0@,
                ed@[0].1@,
            ));
            lemma_regions_to_repls(ed@[0].0@, ed@[0].1@, buffer@.len() as int);
            assert(repls_compat(gather_repls(ed@), buffer@.len() as int));
        }
        let (d, il) = buffer.edit(&ed, EditType::InsertChars);
        let sel2 = target2.apply_delta(&d, was_insert, InsertDrift::Default);
        proof {
            match old(cursor).mode {
                CursorMode::Insert(ssel) => {
                    let tg = snapped_regions(text0, ssel@);
                    assert(ed@[0].0@ =~~= tg);
                    assert(ed@[0].1@ == data.content@);
                    assert(sorted_gather(ed@) =~~= sorted_of(sel_repls(tg, data.content@)));
                    assert(sel2@ =~~= remapped_with(
                        sorted_of(sel_repls(tg, data.content@)),
                        tg,
                        true,
                    ));
                },
                CursorMode::Visual { mode: vk, .. } => {
                    let tg = paste_target(old(cursor).mode, text0);
                    let c2 = if data.mode == VisualMode::Linewise {
                        data.content@
                    } else {
                        seq!['\n'] + data.content@
                    };
                    assert(ed@[0].0@ =~~= tg);
                    assert(ed@[0].1@ =~~= c2);
                    assert(sorted_gather(ed@) =~~= sorted_of(sel_repls(tg, c2)));
                    assert(sel2@ =~~= remapped_with(sorted_of(sel_repls(tg, c2)), tg, false));
                },
                _ => {},
            }
            if !was_insert && !was_visual {
                let q = offset_of_line_spec(
                    text0,
                    line_of_offset_spec(text0, old(cursor).mode.offset_spec()) + 1,
                );
                let g = gather_repls(ed@);
                assert(ed@[0].0@ =~~= seq![
                    (SelRegion { start: q as usize, end: q as usize, horiz: None }),
                ]);
                assert(ed@[0].1@ == data.content@);
                assert(g.len() == 1);
                assert(g[0].0 == q && g[0].1 == q && g[0].2 == data.content@);
                lemma_sorted_idx_props(repl_starts(g), 1);
                let ord = sorted_idx(repl_starts(g));
                assert((ord[0] as int) == 0);
                assert(sorted_gather(ed@) =~~= seq![(q, q, data.content@)]);
                assert(buffer@ == apply_repls(text0, seq![(q, q, data.content@)]));
                let rs = d.repls_spec();
                assert(rs == sorted_gather(ed@));
                assert(remap_upto(rs, 1, q, false) == q);
                assert(sel2@.len() == 1);
                assert(sel2@[0].start as int == q && sel2@[0].end as int == q);
                assert(sel_min_from(sel2@, 0) == q);
            }
        }
        deltas.push((d, il));
        if was_insert {
            cursor.mode = CursorMode::Insert(sel2);
        } else {
            let mo = sel2.min_offset();
            // one step past the selection start when leaving Visual
            // mode, saturating at the machine limit
            let mo2 = if was_visual && mo < usize::MAX {
                mo + 1
            } else {
                mo
            };
            let line2 = buffer.line_of_offset(mo2);
            let offset2 = buffer.first_non_blank_character_on_line(line2);
            cursor.mode = CursorMode::Normal(offset2);
        }
        deltas
    }

    /// Paste, dispatching on the paste buffer's captured visual kind:
    /// character-wise into the current target with drift chosen by mode
    /// and content; line-wise and block-wise at line granularity, the
    /// cursor landing on the first non-blank character of the inserted
    /// block's first line when coming from Normal or Visual mode.
    pub fn do_paste(cursor: &mut Cursor, buffer: &mut Buffer, data: &RegisterData) -> (deltas: Vec<
        (Delta, InvalLines),
    >)
        requires
            old(cursor).wf(old(buffer)@.len() as int),
            old(buffer)@.len() + data.content@.len() + 2 <= usize::MAX,
            (old(cursor).mode matches CursorMode::Insert(sel) ==> regions_compat(sel@)),
            (old(cursor).mode matches CursorMode::Insert(sel) ==> (data.mode != VisualMode::Normal
                ==> regions_compat(snapped_regions(old(buffer)@, sel@)))),
        ensures
            deltas@.len() == 1,
            (final(cursor).mode is Insert) == (old(cursor).mode is Insert),
            // a line-wise or block-wise paste from Normal mode inserts
            // the content at the start of the next line and lands on
            // the first non-blank character of the block's first line
            (old(cursor).mode matches CursorMode::Normal(o) ==> (data.mode != VisualMode::Normal
                ==> ({
                let q = offset_of_line_spec(
                    old(buffer)@,
                    line_of_offset_spec(old(buffer)@, o as int) + 1,
                );
                let nl = line_of_offset_spec(final(buffer)@, q);
                &&& final(buffer)@ == apply_repls(old(buffer)@, seq![(q, q, data.content@)])
                &&& (deltas@[0].0.wf() && deltas@[0].0.base_len == old(buffer)@.len() && (deltas@[
                    0
                ].0.repls_spec() == seq![(q, q, data.content@)]) && deltas@[0].0.new_len
                    == final(buffer)@.len())
                &&& (final(cursor).mode matches CursorMode::Normal(no) && no as int
                    == offset_of_line_spec(final(buffer)@, nl) + blank_run(
                    final(buffer)@,
                    offset_of_line_spec(final(buffer)@, nl),
                ))
            }))),
            // character-wise: the content replaces the target
            // selection, the cursor staying Insert past its paste or
            // becoming Normal one step before the remapped minimum
            (data.mode == VisualMode::Normal ==> ({
                let tg = paste_target(old(cursor).mode, old(buffer)@);
                let rs = sorted_of(sel_repls(tg, data.content@));
                let after = (old(cursor).mode is Insert) || !data.content@.contains('\n');
                let rsel = remapped_with(rs, tg, after);
                &&& final(buffer)@ == apply_repls(old(buffer)@, rs)
                &&& (deltas@[0].0.wf() && deltas@[0].0.base_len == old(buffer)@.len() && deltas@[
                    0
                ].0.repls_spec() == rs && deltas@[0].0.new_len == final(buffer)@.len())
                &&& (old(cursor).mode is Insert ==> (final(cursor).mode
                    matches CursorMode::Insert(ns) && ns@ =~~= rsel))
                &&& (!(old(cursor).mode is Insert) ==> (final(cursor).mode
                    matches CursorMode::Normal(no) && no as int == ({
                    let mv = sel_min_from(rsel, 0);
                    if mv >= 1 {
                        mv - 1
                    } else {
                        0
                    }
                })))
            })),
            // line-wise or block-wise from Insert mode: the carets
            // snap to their line starts and the selection is remapped
            // past the insertions
            (old(cursor).mode matches CursorMode::Insert(sel) ==> (data.mode != VisualMode::Normal
                ==> ({
                let tg = snapped_regions(old(buffer)@, sel@);
                let rs = sorted_of(sel_repls(tg, data.content@));
                &&& final(buffer)@ == apply_repls(old(buffer)@, rs)
                &&& (deltas@[0].0.wf() && deltas@[0].0.base_len == old(buffer)@.len() && deltas@[
                    0
                ].0.repls_spec() == rs && deltas@[0].0.new_len == final(buffer)@.len())
                &&& (final(cursor).mode matches CursorMode::Insert(ns) && ns@ =~~= remapped_with(
                    rs,
                    tg,
                    true,
                ))
            }))),
            // line-wise or block-wise from Visual mode: the edit
            // selection is replaced by the content, prefixed with a
            // line break unless the capture was line-wise, and the
            // cursor lands on the first non-blank of the line one
            // step past the remapped minimum
            (old(cursor).mode matches CursorMode::Visual { mode: vk, .. } ==> (data.mode
                != VisualMode::Normal ==> ({
                let tg = paste_target(old(cursor).mode, old(buffer)@);
                let c2 = if data.mode == VisualMode::Linewise {
                    data.content@
                } else {
                    seq!['\n'] + data.content@
                };
                let rs = sorted_of(sel_repls(tg, c2));
                let rsel = remapped_with(rs, tg, false);
                let mv = sel_min_from(rsel, 0);
                let m2 = if mv + 1 <= usize::MAX {
                    mv + 1
                } else {
                    mv
                };
                let nl = line_of_offset_spec(final(buffer)@, m2);
                &&& final(buffer)@ == apply_repls(old(buffer)@, rs)
                &&& (deltas@[0].0.wf() && deltas@[0].0.base_len == old(buffer)@.len() && deltas@[
                    0
                ].0.repls_spec() == rs && deltas@[0].0.new_len == final(buffer)@.len())
                &&& (final(cursor).mode matches CursorMode::Normal(no) && no as int
                    == offset_of_line_spec(final(buffer)@, nl) + blank_run(
                    final(buffer)@,
                    offset_of_line_spec(final(buffer)@, nl),
                ))
            }))),
    {
        if let VisualMode::Normal = data.mode {
            Self::paste_charwise(cursor, buffer, data)
        } else {
            Self::paste_linewise(cursor, buffer, data)
        }
    }
}

} // verus!
