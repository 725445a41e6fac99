use vstd::prelude::*;

verus! {

use crate::delta::Delta;

/// Drift policy for remapping a region through a delta: `Default` uses
/// the per-call `after` flag for both endpoints; `Inside` keeps a
/// non-caret region around text inserted at its start, `Outside` keeps
/// it outside.
#[derive(Clone, Copy, Debug, PartialEq, Eq, Structural)]
pub enum InsertDrift {
    Inside,
    Outside,
    Default,
}

/// One selection span `(start, end)`; equal bounds denote a caret.
/// `horiz` is an optional remembered horizontal column used by vertical
/// movement.
#[derive(Clone, Copy, Debug, PartialEq)]
#[verifier::ext_equal]
pub struct SelRegion {
    pub start: usize,
    pub end: usize,
    pub horiz: Option<usize>,
}

pub open spec fn region_min(r: SelRegion) -> int {
    if r.start <= r.end {
        r.start as int
    } else {
        r.end as int
    }
}

pub open spec fn region_max(r: SelRegion) -> int {
    if r.start <= r.end {
        r.end as int
    } else {
        r.start as int
    }
}

impl SelRegion {
    pub fn new(start: usize, end: usize, horiz: Option<usize>) -> (r: SelRegion)
        ensures
            r == (SelRegion { start, end, horiz }),
    {
        SelRegion { start, end, horiz }
    }

    /// A zero-width region.
    pub fn caret(offset: usize) -> (r: SelRegion)
        ensures
            r == (SelRegion { start: offset, end: offset, horiz: None }),
    {
        SelRegion { start: offset, end: offset, horiz: None }
    }

    pub open spec fn is_caret_spec(&self) -> bool {
        self.start == self.end
    }

    pub fn is_caret(&self) -> (r: bool)
        ensures
            r == self.is_caret_spec(),
    {
        self.start == self.end
    }

    pub fn min(&self) -> (r: usize)
        ensures
            r as int == region_min(*self),
    {
        if self.start <= self.end {
            self.start
        } else {
            self.end
        }
    }

    pub fn max(&self) -> (r: usize)
        ensures
            r as int == region_max(*self),
    {
        if self.start <= self.end {
            self.end
        } else {
            self.start
        }
    }
}

/// Minimum offset covered by the regions `s[k..]`.
pub open spec fn sel_min_from(s: Seq<SelRegion>, k: int) -> int
    decreases s.len() - k,
{
    if k + 1 >= s.len() {
        region_min(s[k])
    } else {
        let m = sel_min_from(s, k + 1);
        if region_min(s[k]) <= m {
            region_min(s[k])
        } else {
            m
        }
    }
}

/// The regions are pairwise non-overlapping, and where two share their
/// minimum offset the earlier one is a caret: the shape an edit batch
/// built from one region each requires.
pub open spec fn regions_compat(s: Seq<SelRegion>) -> bool {
    &&& forall|i: int, j: int| #![trigger s[i], s[j]] 0 <= i < s.len() && 0 <= j < s.len() && i != j
        ==> (region_max(s[i]) <= region_min(s[j]) || region_max(s[j]) <= region_min(s[i]))
    &&& forall|i: int, j: int| #![trigger s[i], s[j]] 0 <= i < j < s.len() && region_min(s[i])
        == region_min(s[j]) ==> region_max(s[i]) == region_min(s[i])
}

/// An ordered sequence of regions, kept in insertion order, together
/// with the index of the most recently inserted region.
#[derive(Debug)]
pub struct Selection {
    regions: Vec<SelRegion>,
    last_inserted: usize,
}

impl View for Selection {
    type V = Seq<SelRegion>;

    closed spec fn view(&self) -> Seq<SelRegion> {
        self.regions@
    }
}

/// The endpoint remap flags for one region: `Default` (and any caret)
/// uses the `after` flag for both endpoints.
pub open spec fn drift_flags(region: SelRegion, after: bool, drift: InsertDrift) -> (bool, bool) {
    if region.start != region.end && drift is Inside {
        (true, false)
    } else if region.start != region.end && drift is Outside {
        (false, true)
    } else {
        (after, after)
    }
}

impl Selection {
    pub closed spec fn last_inserted_spec(&self) -> int {
        self.last_inserted as int
    }

    pub open spec fn inv(&self) -> bool {
        self@.len() == 0 || 0 <= self.last_inserted_spec() < self@.len()
    }

    /// All regions lie within a text of length `len`.
    pub open spec fn in_bounds(&self, len: int) -> bool {
        forall|i: int| 0 <= i < self@.len() ==> (#[trigger] self@[i]).start <= len && self@[i].end
            <= len
    }

    pub fn new() -> (s: Selection)
        ensures
            s@ =~= Seq::<SelRegion>::empty(),
            s.inv(),
    {
        Selection { regions: Vec::new(), last_inserted: 0 }
    }

    /// A selection of one caret region.
    pub fn caret(offset: usize) -> (s: Selection)
        ensures
            s@ =~= seq![SelRegion { start: offset, end: offset, horiz: None }],
            s.inv(),
            s.last_inserted_spec() == 0,
    {
        let mut v: Vec<SelRegion> = Vec::new();
        v.push(SelRegion::caret(offset));
        proof {
            assert(v@ =~= seq![SelRegion { start: offset, end: offset, horiz: None }]);
        }
        Selection { regions: v, last_inserted: 0 }
    }

    /// A selection of one region.
    pub fn region(start: usize, end: usize) -> (s: Selection)
        ensures
            s@ =~= seq![SelRegion { start, end, horiz: None }],
            s.inv(),
            s.last_inserted_spec() == 0,
    {
        let mut v: Vec<SelRegion> = Vec::new();
        v.push(SelRegion::new(start, end, None));
        proof {
            assert(v@ =~= seq![SelRegion { start, end, horiz: None }]);
        }
        Selection { regions: v, last_inserted: 0 }
    }

    /// Appends a region, which becomes the most recently inserted one.
    pub fn add_region(&mut self, region: SelRegion)
        ensures
            final(self)@ == old(self)@.push(region),
            final(self).last_inserted_spec() == old(self)@.len(),
            final(self).inv(),
    {
        let n = self.regions.len();
        self.regions.push(region);
        self.last_inserted = n;
    }

    pub fn len(&self) -> (n: usize)
        ensures
            n == self@.len(),
    {
        self.regions.len()
    }

    pub fn regions(&self) -> (r: &Vec<SelRegion>)
        ensures
            r@ == self@,
    {
        &self.regions
    }

    /// Replaces the region at `i`, keeping the last-inserted index.
    pub fn set_region(&mut self, i: usize, region: SelRegion)
        requires
            i < old(self)@.len(),
        ensures
            final(self)@ == old(self)@.update(i as int, region),
            final(self).last_inserted_spec() == old(self).last_inserted_spec(),
            final(self).inv() == old(self).inv(),
    {
        self.regions.set(i, region);
    }

    /// The region most recently produced by an edit, if any.
    pub fn last_inserted(&self) -> (r: Option<SelRegion>)
        requires
            self.inv(),
        ensures
            r == (if self@.len() == 0 {
                None::<SelRegion>
            } else {
                Some(self@[self.last_inserted_spec()])
            }),
    {
        if self.regions.len() == 0 {
            None
        } else {
            Some(self.regions[self.last_inserted])
        }
    }

    /// The smallest offset covered by any region.
    pub fn min_offset(&self) -> (r: usize)
        requires
            self@.len() > 0,
        ensures
            r as int == sel_min_from(self@, 0),
    {
        let mut i: usize = self.regions.len() - 1;
        let mut m: usize = self.regions[i].min();
        while i > 0
            invariant
                i < self@.len(),
                m as int == sel_min_from(self@, i as int),
            decreases i,
        {
            i = i - 1;
            let c = self.regions[i].min();
            if c < m {
                m = c;
            }
        }
        m
    }

    /// Remaps every region through `delta`: each endpoint moves to its
    /// post-edit position, with the drift flags deciding on which side
    /// of text inserted exactly at the endpoint it lands.  Horizontal
    /// hints are cleared and the last region becomes the most recently
    /// inserted one.
    pub fn apply_delta(&self, delta: &Delta, after: bool, drift: InsertDrift) -> (r: Selection)
        requires
            delta.wf(),
            self.in_bounds(delta.base_len as int),
        ensures
            r@.len() == self@.len(),
            forall|i: int| 0 <= i < self@.len() ==> {
                let fl = drift_flags(self@[i], after, drift);
                &&& (#[trigger] r@[i]).start as int == delta.remap_spec(self@[i].start as int, fl.0)
                &&& r@[i].end as int == delta.remap_spec(self@[i].end as int, fl.1)
                &&& r@[i].horiz is None
            },
            r.in_bounds(delta.new_len as int),
            r.inv(),
            r@.len() > 0 ==> r.last_inserted_spec() == r@.len() - 1,
    {
        let mut out = Selection::new();
        let n = self.regions.len();
        let mut i: usize = 0;
        while i < n
            invariant
                n == self@.len(),
                delta.wf(),
                self.in_bounds(delta.base_len as int),
                i <= n,
                out@.len() == i as int,
                forall|j: int| 0 <= j < i as int ==> {
                    let fl = drift_flags(self@[j], after, drift);
                    &&& (#[trigger] out@[j]).start as int == delta.remap_spec(
                        self@[j].start as int,
                        fl.0,
                    )
                    &&& out@[j].end as int == delta.remap_spec(self@[j].end as int, fl.1)
                    &&& out@[j].horiz is None
                    &&& out@[j].start <= delta.new_len
                    &&& out@[j].end <= delta.new_len
                },
                out.inv(),
                out@.len() > 0 ==> out.last_inserted_spec() == out@.len() - 1,
            decreases n - i,
        {
            let region = self.regions[i];
            let caret_like = region.start == region.end;
            let flags_start: bool;
            let flags_end: bool;
            match drift {
                InsertDrift::Inside => {
                    if !caret_like {
                        flags_start = true;
                        flags_end = false;
                    } else {
                        flags_start = after;
                        flags_end = after;
                    }
                },
                InsertDrift::Outside => {
                    if !caret_like {
                        flags_start = false;
                        flags_end = true;
                    } else {
                        flags_start = after;
                        flags_end = after;
                    }
                },
                InsertDrift::Default => {
                    flags_start = after;
                    flags_end = after;
                },
            }
            proof {
                assert((flags_start, flags_end) == drift_flags(self@[i as int], after, drift));
            }
            let ns = delta.transform(region.start, flags_start);
            let ne = delta.transform(region.end, flags_end);
            out.add_region(SelRegion::new(ns, ne, None));
            i = i + 1;
        }
        out
    }
}

impl Clone for Selection {
    /// A clone keeps the regions and the last-inserted index.
    fn clone(&self) -> (r: Self)
        ensures
            r@ == self@,
            r.last_inserted_spec() == self.last_inserted_spec(),
    {
        let mut v: Vec<SelRegion> = Vec::new();
        let mut i: usize = 0;
        while i < self.regions.len()
            invariant
                i <= self.regions@.len(),
                v@ =~= self.regions@.subrange(0, i as int),
            decreases self.regions@.len() - i,
        {
            v.push(self.regions[i]);
            i = i + 1;
        }
        proof {
            assert(v@ =~= self.regions@);
        }
        Selection { regions: v, last_inserted: self.last_inserted }
    }
}

} // verus!
