use vstd::prelude::*;

verus! {

/// Spec-level replacement in coordinates of the text an edit batch is
/// applied to: the span `[r.0, r.1)` is replaced by the characters `r.2`.
pub type ReplSpec = (int, int, Seq<char>);

/// One replacement of an applied edit batch.  `new_start` caches where
/// the replacement starts in the resulting text, that is `start` shifted
/// by the length change of all earlier replacements of the batch.
pub struct DeltaRepl {
    pub start: usize,
    pub end: usize,
    pub ins: Vec<char>,
    pub new_start: usize,
}

/// Descriptor of a text transformation: the base length and the ordered,
/// pairwise disjoint replacements that were applied simultaneously.  It
/// is sufficient to remap any offset of the old text to its position in
/// the new text.
pub struct Delta {
    pub base_len: usize,
    pub new_len: usize,
    pub repls: Vec<DeltaRepl>,
}

/// The replacements are ordered, non-overlapping, and within the text.
pub open spec fn repls_wf(rs: Seq<ReplSpec>, base: int) -> bool {
    &&& forall|i: int| 0 <= i < rs.len() ==> 0 <= (#[trigger] rs[i]).0 && rs[i].0 <= rs[i].1
        && rs[i].1 <= base
    &&& forall|i: int, j: int| #![trigger rs[i], rs[j]] 0 <= i < j < rs.len() ==> rs[i].1
        <= rs[j].0
}

/// Net length change contributed by the first `i` replacements.
pub open spec fn shift_at(rs: Seq<ReplSpec>, i: int) -> int
    decreases i,
{
    if i <= 0 {
        0
    } else {
        shift_at(rs, i - 1) + rs[i - 1].2.len() - (rs[i - 1].1 - rs[i - 1].0)
    }
}

/// Length of the text after applying `rs` to a text of length `base`.
pub open spec fn new_len_of(rs: Seq<ReplSpec>, base: int) -> int {
    base + shift_at(rs, rs.len() as int)
}

/// Where the old offset `x` lands after the first `k` replacements of
/// `rs`, with drift `after`: an offset strictly past a replaced span is
/// shifted by the accumulated length change; an offset touching or
/// inside the span collapses to the start of the span's new text, and
/// with drift `after` to just past the inserted text.
pub open spec fn remap_upto(rs: Seq<ReplSpec>, k: int, x: int, after: bool) -> int
    decreases k,
{
    if k <= 0 {
        x
    } else {
        let r = rs[k - 1];
        let ns = r.0 + shift_at(rs, k - 1);
        if r.1 < x {
            ns + r.2.len() + (x - r.1)
        } else if r.0 <= x {
            ns + if after {
                r.2.len() as int
            } else {
                0
            }
        } else {
            remap_upto(rs, k - 1, x, after)
        }
    }
}

/// The text after applying the replacements `rs[k..]` to the suffix of
/// `text` that starts at `from`.
pub open spec fn apply_from(text: Seq<char>, rs: Seq<ReplSpec>, k: int, from: int) -> Seq<char>
    decreases rs.len() - k,
{
    if k >= rs.len() {
        text.subrange(from, text.len() as int)
    } else {
        text.subrange(from, rs[k].0) + rs[k].2 + apply_from(text, rs, k + 1, rs[k].1)
    }
}

/// The text after simultaneously applying the ordered replacements `rs`.
pub open spec fn apply_repls(text: Seq<char>, rs: Seq<ReplSpec>) -> Seq<char> {
    apply_from(text, rs, 0, 0)
}

/// New position of the old offset `rs[i].0` (the start of replacement
/// `i`), or of the old end of text for `i == rs.len()`.
pub open spec fn cap_at(rs: Seq<ReplSpec>, base: int, i: int) -> int {
    shift_at(rs, i) + if i < rs.len() {
        rs[i].0
    } else {
        base
    }
}

pub proof fn lemma_cap_step(rs: Seq<ReplSpec>, base: int, i: int)
    requires
        repls_wf(rs, base),
        0 <= i < rs.len(),
    ensures
        cap_at(rs, base, i + 1) == cap_at(rs, base, i) + rs[i].2.len() + ((if i + 1 < rs.len() {
            rs[i + 1].0
        } else {
            base
        }) - rs[i].1),
        cap_at(rs, base, i + 1) >= cap_at(rs, base, i) + rs[i].2.len(),
{
}

pub proof fn lemma_cap_mono(rs: Seq<ReplSpec>, base: int, i: int, j: int)
    requires
        repls_wf(rs, base),
        0 <= i <= j <= rs.len(),
    ensures
        cap_at(rs, base, i) <= cap_at(rs, base, j),
    decreases j - i,
{
    if i < j {
        lemma_cap_step(rs, base, i);
        lemma_cap_mono(rs, base, i + 1, j);
    }
}

pub proof fn lemma_remap_bounds(rs: Seq<ReplSpec>, base: int, k: int, x: int, after: bool)
    requires
        repls_wf(rs, base),
        0 <= k <= rs.len(),
        0 <= x,
        x <= (if k < rs.len() {
            rs[k].0
        } else {
            base
        }),
    ensures
        0 <= remap_upto(rs, k, x, after),
        remap_upto(rs, k, x, after) <= cap_at(rs, base, k),
    decreases k,
{
    if k > 0 {
        let r = rs[k - 1];
        lemma_cap_step(rs, base, k - 1);
        if r.1 < x || r.0 <= x {
            lemma_remap_bounds(rs, base, k - 1, r.0, after);
        } else {
            lemma_remap_bounds(rs, base, k - 1, x, after);
        }
    }
}

impl Delta {
    /// The replacements as spec values.
    pub open spec fn repls_spec(&self) -> Seq<ReplSpec> {
        self.repls@.map_values(|r: DeltaRepl| (r.start as int, r.end as int, r.ins@))
    }

    pub open spec fn wf(&self) -> bool {
        &&& repls_wf(self.repls_spec(), self.base_len as int)
        &&& forall|i: int| 0 <= i < self.repls@.len() ==> (#[trigger] self.repls@[i]).new_start
            as int == self.repls_spec()[i].0 + shift_at(self.repls_spec(), i)
        &&& self.new_len as int == new_len_of(self.repls_spec(), self.base_len as int)
    }

    /// Where the old offset `x` lands in the new text.
    pub open spec fn remap_spec(&self, x: int, after: bool) -> int {
        remap_upto(self.repls_spec(), self.repls_spec().len() as int, x, after)
    }

    /// Remaps an offset of the old text through this delta.
    pub fn transform(&self, x: usize, after: bool) -> (r: usize)
        requires
            self.wf(),
            x <= self.base_len,
        ensures
            r as int == self.remap_spec(x as int, after),
            r <= self.new_len,
    {
        let ghost rs = self.repls_spec();
        let ghost base = self.base_len as int;
        let mut k: usize = self.repls.len();
        proof {
            assert(rs.len() == self.repls@.len());
        }
        while k > 0
            invariant
                self.wf(),
                rs == self.repls_spec(),
                base == self.base_len as int,
                x <= self.base_len,
                k <= rs.len(),
                remap_upto(rs, rs.len() as int, x as int, after) == remap_upto(
                    rs,
                    k as int,
                    x as int,
                    after,
                ),
                x as int <= (if (k as int) < rs.len() {
                    rs[k as int].0
                } else {
                    base
                }),
            decreases k,
        {
            let r = &self.repls[k - 1];
            proof {
                lemma_remap_bounds(rs, base, k as int, x as int, after);
                lemma_cap_mono(rs, base, k as int, rs.len() as int);
                lemma_cap_step(rs, base, k as int - 1);
                lemma_remap_bounds(rs, base, k as int - 1, rs[k as int - 1].0, after);
            }
            if r.end < x {
                return r.new_start + r.ins.len() + (x - r.end);
            } else if r.start <= x {
                if after {
                    return r.new_start + r.ins.len();
                } else {
                    return r.new_start;
                }
            }
            k = k - 1;
        }
        proof {
            lemma_cap_mono(rs, base, 0, rs.len() as int);
        }
        x
    }
}

} // verus!
