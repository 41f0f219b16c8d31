//! A tile wraps a base shape and its canonical orientations: the rotations
//! by 0, 90, 180 and 270 degrees, each normalized to its minimal bounding
//! box, deduplicated by pattern equality with the first occurrence kept.

use vstd::prelude::*;
use crate::grid::{Board, has_cell};
use crate::shape::{
    lemma_rotate_has_cell,
    normalize,
    rotate_90,
    spec_normalize,
    spec_rotate_k,
};

verus! {

/// The four rotation candidates of a pattern, each trimmed to its bounding
/// box, in canonical order.
pub open spec fn orientation_candidates(b: Seq<Seq<bool>>) -> Seq<Seq<Seq<bool>>> {
    seq![
        spec_normalize(spec_rotate_k(b, 0)),
        spec_normalize(spec_rotate_k(b, 1)),
        spec_normalize(spec_rotate_k(b, 2)),
        spec_normalize(spec_rotate_k(b, 3)),
    ]
}

/// Keep the first occurrence of each pattern, in order.
pub open spec fn dedup_patterns(s: Seq<Seq<Seq<bool>>>) -> Seq<Seq<Seq<bool>>>
    decreases s.len(),
{
    if s.len() == 0 {
        Seq::empty()
    } else {
        let prev = dedup_patterns(s.drop_last());
        if prev.contains(s.last()) {
            prev
        } else {
            prev.push(s.last())
        }
    }
}

/// The canonical orientation list of a base pattern.
pub open spec fn spec_orientations(b: Seq<Seq<bool>>) -> Seq<Seq<Seq<bool>>> {
    dedup_patterns(orientation_candidates(b))
}

/// Is the pattern of `b` already present in `v`?
#[verifier::loop_isolation(false)]
fn contains_pattern(v: &Vec<Board>, b: &Board) -> (r: bool)
    requires
        b.wf(),
        forall|k: int| 0 <= k < v@.len() ==> (#[trigger] v@[k]).wf(),
    ensures
        r == exists|k: int| 0 <= k < v@.len() && (#[trigger] v@[k])@ == b@,
{
    let mut k: usize = 0;
    while k < v.len()
        invariant
            k <= v@.len(),
            forall|l: int| 0 <= l < k ==> (#[trigger] v@[l])@ != b@,
        decreases v@.len() - k,
    {
        if v[k].same_cells(b) {
            return true;
        }
        k = k + 1;
    }
    false
}

/// The dedup fold never keeps two equal patterns.
proof fn lemma_dedup_distinct(s: Seq<Seq<Seq<bool>>>)
    ensures
        forall|k: int, l: int|
            0 <= k < l < dedup_patterns(s).len() ==> dedup_patterns(s)[k] != dedup_patterns(s)[l],
    decreases s.len(),
{
    if s.len() > 0 {
        lemma_dedup_distinct(s.drop_last());
        let prev = dedup_patterns(s.drop_last());
        if !prev.contains(s.last()) {
            assert forall|i: int| 0 <= i < prev.len() implies prev[i] != s.last() by {
                if prev[i] == s.last() {
                    assert(prev.contains(s.last()));
                }
            }
        }
    }
}

/// Compute the canonical orientation list of a base pattern.
#[verifier::loop_isolation(false)]
fn gen_orientations(base: &Board) -> (v: Vec<Board>)
    requires
        base.wf(),
        has_cell(base@),
    ensures
        v@.len() == spec_orientations(base@).len(),
        1 <= v@.len() <= 4,
        forall|k: int|
            0 <= k < v@.len() ==> (#[trigger] v@[k]).wf() && v@[k]@ == spec_orientations(
                base@,
            )[k],
        forall|k: int| 0 <= k < v@.len() ==> has_cell((#[trigger] v@[k])@),
        forall|k: int, l: int| 0 <= k < l < v@.len() ==> v@[k]@ != v@[l]@,
{
    let ghost cands = orientation_candidates(base@);
    let mut v: Vec<Board> = Vec::new();
    let ghost mut vs = Seq::<Seq<Seq<bool>>>::empty();
    proof {
        assert(cands.take(0) =~= Seq::<Seq<Seq<bool>>>::empty());
        assert(vs == dedup_patterns(cands.take(0)));
    }
    // 0 degrees: the first candidate is always kept
    let n0 = normalize(base);
    v.push(n0);
    proof {
        assert(cands.take(1).drop_last() =~= cands.take(0));
        assert(cands.take(1).last() == cands[0]);
        if dedup_patterns(cands.take(0)).contains(cands[0]) {
            let k = choose|k: int|
                0 <= k < dedup_patterns(cands.take(0)).len() && dedup_patterns(cands.take(0))[k]
                    == cands[0];
            assert(false);
        }
        vs = vs.push(cands[0]);
        assert(vs == dedup_patterns(cands.take(1)));
        assert(spec_rotate_k(base@, 0) == base@);
        assert(n0@ == cands[0]);
        assert(vs.len() == v@.len());
        assert(forall|k: int| 0 <= k < v@.len() ==> (#[trigger] v@[k])@ == vs[k]);
        assert(forall|k: int| 0 <= k < v@.len() ==> (#[trigger] v@[k]).wf());
        assert(forall|k: int| 0 <= k < v@.len() ==> has_cell((#[trigger] v@[k])@));
    }
    // 90 degrees
    let cur1 = rotate_90(base);
    proof {
        base.lemma_rect();
        lemma_rotate_has_cell(base@);
        assert(spec_rotate_k(base@, 1) == cur1@) by {
            assert(spec_rotate_k(base@, 0) == base@);
        }
    }
    let n1 = normalize(&cur1);
    let ghost prev1 = vs;
    let c1 = contains_pattern(&v, &n1);
    proof {
        assert(n1@ == cands[1]);
        if c1 {
            let k = choose|k: int| 0 <= k < v@.len() && (#[trigger] v@[k])@ == n1@;
            assert(prev1[k] == cands[1]);
            assert(prev1.contains(cands[1]));
        } else {
            if prev1.contains(cands[1]) {
                let k = choose|k: int| 0 <= k < prev1.len() && prev1[k] == cands[1];
                assert(v@[k]@ == cands[1]);
                assert(false);
            }
        }
    }
    if !c1 {
        v.push(n1);
        proof {
            vs = vs.push(cands[1]);
        }
    }
    proof {
        assert(cands.take(2).drop_last() =~= cands.take(1));
        assert(cands.take(2).last() == cands[1]);
        assert(vs == dedup_patterns(cands.take(2)));
        assert(vs.len() == v@.len());
        assert(forall|k: int| 0 <= k < v@.len() ==> (#[trigger] v@[k])@ == vs[k]);
        assert(forall|k: int| 0 <= k < v@.len() ==> (#[trigger] v@[k]).wf());
        assert(forall|k: int| 0 <= k < v@.len() ==> has_cell((#[trigger] v@[k])@));
    }
    // 180 degrees
    let cur2 = rotate_90(&cur1);
    proof {
        cur1.lemma_rect();
        lemma_rotate_has_cell(cur1@);
        assert(spec_rotate_k(base@, 2) == cur2@) by {
            assert(spec_rotate_k(base@, 1) == cur1@);
        }
    }
    let n2 = normalize(&cur2);
    let ghost prev2 = vs;
    let c2 = contains_pattern(&v, &n2);
    proof {
        assert(n2@ == cands[2]);
        if c2 {
            let k = choose|k: int| 0 <= k < v@.len() && (#[trigger] v@[k])@ == n2@;
            assert(prev2[k] == cands[2]);
            assert(prev2.contains(cands[2]));
        } else {
            if prev2.contains(cands[2]) {
                let k = choose|k: int| 0 <= k < prev2.len() && prev2[k] == cands[2];
                assert(v@[k]@ == cands[2]);
                assert(false);
            }
        }
    }
    if !c2 {
        v.push(n2);
        proof {
            vs = vs.push(cands[2]);
        }
    }
    proof {
        assert(cands.take(3).drop_last() =~= cands.take(2));
        assert(cands.take(3).last() == cands[2]);
        assert(vs == dedup_patterns(cands.take(3)));
        assert(vs.len() == v@.len());
        assert(forall|k: int| 0 <= k < v@.len() ==> (#[trigger] v@[k])@ == vs[k]);
        assert(forall|k: int| 0 <= k < v@.len() ==> (#[trigger] v@[k]).wf());
        assert(forall|k: int| 0 <= k < v@.len() ==> has_cell((#[trigger] v@[k])@));
    }
    // 270 degrees
    let cur3 = rotate_90(&cur2);
    proof {
        cur2.lemma_rect();
        lemma_rotate_has_cell(cur2@);
        assert(spec_rotate_k(base@, 3) == cur3@) by {
            assert(spec_rotate_k(base@, 2) == cur2@);
        }
    }
    let n3 = normalize(&cur3);
    let ghost prev3 = vs;
    let c3 = contains_pattern(&v, &n3);
    proof {
        assert(n3@ == cands[3]);
        if c3 {
            let k = choose|k: int| 0 <= k < v@.len() && (#[trigger] v@[k])@ == n3@;
            assert(prev3[k] == cands[3]);
            assert(prev3.contains(cands[3]));
        } else {
            if prev3.contains(cands[3]) {
                let k = choose|k: int| 0 <= k < prev3.len() && prev3[k] == cands[3];
                assert(v@[k]@ == cands[3]);
                assert(false);
            }
        }
    }
    if !c3 {
        v.push(n3);
        proof {
            vs = vs.push(cands[3]);
        }
    }
    proof {
        assert(cands.take(4).drop_last() =~= cands.take(3));
        assert(cands.take(4).last() == cands[3]);
        assert(vs == dedup_patterns(cands.take(4)));
        assert(cands.take(4) =~= cands);
        assert(vs == spec_orientations(base@));
        assert(vs.len() == v@.len());
        assert(forall|k: int| 0 <= k < v@.len() ==> (#[trigger] v@[k])@ == vs[k]);
        assert(forall|k: int| 0 <= k < v@.len() ==> (#[trigger] v@[k]).wf());
        assert(forall|k: int| 0 <= k < v@.len() ==> has_cell((#[trigger] v@[k])@));
        lemma_dedup_distinct(cands);
    }
    v
}

/// A tile: a base shape with an identity, plus its canonical orientations.
pub struct Tile {
    /// The base occupancy pattern as given by the caller.
    pub base: Board,
    /// The deduplicated canonical orientations of the base pattern.
    pub orientations: Vec<Board>,
}

impl Tile {
    /// The stored orientations really are the canonical orientation list of
    /// the base pattern.
    pub open spec fn wf(&self) -> bool {
        &&& self.base.wf()
        &&& has_cell(self.base@)
        &&& self.orientations@.len() == spec_orientations(self.base@).len()
        &&& 1 <= self.orientations@.len() <= 4
        &&& forall|k: int|
            0 <= k < self.orientations@.len() ==> (#[trigger] self.orientations@[k]).wf()
                && self.orientations@[k]@ == spec_orientations(self.base@)[k] && has_cell(
                self.orientations@[k]@,
            )
        &&& forall|k: int, l: int|
            0 <= k < l < self.orientations@.len() ==> self.orientations@[k]@
                != self.orientations@[l]@
    }

    /// Wrap a base shape (at least one set cell) and compute its
    /// deduplicated canonical orientations.
    pub fn new(base: Board) -> (t: Tile)
        requires
            base.wf(),
            has_cell(base@),
        ensures
            t.wf(),
            t.base@ == base@,
    {
        let orientations = gen_orientations(&base);
        Tile { base, orientations }
    }

    /// Number of distinct orientations (1 to 4 under the rotation-only
    /// policy).
    pub fn orientation_count(&self) -> (n: usize)
        ensures
            n == self.orientations@.len(),
    {
        self.orientations.len()
    }
}

} // verus!
