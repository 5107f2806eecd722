//! Combining posting lists: union, intersection and difference of two
//! lists or of a whole list of them, and the merge of pending changes into a
//! stored list.

use vstd::prelude::*;
use crate::bitmap::{lemma_increasing_push, strictly_increasing, Bitmap};

verus! {

/// The ids that at least one of the sets holds.
pub open spec fn union_of(list: Seq<Bitmap>) -> Set<u32> {
    Set::new(|id: u32| exists|i: int| 0 <= i < list.len() && (#[trigger] list[i])@.contains(id))
}

/// The ids that every one of the sets holds; no id where there is no set.
pub open spec fn intersection_of(list: Seq<Bitmap>) -> Set<u32> {
    Set::new(
        |id: u32|
            list.len() > 0 && forall|i: int| 0 <= i < list.len() ==> (#[trigger] list[i])@.contains(id),
    )
}

/// Every set of the list is well formed.
pub open spec fn all_wf(list: Seq<Bitmap>) -> bool {
    forall|i: int| 0 <= i < list.len() ==> (#[trigger] list[i]).wf()
}

/// A change to a posting list that has been recorded but not yet applied.
#[derive(Debug, Clone, Copy, PartialEq, Eq, Structural)]
pub enum BitmapOp {
    Insert(u32),
    Remove(u32),
}

/// The set that results from applying `ops` to `base` one after the other.
pub open spec fn merged(base: Set<u32>, ops: Seq<BitmapOp>) -> Set<u32>
    decreases ops.len(),
{
    if ops.len() == 0 {
        base
    } else {
        let before = merged(base, ops.drop_last());
        match ops.last() {
            BitmapOp::Insert(id) => before.insert(id),
            BitmapOp::Remove(id) => before.remove(id),
        }
    }
}

/// The set of the first `n` elements of `s`.
spec fn prefix_set(s: Seq<u32>, n: int) -> Set<u32> {
    s.subrange(0, n).to_set()
}

/// The prefixes of a strictly increasing sequence grow by one element at a
/// time, from nothing to the whole set.
proof fn lemma_prefix_set(s: Seq<u32>, n: int)
    requires
        strictly_increasing(s),
        0 <= n <= s.len(),
    ensures
        prefix_set(s, 0) == Set::<u32>::empty(),
        prefix_set(s, s.len() as int) == s.to_set(),
        n < s.len() ==> prefix_set(s, n + 1) == prefix_set(s, n).insert(s[n]),
        n < s.len() ==> !prefix_set(s, n).contains(s[n]),
{
    assert(s.subrange(0, 0).to_set() =~= Set::<u32>::empty());
    assert(s.subrange(0, s.len() as int) =~= s);
    if n < s.len() {
        let p = s.subrange(0, n);
        assert(p.push(s[n]) =~= s.subrange(0, n + 1));
        lemma_increasing_push(p, s[n]);
        if p.contains(s[n]) {
            let i = choose|i: int| 0 <= i < p.len() && p[i] == s[n];
            assert(s[i] < s[n]);
        }
    }
}

/// The ids of `a` that `b` holds (where `keep` is set) or does not hold.
fn filtered(a: &Bitmap, b: &Bitmap, keep: bool) -> (r: Bitmap)
    requires
        a.wf(),
        b.wf(),
    ensures
        r.wf(),
        keep ==> r@ == a@.intersect(b@),
        !keep ==> r@ == a@.difference(b@),
{
    let ghost seq_a = a.ascending();
    proof {
        a.lemma_ascending();
        lemma_prefix_set(seq_a, 0);
    }
    let mut out: Vec<u32> = Vec::new();
    let n = a.len();
    let mut i: usize = 0;
    assert(out@.to_set() =~= Set::<u32>::empty());
    while i < n
        invariant
            a.wf(),
            b.wf(),
            seq_a == a.ascending(),
            strictly_increasing(seq_a),
            n == seq_a.len(),
            i <= n,
            strictly_increasing(out@),
            forall|k: int| 0 <= k < out@.len() && i < n ==> out@[k] < seq_a[i as int],
            keep ==> out@.to_set() == prefix_set(seq_a, i as int).intersect(b@),
            !keep ==> out@.to_set() == prefix_set(seq_a, i as int).difference(b@),
        decreases n - i,
    {
        let x = a.get(i);
        let inside = b.contains(x);
        proof {
            lemma_prefix_set(seq_a, i as int);
        }
        let ghost before = out@;
        if inside == keep {
            proof {
                lemma_increasing_push(before, x);
            }
            out.push(x);
        }
        proof {
            let p = prefix_set(seq_a, i as int);
            let q = prefix_set(seq_a, i + 1);
            if keep {
                assert(out@.to_set() =~= q.intersect(b@));
            } else {
                assert(out@.to_set() =~= q.difference(b@));
            }
            if i + 1 < n {
                assert(seq_a[i as int] < seq_a[i + 1]);
            }
        }
        i += 1;
    }
    proof {
        lemma_prefix_set(seq_a, n as int);
    }
    Bitmap::from_increasing(out)
}

impl Bitmap {
    /// The ids that `self` and `other` share. The shorter list is walked and
    /// each of its ids looked up in the longer by bisection.
    pub fn intersection(&self, other: &Bitmap) -> (r: Bitmap)
        requires
            self.wf(),
            other.wf(),
        ensures
            r.wf(),
            r@ == self@.intersect(other@),
    {
        if self.len() <= other.len() {
            filtered(self, other, true)
        } else {
            let r = filtered(other, self, true);
            assert(other@.intersect(self@) =~= self@.intersect(other@));
            r
        }
    }

    /// The ids of `self` that `other` does not hold.
    pub fn difference(&self, other: &Bitmap) -> (r: Bitmap)
        requires
            self.wf(),
            other.wf(),
        ensures
            r.wf(),
            r@ == self@.difference(other@),
    {
        filtered(self, other, false)
    }

    /// The ids that `self` or `other` holds, merged in one pass over both.
    pub fn union(&self, other: &Bitmap) -> (r: Bitmap)
        requires
            self.wf(),
            other.wf(),
        ensures
            r.wf(),
            r@ == self@.union(other@),
    {
        let ghost sa = self.ascending();
        let ghost sb = other.ascending();
        proof {
            self.lemma_ascending();
            other.lemma_ascending();
            lemma_prefix_set(sa, 0);
            lemma_prefix_set(sb, 0);
        }
        let na = self.len();
        let nb = other.len();
        let mut out: Vec<u32> = Vec::new();
        let mut i: usize = 0;
        let mut j: usize = 0;
        assert(out@.to_set() =~= prefix_set(sa, 0).union(prefix_set(sb, 0)));
        while i < na || j < nb
            invariant
                self.wf(),
                other.wf(),
                sa == self.ascending(),
                sb == other.ascending(),
                strictly_increasing(sa),
                strictly_increasing(sb),
                na == sa.len(),
                nb == sb.len(),
                i <= na,
                j <= nb,
                strictly_increasing(out@),
                forall|k: int| 0 <= k < out@.len() && i < na ==> out@[k] < sa[i as int],
                forall|k: int| 0 <= k < out@.len() && j < nb ==> out@[k] < sb[j as int],
                out@.to_set() == prefix_set(sa, i as int).union(prefix_set(sb, j as int)),
            decreases (na - i) + (nb - j),
        {
            let take_a = j >= nb || (i < na && self.get(i) <= other.get(j));
            let take_b = i >= na || (j < nb && other.get(j) <= self.get(i));
            let x = if take_a {
                self.get(i)
            } else {
                other.get(j)
            };
            proof {
                lemma_prefix_set(sa, i as int);
                lemma_prefix_set(sb, j as int);
                lemma_increasing_push(out@, x);
            }
            let ghost pa = prefix_set(sa, i as int);
            let ghost pb = prefix_set(sb, j as int);
            out.push(x);
            if take_a {
                proof {
                    if i + 1 < na {
                        assert(sa[i as int] < sa[i + 1]);
                    }
                }
                i += 1;
            }
            if take_b {
                proof {
                    if j + 1 < nb {
                        assert(sb[j as int] < sb[j + 1]);
                    }
                }
                j += 1;
            }
            assert(out@.to_set() =~= prefix_set(sa, i as int).union(prefix_set(sb, j as int)));
        }
        proof {
            lemma_prefix_set(sa, na as int);
            lemma_prefix_set(sb, nb as int);
        }
        Bitmap::from_increasing(out)
    }

    /// Applies pending changes in the order in which they were recorded.
    pub fn merge(&mut self, ops: &[BitmapOp])
        requires
            old(self).wf(),
        ensures
            final(self).wf(),
            final(self)@ == merged(old(self)@, ops@),
    {
        let mut i: usize = 0;
        assert(ops@.subrange(0, 0) =~= Seq::<BitmapOp>::empty());
        while i < ops.len()
            invariant
                i <= ops@.len(),
                self.wf(),
                self@ == merged(old(self)@, ops@.subrange(0, i as int)),
            decreases ops@.len() - i,
        {
            assert(ops@.subrange(0, i + 1).drop_last() =~= ops@.subrange(0, i as int));
            match ops[i] {
                BitmapOp::Insert(id) => {
                    self.insert(id);
                },
                BitmapOp::Remove(id) => {
                    self.remove(id);
                },
            }
            i += 1;
        }
        assert(ops@.subrange(0, i as int) =~= ops@);
    }
}

/// The union of all the sets of a list.
pub fn union_all(list: &[Bitmap]) -> (r: Bitmap)
    requires
        all_wf(list@),
    ensures
        r.wf(),
        r@ == union_of(list@),
{
    let mut acc = Bitmap::new();
    let mut k: usize = 0;
    assert(acc@ =~= union_of(list@.subrange(0, 0)));
    while k < list.len()
        invariant
            k <= list@.len(),
            all_wf(list@),
            acc.wf(),
            acc@ == union_of(list@.subrange(0, k as int)),
        decreases list@.len() - k,
    {
        let next = acc.union(&list[k]);
        proof {
            let done = list@.subrange(0, k as int);
            let more = list@.subrange(0, k + 1);
            assert forall|id: u32| next@.contains(id) <==> union_of(more).contains(id) by {
                if acc@.contains(id) {
                    let i = choose|i: int| 0 <= i < done.len() && (#[trigger] done[i])@.contains(id);
                    assert(more[i]@.contains(id));
                }
                if list@[k as int]@.contains(id) {
                    assert(more[k as int]@.contains(id));
                }
                if union_of(more).contains(id) {
                    let i = choose|i: int| 0 <= i < more.len() && (#[trigger] more[i])@.contains(id);
                    if i < k {
                        assert(done[i]@.contains(id));
                    }
                }
            }
            assert(next@ =~= union_of(more));
        }
        acc = next;
        k += 1;
    }
    assert(list@.subrange(0, k as int) =~= list@);
    acc
}

/// The intersection of all the sets of a list; empty for an empty list. The
/// walk ends as soon as nothing is left.
pub fn intersect_all(list: &[Bitmap]) -> (r: Bitmap)
    requires
        all_wf(list@),
    ensures
        r.wf(),
        r@ == intersection_of(list@),
{
    if list.len() == 0 {
        let r = Bitmap::new();
        assert(r@ =~= intersection_of(list@));
        return r;
    }
    let mut acc = list[0].clone_set();
    let mut k: usize = 1;
    proof {
        let one = list@.subrange(0, 1);
        assert(one[0] == list@[0]);
        assert(acc@ =~= intersection_of(one));
    }
    while k < list.len()
        invariant
            1 <= k <= list@.len(),
            all_wf(list@),
            acc.wf(),
            acc@ == intersection_of(list@.subrange(0, k as int)),
        decreases list@.len() - k,
    {
        if acc.is_empty() {
            proof {
                let done = list@.subrange(0, k as int);
                assert forall|id: u32| !intersection_of(list@).contains(id) by {
                    if intersection_of(list@).contains(id) {
                        assert forall|i: int| 0 <= i < done.len() implies (#[trigger] done[i])@.contains(
                            id,
                        ) by {
                            assert(list@[i]@.contains(id));
                        }
                        assert(intersection_of(done).contains(id));
                    }
                }
                assert(acc@ =~= intersection_of(list@));
            }
            return acc;
        }
        let next = acc.intersection(&list[k]);
        proof {
            let done = list@.subrange(0, k as int);
            let more = list@.subrange(0, k + 1);
            assert forall|id: u32| next@.contains(id) <==> intersection_of(more).contains(id) by {
                if next@.contains(id) {
                    assert forall|i: int| 0 <= i < more.len() implies (#[trigger] more[i])@.contains(
                        id,
                    ) by {
                        if i < k {
                            assert(done[i]@.contains(id));
                        }
                    }
                }
                if intersection_of(more).contains(id) {
                    assert(more[k as int]@.contains(id));
                    assert forall|i: int| 0 <= i < done.len() implies (#[trigger] done[i])@.contains(
                        id,
                    ) by {
                        assert(more[i]@.contains(id));
                    }
                }
            }
            assert(next@ =~= intersection_of(more));
        }
        acc = next;
        k += 1;
    }
    assert(list@.subrange(0, k as int) =~= list@);
    acc
}

} // verus!
