//! Posting lists: sets of document ids, kept as strictly increasing
//! sequences so that membership is found by bisection and two lists are
//! combined in one pass.

use vstd::prelude::*;

verus! {

/// Every element is smaller than all that follow it.
pub open spec fn strictly_increasing(s: Seq<u32>) -> bool {
    forall|i: int, j: int| 0 <= i < j < s.len() ==> s[i] < s[j]
}

/// A set of document ids.
#[derive(Debug, Clone, PartialEq, Eq)]
pub struct Bitmap {
    ids: Vec<u32>,
}

impl View for Bitmap {
    type V = Set<u32>;

    /// The ids in the set.
    closed spec fn view(&self) -> Set<u32> {
        self.ids@.to_set()
    }
}

/// A strictly increasing sequence holds nothing twice, so it is as long as
/// its set is large.
pub proof fn lemma_increasing_len(s: Seq<u32>)
    requires
        strictly_increasing(s),
    ensures
        s.no_duplicates(),
        s.to_set().finite(),
        s.to_set().len() == s.len(),
{
    assert(s.no_duplicates());
    s.unique_seq_to_set();
    vstd::seq_lib::seq_to_set_is_finite(s);
}

/// Adding something larger than every element at the end keeps a sequence
/// strictly increasing, and adds it to the set.
pub proof fn lemma_increasing_push(s: Seq<u32>, x: u32)
    requires
        strictly_increasing(s),
        forall|i: int| 0 <= i < s.len() ==> s[i] < x,
    ensures
        strictly_increasing(s.push(x)),
        s.push(x).to_set() == s.to_set().insert(x),
{
    let t = s.push(x);
    assert forall|y: u32| t.to_set().contains(y) <==> s.to_set().insert(x).contains(y) by {
        if t.contains(y) {
            let i = choose|i: int| 0 <= i < t.len() && t[i] == y;
            if i < s.len() {
                assert(s[i] == y);
                assert(s.contains(y));
            }
        }
        if s.contains(y) {
            let i = choose|i: int| 0 <= i < s.len() && s[i] == y;
            assert(t[i] == y);
        }
        if y == x {
            assert(t[s.len() as int] == x);
        }
    }
    assert(t.to_set() =~= s.to_set().insert(x));
}

/// Two strictly increasing sequences with the same elements are the same
/// sequence: a set of ids has one ascending order.
pub proof fn lemma_increasing_unique(s: Seq<u32>, t: Seq<u32>)
    requires
        strictly_increasing(s),
        strictly_increasing(t),
        s.to_set() == t.to_set(),
    ensures
        s == t,
    decreases s.len(),
{
    lemma_increasing_len(s);
    lemma_increasing_len(t);
    if s.len() > 0 {
        let a = s.last();
        let b = t.last();
        // The last element of each is the largest of the common set.
        assert(s.contains(a));
        assert(t.to_set().contains(a));
        assert(t.contains(a));
        assert(t.contains(b));
        assert(s.to_set().contains(b));
        assert(s.contains(b));
        let ia = choose|i: int| 0 <= i < t.len() && t[i] == a;
        let ib = choose|i: int| 0 <= i < s.len() && s[i] == b;
        assert(a <= b);
        assert(b <= a);
        let s1 = s.drop_last();
        let t1 = t.drop_last();
        assert forall|y: u32| s1.to_set().contains(y) <==> t1.to_set().contains(y) by {
            if s1.contains(y) {
                let i = choose|i: int| 0 <= i < s1.len() && s1[i] == y;
                assert(s[i] == y);
                assert(s.contains(y));
                assert(t.to_set().contains(y));
                let j = choose|j: int| 0 <= j < t.len() && t[j] == y;
                assert(t1[j] == y);
            }
            if t1.contains(y) {
                let i = choose|i: int| 0 <= i < t1.len() && t1[i] == y;
                assert(t[i] == y);
                assert(t.contains(y));
                assert(s.to_set().contains(y));
                let j = choose|j: int| 0 <= j < s.len() && s[j] == y;
                assert(s1[j] == y);
            }
        }
        assert(s1.to_set() =~= t1.to_set());
        lemma_increasing_unique(s1, t1);
        assert(s =~= s1.push(a));
        assert(t =~= t1.push(b));
    } else {
        assert(s =~= t);
    }
}

/// Every element is below the one that follows it.
pub open spec fn neighbours_increasing(s: Seq<u32>, upto: int) -> bool {
    forall|i: int, j: int| 0 <= i && j == i + 1 && j < upto && j < s.len() ==> s[i] < s[j]
}

/// A sequence in which every element is below the next is strictly
/// increasing.
pub proof fn lemma_neighbours_increasing(s: Seq<u32>)
    requires
        neighbours_increasing(s, s.len() as int),
    ensures
        strictly_increasing(s),
    decreases s.len(),
{
    if s.len() > 1 {
        let t = s.drop_last();
        assert forall|i: int, j: int| 0 <= i && j == i + 1 && j < t.len() implies t[i] < t[j] by {
            assert(s[i] < s[j]);
        }
        lemma_neighbours_increasing(t);
        assert forall|i: int, j: int| 0 <= i < j < s.len() implies s[i] < s[j] by {
            if j == s.len() - 1 {
                assert(s[j - 1] < s[j]);
                if i < j - 1 {
                    assert(t[i] < t[j - 1]);
                }
            } else {
                assert(t[i] < t[j]);
            }
        }
    }
}

/// The elements of a finite set of ids in ascending order.
pub open spec fn ascending_of(set: Set<u32>) -> Seq<u32> {
    choose|s: Seq<u32>| strictly_increasing(s) && s.to_set() == set
}

impl Bitmap {
    /// The ascending order of the bitmap is the ascending order of its set.
    pub proof fn lemma_ascending_of(&self)
        requires
            self.wf(),
        ensures
            self.ascending() == ascending_of(self@),
    {
        let s = ascending_of(self@);
        assert(strictly_increasing(self.ids@) && self.ids@.to_set() == self@);
        lemma_increasing_unique(s, self.ids@);
    }

    /// The ids are kept in strictly increasing order.
    pub closed spec fn wf(&self) -> bool {
        strictly_increasing(self.ids@)
    }

    /// The ids of the set in ascending order.
    pub closed spec fn ascending(&self) -> Seq<u32> {
        self.ids@
    }

    /// The ascending order lists the set, each id once.
    pub proof fn lemma_ascending(&self)
        requires
            self.wf(),
        ensures
            strictly_increasing(self.ascending()),
            self.ascending().to_set() == self@,
            self.ascending().len() == self@.len(),
            self@.finite(),
    {
        lemma_increasing_len(self.ids@);
    }

    /// The empty set.
    pub fn new() -> (b: Bitmap)
        ensures
            b.wf(),
            b@ == Set::<u32>::empty(),
    {
        let b = Bitmap { ids: Vec::new() };
        assert(b.ids@.to_set() =~= Set::<u32>::empty());
        b
    }

    /// The set of the ids in `ids`, which are in strictly increasing order;
    /// `None` where they are not.
    pub fn from_ascending(ids: Vec<u32>) -> (r: Option<Bitmap>)
        ensures
            r is Some == strictly_increasing(ids@),
            r matches Some(b) ==> b.wf() && b.ascending() == ids@ && b@ == ids@.to_set(),
    {
        let mut i: usize = 1;
        while i < ids.len()
            invariant
                1 <= i,
                neighbours_increasing(ids@, i as int),
            decreases ids@.len() - i,
        {
            if ids[i - 1] >= ids[i] {
                assert(!(ids@[i - 1] < ids@[i as int]));
                return None;
            }
            i += 1;
        }
        proof {
            lemma_neighbours_increasing(ids@);
        }
        Some(Bitmap { ids })
    }

    /// The set of the ids in `ids`.
    pub(crate) fn from_increasing(ids: Vec<u32>) -> (b: Bitmap)
        requires
            strictly_increasing(ids@),
        ensures
            b.wf(),
            b.ascending() == ids@,
            b@ == ids@.to_set(),
    {
        Bitmap { ids }
    }

    /// The ids in ascending order, as they are kept.
    pub(crate) fn as_slice(&self) -> (ids: &[u32])
        ensures
            ids@ == self.ascending(),
    {
        self.ids.as_slice()
    }

    /// A copy of the set.
    pub fn clone_set(&self) -> (b: Bitmap)
        requires
            self.wf(),
        ensures
            b.wf(),
            b@ == self@,
            b.ascending() == self.ascending(),
    {
        Bitmap { ids: self.to_vec() }
    }

    /// The number of ids in the set.
    pub fn len(&self) -> (n: usize)
        requires
            self.wf(),
        ensures
            n == self@.len(),
            n == self.ascending().len(),
    {
        proof {
            lemma_increasing_len(self.ids@);
        }
        self.ids.len()
    }

    /// Whether the set holds no id.
    pub fn is_empty(&self) -> (r: bool)
        requires
            self.wf(),
        ensures
            r == (self@ == Set::<u32>::empty()),
    {
        proof {
            if self.ids@.len() == 0 {
                assert(self.ids@.to_set() =~= Set::<u32>::empty());
            } else {
                assert(self.ids@[0] == self.ids@[0] && self.ids@.contains(self.ids@[0]));
                assert(self.ids@.to_set().contains(self.ids@[0]));
                assert(!Set::<u32>::empty().contains(self.ids@[0]));
            }
        }
        self.ids.len() == 0
    }

    /// The `i`-th id in ascending order.
    pub fn get(&self, i: usize) -> (id: u32)
        requires
            self.wf(),
            i < self.ascending().len(),
        ensures
            id == self.ascending()[i as int],
            self@.contains(id),
    {
        assert(self.ids@.contains(self.ids@[i as int]));
        self.ids[i]
    }

    /// The ids in ascending order.
    pub fn to_vec(&self) -> (v: Vec<u32>)
        requires
            self.wf(),
        ensures
            v@ == self.ascending(),
    {
        let mut v: Vec<u32> = Vec::new();
        let mut i: usize = 0;
        while i < self.ids.len()
            invariant
                i <= self.ids@.len(),
                v@ == self.ids@.subrange(0, i as int),
            decreases self.ids@.len() - i,
        {
            v.push(self.ids[i]);
            i += 1;
            assert(v@ =~= self.ids@.subrange(0, i as int));
        }
        assert(self.ids@.subrange(0, i as int) =~= self.ids@);
        v
    }

    /// The place of the first id that is not below `id`.
    fn lower_bound(&self, id: u32) -> (pos: usize)
        requires
            self.wf(),
        ensures
            pos <= self.ids@.len(),
            forall|i: int| 0 <= i < pos ==> self.ids@[i] < id,
            forall|i: int| pos <= i < self.ids@.len() ==> self.ids@[i] >= id,
    {
        let mut lo: usize = 0;
        let mut hi: usize = self.ids.len();
        while lo < hi
            invariant
                lo <= hi <= self.ids@.len(),
                strictly_increasing(self.ids@),
                forall|i: int| 0 <= i < lo ==> self.ids@[i] < id,
                forall|i: int| hi <= i < self.ids@.len() ==> self.ids@[i] >= id,
            decreases hi - lo,
        {
            let mid = lo + (hi - lo) / 2;
            if self.ids[mid] < id {
                lo = mid + 1;
            } else {
                hi = mid;
            }
        }
        lo
    }

    /// Whether `id` is in the set.
    pub fn contains(&self, id: u32) -> (r: bool)
        requires
            self.wf(),
        ensures
            r == self@.contains(id),
    {
        let pos = self.lower_bound(id);
        let r = pos < self.ids.len() && self.ids[pos] == id;
        proof {
            if r {
                assert(self.ids@[pos as int] == id);
                assert(self.ids@.contains(id));
            } else if self.ids@.contains(id) {
                let i = choose|i: int| 0 <= i < self.ids@.len() && self.ids@[i] == id;
                assert(false);
            }
        }
        r
    }

    /// Adds `id`; tells whether it was new.
    pub fn insert(&mut self, id: u32) -> (added: bool)
        requires
            old(self).wf(),
        ensures
            final(self).wf(),
            final(self)@ == old(self)@.insert(id),
            added == !old(self)@.contains(id),
    {
        let pos = self.lower_bound(id);
        let ghost before = self.ids@;
        if pos < self.ids.len() && self.ids[pos] == id {
            proof {
                assert(before.contains(id));
                assert(before.to_set() =~= before.to_set().insert(id));
            }
            return false;
        }
        self.ids.insert(pos, id);
        proof {
            let after = self.ids@;
            assert(after == before.insert(pos as int, id));
            assert(strictly_increasing(after)) by {
                assert forall|i: int, j: int| 0 <= i < j < after.len() implies after[i]
                    < after[j] by {
                    if i < pos && j > pos {
                        assert(after[i] == before[i]);
                        assert(after[j] == before[j - 1]);
                    } else if j == pos {
                        assert(after[i] == before[i]);
                    } else if i == pos {
                        assert(after[j] == before[j - 1]);
                    } else if j < pos {
                        assert(after[i] == before[i]);
                        assert(after[j] == before[j]);
                    } else {
                        assert(after[i] == before[i - 1]);
                        assert(after[j] == before[j - 1]);
                    }
                }
            }
            assert forall|y: u32| after.to_set().contains(y) <==> before.to_set().insert(
                id,
            ).contains(y) by {
                if after.contains(y) {
                    let i = choose|i: int| 0 <= i < after.len() && after[i] == y;
                    if i < pos {
                        assert(before[i] == y);
                        assert(before.contains(y));
                    } else if i > pos {
                        assert(before[i - 1] == y);
                        assert(before.contains(y));
                    }
                }
                if before.contains(y) {
                    let i = choose|i: int| 0 <= i < before.len() && before[i] == y;
                    if i < pos {
                        assert(after[i] == y);
                    } else {
                        assert(after[i + 1] == y);
                    }
                }
                if y == id {
                    assert(after[pos as int] == id);
                }
            }
            assert(after.to_set() =~= before.to_set().insert(id));
            if before.contains(id) {
                let i = choose|i: int| 0 <= i < before.len() && before[i] == id;
                assert(false);
            }
        }
        true
    }

    /// Takes `id` out; tells whether it was there.
    pub fn remove(&mut self, id: u32) -> (removed: bool)
        requires
            old(self).wf(),
        ensures
            final(self).wf(),
            final(self)@ == old(self)@.remove(id),
            removed == old(self)@.contains(id),
    {
        let pos = self.lower_bound(id);
        let ghost before = self.ids@;
        if !(pos < self.ids.len() && self.ids[pos] == id) {
            proof {
                if before.contains(id) {
                    let i = choose|i: int| 0 <= i < before.len() && before[i] == id;
                    assert(false);
                }
                assert(before.to_set() =~= before.to_set().remove(id));
            }
            return false;
        }
        self.ids.remove(pos);
        proof {
            let after = self.ids@;
            assert(after == before.remove(pos as int));
            assert(before.contains(id));
            assert forall|i: int, j: int| 0 <= i < j < after.len() implies after[i] < after[j] by {
                let bi = if i < pos {
                    i
                } else {
                    i + 1
                };
                let bj = if j < pos {
                    j
                } else {
                    j + 1
                };
                assert(after[i] == before[bi]);
                assert(after[j] == before[bj]);
            }
            assert forall|y: u32| after.to_set().contains(y) <==> before.to_set().remove(
                id,
            ).contains(y) by {
                if after.contains(y) {
                    let i = choose|i: int| 0 <= i < after.len() && after[i] == y;
                    let bi = if i < pos {
                        i
                    } else {
                        i + 1
                    };
                    assert(before[bi] == y);
                    assert(before.contains(y));
                }
                if before.contains(y) && y != id {
                    let i = choose|i: int| 0 <= i < before.len() && before[i] == y;
                    if i < pos {
                        assert(after[i] == y);
                    } else {
                        assert(after[i - 1] == y);
                    }
                }
            }
            assert(after.to_set() =~= before.to_set().remove(id));
        }
        true
    }
}

} // verus!
