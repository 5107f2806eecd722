//! An ordered table from key bytes to value bytes, held in memory in key
//! order: the one keyspace in which all key families live side by side.

use vstd::prelude::*;
use crate::codec::{
    bytes_equal, has_prefix, lemma_between_prefix, lemma_lex_irreflexive, lemma_lex_total,
    lemma_lex_transitive, lemma_prefix_not_after, lex_less, lex_lt, starts_with,
};

verus! {

/// One key with its value.
#[derive(Debug, Clone, PartialEq, Eq)]
pub struct Entry {
    pub key: Vec<u8>,
    pub value: Vec<u8>,
}

/// Every key comes before all that follow it.
pub open spec fn keys_increasing(s: Seq<(Seq<u8>, Seq<u8>)>) -> bool {
    forall|i: int, j: int| 0 <= i < j < s.len() ==> lex_lt(#[trigger] s[i].0, #[trigger] s[j].0)
}

/// The map that a sequence of keys and values stands for.
pub open spec fn map_of(s: Seq<(Seq<u8>, Seq<u8>)>) -> Map<Seq<u8>, Seq<u8>> {
    Map::new(
        |k: Seq<u8>| exists|i: int| 0 <= i < s.len() && (#[trigger] s[i]).0 == k,
        |k: Seq<u8>| s[choose|i: int| 0 <= i < s.len() && (#[trigger] s[i]).0 == k].1,
    )
}

/// In a sequence with increasing keys every key stands once, and the map
/// gives each key the value that stands beside it.
pub proof fn lemma_map_of(s: Seq<(Seq<u8>, Seq<u8>)>, i: int)
    requires
        keys_increasing(s),
        0 <= i < s.len(),
    ensures
        map_of(s).contains_key(s[i].0),
        map_of(s)[s[i].0] == s[i].1,
        forall|j: int| 0 <= j < s.len() && s[j].0 == s[i].0 ==> j == i,
{
    assert forall|j: int| 0 <= j < s.len() && s[j].0 == s[i].0 implies j == i by {
        lemma_lex_irreflexive(s[i].0);
        if j < i {
            assert(lex_lt(s[j].0, s[i].0));
        } else if i < j {
            assert(lex_lt(s[i].0, s[j].0));
        }
    }
    let c = choose|j: int| 0 <= j < s.len() && (#[trigger] s[j]).0 == s[i].0;
    assert(c == i);
}

/// An ordered table of byte strings.
#[derive(Debug, Clone, PartialEq, Eq)]
pub struct Table {
    entries: Vec<Entry>,
}

impl View for Table {
    type V = Map<Seq<u8>, Seq<u8>>;

    /// The table as a map from key to value.
    closed spec fn view(&self) -> Map<Seq<u8>, Seq<u8>> {
        map_of(self.ordered())
    }
}

impl Table {
    /// The keys and values of the table in the order in which it holds them.
    pub closed spec fn ordered(&self) -> Seq<(Seq<u8>, Seq<u8>)> {
        Seq::new(self.entries@.len(), |i: int| (self.entries@[i].key@, self.entries@[i].value@))
    }

    /// The table holds its keys in increasing byte order.
    pub closed spec fn wf(&self) -> bool {
        keys_increasing(self.ordered())
    }

    /// The order of the table lists the map: increasing keys, every key of
    /// the map once, each with its value.
    pub proof fn lemma_ordered(&self)
        requires
            self.wf(),
        ensures
            keys_increasing(self.ordered()),
            self@ == map_of(self.ordered()),
            forall|i: int|
                0 <= i < self.ordered().len() ==> self@.contains_key(
                    (#[trigger] self.ordered()[i]).0,
                ) && self@[self.ordered()[i].0] == self.ordered()[i].1,
            forall|k: Seq<u8>|
                self@.contains_key(k) ==> exists|i: int|
                    0 <= i < self.ordered().len() && (#[trigger] self.ordered()[i]).0 == k,
    {
        let s = self.ordered();
        assert forall|i: int| 0 <= i < s.len() implies self@.contains_key((#[trigger] s[i]).0)
            && self@[s[i].0] == s[i].1 by {
            lemma_map_of(s, i);
        }
    }

    /// The empty table.
    pub fn new() -> (t: Table)
        ensures
            t.wf(),
            t@ == Map::<Seq<u8>, Seq<u8>>::empty(),
            t.ordered().len() == 0,
    {
        let t = Table { entries: Vec::new() };
        assert(t@ =~= Map::<Seq<u8>, Seq<u8>>::empty());
        t
    }

    /// The number of keys.
    pub fn len(&self) -> (n: usize)
        ensures
            n == self.ordered().len(),
    {
        self.entries.len()
    }

    /// The `i`-th key in key order.
    pub fn key_at(&self, i: usize) -> (key: &[u8])
        requires
            i < self.ordered().len(),
        ensures
            key@ == self.ordered()[i as int].0,
    {
        self.entries[i].key.as_slice()
    }

    /// The value beside the `i`-th key.
    pub fn value_at(&self, i: usize) -> (value: &[u8])
        requires
            i < self.ordered().len(),
        ensures
            value@ == self.ordered()[i as int].1,
    {
        self.entries[i].value.as_slice()
    }

    /// The place of the first key that does not come before `key`: all keys
    /// before it come before `key`, and none from it on does.
    pub fn seek(&self, key: &[u8]) -> (pos: usize)
        requires
            self.wf(),
        ensures
            pos <= self.ordered().len(),
            forall|i: int| 0 <= i < pos ==> lex_lt((#[trigger] self.ordered()[i]).0, key@),
            forall|i: int|
                pos <= i < self.ordered().len() ==> !lex_lt((#[trigger] self.ordered()[i]).0, key@),
    {
        let ghost s = self.ordered();
        let mut lo: usize = 0;
        let mut hi: usize = self.entries.len();
        while lo < hi
            invariant
                s == self.ordered(),
                keys_increasing(s),
                lo <= hi <= s.len(),
                forall|i: int| 0 <= i < lo ==> lex_lt((#[trigger] s[i]).0, key@),
                forall|i: int| hi <= i < s.len() ==> !lex_lt((#[trigger] s[i]).0, key@),
            decreases hi - lo,
        {
            let mid = lo + (hi - lo) / 2;
            if lex_less(self.key_at(mid), key) {
                proof {
                    assert forall|i: int| 0 <= i < mid + 1 implies lex_lt(
                        (#[trigger] s[i]).0,
                        key@,
                    ) by {
                        if i < mid {
                            assert(lex_lt(s[i].0, s[mid as int].0));
                            lemma_lex_transitive(s[i].0, s[mid as int].0, key@);
                        }
                    }
                }
                lo = mid + 1;
            } else {
                proof {
                    assert forall|i: int| mid <= i < s.len() implies !lex_lt(
                        (#[trigger] s[i]).0,
                        key@,
                    ) by {
                        if i > mid && lex_lt(s[i].0, key@) {
                            assert(lex_lt(s[mid as int].0, s[i].0));
                            lemma_lex_transitive(s[mid as int].0, s[i].0, key@);
                        }
                    }
                }
                hi = mid;
            }
        }
        lo
    }

    /// The stretch of the table in which the keys that begin with `prefix`
    /// lie: they lie side by side, and no other key lies among them.
    pub fn prefix_range(&self, prefix: &[u8]) -> (r: (usize, usize))
        requires
            self.wf(),
        ensures
            r.0 <= r.1 <= self.ordered().len(),
            forall|p: int|
                0 <= p < self.ordered().len() ==> ((r.0 <= p < r.1) <==> starts_with(
                    (#[trigger] self.ordered()[p]).0,
                    prefix@,
                )),
    {
        let ghost s = self.ordered();
        let n = self.len();
        let lo = self.seek(prefix);
        let mut hi: usize = lo;
        while hi < n && has_prefix(self.key_at(hi), prefix)
            invariant
                s == self.ordered(),
                n == s.len(),
                lo <= hi <= n,
                forall|p: int| lo <= p < hi ==> starts_with((#[trigger] s[p]).0, prefix@),
            decreases n - hi,
        {
            hi += 1;
        }
        proof {
            assert forall|p: int| 0 <= p < s.len() implies ((lo <= p < hi) <==> starts_with(
                (#[trigger] s[p]).0,
                prefix@,
            )) by {
                if p < lo {
                    if starts_with(s[p].0, prefix@) {
                        lemma_prefix_not_after(s[p].0, prefix@);
                    }
                } else if p > hi {
                    if starts_with(s[p].0, prefix@) {
                        assert(lex_lt(s[hi as int].0, s[p].0));
                        assert(!lex_lt(s[hi as int].0, prefix@));
                        lemma_between_prefix(s[hi as int].0, prefix@, s[p].0);
                    }
                }
            }
        }
        (lo, hi)
    }

    /// Where `key` stands, or where it would have to be put.
    fn locate(&self, key: &[u8]) -> (r: (usize, bool))
        requires
            self.wf(),
        ensures
            r.0 <= self.ordered().len(),
            r.1 ==> r.0 < self.ordered().len() && self.ordered()[r.0 as int].0 == key@,
            r.1 == self@.contains_key(key@),
            forall|i: int| 0 <= i < r.0 ==> lex_lt((#[trigger] self.ordered()[i]).0, key@),
            !r.1 ==> forall|i: int|
                r.0 <= i < self.ordered().len() ==> lex_lt(key@, (#[trigger] self.ordered()[i]).0),
    {
        let ghost s = self.ordered();
        let pos = self.seek(key);
        let found = pos < self.entries.len() && bytes_equal(self.key_at(pos), key);
        proof {
            if found {
                lemma_map_of(s, pos as int);
            } else {
                assert forall|i: int| pos <= i < s.len() implies lex_lt(
                    key@,
                    (#[trigger] s[i]).0,
                ) by {
                    lemma_lex_total(s[pos as int].0, key@);
                    if i > pos {
                        assert(lex_lt(s[pos as int].0, s[i].0));
                        lemma_lex_transitive(key@, s[pos as int].0, s[i].0);
                    }
                }
                if self@.contains_key(key@) {
                    let i = choose|i: int| 0 <= i < s.len() && (#[trigger] s[i]).0 == key@;
                    lemma_lex_irreflexive(key@);
                    if i < pos {
                        assert(lex_lt(s[i].0, key@));
                    } else {
                        assert(lex_lt(key@, s[i].0));
                    }
                }
            }
        }
        (pos, found)
    }

    /// Whether `key` has a value.
    pub fn contains_key(&self, key: &[u8]) -> (r: bool)
        requires
            self.wf(),
        ensures
            r == self@.contains_key(key@),
    {
        self.locate(key).1
    }

    /// The value of `key`, if it has one.
    pub fn get(&self, key: &[u8]) -> (r: Option<&[u8]>)
        requires
            self.wf(),
        ensures
            match r {
                Some(value) => self@.contains_key(key@) && self@[key@] == value@,
                None => !self@.contains_key(key@),
            },
    {
        let (pos, found) = self.locate(key);
        if found {
            proof {
                lemma_map_of(self.ordered(), pos as int);
            }
            Some(self.value_at(pos))
        } else {
            None
        }
    }

    /// Gives `key` the value `value`, whether or not it had one.
    pub fn put(&mut self, key: Vec<u8>, value: Vec<u8>)
        requires
            old(self).wf(),
        ensures
            final(self).wf(),
            final(self)@ == old(self)@.insert(key@, value@),
    {
        let ghost before = self.ordered();
        let ghost k = key@;
        let ghost v = value@;
        let (pos, found) = self.locate(key.as_slice());
        if found {
            self.entries.set(pos, Entry { key, value });
        } else {
            self.entries.insert(pos, Entry { key, value });
        }
        proof {
            let after = self.ordered();
            if found {
                assert(after =~= before.update(pos as int, (k, v)));
                assert forall|i: int, j: int| 0 <= i < j < after.len() implies lex_lt(
                    #[trigger] after[i].0,
                    #[trigger] after[j].0,
                ) by {
                    assert(after[i].0 == before[i].0);
                    assert(after[j].0 == before[j].0);
                }
            } else {
                assert(after =~= before.insert(pos as int, (k, v)));
                assert forall|i: int, j: int| 0 <= i < j < after.len() implies lex_lt(
                    #[trigger] after[i].0,
                    #[trigger] after[j].0,
                ) by {
                    let bi = if i < pos {
                        i
                    } else {
                        i - 1
                    };
                    let bj = if j < pos {
                        j
                    } else {
                        j - 1
                    };
                    if i != pos {
                        assert(after[i] == before[bi]);
                    }
                    if j != pos {
                        assert(after[j] == before[bj]);
                    }
                }
            }
            assert forall|x: Seq<u8>| map_of(after).contains_key(x) <==> map_of(before).insert(
                k,
                v,
            ).contains_key(x) by {
                if map_of(after).contains_key(x) {
                    let i = choose|i: int| 0 <= i < after.len() && (#[trigger] after[i]).0 == x;
                    if found {
                        assert(before[i].0 == after[i].0);
                    } else if i < pos {
                        assert(before[i] == after[i]);
                    } else if i > pos {
                        assert(before[i - 1] == after[i]);
                    }
                }
                if map_of(before).contains_key(x) {
                    let i = choose|i: int| 0 <= i < before.len() && (#[trigger] before[i]).0 == x;
                    if found || i < pos {
                        assert(after[i].0 == x);
                    } else {
                        assert(after[i + 1].0 == x);
                    }
                }
                if x == k {
                    assert(after[pos as int].0 == k);
                }
            }
            assert forall|x: Seq<u8>| map_of(after).contains_key(x) implies map_of(after)[x]
                == map_of(before).insert(k, v)[x] by {
                let i = choose|i: int| 0 <= i < after.len() && (#[trigger] after[i]).0 == x;
                lemma_map_of(after, i);
                if x != k {
                    let bi = if found || i < pos {
                        i
                    } else {
                        i - 1
                    };
                    assert(before[bi] == after[i]);
                    lemma_map_of(before, bi);
                } else {
                    assert(after[pos as int].0 == k);
                }
            }
            assert(map_of(after) =~= map_of(before).insert(k, v));
        }
    }

    /// Takes `key` and its value out, if it is there.
    pub fn delete(&mut self, key: &[u8])
        requires
            old(self).wf(),
        ensures
            final(self).wf(),
            final(self)@ == old(self)@.remove(key@),
            final(self).ordered().len() == old(self).ordered().len() - (if old(self)@.contains_key(
                key@,
            ) {
                1int
            } else {
                0int
            }),
    {
        let ghost before = self.ordered();
        let ghost k = key@;
        let (pos, found) = self.locate(key);
        if !found {
            assert(map_of(before).remove(k) =~= map_of(before));
            return ;
        }
        self.entries.remove(pos);
        proof {
            let after = self.ordered();
            assert(after =~= before.remove(pos as int));
            assert forall|i: int, j: int| 0 <= i < j < after.len() implies lex_lt(
                #[trigger] after[i].0,
                #[trigger] after[j].0,
            ) by {
                let bi = if i < pos {
                    i
                } else {
                    i + 1
                };
                let bj = if j < pos {
                    j
                } else {
                    j + 1
                };
                assert(after[i] == before[bi]);
                assert(after[j] == before[bj]);
            }
            assert forall|x: Seq<u8>| map_of(after).contains_key(x) <==> map_of(before).remove(
                k,
            ).contains_key(x) by {
                if map_of(after).contains_key(x) {
                    let i = choose|i: int| 0 <= i < after.len() && (#[trigger] after[i]).0 == x;
                    let bi = if i < pos {
                        i
                    } else {
                        i + 1
                    };
                    assert(before[bi] == after[i]);
                    lemma_map_of(before, bi);
                }
                if map_of(before).contains_key(x) && x != k {
                    let i = choose|i: int| 0 <= i < before.len() && (#[trigger] before[i]).0 == x;
                    if i < pos {
                        assert(after[i].0 == x);
                    } else {
                        assert(after[i - 1].0 == x);
                    }
                }
            }
            assert forall|x: Seq<u8>| map_of(after).contains_key(x) implies map_of(after)[x]
                == map_of(before).remove(k)[x] by {
                let i = choose|i: int| 0 <= i < after.len() && (#[trigger] after[i]).0 == x;
                lemma_map_of(after, i);
                let bi = if i < pos {
                    i
                } else {
                    i + 1
                };
                assert(before[bi] == after[i]);
                lemma_map_of(before, bi);
            }
            assert(map_of(after) =~= map_of(before).remove(k));
        }
    }

    /// A copy of the table.
    pub fn clone_table(&self) -> (t: Table)
        ensures
            t.ordered() == self.ordered(),
            t@ == self@,
            t.wf() == self.wf(),
    {
        let mut entries: Vec<Entry> = Vec::new();
        let mut i: usize = 0;
        while i < self.entries.len()
            invariant
                i <= self.entries@.len(),
                entries@.len() == i,
                forall|j: int|
                    0 <= j < i ==> (#[trigger] entries@[j]).key@ == self.entries@[j].key@
                        && entries@[j].value@ == self.entries@[j].value@,
            decreases self.entries@.len() - i,
        {
            let key = crate::codec::copy_range(
                self.entries[i].key.as_slice(),
                0,
                self.entries[i].key.len(),
            );
            let value = crate::codec::copy_range(
                self.entries[i].value.as_slice(),
                0,
                self.entries[i].value.len(),
            );
            assert(key@ =~= self.entries@[i as int].key@);
            assert(value@ =~= self.entries@[i as int].value@);
            entries.push(Entry { key, value });
            i += 1;
        }
        let t = Table { entries };
        assert(t.ordered() =~= self.ordered());
        t
    }
}

} // verus!
