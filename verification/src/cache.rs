//! A read cache for posting lists. Readers look a list up in the cache
//! before they go to the table; a writer takes the lists under the keys it
//! changes out of the cache, so that what the cache holds is always what the
//! table holds.

use vstd::prelude::*;
use crate::batch::{apply_ops, Op};
use crate::bitmap::Bitmap;
use crate::codec::{bytes_equal, copy_bytes};
use crate::error::Error;
use crate::keys::BitmapKey;
use crate::store::Store;
use crate::txn::{ids_of, posting, posting_ok};

verus! {

/// One posting list in the cache, under the bytes of its key.
pub struct Cached {
    pub key: Vec<u8>,
    pub bitmap: Bitmap,
}

/// The cache.
pub struct PostingCache {
    entries: Vec<Cached>,
}

/// The key that a change is made under.
pub open spec fn op_key(op: Op) -> Seq<u8> {
    match op {
        Op::Put { key, value } => key@,
        Op::Delete { key } => key@,
    }
}

/// Whether one of the changes is made under the key.
pub open spec fn touched(ops: Seq<Op>, key: Seq<u8>) -> bool {
    exists|i: int| 0 <= i < ops.len() && op_key(#[trigger] ops[i]) == key
}

/// The posting list that a table holds under the bytes of a key; the empty
/// list where it holds nothing there.
pub open spec fn posting_at(m: Map<Seq<u8>, Seq<u8>>, key: Seq<u8>) -> Set<u32> {
    if m.contains_key(key) {
        ids_of(m[key])
    } else {
        Set::empty()
    }
}

/// What a list of cache entries holds for a key: the list of the last entry
/// under the key.
pub open spec fn held_in(entries: Seq<Cached>, key: Seq<u8>) -> Option<Set<u32>>
    decreases entries.len(),
{
    if entries.len() == 0 {
        None
    } else if entries.last().key@ == key {
        Some(entries.last().bitmap@)
    } else {
        held_in(entries.drop_last(), key)
    }
}

/// A key that no change is made under holds after the changes what it held.
pub proof fn lemma_untouched(m: Map<Seq<u8>, Seq<u8>>, ops: Seq<Op>, key: Seq<u8>)
    requires
        !touched(ops, key),
    ensures
        apply_ops(m, ops).contains_key(key) == m.contains_key(key),
        apply_ops(m, ops).contains_key(key) ==> apply_ops(m, ops)[key] == m[key],
        posting_at(apply_ops(m, ops), key) == posting_at(m, key),
    decreases ops.len(),
{
    if ops.len() > 0 {
        let before = ops.drop_last();
        assert(op_key(ops[ops.len() - 1]) != key);
        assert forall|i: int| 0 <= i < before.len() implies op_key(#[trigger] before[i]) != key by {
            assert(before[i] == ops[i]);
        }
        lemma_untouched(m, before, key);
    }
}

impl PostingCache {
    /// Every list in the cache is well formed.
    pub closed spec fn wf(&self) -> bool {
        forall|i: int| 0 <= i < self.entries@.len() ==> (#[trigger] self.entries@[i]).bitmap.wf()
    }

    /// What the cache holds for the bytes of a key.
    pub closed spec fn held(&self, key: Seq<u8>) -> Option<Set<u32>> {
        held_in(self.entries@, key)
    }

    /// What the cache holds is what the table holds.
    pub open spec fn coherent(&self, m: Map<Seq<u8>, Seq<u8>>) -> bool {
        forall|key: Seq<u8>| #[trigger] self.held(key) matches Some(ids) ==> ids == posting_at(m, key)
    }

    /// A cache from which the lists under all changed keys were taken is in
    /// step with the table after the changes, where it was in step with the
    /// table before them: no reader finds a stale list in it.
    pub proof fn lemma_invalidated(
        before: PostingCache,
        after: PostingCache,
        m: Map<Seq<u8>, Seq<u8>>,
        ops: Seq<Op>,
    )
        requires
            before.coherent(m),
            forall|key: Seq<u8>| #[trigger]
                after.held(key) == (if touched(ops, key) {
                    None
                } else {
                    before.held(key)
                }),
        ensures
            after.coherent(apply_ops(m, ops)),
    {
        assert forall|key: Seq<u8>| #[trigger] after.held(key) is Some implies after.held(key)->0
            == posting_at(apply_ops(m, ops), key) by {
            assert(!touched(ops, key));
            lemma_untouched(m, ops, key);
            assert(before.held(key) == after.held(key));
        }
    }

    /// An empty cache.
    pub fn new() -> (c: PostingCache)
        ensures
            c.wf(),
            forall|key: Seq<u8>| #[trigger] c.held(key) is None,
    {
        PostingCache { entries: Vec::new() }
    }

    /// The list that the cache holds for the bytes of a key.
    pub fn lookup(&self, key: &[u8]) -> (r: Option<Bitmap>)
        requires
            self.wf(),
        ensures
            match r {
                Some(b) => b.wf() && self.held(key@) == Some(b@),
                None => self.held(key@) is None,
            },
    {
        let mut i: usize = self.entries.len();
        assert(self.entries@.subrange(0, i as int) =~= self.entries@);
        while i > 0
            invariant
                self.wf(),
                i <= self.entries@.len(),
                held_in(self.entries@, key@) == held_in(self.entries@.subrange(0, i as int), key@),
            decreases i,
        {
            let ghost upto = self.entries@.subrange(0, i as int);
            assert(upto.drop_last() =~= self.entries@.subrange(0, i - 1));
            assert(upto.last() == self.entries@[i - 1]);
            i -= 1;
            if bytes_equal(self.entries[i].key.as_slice(), key) {
                return Some(self.entries[i].bitmap.clone_set());
            }
        }
        None
    }

    /// Puts a list into the cache under the bytes of a key.
    pub fn remember(&mut self, key: Vec<u8>, bitmap: Bitmap)
        requires
            old(self).wf(),
            bitmap.wf(),
        ensures
            final(self).wf(),
            forall|k: Seq<u8>| #[trigger]
                final(self).held(k) == (if k == key@ {
                    Some(bitmap@)
                } else {
                    old(self).held(k)
                }),
    {
        let ghost before = self.entries@;
        self.entries.push(Cached { key, bitmap });
        assert(self.entries@.drop_last() =~= before);
    }

    /// Takes the lists under all keys that the changes are made under out
    /// of the cache.
    pub fn invalidate(&mut self, ops: &[Op])
        requires
            old(self).wf(),
        ensures
            final(self).wf(),
            forall|key: Seq<u8>| #[trigger]
                final(self).held(key) == (if touched(ops@, key) {
                    None
                } else {
                    old(self).held(key)
                }),
    {
        let mut kept: Vec<Cached> = Vec::new();
        let n = self.entries.len();
        let mut i: usize = 0;
        assert(self.entries@.subrange(0, 0) =~= Seq::empty());
        while i < n
            invariant
                self.wf(),
                *self == *old(self),
                n == self.entries@.len(),
                i <= n,
                forall|j: int| 0 <= j < kept@.len() ==> (#[trigger] kept@[j]).bitmap.wf(),
                forall|key: Seq<u8>| #[trigger]
                    held_in(kept@, key) == (if touched(ops@, key) {
                        None
                    } else {
                        held_in(self.entries@.subrange(0, i as int), key)
                    }),
            decreases n - i,
        {
            let ghost done = self.entries@.subrange(0, i as int);
            let ghost next = self.entries@.subrange(0, i + 1);
            let ghost had = kept@;
            assert(next.drop_last() =~= done);
            assert(next.last() == self.entries@[i as int]);
            let entry = &self.entries[i];
            let keep = !is_touched(ops, entry.key.as_slice());
            if keep {
                kept.push(
                    Cached { key: copy_bytes(entry.key.as_slice()), bitmap: entry.bitmap.clone_set() },
                );
                assert(kept@.drop_last() =~= had);
            }
            proof {
                assert forall|key: Seq<u8>| #[trigger]
                    held_in(kept@, key) == (if touched(ops@, key) {
                        None
                    } else {
                        held_in(next, key)
                    }) by {
                    assert(held_in(had, key) == (if touched(ops@, key) {
                        None
                    } else {
                        held_in(done, key)
                    }));
                    if keep {
                        assert(kept@.last().key@ == next.last().key@);
                        assert(kept@.last().bitmap@ == next.last().bitmap@);
                    }
                }
            }
            i += 1;
        }
        assert(self.entries@.subrange(0, n as int) =~= self.entries@);
        self.entries = kept;
    }
}

/// Whether one of the changes is made under the key.
pub fn is_touched(ops: &[Op], key: &[u8]) -> (r: bool)
    ensures
        r == touched(ops@, key@),
{
    let mut i: usize = 0;
    while i < ops.len()
        invariant
            i <= ops@.len(),
            forall|j: int| 0 <= j < i ==> op_key(#[trigger] ops@[j]) != key@,
        decreases ops@.len() - i,
    {
        let same = match &ops[i] {
            Op::Put { key: k, value } => bytes_equal(k.as_slice(), key),
            Op::Delete { key: k } => bytes_equal(k.as_slice(), key),
        };
        if same {
            return true;
        }
        i += 1;
    }
    false
}

impl Store {
    /// The posting list under a bitmap key, from the cache where the cache
    /// holds it, else from the table and from then on in the cache.
    pub fn cached_posting(&self, cache: &mut PostingCache, bk: &BitmapKey<Vec<u8>>) -> (r: Result<
        Bitmap,
        Error,
    >)
        requires
            self.wf(),
            old(cache).wf(),
            old(cache).coherent(self@),
            bk@.wf(),
        ensures
            final(cache).wf(),
            final(cache).coherent(self@),
            old(cache).held(bk@.encoding()) is Some ==> r is Ok,
            old(cache).held(bk@.encoding()) is None ==> (r is Ok == posting_ok(self@, bk@)),
            r matches Ok(b) ==> b.wf() && b@ == posting(self@, bk@) && final(cache).held(
                bk@.encoding(),
            ) == Some(b@),
            r matches Err(e) ==> e is InternalError && *final(cache) == *old(cache),
    {
        let key = bk.encode();
        match cache.lookup(key.as_slice()) {
            Some(b) => {
                assert(cache.held(key@) == Some(b@));
                assert(b@ == posting_at(self@, key@));
                Ok(b)
            },
            None => match self.table().read_posting(bk) {
                Ok(b) => {
                    let ghost before = *cache;
                    cache.remember(key, b.clone_set());
                    proof {
                        assert forall|k: Seq<u8>| #[trigger] cache.held(k) is Some implies cache.held(
                            k,
                        )->0 == posting_at(self@, k) by {
                            if k != bk@.encoding() {
                                assert(cache.held(k) == before.held(k));
                            }
                        }
                    }
                    Ok(b)
                },
                Err(e) => Err(e),
            },
        }
    }
}

} // verus!
