//! A transaction: a private copy of the table on which a writer works, with
//! the list of changes that lead to it from the table it started from.
//! Nothing reaches the store until the transaction is finished, so a writer
//! that fails on the way leaves no trace.

use vstd::prelude::*;
use crate::batch::{apply_ops, Op};
use crate::bitmap::{strictly_increasing, Bitmap};
use crate::bitmap_codec::{ids_encoding, lemma_ids_encoding_injective};
use crate::codec::{copy_bytes, starts_with};
use crate::fts::views;
use crate::error::Error;
use crate::key_space::KeyView;
use crate::keys::BitmapKey;
use crate::table::Table;

verus! {

/// What the table holds under a key of the store, if anything.
pub open spec fn raw(m: Map<Seq<u8>, Seq<u8>>, k: KeyView) -> Option<Seq<u8>> {
    if m.contains_key(k.encoding()) {
        Some(m[k.encoding()])
    } else {
        None
    }
}

/// Whether bytes are the byte form of a posting list.
pub open spec fn readable(bytes: Seq<u8>) -> bool {
    exists|s: Seq<u32>| strictly_increasing(s) && ids_encoding(s) == bytes
}

/// The ids of the posting list that bytes are the byte form of; none where
/// they are the byte form of no list.
pub open spec fn ids_of(bytes: Seq<u8>) -> Set<u32> {
    if readable(bytes) {
        (choose|s: Seq<u32>| strictly_increasing(s) && ids_encoding(s) == bytes).to_set()
    } else {
        Set::empty()
    }
}

/// The posting list under a bitmap key; empty where the key is absent.
pub open spec fn posting(m: Map<Seq<u8>, Seq<u8>>, bk: BitmapKey<Seq<u8>>) -> Set<u32> {
    match raw(m, KeyView::Bitmap(bk)) {
        Some(bytes) => ids_of(bytes),
        None => Set::empty(),
    }
}

/// The posting list under a bitmap key, where there is one, can be read.
pub open spec fn posting_ok(m: Map<Seq<u8>, Seq<u8>>, bk: BitmapKey<Seq<u8>>) -> bool {
    raw(m, KeyView::Bitmap(bk)) matches Some(bytes) ==> readable(bytes)
}

/// Two tables hold the same under every key of the store but `k`.
pub open spec fn unchanged_but(
    before: Map<Seq<u8>, Seq<u8>>,
    after: Map<Seq<u8>, Seq<u8>>,
    k: KeyView,
) -> bool {
    forall|other: KeyView| other.wf() && other != k ==> #[trigger] raw(after, other) == raw(before, other)
}

/// The byte form of a list gives back its ids.
pub proof fn lemma_ids_of(s: Seq<u32>)
    requires
        strictly_increasing(s),
    ensures
        readable(ids_encoding(s)),
        ids_of(ids_encoding(s)) == s.to_set(),
{
    let found = choose|t: Seq<u32>| strictly_increasing(t) && ids_encoding(t) == ids_encoding(s);
    lemma_ids_encoding_injective(found, s);
}

/// A write under one key of the store leaves every other key as it was.
pub proof fn lemma_put_unchanged(m: Map<Seq<u8>, Seq<u8>>, k: KeyView, value: Seq<u8>)
    requires
        k.wf(),
    ensures
        unchanged_but(m, m.insert(k.encoding(), value), k),
        unchanged_but(m, m.remove(k.encoding()), k),
        raw(m.insert(k.encoding(), value), k) == Some(value),
        raw(m.remove(k.encoding()), k) is None,
{
    assert forall|other: KeyView| other.wf() && other != k implies #[trigger] raw(
        m.insert(k.encoding(), value),
        other,
    ) == raw(m, other) by {
        if other.encoding() == k.encoding() {
            KeyView::lemma_injective(other, k);
        }
    }
    assert forall|other: KeyView| other.wf() && other != k implies #[trigger] raw(
        m.remove(k.encoding()),
        other,
    ) == raw(m, other) by {
        if other.encoding() == k.encoding() {
            KeyView::lemma_injective(other, k);
        }
    }
}

impl Table {
    /// Reads the posting list under a bitmap key; the empty list where the
    /// key is absent. Bytes that are no posting list are corruption.
    pub fn read_posting(&self, bk: &BitmapKey<Vec<u8>>) -> (r: Result<Bitmap, Error>)
        requires
            self.wf(),
        ensures
            match r {
                Ok(b) => b.wf() && b@ == posting(self@, bk@) && posting_ok(self@, bk@),
                Err(e) => e is InternalError && !posting_ok(self@, bk@),
            },
    {
        let key = bk.encode();
        match self.get(key.as_slice()) {
            None => Ok(Bitmap::new()),
            Some(bytes) => match Bitmap::decode(bytes) {
                Some(b) => {
                    proof {
                        b.lemma_ascending();
                        lemma_ids_of(b.ascending());
                    }
                    Ok(b)
                },
                None => Err(Error::InternalError("corrupt posting list".to_owned())),
            },
        }
    }
}

/// A working copy of the table with the record of what was done to it.
pub struct Txn {
    table: Table,
    log: Vec<Op>,
    base: Ghost<Map<Seq<u8>, Seq<u8>>>,
}

impl View for Txn {
    type V = Map<Seq<u8>, Seq<u8>>;

    /// The table as the writer sees it.
    closed spec fn view(&self) -> Map<Seq<u8>, Seq<u8>> {
        self.table@
    }
}

impl Txn {
    /// The table that the transaction started from.
    pub closed spec fn base(&self) -> Map<Seq<u8>, Seq<u8>> {
        self.base@
    }

    /// The changes made so far.
    pub closed spec fn log(&self) -> Seq<Op> {
        self.log@
    }

    /// The working copy is the starting table with the changes made.
    pub closed spec fn wf(&self) -> bool {
        self.table.wf() && self.table@ == apply_ops(self.base@, self.log@)
    }

    /// Starts a transaction on a table.
    pub fn begin(table: &Table) -> (t: Txn)
        requires
            table.wf(),
        ensures
            t.wf(),
            t@ == table@,
            t.base() == table@,
    {
        Txn { table: table.clone_table(), log: Vec::new(), base: Ghost(table@) }
    }

    /// The value under `key` in the working copy.
    pub fn get(&self, key: &[u8]) -> (r: Option<&[u8]>)
        requires
            self.wf(),
        ensures
            match r {
                Some(value) => self@.contains_key(key@) && self@[key@] == value@,
                None => !self@.contains_key(key@),
            },
    {
        self.table.get(key)
    }

    /// Puts a value under `key` in the working copy.
    pub fn put(&mut self, key: Vec<u8>, value: Vec<u8>)
        requires
            old(self).wf(),
        ensures
            final(self).wf(),
            final(self).base() == old(self).base(),
            final(self)@ == old(self)@.insert(key@, value@),
    {
        let k = copy_bytes(key.as_slice());
        let v = copy_bytes(value.as_slice());
        let ghost before = self.log@;
        self.table.put(k, v);
        let op = Op::Put { key, value };
        self.log.push(op);
        assert(self.log@.drop_last() =~= before);
    }

    /// Takes `key` out of the working copy.
    pub fn delete(&mut self, key: Vec<u8>)
        requires
            old(self).wf(),
        ensures
            final(self).wf(),
            final(self).base() == old(self).base(),
            final(self)@ == old(self)@.remove(key@),
    {
        let ghost before = self.log@;
        self.table.delete(key.as_slice());
        let op = Op::Delete { key };
        self.log.push(op);
        assert(self.log@.drop_last() =~= before);
    }

    /// Takes every key out that begins with `prefix`; tells which keys
    /// went.
    pub fn delete_prefix(&mut self, prefix: &[u8]) -> (removed: Vec<Vec<u8>>)
        requires
            old(self).wf(),
        ensures
            final(self).wf(),
            final(self).base() == old(self).base(),
            forall|k: Seq<u8>|
                final(self)@.contains_key(k) <==> old(self)@.contains_key(k) && !starts_with(
                    k,
                    prefix@,
                ),
            forall|k: Seq<u8>| final(self)@.contains_key(k) ==> final(self)@[k] == old(self)@[k],
            forall|k: Seq<u8>|
                views(removed@).contains(k) <==> old(self)@.contains_key(k) && starts_with(
                    k,
                    prefix@,
                ),
    {
        let ghost m0 = self@;
        let ghost s = self.table.ordered();
        proof {
            self.table.lemma_ordered();
        }
        let (lo, hi) = self.table.prefix_range(prefix);
        let mut removed: Vec<Vec<u8>> = Vec::new();
        let mut i: usize = lo;
        while i < hi
            invariant
                s == self.table.ordered(),
                lo <= i <= hi <= s.len(),
                removed@.len() == i - lo,
                forall|j: int| 0 <= j < removed@.len() ==> (#[trigger] removed@[j])@ == s[lo + j].0,
            decreases hi - i,
        {
            removed.push(copy_bytes(self.table.key_at(i)));
            i += 1;
        }
        proof {
            assert forall|k: Seq<u8>| views(removed@).contains(k) <==> m0.contains_key(k)
                && starts_with(k, prefix@) by {
                if views(removed@).contains(k) {
                    let j = choose|j: int| 0 <= j < views(removed@).len() && views(removed@)[j] == k;
                    assert(removed@[j]@ == s[lo + j].0);
                    assert(starts_with(s[lo + j].0, prefix@));
                }
                if m0.contains_key(k) && starts_with(k, prefix@) {
                    let p = choose|p: int| 0 <= p < s.len() && (#[trigger] s[p]).0 == k;
                    assert(lo <= p < hi);
                    assert(views(removed@)[p - lo] == k);
                }
            }
        }
        let mut j: usize = 0;
        while j < removed.len()
            invariant
                j <= removed@.len(),
                self.wf(),
                self.base() == old(self).base(),
                m0 == old(self)@,
                forall|k: Seq<u8>|
                    self@.contains_key(k) <==> m0.contains_key(k) && !views(removed@).subrange(
                        0,
                        j as int,
                    ).contains(k),
                forall|k: Seq<u8>| self@.contains_key(k) ==> self@[k] == m0[k],
            decreases removed@.len() - j,
        {
            let ghost before = self@;
            let ghost done = views(removed@).subrange(0, j as int);
            let ghost next = views(removed@).subrange(0, j + 1);
            let key = copy_bytes(removed[j].as_slice());
            self.delete(key);
            proof {
                assert(next =~= done.push(removed@[j as int]@));
                let gone = removed@[j as int]@;
                assert(self@ == before.remove(gone));
                assert(next[j as int] == gone);
                assert forall|k: Seq<u8>| self@.contains_key(k) <==> m0.contains_key(k)
                    && !next.contains(k) by {
                    assert(before.contains_key(k) <==> m0.contains_key(k) && !done.contains(k));
                    if k == gone {
                        assert(next.contains(k));
                    } else {
                        if next.contains(k) {
                            let x = choose|x: int| 0 <= x < next.len() && next[x] == k;
                            assert(done[x] == k);
                        }
                        if done.contains(k) {
                            let x = choose|x: int| 0 <= x < done.len() && done[x] == k;
                            assert(next[x] == k);
                        }
                    }
                }
            }
            j += 1;
        }
        assert(views(removed@).subrange(0, j as int) =~= views(removed@));
        removed
    }

    /// Ends the transaction: the table as it now is, and the changes that
    /// lead to it from the table the transaction started from.
    pub fn finish(self) -> (r: (Table, Vec<Op>))
        requires
            self.wf(),
        ensures
            r.0.wf(),
            r.0@ == self@,
            r.0@ == apply_ops(self.base(), r.1@),
    {
        (self.table, self.log)
    }

    /// The working copy, for reading.
    pub fn table(&self) -> (t: &Table)
        requires
            self.wf(),
        ensures
            t.wf(),
            t@ == self@,
    {
        &self.table
    }

    /// Reads the posting list under a bitmap key; the empty list where the
    /// key is absent. Bytes that are no posting list are corruption.
    pub fn read_posting(&self, bk: &BitmapKey<Vec<u8>>) -> (r: Result<Bitmap, Error>)
        requires
            self.wf(),
        ensures
            match r {
                Ok(b) => b.wf() && b@ == posting(self@, bk@) && posting_ok(self@, bk@),
                Err(e) => e is InternalError && !posting_ok(self@, bk@),
            },
    {
        self.table.read_posting(bk)
    }

    /// Writes a posting list under a bitmap key; an empty list takes the key
    /// out.
    pub fn write_posting(&mut self, bk: &BitmapKey<Vec<u8>>, b: &Bitmap)
        requires
            old(self).wf(),
            bk@.wf(),
            b.wf(),
        ensures
            final(self).wf(),
            final(self).base() == old(self).base(),
            posting(final(self)@, bk@) == b@,
            posting_ok(final(self)@, bk@),
            unchanged_but(old(self)@, final(self)@, KeyView::Bitmap(bk@)),
    {
        let key = bk.encode();
        proof {
            b.lemma_ascending();
            lemma_ids_of(b.ascending());
            lemma_put_unchanged(self@, KeyView::Bitmap(bk@), ids_encoding(b.ascending()));
        }
        if b.is_empty() {
            self.delete(key);
        } else {
            self.put(key, b.encode());
        }
    }

    /// Adds a document to the posting list under a bitmap key.
    pub fn posting_add(&mut self, bk: &BitmapKey<Vec<u8>>, document_id: u32) -> (r: Result<
        (),
        Error,
    >)
        requires
            old(self).wf(),
            bk@.wf(),
        ensures
            final(self).wf(),
            final(self).base() == old(self).base(),
            r is Ok == posting_ok(old(self)@, bk@),
            r is Ok ==> posting(final(self)@, bk@) == posting(old(self)@, bk@).insert(document_id)
                && posting_ok(final(self)@, bk@) && unchanged_but(
                old(self)@,
                final(self)@,
                KeyView::Bitmap(bk@),
            ),
            r matches Err(e) ==> e is InternalError && final(self)@ == old(self)@,
    {
        match self.read_posting(bk) {
            Ok(mut b) => {
                b.insert(document_id);
                self.write_posting(bk, &b);
                Ok(())
            },
            Err(e) => Err(e),
        }
    }

    /// Takes a document out of the posting list under a bitmap key.
    pub fn posting_remove(&mut self, bk: &BitmapKey<Vec<u8>>, document_id: u32) -> (r: Result<
        (),
        Error,
    >)
        requires
            old(self).wf(),
            bk@.wf(),
        ensures
            final(self).wf(),
            final(self).base() == old(self).base(),
            r is Ok == posting_ok(old(self)@, bk@),
            r is Ok ==> posting(final(self)@, bk@) == posting(old(self)@, bk@).remove(document_id)
                && posting_ok(final(self)@, bk@) && unchanged_but(
                old(self)@,
                final(self)@,
                KeyView::Bitmap(bk@),
            ),
            r matches Err(e) ==> e is InternalError && final(self)@ == old(self)@,
    {
        match self.read_posting(bk) {
            Ok(mut b) => {
                b.remove(document_id);
                self.write_posting(bk, &b);
                Ok(())
            },
            Err(e) => Err(e),
        }
    }
}

} // verus!
