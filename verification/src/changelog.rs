//! The change ledger of a collection: one entry for every change, numbered
//! from one without gaps, under a header that holds the number of the last
//! change and the id of the last document created.

use vstd::prelude::*;
use crate::codec::{
    be32, be32_value, be64, be64_value, lemma_be32_value, lemma_be64_value, push_u32, push_u64,
    read_u32, read_u64,
};
use crate::error::Error;
use crate::key_space::KeyView;
use crate::keys::LogKey;
use crate::table::Table;
use crate::txn::{lemma_put_unchanged, raw, Txn};

verus! {

/// What happened to a document.
#[derive(Debug, Clone, Copy, PartialEq, Eq, Structural)]
pub enum ChangeKind {
    Insert,
    Update,
    Delete,
}

/// One entry of the ledger.
#[derive(Debug, Clone, Copy, PartialEq, Eq, Structural)]
pub struct Change {
    pub change_id: u64,
    pub document_id: u32,
    pub kind: ChangeKind,
}

/// The key of the entry of a change; change zero is the header.
pub open spec fn log_key(account_id: u32, collection: u8, change_id: u64) -> LogKey {
    LogKey { account_id, collection, change_id }
}

/// The byte that stands for a kind of change.
pub open spec fn kind_byte(kind: ChangeKind) -> u8 {
    match kind {
        ChangeKind::Insert => 0,
        ChangeKind::Update => 1,
        ChangeKind::Delete => 2,
    }
}

/// The bytes of the header: the last change, then the last document.
pub open spec fn head_bytes(last_change: u64, last_document: u32) -> Seq<u8> {
    be64(last_change) + be32(last_document)
}

/// The bytes of an entry: the kind, then the document.
pub open spec fn entry_bytes(document_id: u32, kind: ChangeKind) -> Seq<u8> {
    seq![kind_byte(kind)] + be32(document_id)
}

/// What the table holds as the header of a collection.
pub open spec fn head(
    m: Map<Seq<u8>, Seq<u8>>,
    account_id: u32,
    collection: u8,
) -> Option<Seq<u8>> {
    raw(m, KeyView::Log(log_key(account_id, collection, 0)))
}

/// The header, where there is one, has the length of a header.
pub open spec fn head_ok(m: Map<Seq<u8>, Seq<u8>>, account_id: u32, collection: u8) -> bool {
    head(m, account_id, collection) matches Some(h) ==> h.len() == 12
}

/// The number of the last change of a collection; zero before the first.
pub open spec fn last_change(m: Map<Seq<u8>, Seq<u8>>, account_id: u32, collection: u8) -> u64 {
    match head(m, account_id, collection) {
        Some(h) => if h.len() == 12 {
            be64_value(h.subrange(0, 8))
        } else {
            0
        },
        None => 0,
    }
}

/// The id of the last document created in a collection; zero before the
/// first.
pub open spec fn last_document(m: Map<Seq<u8>, Seq<u8>>, account_id: u32, collection: u8) -> u32 {
    match head(m, account_id, collection) {
        Some(h) => if h.len() == 12 {
            be32_value(h.subrange(8, 12))
        } else {
            0
        },
        None => 0,
    }
}

/// The entry that bytes stand for, if they stand for one.
pub open spec fn entry_of(change_id: u64, bytes: Seq<u8>) -> Option<Change> {
    if bytes.len() == 5 && bytes[0] <= 2 {
        Some(
            Change {
                change_id,
                document_id: be32_value(bytes.subrange(1, 5)),
                kind: if bytes[0] == 0 {
                    ChangeKind::Insert
                } else if bytes[0] == 1 {
                    ChangeKind::Update
                } else {
                    ChangeKind::Delete
                },
            },
        )
    } else {
        None
    }
}

/// The entry of a change in the table, if it is there and can be read.
pub open spec fn change_at(
    m: Map<Seq<u8>, Seq<u8>>,
    account_id: u32,
    collection: u8,
    change_id: u64,
) -> Option<Change> {
    match raw(m, KeyView::Log(log_key(account_id, collection, change_id))) {
        Some(bytes) => entry_of(change_id, bytes),
        None => None,
    }
}

/// The ledgers are whole: every header can be read, and a collection has a
/// readable entry for each change from one to its last, and for no other.
pub open spec fn ledger_ok(m: Map<Seq<u8>, Seq<u8>>) -> bool {
    &&& forall|account_id: u32, collection: u8| #[trigger] head_ok(m, account_id, collection)
    &&& forall|account_id: u32, collection: u8, change_id: u64|
        change_id >= 1 ==> (#[trigger] change_at(m, account_id, collection, change_id) is Some
            <==> change_id <= last_change(m, account_id, collection))
}

/// Whether `changes` are the entries of the changes of a collection after
/// `since`: one for each number from `since + 1` to the last change, in the
/// order of the numbers.
pub open spec fn changes_since(
    m: Map<Seq<u8>, Seq<u8>>,
    account_id: u32,
    collection: u8,
    since: u64,
    changes: Seq<Change>,
) -> bool {
    let last = last_change(m, account_id, collection);
    &&& changes.len() == (if since < last {
        last - since
    } else {
        0
    })
    &&& forall|i: int|
        0 <= i < changes.len() ==> (#[trigger] changes[i]).change_id == since + 1 + i && change_at(
            m,
            account_id,
            collection,
            changes[i].change_id,
        ) == Some(changes[i])
}

/// Whether the changes of a collection after `since` can be read: the
/// header can be, and the entry of every change after `since` up to the last
/// is there and can be.
pub open spec fn readable_since(
    m: Map<Seq<u8>, Seq<u8>>,
    account_id: u32,
    collection: u8,
    since: u64,
) -> bool {
    &&& head_ok(m, account_id, collection)
    &&& forall|id: u64|
        since < id <= last_change(m, account_id, collection) ==> (#[trigger] change_at(
            m,
            account_id,
            collection,
            id,
        )) is Some
}

/// An entry that was written can be read back.
pub proof fn lemma_entry_of(change_id: u64, document_id: u32, kind: ChangeKind)
    ensures
        entry_of(change_id, entry_bytes(document_id, kind)) == Some(
            Change { change_id, document_id, kind },
        ),
{
    let e = entry_bytes(document_id, kind);
    lemma_be32_value(document_id);
    assert(e.subrange(1, 5) =~= be32(document_id));
}

/// A header that was written gives back its counters.
pub proof fn lemma_head_bytes(last_change: u64, last_document: u32)
    ensures
        head_bytes(last_change, last_document).len() == 12,
        be64_value(head_bytes(last_change, last_document).subrange(0, 8)) == last_change,
        be32_value(head_bytes(last_change, last_document).subrange(8, 12)) == last_document,
{
    let h = head_bytes(last_change, last_document);
    lemma_be64_value(last_change);
    lemma_be32_value(last_document);
    assert(h.subrange(0, 8) =~= be64(last_change));
    assert(h.subrange(8, 12) =~= be32(last_document));
}

impl ChangeKind {
    /// The byte that stands for the kind.
    pub fn to_byte(self) -> (b: u8)
        ensures
            b == kind_byte(self),
    {
        match self {
            ChangeKind::Insert => 0,
            ChangeKind::Update => 1,
            ChangeKind::Delete => 2,
        }
    }
}

/// Reads an entry of the ledger from its bytes.
pub fn read_entry(change_id: u64, bytes: &[u8]) -> (r: Option<Change>)
    ensures
        r == entry_of(change_id, bytes@),
{
    if bytes.len() != 5 || bytes[0] > 2 {
        return None;
    }
    let kind = if bytes[0] == 0 {
        ChangeKind::Insert
    } else if bytes[0] == 1 {
        ChangeKind::Update
    } else {
        ChangeKind::Delete
    };
    Some(Change { change_id, document_id: read_u32(bytes, 1), kind })
}

impl Table {
    /// Reads the counters of a collection: the number of its last change
    /// and the id of the last document created in it. A header of the wrong
    /// length is corruption.
    pub fn read_head(&self, account_id: u32, collection: u8) -> (r: Result<(u64, u32), Error>)
        requires
            self.wf(),
        ensures
            r is Ok == head_ok(self@, account_id, collection),
            r matches Ok(counters) ==> counters.0 == last_change(self@, account_id, collection)
                && counters.1 == last_document(self@, account_id, collection),
            r matches Err(e) ==> e is InternalError,
    {
        let key = LogKey { account_id, collection, change_id: 0 }.encode();
        match self.get(key.as_slice()) {
            None => Ok((0, 0)),
            Some(h) => {
                if h.len() != 12 {
                    Err(Error::InternalError("corrupt ledger header".to_owned()))
                } else {
                    Ok((read_u64(h, 0), read_u32(h, 8)))
                }
            },
        }
    }

    /// Reads the entry of one change; `None` where it is missing or cannot
    /// be read.
    pub fn read_change(
        &self,
        account_id: u32,
        collection: u8,
        change_id: u64,
    ) -> (r: Option<Change>)
        requires
            self.wf(),
        ensures
            r == change_at(self@, account_id, collection, change_id),
    {
        let key = LogKey { account_id, collection, change_id }.encode();
        match self.get(key.as_slice()) {
            Some(bytes) => read_entry(change_id, bytes),
            None => None,
        }
    }

    /// Reads the entries of the changes of a collection after `since`, in
    /// the order of their numbers, which follow one another without a gap up
    /// to the last change. An entry that is missing or cannot be read is
    /// corruption.
    pub fn read_changes(&self, account_id: u32, collection: u8, since: u64) -> (r: Result<
        Vec<Change>,
        Error,
    >)
        requires
            self.wf(),
        ensures
            r is Ok <==> readable_since(self@, account_id, collection, since),
            r matches Ok(changes) ==> changes_since(
                self@,
                account_id,
                collection,
                since,
                changes@,
            ),
            r matches Err(e) ==> e is InternalError,
    {
        let ghost m = self@;
        let (last, _) = match self.read_head(account_id, collection) {
            Ok(counters) => counters,
            Err(e) => {
                assert(!head_ok(m, account_id, collection));
                return Err(e);
            },
        };
        let mut out: Vec<Change> = Vec::new();
        let mut id: u64 = since;
        while id < last
            invariant
                self.wf(),
                m == self@,
                last == last_change(m, account_id, collection),
                since <= id,
                since < last ==> id <= last,
                since >= last ==> id == since,
                head_ok(m, account_id, collection),
                forall|x: u64|
                    since < x <= id ==> (#[trigger] change_at(m, account_id, collection, x)) is Some,
                out@.len() == id - since,
                forall|i: int|
                    0 <= i < out@.len() ==> (#[trigger] out@[i]).change_id == since + 1 + i
                        && change_at(m, account_id, collection, out@[i].change_id) == Some(out@[i]),
            decreases last - id,
        {
            id += 1;
            match self.read_change(account_id, collection, id) {
                Some(change) => {
                    let ghost before = out@;
                    assert(change.change_id == id);
                    out.push(change);
                    assert forall|i: int| 0 <= i < out@.len() implies (#[trigger] out@[i]).change_id
                        == since + 1 + i && change_at(
                        m,
                        account_id,
                        collection,
                        out@[i].change_id,
                    ) == Some(out@[i]) by {
                        if i < before.len() {
                            assert(out@[i] == before[i]);
                        }
                    }
                },
                None => {
                    assert(!(change_at(m, account_id, collection, id) is Some));
                    return Err(Error::InternalError("corrupt ledger".to_owned()));
                },
            }
        }
        Ok(out)
    }
}

impl Txn {
    /// Appends an entry to the ledger of a collection and writes its header
    /// anew.
    pub fn append_change(
        &mut self,
        account_id: u32,
        collection: u8,
        change: &Change,
        last_document: u32,
    )
        requires
            old(self).wf(),
            change.change_id >= 1,
        ensures
            final(self).wf(),
            final(self).base() == old(self).base(),
            raw(final(self)@, KeyView::Log(log_key(account_id, collection, change.change_id)))
                == Some(entry_bytes(change.document_id, change.kind)),
            head(final(self)@, account_id, collection) == Some(
                head_bytes(change.change_id, last_document),
            ),
            forall|k: KeyView|
                k.wf() && k != KeyView::Log(log_key(account_id, collection, change.change_id)) && k
                    != KeyView::Log(log_key(account_id, collection, 0)) ==> #[trigger] raw(
                    final(self)@,
                    k,
                ) == raw(old(self)@, k),
    {
        let ghost m0 = self@;
        let entry_key = LogKey { account_id, collection, change_id: change.change_id };
        let head_key = LogKey { account_id, collection, change_id: 0 };
        let mut entry: Vec<u8> = Vec::new();
        entry.push(change.kind.to_byte());
        push_u32(&mut entry, change.document_id);
        assert(entry@ =~= entry_bytes(change.document_id, change.kind));
        let mut header: Vec<u8> = Vec::new();
        push_u64(&mut header, change.change_id);
        push_u32(&mut header, last_document);
        assert(header@ =~= head_bytes(change.change_id, last_document));
        proof {
            lemma_put_unchanged(m0, KeyView::Log(entry_key), entry@);
        }
        self.put(entry_key.encode(), entry);
        let ghost m1 = self@;
        proof {
            lemma_put_unchanged(m1, KeyView::Log(head_key), header@);
        }
        self.put(head_key.encode(), header);
        proof {
            let m2 = self@;
            assert(raw(m2, KeyView::Log(entry_key)) == raw(m1, KeyView::Log(entry_key)));
            assert forall|k: KeyView|
                k.wf() && k != KeyView::Log(entry_key) && k != KeyView::Log(
                    head_key,
                ) implies #[trigger] raw(m2, k) == raw(m0, k) by {
                assert(raw(m2, k) == raw(m1, k));
                assert(raw(m1, k) == raw(m0, k));
            }
        }
    }
}

} // verus!
