//! Write batches: a list of puts and deletes that reaches the table as a
//! whole or not at all, guarded by what the writer saw when it prepared
//! them.

use vstd::prelude::*;
use crate::codec::{bytes_equal, copy_bytes};
use crate::error::Error;
use crate::table::Table;

verus! {

/// One change to the table.
#[derive(Debug, Clone, PartialEq, Eq)]
pub enum Op {
    Put { key: Vec<u8>, value: Vec<u8> },
    Delete { key: Vec<u8> },
}

/// What a writer saw under a key when it prepared its batch: a value, or
/// that there was none.
#[derive(Debug, Clone, PartialEq, Eq)]
pub struct Expect {
    pub key: Vec<u8>,
    pub value: Option<Vec<u8>>,
}

/// The changes of one transaction, with the observations they rest on.
#[derive(Debug, Clone, PartialEq, Eq)]
pub struct Batch {
    pub expects: Vec<Expect>,
    pub ops: Vec<Op>,
}

/// How an attempt to commit ended.
#[derive(Debug, Clone, Copy, PartialEq, Eq, Structural)]
pub enum Outcome {
    /// Every change is in the table.
    Committed,
    /// Another writer changed a key that the batch rests on; nothing was
    /// written.
    Conflict,
}

/// What a writer does after an attempt.
#[derive(Debug, Clone, Copy, PartialEq, Eq, Structural)]
pub enum Decision {
    Done,
    Retry,
    GiveUp,
}

/// The table after one change.
pub open spec fn apply_op(m: Map<Seq<u8>, Seq<u8>>, op: Op) -> Map<Seq<u8>, Seq<u8>> {
    match op {
        Op::Put { key, value } => m.insert(key@, value@),
        Op::Delete { key } => m.remove(key@),
    }
}

/// The table after a list of changes, made in order.
pub open spec fn apply_ops(m: Map<Seq<u8>, Seq<u8>>, ops: Seq<Op>) -> Map<Seq<u8>, Seq<u8>>
    decreases ops.len(),
{
    if ops.len() == 0 {
        m
    } else {
        apply_op(apply_ops(m, ops.drop_last()), ops.last())
    }
}

/// Whether the table still shows what a writer saw.
pub open spec fn holds(m: Map<Seq<u8>, Seq<u8>>, e: Expect) -> bool {
    match e.value {
        Some(v) => m.contains_key(e.key@) && m[e.key@] == v@,
        None => !m.contains_key(e.key@),
    }
}

/// Whether the table still shows everything a writer saw.
pub open spec fn all_hold(m: Map<Seq<u8>, Seq<u8>>, expects: Seq<Expect>) -> bool {
    forall|i: int| 0 <= i < expects.len() ==> holds(m, #[trigger] expects[i])
}

/// Changes made one list after another are the changes of the joined list.
pub proof fn lemma_apply_ops_concat(m: Map<Seq<u8>, Seq<u8>>, a: Seq<Op>, b: Seq<Op>)
    ensures
        apply_ops(m, a + b) == apply_ops(apply_ops(m, a), b),
    decreases b.len(),
{
    if b.len() == 0 {
        assert(a + b =~= a);
    } else {
        assert((a + b).drop_last() =~= a + b.drop_last());
        lemma_apply_ops_concat(m, a, b.drop_last());
    }
}

/// What a writer does after an attempt that was its `attempt`-th retry
/// (zero for the first try): it is done after a commit, tries again after a
/// conflict while retries are left, and gives up after that.
pub fn decide(outcome: Outcome, attempt: u32, max_retries: u32) -> (d: Decision)
    ensures
        d == match outcome {
            Outcome::Committed => Decision::Done,
            Outcome::Conflict => if attempt < max_retries {
                Decision::Retry
            } else {
                Decision::GiveUp
            },
        },
{
    match outcome {
        Outcome::Committed => Decision::Done,
        Outcome::Conflict => if attempt < max_retries {
            Decision::Retry
        } else {
            Decision::GiveUp
        },
    }
}

impl Batch {
    /// A batch without changes or observations.
    pub fn new() -> (b: Batch)
        ensures
            b.expects@.len() == 0,
            b.ops@.len() == 0,
    {
        Batch { expects: Vec::new(), ops: Vec::new() }
    }

    /// Adds a put.
    pub fn put(&mut self, key: Vec<u8>, value: Vec<u8>)
        ensures
            final(self).ops@ == old(self).ops@.push(Op::Put { key, value }),
            final(self).expects == old(self).expects,
    {
        self.ops.push(Op::Put { key, value });
    }

    /// Adds a delete.
    pub fn delete(&mut self, key: Vec<u8>)
        ensures
            final(self).ops@ == old(self).ops@.push(Op::Delete { key }),
            final(self).expects == old(self).expects,
    {
        self.ops.push(Op::Delete { key });
    }

    /// Records what the writer saw under `key`.
    pub fn expect(&mut self, key: Vec<u8>, value: Option<Vec<u8>>)
        ensures
            final(self).expects@ == old(self).expects@.push(Expect { key, value }),
            final(self).ops == old(self).ops,
    {
        self.expects.push(Expect { key, value });
    }
}

impl Table {
    /// Makes a list of changes, in order.
    pub fn apply(&mut self, ops: &[Op])
        requires
            old(self).wf(),
        ensures
            final(self).wf(),
            final(self)@ == apply_ops(old(self)@, ops@),
    {
        let mut i: usize = 0;
        assert(ops@.subrange(0, 0) =~= Seq::<Op>::empty());
        while i < ops.len()
            invariant
                i <= ops@.len(),
                self.wf(),
                self@ == apply_ops(old(self)@, ops@.subrange(0, i as int)),
            decreases ops@.len() - i,
        {
            assert(ops@.subrange(0, i + 1).drop_last() =~= ops@.subrange(0, i as int));
            match &ops[i] {
                Op::Put { key, value } => {
                    self.put(copy_bytes(key.as_slice()), copy_bytes(value.as_slice()));
                },
                Op::Delete { key } => {
                    self.delete(key.as_slice());
                },
            }
            i += 1;
        }
        assert(ops@.subrange(0, i as int) =~= ops@);
    }

    /// Whether the table still shows everything a writer saw.
    pub fn check(&self, expects: &[Expect]) -> (r: bool)
        requires
            self.wf(),
        ensures
            r == all_hold(self@, expects@),
    {
        let mut i: usize = 0;
        while i < expects.len()
            invariant
                i <= expects@.len(),
                self.wf(),
                forall|j: int| 0 <= j < i ==> holds(self@, #[trigger] expects@[j]),
            decreases expects@.len() - i,
        {
            let now = self.get(expects[i].key.as_slice());
            let same = match (&expects[i].value, now) {
                (Some(seen), Some(current)) => bytes_equal(seen.as_slice(), current),
                (None, None) => true,
                _ => false,
            };
            if !same {
                assert(!holds(self@, expects@[i as int]));
                return false;
            }
            i += 1;
        }
        true
    }

    /// Commits a batch: where the table still shows what the writer saw,
    /// all changes are made; otherwise none is.
    pub fn commit(&mut self, batch: &Batch) -> (r: Outcome)
        requires
            old(self).wf(),
        ensures
            final(self).wf(),
            r is Committed == all_hold(old(self)@, batch.expects@),
            r is Committed ==> final(self)@ == apply_ops(old(self)@, batch.ops@),
            r is Conflict ==> final(self)@ == old(self)@,
    {
        if self.check(batch.expects.as_slice()) {
            self.apply(batch.ops.as_slice());
            Outcome::Committed
        } else {
            Outcome::Conflict
        }
    }

    /// Commits a batch, trying again after a conflict up to `max_retries`
    /// times. A conflict that outlasts the retries is an internal error, and
    /// the table is then as it was.
    pub fn write(&mut self, batch: &Batch, max_retries: u32) -> (r: Result<(), Error>)
        requires
            old(self).wf(),
        ensures
            final(self).wf(),
            r is Ok == all_hold(old(self)@, batch.expects@),
            r is Ok ==> final(self)@ == apply_ops(old(self)@, batch.ops@),
            r matches Err(e) ==> e is InternalError && final(self)@ == old(self)@,
    {
        let mut attempt: u32 = 0;
        loop
            invariant
                attempt <= max_retries,
                self.wf(),
                self@ == old(self)@,
                attempt > 0 ==> !all_hold(old(self)@, batch.expects@),
            decreases max_retries - attempt,
        {
            let outcome = self.commit(batch);
            match decide(outcome, attempt, max_retries) {
                Decision::Done => {
                    return Ok(());
                },
                Decision::Retry => {
                    attempt += 1;
                },
                Decision::GiveUp => {
                    return Err(Error::InternalError("transaction conflict".to_owned()));
                },
            }
        }
    }
}

} // verus!
