//! Queries: a filter expression is resolved to the set of documents that
//! match it, and the set is handed out page by page, in the order of the ids
//! or in the order of a sorted field.

use vstd::prelude::*;
use crate::bitmap::{ascending_of, Bitmap};
use crate::documents::field_key;
use crate::error::Error;
use crate::key_space::KeyView;
use crate::search::{candidates, record_has_substring, term_matches, Strategy};
use crate::sorting::{hits, limit_of, page};
use crate::store::{live, Store};
use crate::txn::raw;

verus! {

/// A filter expression.
#[derive(Debug)]
pub enum Filter {
    /// The field holds the term, by the given strategy.
    Term { field: u8, term: Vec<u8>, strategy: Strategy },
    /// The text of the field holds the needle.
    Substring { field: u8, needle: Vec<u8> },
    /// Both hold.
    And(Box<Filter>, Box<Filter>),
    /// One of the two holds.
    Or(Box<Filter>, Box<Filter>),
    /// The filter does not hold, of a live document.
    Not(Box<Filter>),
}

/// How the documents of a result are ordered: by the sort entries of a
/// field, forwards or backwards.
#[derive(Debug, Clone, Copy, PartialEq, Eq, Structural)]
pub struct Sort {
    pub field: u8,
    pub ascending: bool,
}

/// The documents of a collection that match a filter.
pub open spec fn matching(
    m: Map<Seq<u8>, Seq<u8>>,
    account_id: u32,
    collection: u8,
    f: Filter,
) -> Set<u32>
    decreases f,
{
    match f {
        Filter::Term { field, term, strategy } => term_matches(
            m,
            account_id,
            collection,
            field,
            term@,
            strategy,
        ),
        Filter::Substring { field, needle } => Set::new(
            |d: u32|
                candidates(m, account_id, collection, field, needle@).contains(d)
                    && record_has_substring(
                    raw(m, KeyView::Value(field_key(account_id, collection, d, field))),
                    needle@,
                ),
        ),
        Filter::And(a, b) => matching(m, account_id, collection, *a).intersect(
            matching(m, account_id, collection, *b),
        ),
        Filter::Or(a, b) => matching(m, account_id, collection, *a).union(
            matching(m, account_id, collection, *b),
        ),
        Filter::Not(a) => live(m, account_id, collection).difference(
            matching(m, account_id, collection, *a),
        ),
    }
}

/// The documents of a result in the order asked for: by the sort entries of
/// a field, or by their ids.
pub open spec fn ordered_result(
    table: Seq<(Seq<u8>, Seq<u8>)>,
    account_id: u32,
    collection: u8,
    found: Set<u32>,
    sort: Option<Sort>,
) -> Seq<u32> {
    match sort {
        Some(by) => if by.ascending {
            hits(table, account_id, collection, by.field, found)
        } else {
            hits(table, account_id, collection, by.field, found).reverse()
        },
        None => ascending_of(found),
    }
}

impl Store {
    /// The documents of a collection that match a filter. The second branch
    /// of a conjunction is not looked at where the first matches nothing.
    pub fn resolve(&self, account_id: u32, collection: u8, filter: &Filter) -> (r: Result<
        Bitmap,
        Error,
    >)
        requires
            self.wf(),
        ensures
            crate::store::sound(self@) ==> r is Ok,
            r matches Ok(b) ==> b.wf() && b@ == matching(self@, account_id, collection, *filter),
            r matches Err(e) ==> e is InternalError,
        decreases filter,
    {
        match filter {
            Filter::Term { field, term, strategy } => self.search_verified(
                account_id,
                collection,
                *field,
                term.as_slice(),
                *strategy,
            ),
            Filter::Substring { field, needle } => {
                match self.search_substring(account_id, collection, *field, needle.as_slice()) {
                    Ok(b) => {
                        assert(b@ =~= matching(self@, account_id, collection, *filter));
                        Ok(b)
                    },
                    Err(e) => Err(e),
                }
            },
            Filter::And(a, b) => {
                let left = match self.resolve(account_id, collection, &**a) {
                    Ok(x) => x,
                    Err(e) => {
                        return Err(e);
                    },
                };
                if left.is_empty() {
                    assert(left@ =~= matching(self@, account_id, collection, *filter));
                    return Ok(left);
                }
                let right = match self.resolve(account_id, collection, &**b) {
                    Ok(x) => x,
                    Err(e) => {
                        return Err(e);
                    },
                };
                Ok(left.intersection(&right))
            },
            Filter::Or(a, b) => {
                let left = match self.resolve(account_id, collection, &**a) {
                    Ok(x) => x,
                    Err(e) => {
                        return Err(e);
                    },
                };
                let right = match self.resolve(account_id, collection, &**b) {
                    Ok(x) => x,
                    Err(e) => {
                        return Err(e);
                    },
                };
                Ok(left.union(&right))
            },
            Filter::Not(a) => {
                let inner = match self.resolve(account_id, collection, &**a) {
                    Ok(x) => x,
                    Err(e) => {
                        return Err(e);
                    },
                };
                let all = match self.document_ids(account_id, collection) {
                    Ok(x) => x,
                    Err(e) => {
                        proof {
                            crate::store::lemma_live_key(account_id, collection);
                        }
                        return Err(e);
                    },
                };
                Ok(all.difference(&inner))
            },
        }
    }

    /// One page of the documents of a collection that match a filter: in
    /// the order of the sort entries of a field where a sort is asked for,
    /// else in ascending order of their ids. The page starts after `offset`
    /// documents and holds at most `limit` of them; the walk ends when the
    /// page is full.
    pub fn query(
        &self,
        account_id: u32,
        collection: u8,
        filter: &Filter,
        sort: Option<Sort>,
        offset: usize,
        limit: Option<usize>,
    ) -> (r: Result<Vec<u32>, Error>)
        requires
            self.wf(),
        ensures
            crate::store::sound(self@) ==> r is Ok,
            r matches Ok(out) ==> out@ == page(
                ordered_result(
                    self.ordered(),
                    account_id,
                    collection,
                    matching(self@, account_id, collection, *filter),
                    sort,
                ),
                offset as nat,
                limit_of(limit),
            ),
            r matches Err(e) ==> e is InternalError,
    {
        let found = match self.resolve(account_id, collection, filter) {
            Ok(b) => b,
            Err(e) => {
                return Err(e);
            },
        };
        let out = match sort {
            Some(by) => self.table().sorted_page(
                account_id,
                collection,
                by.field,
                &found,
                by.ascending,
                offset,
                limit,
            ),
            None => page_of_ids(&found, offset, limit),
        };
        proof {
            found.lemma_ascending_of();
        }
        Ok(out)
    }
}

/// One page of the ids of a set, in ascending order.
pub fn page_of_ids(found: &Bitmap, offset: usize, limit: Option<usize>) -> (out: Vec<u32>)
    requires
        found.wf(),
    ensures
        out@ == page(found.ascending(), offset as nat, limit_of(limit)),
{
    let n = found.len();
    let from = if offset < n {
        offset
    } else {
        n
    };
    let to = match limit {
        Some(l) => if l < n - from {
            from + l
        } else {
            n
        },
        None => n,
    };
    let mut out: Vec<u32> = Vec::new();
    let mut i: usize = from;
    while i < to
        invariant
            found.wf(),
            from <= i <= to <= n,
            n == found.ascending().len(),
            out@ == found.ascending().subrange(from as int, i as int),
        decreases to - i,
    {
        out.push(found.get(i));
        i += 1;
        assert(out@ =~= found.ascending().subrange(from as int, i as int));
    }
    assert(out@ =~= page(found.ascending(), offset as nat, limit_of(limit)));
    out
}

} // verus!
