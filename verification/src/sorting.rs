//! Walking the sort index of a field: the sort entries of one field lie
//! side by side in the table, in the order of their payloads, so a walk over
//! them gives the documents in sorted order without sorting anything.

use vstd::prelude::*;
use crate::bitmap::Bitmap;
use crate::codec::{has_prefix, lemma_between_prefix, lemma_prefix_not_after, lex_lt, starts_with};
use crate::key_codec::{key_prefix, push_prefix};
use crate::keys::{IndexKey, KEY_INDEX};
use crate::table::{keys_increasing, Table};

verus! {

/// What every sort entry of a field begins with.
pub open spec fn sort_prefix(account_id: u32, collection: u8, field: u8) -> Seq<u8> {
    key_prefix(account_id, collection, KEY_INDEX) + seq![field]
}

/// The document of a key of the table, where the key is a sort entry of the
/// field and the document is one of those asked for.
pub open spec fn hit(
    key: Seq<u8>,
    account_id: u32,
    collection: u8,
    field: u8,
    wanted: Set<u32>,
) -> Option<u32> {
    match IndexKey::<Seq<u8>>::decoding(key) {
        Some(ik) => if ik.account_id == account_id && ik.collection == collection && ik.field
            == field && wanted.contains(ik.document_id) {
            Some(ik.document_id)
        } else {
            None
        },
        None => None,
    }
}

/// The documents of the sort entries of a field among the keys of a table,
/// in the order of the keys, as far as they are asked for.
pub open spec fn hits(
    s: Seq<(Seq<u8>, Seq<u8>)>,
    account_id: u32,
    collection: u8,
    field: u8,
    wanted: Set<u32>,
) -> Seq<u32>
    decreases s.len(),
{
    if s.len() == 0 {
        Seq::empty()
    } else {
        let before = hits(s.drop_last(), account_id, collection, field, wanted);
        match hit(s.last().0, account_id, collection, field, wanted) {
            Some(d) => before.push(d),
            None => before,
        }
    }
}

/// One page of a sequence: what is left after `offset` elements, up to
/// `limit` of it.
pub open spec fn page(s: Seq<u32>, offset: nat, limit: Option<nat>) -> Seq<u32> {
    let from = if offset < s.len() {
        offset
    } else {
        s.len()
    };
    let to = match limit {
        Some(l) => if offset + l < s.len() {
            offset + l
        } else {
            s.len()
        },
        None => s.len(),
    };
    s.subrange(from as int, to as int)
}

/// The hits of two stretches of keys are the hits of the first and then
/// those of the second.
pub proof fn lemma_hits_concat(
    a: Seq<(Seq<u8>, Seq<u8>)>,
    b: Seq<(Seq<u8>, Seq<u8>)>,
    account_id: u32,
    collection: u8,
    field: u8,
    wanted: Set<u32>,
)
    ensures
        hits(a + b, account_id, collection, field, wanted) == hits(
            a,
            account_id,
            collection,
            field,
            wanted,
        ) + hits(b, account_id, collection, field, wanted),
    decreases b.len(),
{
    let ha = hits(a, account_id, collection, field, wanted);
    if b.len() == 0 {
        assert(a + b =~= a);
        assert(ha + Seq::<u32>::empty() =~= ha);
    } else {
        assert((a + b).drop_last() =~= a + b.drop_last());
        assert((a + b).last() == b.last());
        lemma_hits_concat(a, b.drop_last(), account_id, collection, field, wanted);
        let hb = hits(b.drop_last(), account_id, collection, field, wanted);
        match hit(b.last().0, account_id, collection, field, wanted) {
            Some(d) => {
                assert((ha + hb).push(d) =~= ha + hb.push(d));
            },
            None => {},
        }
    }
}

/// A key that hits begins with the prefix of the sort entries of the field.
pub proof fn lemma_hit_prefix(
    key: Seq<u8>,
    account_id: u32,
    collection: u8,
    field: u8,
    wanted: Set<u32>,
)
    requires
        hit(key, account_id, collection, field, wanted) is Some,
    ensures
        starts_with(key, sort_prefix(account_id, collection, field)),
{
    let ik = IndexKey::<Seq<u8>>::decoding(key)->0;
    assert(ik.encoding() == key);
    assert(key.subrange(0, 7) =~= sort_prefix(account_id, collection, field));
}

/// A stretch of keys none of which begins with the prefix has no hits.
pub proof fn lemma_no_hits(
    s: Seq<(Seq<u8>, Seq<u8>)>,
    account_id: u32,
    collection: u8,
    field: u8,
    wanted: Set<u32>,
)
    requires
        forall|i: int|
            0 <= i < s.len() ==> !starts_with(
                (#[trigger] s[i]).0,
                sort_prefix(account_id, collection, field),
            ),
    ensures
        hits(s, account_id, collection, field, wanted) == Seq::<u32>::empty(),
    decreases s.len(),
{
    if s.len() > 0 {
        let t = s.drop_last();
        assert forall|i: int| 0 <= i < t.len() implies !starts_with(
            (#[trigger] t[i]).0,
            sort_prefix(account_id, collection, field),
        ) by {
            assert(t[i] == s[i]);
        }
        lemma_no_hits(t, account_id, collection, field, wanted);
        assert(!starts_with(s[s.len() - 1].0, sort_prefix(account_id, collection, field)));
        if hit(s.last().0, account_id, collection, field, wanted) is Some {
            lemma_hit_prefix(s.last().0, account_id, collection, field, wanted);
        }
    }
}

/// All hits of a table in key order lie in the stretch of keys that begin
/// with the prefix of the field, which starts where the prefix would stand.
pub proof fn lemma_hits_range(
    s: Seq<(Seq<u8>, Seq<u8>)>,
    lo: int,
    hi: int,
    account_id: u32,
    collection: u8,
    field: u8,
    wanted: Set<u32>,
)
    requires
        keys_increasing(s),
        0 <= lo <= hi <= s.len(),
        forall|i: int|
            0 <= i < lo ==> lex_lt((#[trigger] s[i]).0, sort_prefix(account_id, collection, field)),
        forall|i: int|
            lo <= i < s.len() ==> !lex_lt(
                (#[trigger] s[i]).0,
                sort_prefix(account_id, collection, field),
            ),
        hi < s.len() ==> !starts_with(s[hi].0, sort_prefix(account_id, collection, field)),
    ensures
        hits(s, account_id, collection, field, wanted) == hits(
            s.subrange(lo, hi),
            account_id,
            collection,
            field,
            wanted,
        ),
{
    let p = sort_prefix(account_id, collection, field);
    let a = s.subrange(0, lo);
    let b = s.subrange(lo, hi);
    let c = s.subrange(hi, s.len() as int);
    assert forall|i: int| 0 <= i < a.len() implies !starts_with((#[trigger] a[i]).0, p) by {
        assert(a[i] == s[i]);
        if starts_with(a[i].0, p) {
            lemma_prefix_not_after(a[i].0, p);
        }
    }
    assert forall|i: int| 0 <= i < c.len() implies !starts_with((#[trigger] c[i]).0, p) by {
        assert(c[i] == s[hi + i]);
        if i > 0 && starts_with(c[i].0, p) {
            assert(lex_lt(s[hi].0, s[hi + i].0));
            assert(!lex_lt(s[hi].0, p));
            lemma_between_prefix(s[hi].0, p, c[i].0);
        }
    }
    lemma_no_hits(a, account_id, collection, field, wanted);
    lemma_no_hits(c, account_id, collection, field, wanted);
    assert(s =~= (a + b) + c);
    lemma_hits_concat(a + b, c, account_id, collection, field, wanted);
    lemma_hits_concat(a, b, account_id, collection, field, wanted);
    let hb = hits(b, account_id, collection, field, wanted);
    assert((Seq::<u32>::empty() + hb) + Seq::<u32>::empty() =~= hb);
}

/// The prefix of the sort entries of a field.
pub fn make_sort_prefix(account_id: u32, collection: u8, field: u8) -> (p: Vec<u8>)
    ensures
        p@ == sort_prefix(account_id, collection, field),
{
    let mut p: Vec<u8> = Vec::new();
    push_prefix(&mut p, account_id, collection, KEY_INDEX);
    p.push(field);
    assert(p@ =~= sort_prefix(account_id, collection, field));
    p
}

/// The document of a key, where the key is a sort entry of the field and
/// the document is one of those asked for.
pub fn key_hit(
    key: &[u8],
    account_id: u32,
    collection: u8,
    field: u8,
    wanted: &Bitmap,
) -> (r: Option<
    u32,
>)
    requires
        wanted.wf(),
    ensures
        r == hit(key@, account_id, collection, field, wanted@),
{
    match IndexKey::<Vec<u8>>::decode(key) {
        Some(ik) => {
            if ik.account_id == account_id && ik.collection == collection && ik.field == field
                && wanted.contains(ik.document_id) {
                Some(ik.document_id)
            } else {
                None
            }
        },
        None => None,
    }
}

/// The hits of a stretch of keys with one more key are those of the stretch
/// and then that of the key.
proof fn lemma_hits_push(
    s: Seq<(Seq<u8>, Seq<u8>)>,
    lo: int,
    i: int,
    account_id: u32,
    collection: u8,
    field: u8,
    wanted: Set<u32>,
)
    requires
        0 <= lo <= i < s.len(),
    ensures
        hits(s.subrange(lo, i + 1), account_id, collection, field, wanted) == (match hit(
            s[i].0,
            account_id,
            collection,
            field,
            wanted,
        ) {
            Some(d) => hits(s.subrange(lo, i), account_id, collection, field, wanted).push(d),
            None => hits(s.subrange(lo, i), account_id, collection, field, wanted),
        }),
{
    let next = s.subrange(lo, i + 1);
    assert(next.drop_last() =~= s.subrange(lo, i));
    assert(next.last() == s[i]);
}

/// An empty stretch of keys has no hits.
proof fn lemma_hits_empty(
    s: Seq<(Seq<u8>, Seq<u8>)>,
    k: int,
    account_id: u32,
    collection: u8,
    field: u8,
    wanted: Set<u32>,
)
    requires
        0 <= k <= s.len(),
    ensures
        hits(s.subrange(k, k), account_id, collection, field, wanted) == Seq::<u32>::empty(),
        hits(s.subrange(k, k), account_id, collection, field, wanted).reverse() == Seq::<
            u32,
        >::empty(),
{
    assert(s.subrange(k, k) =~= Seq::empty());
    assert(Seq::<u32>::empty().reverse() =~= Seq::<u32>::empty());
}

/// The hits of a stretch of keys with one more key in front, in reverse,
/// are those of the stretch in reverse and then that of the key.
proof fn lemma_hits_front(
    s: Seq<(Seq<u8>, Seq<u8>)>,
    i: int,
    hi: int,
    account_id: u32,
    collection: u8,
    field: u8,
    wanted: Set<u32>,
)
    requires
        0 <= i < hi <= s.len(),
    ensures
        hits(s.subrange(i, hi), account_id, collection, field, wanted).reverse() == (match hit(
            s[i].0,
            account_id,
            collection,
            field,
            wanted,
        ) {
            Some(d) => hits(
                s.subrange(i + 1, hi),
                account_id,
                collection,
                field,
                wanted,
            ).reverse().push(d),
            None => hits(s.subrange(i + 1, hi), account_id, collection, field, wanted).reverse(),
        }),
{
    let one = s.subrange(i, i + 1);
    let tail = s.subrange(i + 1, hi);
    lemma_hits_push(s, i, i, account_id, collection, field, wanted);
    lemma_hits_empty(s, i, account_id, collection, field, wanted);
    assert(s.subrange(i, hi) =~= one + tail);
    lemma_hits_concat(one, tail, account_id, collection, field, wanted);
    let h1 = hits(one, account_id, collection, field, wanted);
    let ht = hits(tail, account_id, collection, field, wanted);
    assert((h1 + ht).reverse() =~= ht.reverse() + h1.reverse());
    match hit(s[i].0, account_id, collection, field, wanted) {
        Some(d) => {
            assert(h1 =~= seq![d]);
            assert(h1.reverse() =~= seq![d]);
            assert(ht.reverse() + seq![d] =~= ht.reverse().push(d));
        },
        None => {
            assert(h1 =~= Seq::<u32>::empty());
            assert(ht.reverse() + Seq::<u32>::empty() =~= ht.reverse());
        },
    }
}

/// The hits of a stretch of keys are those of its front part and then those
/// of its back part.
proof fn lemma_hits_split(
    s: Seq<(Seq<u8>, Seq<u8>)>,
    lo: int,
    i: int,
    hi: int,
    account_id: u32,
    collection: u8,
    field: u8,
    wanted: Set<u32>,
)
    requires
        0 <= lo <= i <= hi <= s.len(),
    ensures
        hits(s.subrange(lo, hi), account_id, collection, field, wanted) == hits(
            s.subrange(lo, i),
            account_id,
            collection,
            field,
            wanted,
        ) + hits(s.subrange(i, hi), account_id, collection, field, wanted),
        hits(s.subrange(lo, hi), account_id, collection, field, wanted).reverse() == hits(
            s.subrange(i, hi),
            account_id,
            collection,
            field,
            wanted,
        ).reverse() + hits(s.subrange(lo, i), account_id, collection, field, wanted).reverse(),
{
    let front = s.subrange(lo, i);
    let back = s.subrange(i, hi);
    assert(s.subrange(lo, hi) =~= front + back);
    lemma_hits_concat(front, back, account_id, collection, field, wanted);
    let hf = hits(front, account_id, collection, field, wanted);
    let hb = hits(back, account_id, collection, field, wanted);
    assert((hf + hb).reverse() =~= hb.reverse() + hf.reverse());
}

/// What a walk has gathered of a page after it has seen the hits `seen`:
/// the hits after the first `offset`.
pub open spec fn gathered(seen: Seq<u32>, offset: nat) -> Seq<u32> {
    seen.subrange(
        if offset < seen.len() {
            offset as int
        } else {
            seen.len() as int
        },
        seen.len() as int,
    )
}

/// The limit of a page as a number of contracts.
pub open spec fn limit_of(limit: Option<usize>) -> Option<nat> {
    match limit {
        Some(l) => Some(l as nat),
        None => None,
    }
}

/// The page being gathered during a walk.
struct Pager {
    offset: usize,
    limit: Option<usize>,
    skipped: usize,
    out: Vec<u32>,
}

impl Pager {
    /// The pager has seen the hits `seen` and its page is not full.
    spec fn holds(&self, seen: Seq<u32>) -> bool {
        &&& self.skipped <= self.offset
        &&& self.skipped + self.out@.len() == seen.len()
        &&& self.out@.len() > 0 ==> self.skipped == self.offset
        &&& self.out@ == gathered(seen, self.offset as nat)
        &&& self.limit matches Some(l) ==> self.out@.len() < l
    }

    /// A pager that has seen nothing; `None` where the page has no room.
    fn start(offset: usize, limit: Option<usize>) -> (r: Option<Pager>)
        ensures
            match r {
                Some(pager) => pager.offset == offset && pager.limit == limit && pager.holds(
                    Seq::empty(),
                ),
                None => limit == Some(0usize),
            },
    {
        match limit {
            Some(l) => if l == 0 {
                return None;
            },
            None => {},
        }
        let pager = Pager { offset, limit, skipped: 0, out: Vec::new() };
        assert(pager.out@ =~= gathered(Seq::empty(), offset as nat));
        Some(pager)
    }

    /// Takes the next hit; tells whether the page is now full.
    fn offer(&mut self, d: u32, Ghost(seen): Ghost<Seq<u32>>) -> (full: bool)
        requires
            old(self).holds(seen),
        ensures
            final(self).offset == old(self).offset,
            final(self).limit == old(self).limit,
            !full ==> final(self).holds(seen.push(d)),
            full ==> forall|more: Seq<u32>| #[trigger]
                page(
                    seen.push(d) + more,
                    final(self).offset as nat,
                    limit_of(final(self).limit),
                ) == final(self).out@,
    {
        if self.skipped < self.offset {
            self.skipped += 1;
            assert(self.out@ =~= gathered(seen.push(d), self.offset as nat));
            false
        } else {
            self.out.push(d);
            assert(self.out@ =~= gathered(seen.push(d), self.offset as nat));
            let full = match self.limit {
                Some(l) => self.out.len() == l,
                None => false,
            };
            proof {
                if full {
                    let now = seen.push(d);
                    assert forall|more: Seq<u32>| #[trigger]
                        page(now + more, self.offset as nat, limit_of(self.limit)) == self.out@ by {
                        assert(page(now + more, self.offset as nat, limit_of(self.limit))
                            =~= self.out@);
                    }
                }
            }
            full
        }
    }

    /// The page, at the end of the walk.
    fn finish(self, Ghost(seen): Ghost<Seq<u32>>) -> (out: Vec<u32>)
        requires
            self.holds(seen),
        ensures
            out@ == page(seen, self.offset as nat, limit_of(self.limit)),
    {
        assert(page(seen, self.offset as nat, limit_of(self.limit)) =~= self.out@);
        self.out
    }
}

impl Table {
    /// The stretch of the table in which the sort entries of a field lie.
    fn sort_range(
        &self,
        account_id: u32,
        collection: u8,
        field: u8,
        Ghost(wanted): Ghost<Set<u32>>,
    ) -> (r:
        (usize, usize))
        requires
            self.wf(),
        ensures
            r.0 <= r.1 <= self.ordered().len(),
            hits(self.ordered(), account_id, collection, field, wanted) == hits(
                self.ordered().subrange(r.0 as int, r.1 as int),
                account_id,
                collection,
                field,
                wanted,
            ),
    {
        let ghost s = self.ordered();
        let prefix = make_sort_prefix(account_id, collection, field);
        proof {
            self.lemma_ordered();
        }
        let n = self.len();
        let lo = self.seek(prefix.as_slice());
        let mut hi: usize = lo;
        while hi < n && has_prefix(self.key_at(hi), prefix.as_slice())
            invariant
                self.wf(),
                s == self.ordered(),
                prefix@ == sort_prefix(account_id, collection, field),
                n == s.len(),
                lo <= hi <= n,
            decreases n - hi,
        {
            hi += 1;
        }
        proof {
            lemma_hits_range(s, lo as int, hi as int, account_id, collection, field, wanted);
        }
        (lo, hi)
    }

    /// One page of the documents of the sort entries of a field, as far as
    /// they are asked for, in the order of the entries or against it. The
    /// walk sees no key of another field, and ends as soon as the page is
    /// full.
    pub fn sorted_page(
        &self,
        account_id: u32,
        collection: u8,
        field: u8,
        wanted: &Bitmap,
        ascending: bool,
        offset: usize,
        limit: Option<usize>,
    ) -> (out: Vec<u32>)
        requires
            self.wf(),
            wanted.wf(),
        ensures
            out@ == page(
                if ascending {
                    hits(self.ordered(), account_id, collection, field, wanted@)
                } else {
                    hits(self.ordered(), account_id, collection, field, wanted@).reverse()
                },
                offset as nat,
                limit_of(limit),
            ),
    {
        let (lo, hi) = self.sort_range(account_id, collection, field, Ghost(wanted@));
        if ascending {
            self.walk_up(account_id, collection, field, wanted, lo, hi, offset, limit)
        } else {
            self.walk_down(account_id, collection, field, wanted, lo, hi, offset, limit)
        }
    }

    /// Walks a stretch of the table in key order.
    fn walk_up(
        &self,
        account_id: u32,
        collection: u8,
        field: u8,
        wanted: &Bitmap,
        lo: usize,
        hi: usize,
        offset: usize,
        limit: Option<usize>,
    ) -> (out: Vec<u32>)
        requires
            self.wf(),
            wanted.wf(),
            lo <= hi <= self.ordered().len(),
        ensures
            out@ == page(
                hits(
                    self.ordered().subrange(lo as int, hi as int),
                    account_id,
                    collection,
                    field,
                    wanted@,
                ),
                offset as nat,
                limit_of(limit),
            ),
    {
        let ghost s = self.ordered();
        let mut walk = match Pager::start(offset, limit) {
            Some(walk) => walk,
            None => {
                return Vec::new();
            },
        };
        let mut i: usize = lo;
        proof {
            lemma_hits_empty(s, lo as int, account_id, collection, field, wanted@);
        }
        while i < hi
            invariant
                self.wf(),
                wanted.wf(),
                s == self.ordered(),
                lo <= i <= hi <= s.len(),
                walk.offset == offset,
                walk.limit == limit,
                walk.holds(
                    hits(s.subrange(lo as int, i as int), account_id, collection, field, wanted@),
                ),
            decreases hi - i,
        {
            let ghost seen = hits(
                s.subrange(lo as int, i as int),
                account_id,
                collection,
                field,
                wanted@,
            );
            let found = key_hit(self.key_at(i), account_id, collection, field, wanted);
            proof {
                lemma_hits_push(s, lo as int, i as int, account_id, collection, field, wanted@);
                lemma_hits_split(
                    s,
                    lo as int,
                    i + 1,
                    hi as int,
                    account_id,
                    collection,
                    field,
                    wanted@,
                );
            }
            i += 1;
            match found {
                Some(d) => {
                    if walk.offer(d, Ghost(seen)) {
                        proof {
                            let more = hits(
                                s.subrange(i as int, hi as int),
                                account_id,
                                collection,
                                field,
                                wanted@,
                            );
                            let whole = hits(
                                s.subrange(lo as int, hi as int),
                                account_id,
                                collection,
                                field,
                                wanted@,
                            );
                            assert(whole == seen.push(d) + more);
                            assert(page(
                                seen.push(d) + more,
                                walk.offset as nat,
                                limit_of(walk.limit),
                            ) == walk.out@);
                        }
                        return walk.out;
                    }
                },
                None => {},
            }
        }
        walk.finish(
            Ghost(hits(s.subrange(lo as int, hi as int), account_id, collection, field, wanted@)),
        )
    }

    /// Walks a stretch of the table against the key order.
    fn walk_down(
        &self,
        account_id: u32,
        collection: u8,
        field: u8,
        wanted: &Bitmap,
        lo: usize,
        hi: usize,
        offset: usize,
        limit: Option<usize>,
    ) -> (out: Vec<u32>)
        requires
            self.wf(),
            wanted.wf(),
            lo <= hi <= self.ordered().len(),
        ensures
            out@ == page(
                hits(
                    self.ordered().subrange(lo as int, hi as int),
                    account_id,
                    collection,
                    field,
                    wanted@,
                ).reverse(),
                offset as nat,
                limit_of(limit),
            ),
    {
        let ghost s = self.ordered();
        let mut walk = match Pager::start(offset, limit) {
            Some(walk) => walk,
            None => {
                return Vec::new();
            },
        };
        let mut i: usize = hi;
        proof {
            lemma_hits_empty(s, hi as int, account_id, collection, field, wanted@);
        }
        while i > lo
            invariant
                self.wf(),
                wanted.wf(),
                s == self.ordered(),
                lo <= i <= hi <= s.len(),
                walk.offset == offset,
                walk.limit == limit,
                walk.holds(
                    hits(
                        s.subrange(i as int, hi as int),
                        account_id,
                        collection,
                        field,
                        wanted@,
                    ).reverse(),
                ),
            decreases i - lo,
        {
            let ghost seen = hits(
                s.subrange(i as int, hi as int),
                account_id,
                collection,
                field,
                wanted@,
            ).reverse();
            i -= 1;
            let found = key_hit(self.key_at(i), account_id, collection, field, wanted);
            proof {
                lemma_hits_front(s, i as int, hi as int, account_id, collection, field, wanted@);
                lemma_hits_split(
                    s,
                    lo as int,
                    i as int,
                    hi as int,
                    account_id,
                    collection,
                    field,
                    wanted@,
                );
            }
            match found {
                Some(d) => {
                    if walk.offer(d, Ghost(seen)) {
                        proof {
                            let more = hits(
                                s.subrange(lo as int, i as int),
                                account_id,
                                collection,
                                field,
                                wanted@,
                            ).reverse();
                            let whole = hits(
                                s.subrange(lo as int, hi as int),
                                account_id,
                                collection,
                                field,
                                wanted@,
                            ).reverse();
                            assert(whole == seen.push(d) + more);
                            assert(page(
                                seen.push(d) + more,
                                walk.offset as nat,
                                limit_of(walk.limit),
                            ) == walk.out@);
                        }
                        return walk.out;
                    }
                },
                None => {},
            }
        }
        walk.finish(
            Ghost(
                hits(
                    s.subrange(lo as int, hi as int),
                    account_id,
                    collection,
                    field,
                    wanted@,
                ).reverse(),
            ),
        )
    }
}

} // verus!
