//! Finding documents by a term: exactly for tokens, stems and tags, and
//! through the bloom filter, with every candidate checked against its
//! stored text, for substrings.

use vstd::prelude::*;
use vstd::slice::slice_subrange;
use crate::bitmap::Bitmap;
use crate::codec::bytes_equal;
use crate::documents::field_key;
use crate::error::Error;
use crate::fts::{
    bloom_block, lower, lower_byte, lowered, make_term_posting, stem, stem_length, term_posting,
    to_lower, tokens, Posting, BLOOM_BLOCKS, MAX_TOKEN_LEN,
};
use crate::key_space::KeyView;
use crate::keys::{
    BitmapFamily, BitmapKey, BloomKind, BLOOM_TRIGRAM, BM_BLOOM, BM_TAG, TAG_TEXT, TERM_EXACT,
    TERM_STEMMED,
};
use crate::store::{live, Store};
use crate::txn::{posting, posting_ok, raw};

verus! {

/// How a term is looked up.
#[derive(Debug, Clone, Copy, PartialEq, Eq, Structural)]
pub enum Strategy {
    /// The term is a token, matched as it stands.
    Exact,
    /// The term is a word, matched by its stem.
    Stemmed,
    /// The term is a whole tag.
    Tag,
}

/// The index entry under which a term is looked up.
pub open spec fn search_entry(strategy: Strategy, term: Seq<u8>) -> (u8, Seq<u8>) {
    match strategy {
        Strategy::Exact => term_posting(TERM_EXACT, lowered(term)),
        Strategy::Stemmed => term_posting(TERM_STEMMED, stem(lowered(term))),
        Strategy::Tag => ((BM_TAG + TAG_TEXT) as u8, term),
    }
}

/// The bitmap key of an index entry of a field.
pub open spec fn entry_key(
    account_id: u32,
    collection: u8,
    field: u8,
    entry: (u8, Seq<u8>),
) -> BitmapKey<Seq<u8>> {
    BitmapKey { account_id, collection, family: entry.0, field, key: entry.1 }
}

/// Whether `needle` stands somewhere in `text`.
pub open spec fn has_substring(text: Seq<u8>, needle: Seq<u8>) -> bool {
    exists|i: int|
        0 <= i && i + needle.len() <= text.len() && #[trigger] text.subrange(
            i,
            i + needle.len(),
        ) == needle
}

/// The bloom key of the window of three bytes that starts at `i`.
pub open spec fn window_key(
    account_id: u32,
    collection: u8,
    field: u8,
    needle: Seq<u8>,
    i: int,
) -> BitmapKey<Seq<u8>> {
    BitmapKey {
        account_id,
        collection,
        family: (BM_BLOOM + BLOOM_TRIGRAM) as u8,
        field,
        key: bloom_block(lower(needle[i]), lower(needle[i + 1]), lower(needle[i + 2])),
    }
}

/// The documents that may hold `needle` in a field: those that are in the
/// bloom block of every window of three bytes of the needle; every live
/// document where the needle is shorter than a window.
pub open spec fn candidates(
    m: Map<Seq<u8>, Seq<u8>>,
    account_id: u32,
    collection: u8,
    field: u8,
    needle: Seq<u8>,
) -> Set<u32> {
    if needle.len() < 3 {
        live(m, account_id, collection)
    } else {
        Set::new(
            |d: u32|
                forall|i: int|
                    0 <= i <= needle.len() - 3 ==> (#[trigger] posting(
                        m,
                        window_key(account_id, collection, field, needle, i),
                    )).contains(d),
        )
    }
}

/// Whether the stored record of a field holds `needle` in its text, small
/// and capital letters taken as the same.
pub open spec fn record_has_substring(stored: Option<Seq<u8>>, needle: Seq<u8>) -> bool {
    stored matches Some(record) && record.len() > 0 && has_substring(
        lowered(record.skip(1)),
        lowered(needle),
    )
}

/// Whether the term is too long to be indexed as it stands, so that it is
/// looked up by its hash and other terms may share its posting list.
pub open spec fn is_hashed(strategy: Strategy, term: Seq<u8>) -> bool {
    match strategy {
        Strategy::Exact => lowered(term).len() > MAX_TOKEN_LEN,
        Strategy::Stemmed => stem(lowered(term)).len() > MAX_TOKEN_LEN,
        Strategy::Tag => false,
    }
}

/// Whether a text holds the term in the way the strategy asks for: as a
/// token, as the stem of a token, or as the whole text.
pub open spec fn text_holds(text: Seq<u8>, strategy: Strategy, term: Seq<u8>) -> bool {
    match strategy {
        Strategy::Exact => tokens(text).contains(lowered(term)),
        Strategy::Stemmed => exists|i: int|
            0 <= i < tokens(text).len() && stem(#[trigger] tokens(text)[i]) == stem(lowered(term)),
        Strategy::Tag => text == term,
    }
}

/// Whether the stored record of a field holds the term in its text.
pub open spec fn record_holds(stored: Option<Seq<u8>>, strategy: Strategy, term: Seq<u8>) -> bool {
    stored matches Some(record) && record.len() > 0 && text_holds(record.skip(1), strategy, term)
}

/// The documents that a search for a term gives: those of the posting list
/// of the term; where the term is looked up by its hash, those of them whose
/// stored text holds the term.
pub open spec fn term_matches(
    m: Map<Seq<u8>, Seq<u8>>,
    account_id: u32,
    collection: u8,
    field: u8,
    term: Seq<u8>,
    strategy: Strategy,
) -> Set<u32> {
    let found = posting(m, entry_key(account_id, collection, field, search_entry(strategy, term)));
    if is_hashed(strategy, term) {
        Set::new(
            |d: u32|
                found.contains(d) && record_holds(
                    raw(m, KeyView::Value(field_key(account_id, collection, d, field))),
                    strategy,
                    term,
                ),
        )
    } else {
        found
    }
}

/// A family byte of the index entries of records names a family.
proof fn lemma_entry_families()
    ensures
        BitmapFamily::of_byte(0x10) is Some,
        BitmapFamily::of_byte(0x11) is Some,
        BitmapFamily::of_byte(0x14) is Some,
        BitmapFamily::of_byte(0x15) is Some,
        BitmapFamily::of_byte(0x21) is Some,
        BitmapFamily::of_byte(0x42) is Some,
{
    BitmapFamily::lemma_of_byte(
        BitmapFamily::Term { kind: crate::keys::TermKind::Exact, hashed: false },
    );
    BitmapFamily::lemma_of_byte(
        BitmapFamily::Term { kind: crate::keys::TermKind::Stemmed, hashed: false },
    );
    BitmapFamily::lemma_of_byte(
        BitmapFamily::Term { kind: crate::keys::TermKind::Exact, hashed: true },
    );
    BitmapFamily::lemma_of_byte(
        BitmapFamily::Term { kind: crate::keys::TermKind::Stemmed, hashed: true },
    );
    BitmapFamily::lemma_of_byte(BitmapFamily::Tag(crate::keys::TagKind::Text));
    BitmapFamily::lemma_of_byte(BitmapFamily::Bloom(BloomKind::Trigram));
}

/// Whether `needle` stands somewhere in `text`.
pub fn contains_sub(text: &[u8], needle: &[u8]) -> (r: bool)
    ensures
        r == has_substring(text@, needle@),
{
    let n = needle.len();
    if n > text.len() {
        return false;
    }
    let len = text.len();
    let last = len - n;
    let mut i: usize = 0;
    loop
        invariant
            n == needle@.len(),
            len == text@.len(),
            last == len - n,
            i <= last,
            forall|j: int| 0 <= j < i ==> #[trigger] text@.subrange(j, j + n) != needle@,
        decreases last - i,
    {
        if bytes_equal(slice_subrange(text, i, i + n), needle) {
            return true;
        }
        if i == last {
            return false;
        }
        i += 1;
    }
}

/// Whether a text holds the term in the way the strategy asks for.
pub fn holds_term(text: &[u8], strategy: Strategy, term: &[u8]) -> (r: bool)
    ensures
        r == text_holds(text@, strategy, term@),
{
    match strategy {
        Strategy::Tag => bytes_equal(text, term),
        Strategy::Exact => {
            let low = to_lower(term);
            let toks = crate::fts::tokenize(text);
            let mut i: usize = 0;
            while i < toks.len()
                invariant
                    i <= toks@.len(),
                    crate::fts::views(toks@) == tokens(text@),
                    low@ == lowered(term@),
                    strategy is Exact,
                    forall|j: int| 0 <= j < i ==> tokens(text@)[j] != low@,
                decreases toks@.len() - i,
            {
                assert(tokens(text@)[i as int] == toks@[i as int]@);
                if bytes_equal(toks[i].as_slice(), low.as_slice()) {
                    assert(tokens(text@)[i as int] == lowered(term@));
                    return true;
                }
                i += 1;
            }
            false
        },
        Strategy::Stemmed => {
            let low = to_lower(term);
            let keep = stem_length(low.as_slice());
            let target = slice_subrange(low.as_slice(), 0, keep);
            let toks = crate::fts::tokenize(text);
            let mut i: usize = 0;
            while i < toks.len()
                invariant
                    i <= toks@.len(),
                    crate::fts::views(toks@) == tokens(text@),
                    target@ == stem(lowered(term@)),
                    strategy is Stemmed,
                    forall|j: int| 0 <= j < i ==> stem(#[trigger] tokens(text@)[j]) != target@,
                decreases toks@.len() - i,
            {
                assert(tokens(text@)[i as int] == toks@[i as int]@);
                let t = toks[i].as_slice();
                let n = stem_length(t);
                if bytes_equal(slice_subrange(t, 0, n), target) {
                    assert(stem(tokens(text@)[i as int]) == stem(lowered(term@)));
                    return true;
                }
                i += 1;
            }
            false
        },
    }
}

impl Store {
    /// The documents whose field holds the term. Where the term is too long
    /// to be indexed as it stands, the documents that its hash leads to are
    /// checked against their stored text, so that no other term that shares
    /// the hash is taken for it.
    pub fn search_verified(
        &self,
        account_id: u32,
        collection: u8,
        field: u8,
        term: &[u8],
        strategy: Strategy,
    ) -> (r: Result<Bitmap, Error>)
        requires
            self.wf(),
        ensures
            crate::store::sound(self@) ==> r is Ok,
            r matches Ok(b) ==> b.wf() && b@ == term_matches(
                self@,
                account_id,
                collection,
                field,
                term@,
                strategy,
            ),
            r matches Err(e) ==> e is InternalError,
    {
        let found = match self.search(account_id, collection, field, term, strategy) {
            Ok(b) => b,
            Err(e) => {
                return Err(e);
            },
        };
        let low = to_lower(term);
        let hashed = match strategy {
            Strategy::Exact => low.len() > MAX_TOKEN_LEN,
            Strategy::Stemmed => stem_length(low.as_slice()) > MAX_TOKEN_LEN,
            Strategy::Tag => false,
        };
        assert(hashed == is_hashed(strategy, term@));
        if !hashed {
            return Ok(found);
        }
        let ghost m = self@;
        let mut out = Bitmap::new();
        let n = found.len();
        let mut i: usize = 0;
        proof {
            found.lemma_ascending();
        }
        while i < n
            invariant
                self.wf(),
                m == self@,
                found.wf(),
                n == found.ascending().len(),
                found.ascending().to_set() == found@,
                i <= n,
                out.wf(),
                forall|d: u32|
                    out@.contains(d) <==> found.ascending().subrange(0, i as int).contains(d)
                        && record_holds(
                        raw(m, KeyView::Value(field_key(account_id, collection, d, field))),
                        strategy,
                        term@,
                    ),
            decreases n - i,
        {
            let d = found.get(i);
            let ghost done = found.ascending().subrange(0, i as int);
            let ghost more = found.ascending().subrange(0, i + 1);
            let keep = match self.get_value(account_id, collection, d, field) {
                Ok(text) => holds_term(text.as_slice(), strategy, term),
                Err(Error::NotFound) => false,
                Err(e) => {
                    assert(!crate::store::records_ok(m));
                    return Err(e);
                },
            };
            if keep {
                out.insert(d);
            }
            proof {
                assert(more =~= done.push(d));
                assert forall|x: u32|
                    out@.contains(x) <==> more.contains(x) && record_holds(
                        raw(m, KeyView::Value(field_key(account_id, collection, x, field))),
                        strategy,
                        term@,
                    ) by {
                    if more.contains(x) {
                        let j = choose|j: int| 0 <= j < more.len() && more[j] == x;
                        if j < i {
                            assert(done[j] == x);
                        }
                    }
                    if done.contains(x) {
                        let j = choose|j: int| 0 <= j < done.len() && done[j] == x;
                        assert(more[j] == x);
                    }
                    assert(more[i as int] == d);
                }
            }
            i += 1;
        }
        proof {
            assert(found.ascending().subrange(0, n as int) =~= found.ascending());
            assert(out@ =~= term_matches(m, account_id, collection, field, term@, strategy));
        }
        Ok(out)
    }

    /// The documents whose field holds the term, by the family of index
    /// that the strategy names. An absent posting list is the empty set.
    pub fn search(
        &self,
        account_id: u32,
        collection: u8,
        field: u8,
        term: &[u8],
        strategy: Strategy,
    ) -> (r: Result<Bitmap, Error>)
        requires
            self.wf(),
        ensures
            ({
                let bk = entry_key(account_id, collection, field, search_entry(strategy, term@));
                &&& bk.wf()
                &&& r is Ok == posting_ok(self@, bk)
                &&& r matches Ok(b) ==> b.wf() && b@ == posting(self@, bk)
                &&& r matches Err(e) ==> e is InternalError
            }),
    {
        proof {
            lemma_entry_families();
        }
        let p = match strategy {
            Strategy::Exact => {
                let t = to_lower(term);
                make_term_posting(TERM_EXACT, t.as_slice())
            },
            Strategy::Stemmed => {
                let t = to_lower(term);
                let keep = stem_length(t.as_slice());
                make_term_posting(TERM_STEMMED, slice_subrange(t.as_slice(), 0, keep))
            },
            Strategy::Tag => Posting { family: BM_TAG + TAG_TEXT, key: crate::codec::copy_bytes(term) },
        };
        let bk = BitmapKey { account_id, collection, family: p.family, field, key: p.key };
        self.table().read_posting(&bk)
    }

    /// The documents that may hold `needle` in a field, from the bloom
    /// filter. The walk over the windows ends as soon as no document is left.
    pub fn substring_candidates(
        &self,
        account_id: u32,
        collection: u8,
        field: u8,
        needle: &[u8],
    ) -> (r: Result<Bitmap, Error>)
        requires
            self.wf(),
        ensures
            crate::index::postings_readable(self@) ==> r is Ok,
            r matches Ok(b) ==> b.wf() && b@ == candidates(
                self@,
                account_id,
                collection,
                field,
                needle@,
            ),
            r matches Err(e) ==> e is InternalError,
    {
        proof {
            lemma_entry_families();
            crate::store::lemma_live_key(account_id, collection);
        }
        if needle.len() < 3 {
            return self.document_ids(account_id, collection);
        }
        let windows = needle.len() - 2;
        let ghost m = self@;
        let mut acc = match self.window_posting(account_id, collection, field, needle, 0) {
            Ok(b) => b,
            Err(e) => {
                return Err(e);
            },
        };
        let mut i: usize = 1;
        while i < windows
            invariant
                self.wf(),
                m == self@,
                needle@.len() >= 3,
                windows == needle@.len() - 2,
                1 <= i <= windows,
                acc.wf(),
                forall|d: u32|
                    acc@.contains(d) <==> forall|j: int|
                        0 <= j < i ==> (#[trigger] posting(
                            m,
                            window_key(account_id, collection, field, needle@, j),
                        )).contains(d),
            decreases windows - i,
        {
            if acc.is_empty() {
                proof {
                    assert forall|d: u32|
                        !candidates(m, account_id, collection, field, needle@).contains(d) by {
                        if candidates(m, account_id, collection, field, needle@).contains(d) {
                            assert forall|j: int| 0 <= j < i implies (#[trigger] posting(
                                m,
                                window_key(account_id, collection, field, needle@, j),
                            )).contains(d) by {}
                            assert(acc@.contains(d));
                        }
                    }
                    assert(acc@ =~= candidates(m, account_id, collection, field, needle@));
                }
                return Ok(acc);
            }
            let next = match self.window_posting(account_id, collection, field, needle, i) {
                Ok(b) => b,
                Err(e) => {
                    return Err(e);
                },
            };
            let both = acc.intersection(&next);
            proof {
                assert forall|d: u32|
                    both@.contains(d) <==> forall|j: int|
                        0 <= j < i + 1 ==> (#[trigger] posting(
                            m,
                            window_key(account_id, collection, field, needle@, j),
                        )).contains(d) by {
                    if both@.contains(d) {
                        assert(acc@.contains(d));
                    }
                    if forall|j: int|
                        0 <= j < i + 1 ==> (#[trigger] posting(
                            m,
                            window_key(account_id, collection, field, needle@, j),
                        )).contains(d) {
                        assert(posting(
                            m,
                            window_key(account_id, collection, field, needle@, i as int),
                        ).contains(d));
                        assert(acc@.contains(d));
                    }
                }
            }
            acc = both;
            i += 1;
        }
        assert(acc@ =~= candidates(m, account_id, collection, field, needle@));
        Ok(acc)
    }

    /// The bloom block of the window of the needle that starts at `i`.
    fn window_posting(
        &self,
        account_id: u32,
        collection: u8,
        field: u8,
        needle: &[u8],
        i: usize,
    ) -> (r: Result<Bitmap, Error>)
        requires
            self.wf(),
            i + 3 <= needle@.len(),
        ensures
            window_key(account_id, collection, field, needle@, i as int).wf(),
            r is Ok == posting_ok(
                self@,
                window_key(account_id, collection, field, needle@, i as int),
            ),
            r matches Ok(b) ==> b.wf() && b@ == posting(
                self@,
                window_key(account_id, collection, field, needle@, i as int),
            ),
            r matches Err(e) ==> e is InternalError,
    {
        proof {
            lemma_entry_families();
        }
        let a = lower_byte(needle[i]) as u32;
        let b = lower_byte(needle[i + 1]) as u32;
        let c = lower_byte(needle[i + 2]) as u32;
        let h = ((a * 31 + b) * 31 + c) % BLOOM_BLOCKS;
        let mut key: Vec<u8> = Vec::new();
        key.push((h / 256) as u8);
        key.push((h % 256) as u8);
        assert(key@ =~= bloom_block(
            lower(needle@[i as int]),
            lower(needle@[i + 1]),
            lower(needle@[i + 2]),
        ));
        let bk = BitmapKey { account_id, collection, family: BM_BLOOM + BLOOM_TRIGRAM, field, key };
        self.table().read_posting(&bk)
    }

    /// The documents that hold `needle` in a field, small and capital
    /// letters taken as the same: the candidates of the bloom filter, each
    /// checked against its stored text. No document is returned whose text
    /// does not hold the needle.
    pub fn search_substring(
        &self,
        account_id: u32,
        collection: u8,
        field: u8,
        needle: &[u8],
    ) -> (r: Result<Bitmap, Error>)
        requires
            self.wf(),
        ensures
            crate::store::sound(self@) ==> r is Ok,
            r matches Ok(b) ==> b.wf() && forall|d: u32|
                b@.contains(d) <==> candidates(
                    self@,
                    account_id,
                    collection,
                    field,
                    needle@,
                ).contains(d) && record_has_substring(
                    raw(self@, KeyView::Value(field_key(account_id, collection, d, field))),
                    needle@,
                ),
            r matches Err(e) ==> e is InternalError,
    {
        let found = match self.substring_candidates(account_id, collection, field, needle) {
            Ok(b) => b,
            Err(e) => {
                return Err(e);
            },
        };
        let ghost m = self@;
        let ghost cand = candidates(m, account_id, collection, field, needle@);
        let small = to_lower(needle);
        let mut out = Bitmap::new();
        let n = found.len();
        let mut i: usize = 0;
        proof {
            found.lemma_ascending();
        }
        while i < n
            invariant
                self.wf(),
                m == self@,
                found.wf(),
                found@ == cand,
                n == found.ascending().len(),
                found.ascending().to_set() == cand,
                small@ == lowered(needle@),
                i <= n,
                out.wf(),
                forall|d: u32|
                    out@.contains(d) <==> found.ascending().subrange(0, i as int).contains(d)
                        && record_has_substring(
                        raw(m, KeyView::Value(field_key(account_id, collection, d, field))),
                        needle@,
                    ),
            decreases n - i,
        {
            let d = found.get(i);
            let ghost done = found.ascending().subrange(0, i as int);
            let ghost more = found.ascending().subrange(0, i + 1);
            let ghost before = out@;
            let keep = match self.get_value(account_id, collection, d, field) {
                Ok(text) => {
                    let t = to_lower(text.as_slice());
                    contains_sub(t.as_slice(), small.as_slice())
                },
                Err(Error::NotFound) => false,
                Err(e) => {
                    assert(!crate::store::records_ok(m));
                    return Err(e);
                },
            };
            if keep {
                out.insert(d);
            }
            proof {
                assert(more =~= done.push(d));
                assert forall|x: u32|
                    out@.contains(x) <==> more.contains(x) && record_has_substring(
                        raw(m, KeyView::Value(field_key(account_id, collection, x, field))),
                        needle@,
                    ) by {
                    if more.contains(x) {
                        let j = choose|j: int| 0 <= j < more.len() && more[j] == x;
                        if j < i {
                            assert(done[j] == x);
                        }
                    }
                    if done.contains(x) {
                        let j = choose|j: int| 0 <= j < done.len() && done[j] == x;
                        assert(more[j] == x);
                    }
                    assert(more[i as int] == d);
                }
            }
            i += 1;
        }
        proof {
            assert(found.ascending().subrange(0, n as int) =~= found.ascending());
        }
        Ok(out)
    }
}

} // verus!
