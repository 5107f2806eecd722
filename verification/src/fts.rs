//! Turning text into index entries: tokens, stems, hashes of long tokens,
//! and blocks of a bloom filter over three-byte windows.

use vstd::prelude::*;
use vstd::slice::slice_subrange;
use crate::codec::{be32, push_u32};
use crate::keys::{
    BLOOM_TRIGRAM, BM_BLOOM, BM_TAG, BM_TERM, TAG_TEXT, TERM_EXACT, TERM_HASH, TERM_STEMMED,
};

verus! {

/// Index the tokens of the text as they stand.
pub const INDEX_EXACT: u8 = 0x01;

/// Index the stems of the tokens of the text.
pub const INDEX_STEMMED: u8 = 0x02;

/// Index the whole text as one tag.
pub const INDEX_TAG: u8 = 0x04;

/// Index the three-byte windows of the text for substring search.
pub const INDEX_BLOOM: u8 = 0x08;

/// Keep an entry in the sort index, with the text as its payload.
pub const INDEX_SORT: u8 = 0x10;

/// A token longer than this is indexed by its hash.
pub const MAX_TOKEN_LEN: usize = 32;

/// The number of blocks of the bloom filter.
pub const BLOOM_BLOCKS: u32 = 4096;

/// Whether `options` has the flag `flag`, which is a single bit.
pub open spec fn has_flag(options: u8, flag: u8) -> bool
    recommends
        flag > 0,
{
    (options as int / flag as int) % 2 == 1
}

/// Whether a byte belongs to a word: an ASCII letter or digit, or any byte
/// of a character outside ASCII.
pub open spec fn is_word(b: u8) -> bool {
    (0x30 <= b <= 0x39) || (0x41 <= b <= 0x5A) || (0x61 <= b <= 0x7A) || b >= 0x80
}

/// The byte with an ASCII capital made small.
pub open spec fn lower(b: u8) -> u8 {
    if 0x41 <= b <= 0x5A {
        (b + 0x20) as u8
    } else {
        b
    }
}

/// The bytes with every ASCII capital made small.
pub open spec fn lowered(s: Seq<u8>) -> Seq<u8> {
    Seq::new(s.len(), |i: int| lower(s[i]))
}

/// Where the run of word bytes that starts at `pos` ends.
pub open spec fn run_end(text: Seq<u8>, pos: int) -> int
    decreases text.len() - pos,
{
    if pos < 0 || pos >= text.len() || !is_word(text[pos]) {
        pos
    } else {
        run_end(text, pos + 1)
    }
}

/// A run ends inside the text, after its start where it starts on a word
/// byte.
pub proof fn lemma_run_end(text: Seq<u8>, pos: int)
    requires
        0 <= pos <= text.len(),
    ensures
        pos <= run_end(text, pos) <= text.len(),
        pos < text.len() && is_word(text[pos]) ==> pos < run_end(text, pos),
    decreases text.len() - pos,
{
    if pos < text.len() && is_word(text[pos]) {
        lemma_run_end(text, pos + 1);
    }
}

/// The tokens of the text from `pos` on, in the order in which they stand:
/// each longest run of word bytes, made small.
pub open spec fn tokens_from(text: Seq<u8>, pos: int) -> Seq<Seq<u8>>
    decreases text.len() - pos,
{
    if pos < 0 || pos >= text.len() {
        Seq::empty()
    } else if !is_word(text[pos]) {
        tokens_from(text, pos + 1)
    } else {
        let end = run_end(text, pos);
        if pos < end <= text.len() {
            seq![lowered(text.subrange(pos, end))] + tokens_from(text, end)
        } else {
            Seq::empty()
        }
    }
}

/// The tokens of a text.
pub open spec fn tokens(text: Seq<u8>) -> Seq<Seq<u8>> {
    tokens_from(text, 0)
}

/// How much of a token is its stem. The endings `ing`, `ed`, `es` and a
/// single `s` are dropped where at least three bytes stay.
pub open spec fn stem_len(t: Seq<u8>) -> int {
    let n = t.len() as int;
    if n >= 6 && t[n - 3] == 0x69 && t[n - 2] == 0x6E && t[n - 1] == 0x67 {
        n - 3
    } else if n >= 5 && t[n - 2] == 0x65 && (t[n - 1] == 0x64 || t[n - 1] == 0x73) {
        n - 2
    } else if n >= 4 && t[n - 1] == 0x73 && t[n - 2] != 0x73 {
        n - 1
    } else {
        n
    }
}

/// The stem of a token.
pub open spec fn stem(t: Seq<u8>) -> Seq<u8> {
    t.subrange(0, stem_len(t))
}

/// The hash of a byte string: each byte is added to thirty-one times the
/// hash so far, modulo two to the thirty-second.
pub open spec fn hash32(s: Seq<u8>) -> u32
    decreases s.len(),
{
    if s.len() == 0 {
        0
    } else {
        ((hash32(s.drop_last()) as int * 31 + s.last() as int) % 0x1_0000_0000) as u32
    }
}

/// The bloom block of a window of three bytes, as the two bytes of its key.
pub open spec fn bloom_block(a: u8, b: u8, c: u8) -> Seq<u8> {
    let h = ((a as int * 31 + b as int) * 31 + c as int) % (BLOOM_BLOCKS as int);
    seq![(h / 256) as u8, (h % 256) as u8]
}

/// The entry of a term of the kind `kind`: the term itself, or its hash
/// where it is too long.
pub open spec fn term_posting(kind: u8, term: Seq<u8>) -> (u8, Seq<u8>) {
    if term.len() > MAX_TOKEN_LEN {
        ((BM_TERM + TERM_HASH + kind) as u8, be32(hash32(term)))
    } else {
        ((BM_TERM + kind) as u8, term)
    }
}

/// The entries of the tokens as they stand.
pub open spec fn exact_postings(toks: Seq<Seq<u8>>) -> Seq<(u8, Seq<u8>)> {
    Seq::new(toks.len(), |i: int| term_posting(TERM_EXACT, toks[i]))
}

/// The entries of the stems of the tokens.
pub open spec fn stemmed_postings(toks: Seq<Seq<u8>>) -> Seq<(u8, Seq<u8>)> {
    Seq::new(toks.len(), |i: int| term_posting(TERM_STEMMED, stem(toks[i])))
}

/// The bloom entries of a text: one for each window of three bytes of the
/// text made small.
pub open spec fn bloom_postings(text: Seq<u8>) -> Seq<(u8, Seq<u8>)> {
    Seq::new(
        if text.len() >= 3 {
            (text.len() - 2) as nat
        } else {
            0
        },
        |i: int|
            (
                (BM_BLOOM + BLOOM_TRIGRAM) as u8,
                bloom_block(lower(text[i]), lower(text[i + 1]), lower(text[i + 2])),
            ),
    )
}

/// All index entries of a text under the given options, as family byte and
/// payload: exact terms, stems, the tag, bloom blocks, in this order.
pub open spec fn postings_of(options: u8, text: Seq<u8>) -> Seq<(u8, Seq<u8>)> {
    (if has_flag(options, INDEX_EXACT) {
        exact_postings(tokens(text))
    } else {
        Seq::empty()
    }) + (if has_flag(options, INDEX_STEMMED) {
        stemmed_postings(tokens(text))
    } else {
        Seq::empty()
    }) + (if has_flag(options, INDEX_TAG) {
        seq![((BM_TAG + TAG_TEXT) as u8, text)]
    } else {
        Seq::empty()
    }) + (if has_flag(options, INDEX_BLOOM) {
        bloom_postings(text)
    } else {
        Seq::empty()
    })
}

/// One index entry: the family byte and the payload of a bitmap key.
#[derive(Debug, Clone, PartialEq, Eq)]
pub struct Posting {
    pub family: u8,
    pub key: Vec<u8>,
}

impl View for Posting {
    type V = (u8, Seq<u8>);

    open spec fn view(&self) -> (u8, Seq<u8>) {
        (self.family, self.key@)
    }
}

/// The byte strings that a list of vectors holds.
pub open spec fn views(v: Seq<Vec<u8>>) -> Seq<Seq<u8>> {
    Seq::new(v.len(), |i: int| v[i]@)
}

/// The entries that a list of postings holds.
pub open spec fn posting_views(v: Seq<Posting>) -> Seq<(u8, Seq<u8>)> {
    Seq::new(v.len(), |i: int| v[i]@)
}

/// Whether `options` has the flag `flag`.
pub fn flag_set(options: u8, flag: u8) -> (r: bool)
    requires
        flag > 0,
    ensures
        r == has_flag(options, flag),
{
    (options / flag) % 2 == 1
}

/// Whether a byte belongs to a word.
pub fn word_byte(b: u8) -> (r: bool)
    ensures
        r == is_word(b),
{
    (0x30 <= b && b <= 0x39) || (0x41 <= b && b <= 0x5A) || (0x61 <= b && b <= 0x7A) || b >= 0x80
}

/// The byte with an ASCII capital made small.
pub fn lower_byte(b: u8) -> (r: u8)
    ensures
        r == lower(b),
{
    if 0x41 <= b && b <= 0x5A {
        b + 0x20
    } else {
        b
    }
}

/// A copy of the bytes with every ASCII capital made small.
pub fn to_lower(bytes: &[u8]) -> (out: Vec<u8>)
    ensures
        out@ == lowered(bytes@),
{
    let mut out: Vec<u8> = Vec::new();
    let mut i: usize = 0;
    while i < bytes.len()
        invariant
            i <= bytes@.len(),
            out@ == lowered(bytes@.subrange(0, i as int)),
        decreases bytes@.len() - i,
    {
        out.push(lower_byte(bytes[i]));
        i += 1;
        assert(out@ =~= lowered(bytes@.subrange(0, i as int)));
    }
    assert(bytes@.subrange(0, i as int) =~= bytes@);
    out
}

/// Cuts a text into its tokens.
pub fn tokenize(text: &[u8]) -> (out: Vec<Vec<u8>>)
    ensures
        views(out@) == tokens(text@),
{
    let mut out: Vec<Vec<u8>> = Vec::new();
    let n = text.len();
    let mut pos: usize = 0;
    assert(views(out@) + tokens_from(text@, 0) =~= tokens(text@));
    while pos < n
        invariant
            n == text@.len(),
            pos <= n,
            views(out@) + tokens_from(text@, pos as int) == tokens(text@),
        decreases n - pos,
    {
        if !word_byte(text[pos]) {
            pos += 1;
        } else {
            let mut end: usize = pos + 1;
            while end < n && word_byte(text[end])
                invariant
                    n == text@.len(),
                    pos < end <= n,
                    run_end(text@, pos as int) == run_end(text@, end as int),
                decreases n - end,
            {
                end += 1;
            }
            let token = to_lower(slice_subrange(text, pos, end));
            let ghost before = views(out@);
            out.push(token);
            proof {
                let rest = tokens_from(text@, end as int);
                assert(views(out@) =~= before.push(token@));
                assert(before.push(token@) + rest =~= before + (seq![token@] + rest));
            }
            pos = end;
        }
    }
    assert(views(out@) + Seq::<Seq<u8>>::empty() =~= views(out@));
    out
}

/// How much of a token is its stem.
pub fn stem_length(t: &[u8]) -> (n: usize)
    ensures
        n == stem_len(t@),
        n <= t@.len(),
{
    let len = t.len();
    if len >= 6 && t[len - 3] == 0x69 && t[len - 2] == 0x6E && t[len - 1] == 0x67 {
        len - 3
    } else if len >= 5 && t[len - 2] == 0x65 && (t[len - 1] == 0x64 || t[len - 1] == 0x73) {
        len - 2
    } else if len >= 4 && t[len - 1] == 0x73 && t[len - 2] != 0x73 {
        len - 1
    } else {
        len
    }
}

/// The hash of a byte string.
pub fn hash_bytes(s: &[u8]) -> (h: u32)
    ensures
        h == hash32(s@),
{
    let mut h: u64 = 0;
    let mut i: usize = 0;
    assert(s@.subrange(0, 0) =~= Seq::<u8>::empty());
    while i < s.len()
        invariant
            i <= s@.len(),
            h == hash32(s@.subrange(0, i as int)),
        decreases s@.len() - i,
    {
        assert(s@.subrange(0, i + 1).drop_last() =~= s@.subrange(0, i as int));
        h = (h * 31 + s[i] as u64) % 0x1_0000_0000;
        i += 1;
    }
    assert(s@.subrange(0, i as int) =~= s@);
    h as u32
}

/// The entry of a term of the kind `kind`.
pub fn make_term_posting(kind: u8, term: &[u8]) -> (p: Posting)
    requires
        kind <= 2,
    ensures
        p@ == term_posting(kind, term@),
{
    if term.len() > MAX_TOKEN_LEN {
        let mut key: Vec<u8> = Vec::new();
        push_u32(&mut key, hash_bytes(term));
        assert(key@ =~= be32(hash32(term@)));
        Posting { family: BM_TERM + TERM_HASH + kind, key }
    } else {
        Posting { family: BM_TERM + kind, key: crate::codec::copy_bytes(term) }
    }
}

/// All index entries of a text under the given options.
pub fn postings(options: u8, text: &[u8]) -> (out: Vec<Posting>)
    ensures
        posting_views(out@) == postings_of(options, text@),
{
    let mut out: Vec<Posting> = Vec::new();
    let toks = tokenize(text);
    let ghost tv = tokens(text@);
    let n = toks.len();
    assert(posting_views(out@) =~= Seq::<(u8, Seq<u8>)>::empty());
    let ghost exact = if has_flag(options, INDEX_EXACT) {
        exact_postings(tv)
    } else {
        Seq::empty()
    };
    if flag_set(options, INDEX_EXACT) {
        let mut i: usize = 0;
        while i < n
            invariant
                n == toks@.len(),
                tv == views(toks@),
                i <= n,
                posting_views(out@) == exact_postings(tv).subrange(0, i as int),
            decreases n - i,
        {
            let p = make_term_posting(TERM_EXACT, toks[i].as_slice());
            let ghost before = posting_views(out@);
            assert(tv[i as int] == toks@[i as int]@);
            out.push(p);
            assert(posting_views(out@) =~= before.push(p@));
            i += 1;
            assert(posting_views(out@) =~= exact_postings(tv).subrange(0, i as int));
        }
        assert(exact_postings(tv).subrange(0, n as int) =~= exact_postings(tv));
    }
    assert(posting_views(out@) == exact);
    let ghost stemmed = if has_flag(options, INDEX_STEMMED) {
        stemmed_postings(tv)
    } else {
        Seq::empty()
    };
    if flag_set(options, INDEX_STEMMED) {
        let mut i: usize = 0;
        assert(posting_views(out@) =~= exact + stemmed_postings(tv).subrange(0, 0));
        while i < n
            invariant
                n == toks@.len(),
                tv == views(toks@),
                i <= n,
                posting_views(out@) == exact + stemmed_postings(tv).subrange(0, i as int),
            decreases n - i,
        {
            let t = toks[i].as_slice();
            let keep = stem_length(t);
            let p = make_term_posting(TERM_STEMMED, slice_subrange(t, 0, keep));
            let ghost before = posting_views(out@);
            assert(tv[i as int] == toks@[i as int]@);
            out.push(p);
            assert(posting_views(out@) =~= before.push(p@));
            i += 1;
            assert(posting_views(out@) =~= exact + stemmed_postings(tv).subrange(0, i as int));
        }
        assert(stemmed_postings(tv).subrange(0, n as int) =~= stemmed_postings(tv));
    }
    assert(posting_views(out@) =~= exact + stemmed);
    let ghost tag = if has_flag(options, INDEX_TAG) {
        seq![((BM_TAG + TAG_TEXT) as u8, text@)]
    } else {
        Seq::empty()
    };
    if flag_set(options, INDEX_TAG) {
        let ghost before = posting_views(out@);
        let p = Posting { family: BM_TAG + TAG_TEXT, key: crate::codec::copy_bytes(text) };
        out.push(p);
        assert(posting_views(out@) =~= before.push(p@));
    }
    assert(posting_views(out@) =~= exact + stemmed + tag);
    if flag_set(options, INDEX_BLOOM) && text.len() >= 3 {
        let windows = text.len() - 2;
        let mut i: usize = 0;
        assert(posting_views(out@) =~= exact + stemmed + tag + bloom_postings(text@).subrange(0, 0));
        while i < windows
            invariant
                text@.len() >= 3,
                windows == text@.len() - 2,
                i <= windows,
                posting_views(out@) == exact + stemmed + tag + bloom_postings(text@).subrange(
                    0,
                    i as int,
                ),
            decreases windows - i,
        {
            let a = lower_byte(text[i]) as u32;
            let b = lower_byte(text[i + 1]) as u32;
            let c = lower_byte(text[i + 2]) as u32;
            let h = ((a * 31 + b) * 31 + c) % BLOOM_BLOCKS;
            let mut key: Vec<u8> = Vec::new();
            key.push((h / 256) as u8);
            key.push((h % 256) as u8);
            assert(key@ =~= bloom_block(lower(text@[i as int]), lower(text@[i + 1]), lower(text@[i + 2])));
            let ghost before = posting_views(out@);
            let p = Posting { family: BM_BLOOM + BLOOM_TRIGRAM, key };
            out.push(p);
            assert(posting_views(out@) =~= before.push(p@));
            i += 1;
            assert(posting_views(out@) =~= exact + stemmed + tag + bloom_postings(text@).subrange(
                0,
                i as int,
            ));
        }
        assert(bloom_postings(text@).subrange(0, windows as int) =~= bloom_postings(text@));
    } else {
        assert(has_flag(options, INDEX_BLOOM) ==> bloom_postings(text@) =~= Seq::empty());
        assert(posting_views(out@) =~= postings_of(options, text@));
    }
    out
}

} // verus!
