//! Cutting byte strings at a separator.

use vstd::prelude::*;

verus! {

/// The place of the first `sep` in `s`; the length of `s` where it holds
/// none.
pub open spec fn find(s: Seq<u8>, sep: u8) -> int
    decreases s.len(),
{
    if s.len() == 0 || s[0] == sep {
        0
    } else {
        1 + find(s.drop_first(), sep)
    }
}

/// The `n`-th of the pieces that `s` falls into when cut at every `sep`,
/// counted from zero; `None` where there are fewer pieces. A string without
/// `sep` is one piece, and between two neighbouring `sep` lies an empty one.
pub open spec fn piece(s: Seq<u8>, sep: u8, n: nat) -> Option<Seq<u8>>
    decreases n,
{
    let cut = find(s, sep);
    if n == 0 {
        Some(s.subrange(0, cut))
    } else if cut >= s.len() {
        None
    } else {
        piece(s.skip(cut + 1), sep, (n - 1) as nat)
    }
}

/// The first `sep` lies inside the string or at its end, and nothing before
/// it is a `sep`.
pub proof fn lemma_find(s: Seq<u8>, sep: u8)
    ensures
        0 <= find(s, sep) <= s.len(),
        find(s, sep) < s.len() ==> s[find(s, sep)] == sep,
        forall|i: int| 0 <= i < find(s, sep) ==> s[i] != sep,
    decreases s.len(),
{
    if s.len() > 0 && s[0] != sep {
        let t = s.drop_first();
        lemma_find(t, sep);
        assert forall|i: int| 0 <= i < find(s, sep) implies s[i] != sep by {
            if i > 0 {
                assert(s[i] == t[i - 1]);
            }
        }
    }
}

/// The place of the first `sep` at or after `from`; the length of `bytes`
/// where none follows.
pub fn find_from(bytes: &[u8], from: usize, sep: u8) -> (at: usize)
    requires
        from <= bytes@.len(),
    ensures
        from <= at <= bytes@.len(),
        at == from + find(bytes@.skip(from as int), sep),
{
    let mut i: usize = from;
    while i < bytes.len() && bytes[i] != sep
        invariant
            from <= i <= bytes@.len(),
            find(bytes@.skip(from as int), sep) == (i - from) + find(bytes@.skip(i as int), sep),
        decreases bytes@.len() - i,
    {
        assert(bytes@.skip(i as int).drop_first() =~= bytes@.skip(i + 1));
        i += 1;
    }
    i
}

/// Where the `n`-th piece of `bytes` starts and ends; `None` where there
/// are fewer pieces.
pub fn nth_piece(bytes: &[u8], sep: u8, n: usize) -> (r: Option<(usize, usize)>)
    ensures
        match r {
            Some((from, to)) => from <= to <= bytes@.len() && piece(bytes@, sep, n as nat) == Some(
                bytes@.subrange(from as int, to as int),
            ),
            None => piece(bytes@, sep, n as nat) is None,
        },
{
    let mut start: usize = 0;
    let mut k: usize = 0;
    assert(bytes@.skip(0) =~= bytes@);
    while k < n
        invariant
            k <= n,
            start <= bytes@.len(),
            piece(bytes@, sep, n as nat) == piece(bytes@.skip(start as int), sep, (n - k) as nat),
        decreases n - k,
    {
        let cut = find_from(bytes, start, sep);
        if cut >= bytes.len() {
            return None;
        }
        assert(bytes@.skip(start as int).skip(cut - start + 1) =~= bytes@.skip(cut + 1));
        start = cut + 1;
        k += 1;
    }
    let end = find_from(bytes, start, sep);
    assert(bytes@.skip(start as int).subrange(0, end - start) =~= bytes@.subrange(
        start as int,
        end as int,
    ));
    Some((start, end))
}

} // verus!
