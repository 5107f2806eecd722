//! Byte-level building blocks of the key space: big-endian integers, the
//! lexicographic order on byte strings, and a self-delimiting payload form
//! that keeps that order.

use vstd::prelude::*;

verus! {

/// The four bytes of `x`, most significant first.
pub open spec fn be32(x: u32) -> Seq<u8> {
    seq![
        (x / 0x100_0000) as u8,
        ((x / 0x1_0000) % 0x100) as u8,
        ((x / 0x100) % 0x100) as u8,
        (x % 0x100) as u8,
    ]
}

/// The number whose big-endian bytes are the first four of `s`.
pub open spec fn be32_value(s: Seq<u8>) -> u32
    recommends
        s.len() >= 4,
{
    (s[0] * 0x100_0000 + s[1] * 0x1_0000 + s[2] * 0x100 + s[3]) as u32
}

/// The eight bytes of `x`, most significant first.
pub open spec fn be64(x: u64) -> Seq<u8> {
    be32((x / 0x1_0000_0000) as u32) + be32((x % 0x1_0000_0000) as u32)
}

/// The number whose big-endian bytes are the first eight of `s`.
pub open spec fn be64_value(s: Seq<u8>) -> u64
    recommends
        s.len() >= 8,
{
    (be32_value(s.subrange(0, 4)) * 0x1_0000_0000 + be32_value(s.subrange(4, 8))) as u64
}

/// Strict lexicographic order on byte strings: a proper prefix comes first,
/// otherwise the first differing byte decides.
pub open spec fn lex_lt(a: Seq<u8>, b: Seq<u8>) -> bool
    decreases a.len(),
{
    if b.len() == 0 {
        false
    } else if a.len() == 0 {
        true
    } else if a[0] != b[0] {
        a[0] < b[0]
    } else {
        lex_lt(a.drop_first(), b.drop_first())
    }
}

/// `a` is `b` cut short: shorter and equal to `b` as far as it goes.
pub open spec fn is_proper_prefix(a: Seq<u8>, b: Seq<u8>) -> bool {
    a.len() < b.len() && b.subrange(0, a.len() as int) == a
}

/// A payload followed by its end mark, written so that the payload can be
/// found again inside a longer key and byte order is kept: a zero byte of the
/// payload becomes `00 FF`, and `00 00` marks the end.
pub open spec fn escaped(p: Seq<u8>) -> Seq<u8>
    decreases p.len(),
{
    if p.len() == 0 {
        seq![0u8, 0u8]
    } else if p[0] == 0 {
        seq![0u8, 0xFFu8] + escaped(p.drop_first())
    } else {
        seq![p[0]] + escaped(p.drop_first())
    }
}

/// Decoding the bytes of a number gives the number back.
pub proof fn lemma_be32_value(x: u32)
    ensures
        be32(x).len() == 4,
        be32_value(be32(x)) == x,
{
}

/// Every four bytes are the bytes of the number they decode to.
pub proof fn lemma_be32_of_value(s: Seq<u8>)
    requires
        s.len() == 4,
    ensures
        be32(be32_value(s)) == s,
{
    let b0 = s[0] as int;
    let b1 = s[1] as int;
    let b2 = s[2] as int;
    let b3 = s[3] as int;
    let x = be32_value(s) as int;
    assert(x == b0 * 0x100_0000 + b1 * 0x1_0000 + b2 * 0x100 + b3);
    assert(x % 0x100 == b3);
    assert(x / 0x100 == b0 * 0x1_0000 + b1 * 0x100 + b2);
    assert((x / 0x100) % 0x100 == b2);
    assert(x / 0x1_0000 == b0 * 0x100 + b1);
    assert((x / 0x1_0000) % 0x100 == b1);
    assert(x / 0x100_0000 == b0);
    assert(be32(be32_value(s)) =~= s);
}

/// Two numbers with the same bytes are the same number.
pub proof fn lemma_be32_injective(x: u32, y: u32)
    requires
        be32(x) == be32(y),
    ensures
        x == y,
{
    lemma_be32_value(x);
    lemma_be32_value(y);
}

/// Decoding the bytes of a number gives the number back.
pub proof fn lemma_be64_value(x: u64)
    ensures
        be64(x).len() == 8,
        be64_value(be64(x)) == x,
{
    let hi = (x / 0x1_0000_0000) as u32;
    let lo = (x % 0x1_0000_0000) as u32;
    lemma_be32_value(hi);
    lemma_be32_value(lo);
    assert(be64(x).subrange(0, 4) =~= be32(hi));
    assert(be64(x).subrange(4, 8) =~= be32(lo));
}

/// Every eight bytes are the bytes of the number they decode to.
pub proof fn lemma_be64_of_value(s: Seq<u8>)
    requires
        s.len() == 8,
    ensures
        be64(be64_value(s)) == s,
{
    let hi = be32_value(s.subrange(0, 4));
    let lo = be32_value(s.subrange(4, 8));
    lemma_be32_of_value(s.subrange(0, 4));
    lemma_be32_of_value(s.subrange(4, 8));
    let x = be64_value(s);
    assert(x == hi * 0x1_0000_0000 + lo);
    assert((x / 0x1_0000_0000) as u32 == hi);
    assert((x % 0x1_0000_0000) as u32 == lo);
    assert(be64(x) =~= s);
}

/// Two numbers with the same bytes are the same number.
pub proof fn lemma_be64_injective(x: u64, y: u64)
    requires
        be64(x) == be64(y),
    ensures
        x == y,
{
    lemma_be64_value(x);
    lemma_be64_value(y);
}

/// No byte string comes before itself.
pub proof fn lemma_lex_irreflexive(a: Seq<u8>)
    ensures
        !lex_lt(a, a),
    decreases a.len(),
{
    if a.len() > 0 {
        lemma_lex_irreflexive(a.drop_first());
    }
}

/// Of two different byte strings exactly one comes first.
pub proof fn lemma_lex_total(a: Seq<u8>, b: Seq<u8>)
    ensures
        a != b ==> (lex_lt(a, b) <==> !lex_lt(b, a)),
        a == b ==> !lex_lt(a, b),
    decreases a.len(),
{
    if a == b {
        lemma_lex_irreflexive(a);
    } else if a.len() == 0 || b.len() == 0 {
        if a.len() == 0 && b.len() == 0 {
            assert(a =~= b);
        }
    } else if a[0] == b[0] {
        if a.drop_first() == b.drop_first() {
            assert(a =~= seq![a[0]] + a.drop_first());
            assert(b =~= seq![b[0]] + b.drop_first());
        }
        lemma_lex_total(a.drop_first(), b.drop_first());
    }
}

/// The order is transitive.
pub proof fn lemma_lex_transitive(a: Seq<u8>, b: Seq<u8>, c: Seq<u8>)
    requires
        lex_lt(a, b),
        lex_lt(b, c),
    ensures
        lex_lt(a, c),
    decreases a.len(),
{
    if a.len() > 0 && a[0] == b[0] && b[0] == c[0] {
        lemma_lex_transitive(a.drop_first(), b.drop_first(), c.drop_first());
    }
}

/// A shared prefix does not change the order of what follows it.
pub proof fn lemma_lex_common_prefix(pre: Seq<u8>, a: Seq<u8>, b: Seq<u8>)
    ensures
        lex_lt(pre + a, pre + b) == lex_lt(a, b),
    decreases pre.len(),
{
    if pre.len() == 0 {
        assert(pre + a =~= a);
        assert(pre + b =~= b);
    } else {
        let rest = pre.drop_first();
        assert((pre + a).drop_first() =~= rest + a);
        assert((pre + b).drop_first() =~= rest + b);
        lemma_lex_common_prefix(rest, a, b);
    }
}

/// Two strings that start alike, the rest of the first being the rest of
/// the second cut short: then the first is the second cut short.
proof fn lemma_prefix_extends(a: Seq<u8>, b: Seq<u8>)
    requires
        a.len() > 0,
        b.len() > 0,
        a[0] == b[0],
        is_proper_prefix(a.drop_first(), b.drop_first()),
    ensures
        is_proper_prefix(a, b),
{
    let a1 = a.drop_first();
    let b1 = b.drop_first();
    let cut = b.subrange(0, a.len() as int);
    assert forall|i: int| 0 <= i < a.len() implies cut[i] == a[i] by {
        if i > 0 {
            assert(b1.subrange(0, a1.len() as int)[i - 1] == a1[i - 1]);
        }
    }
    assert(cut =~= a);
}

/// When neither string is the other cut short, what follows them plays no
/// part in the order, unless the strings are equal.
pub proof fn lemma_lex_no_prefix(a: Seq<u8>, b: Seq<u8>, x: Seq<u8>, y: Seq<u8>)
    requires
        !is_proper_prefix(a, b),
        !is_proper_prefix(b, a),
    ensures
        lex_lt(a + x, b + y) == (lex_lt(a, b) || (a == b && lex_lt(x, y))),
    decreases a.len(),
{
    if a.len() == 0 {
        if b.len() > 0 {
            assert(b.subrange(0, 0) =~= a);
        }
        assert(a =~= b);
        assert(a + x =~= x);
        assert(b + y =~= y);
        lemma_lex_irreflexive(a);
    } else if b.len() == 0 {
        assert(a.subrange(0, 0) =~= b);
    } else if a[0] != b[0] {
    } else {
        let a1 = a.drop_first();
        let b1 = b.drop_first();
        assert((a + x).drop_first() =~= a1 + x);
        assert((b + y).drop_first() =~= b1 + y);
        if is_proper_prefix(a1, b1) {
            lemma_prefix_extends(a, b);
        }
        if is_proper_prefix(b1, a1) {
            lemma_prefix_extends(b, a);
        }
        lemma_lex_no_prefix(a1, b1, x, y);
        if a1 == b1 {
            assert(a =~= seq![a[0]] + a1);
            assert(b =~= seq![b[0]] + b1);
        }
    }
}

/// Whether `k` begins with `p`.
pub open spec fn starts_with(k: Seq<u8>, p: Seq<u8>) -> bool {
    k.len() >= p.len() && k.subrange(0, p.len() as int) == p
}

/// A string does not come before what it begins with.
pub proof fn lemma_prefix_not_after(k: Seq<u8>, p: Seq<u8>)
    requires
        starts_with(k, p),
    ensures
        !lex_lt(k, p),
    decreases p.len(),
{
    if p.len() > 0 {
        assert(k[0] == k.subrange(0, p.len() as int)[0]);
        assert(k.drop_first().subrange(0, p.len() - 1) =~= k.subrange(0, p.len() as int).drop_first());
        lemma_prefix_not_after(k.drop_first(), p.drop_first());
    }
}

/// What lies between a prefix and a string that begins with it begins with
/// it too.
pub proof fn lemma_between_prefix(k: Seq<u8>, p: Seq<u8>, e: Seq<u8>)
    requires
        starts_with(e, p),
        !lex_lt(k, p),
        lex_lt(k, e),
    ensures
        starts_with(k, p),
    decreases p.len(),
{
    if p.len() == 0 {
        assert(k.subrange(0, 0) =~= p);
    } else {
        assert(e[0] == e.subrange(0, p.len() as int)[0]);
        assert(e.drop_first().subrange(0, p.len() - 1) =~= e.subrange(0, p.len() as int).drop_first());
        lemma_between_prefix(k.drop_first(), p.drop_first(), e.drop_first());
        assert(k.subrange(0, p.len() as int) =~= seq![k[0]] + k.drop_first().subrange(0, p.len() - 1));
        assert(p =~= seq![p[0]] + p.drop_first());
    }
}

/// Whether `k` begins with `p`.
pub fn has_prefix(k: &[u8], p: &[u8]) -> (r: bool)
    ensures
        r == starts_with(k@, p@),
{
    if k.len() < p.len() {
        return false;
    }
    bytes_equal(vstd::slice::slice_subrange(k, 0, p.len()), p)
}

/// Numeric order of 32-bit numbers is the byte order of their encodings.
pub proof fn lemma_be32_order(x: u32, y: u32)
    ensures
        lex_lt(be32(x), be32(y)) == (x < y),
{
    let a = be32(x);
    let b = be32(y);
    lemma_be32_value(x);
    lemma_be32_value(y);
    let a1 = a.drop_first();
    let b1 = b.drop_first();
    let a2 = a1.drop_first();
    let b2 = b1.drop_first();
    let a3 = a2.drop_first();
    let b3 = b2.drop_first();
    assert(a3.drop_first().len() == 0);
    assert(b3.drop_first().len() == 0);
    assert(lex_lt(a3, b3) == (a[3] < b[3])) by {
        assert(!lex_lt(a3.drop_first(), b3.drop_first()));
    }
    assert(lex_lt(a2, b2) == (a[2] < b[2] || (a[2] == b[2] && a[3] < b[3])));
    assert(lex_lt(a1, b1) == (a[1] < b[1] || (a[1] == b[1] && lex_lt(a2, b2))));
    assert(lex_lt(a, b) == (a[0] < b[0] || (a[0] == b[0] && lex_lt(a1, b1))));
}

/// Numeric order of 64-bit numbers is the byte order of their encodings.
pub proof fn lemma_be64_order(x: u64, y: u64)
    ensures
        lex_lt(be64(x), be64(y)) == (x < y),
{
    let xh = (x / 0x1_0000_0000) as u32;
    let xl = (x % 0x1_0000_0000) as u32;
    let yh = (y / 0x1_0000_0000) as u32;
    let yl = (y % 0x1_0000_0000) as u32;
    assert(!is_proper_prefix(be32(xh), be32(yh)));
    assert(!is_proper_prefix(be32(yh), be32(xh)));
    lemma_lex_no_prefix(be32(xh), be32(yh), be32(xl), be32(yl));
    lemma_be32_order(xh, yh);
    lemma_be32_order(xl, yl);
    if be32(xh) == be32(yh) {
        lemma_be32_injective(xh, yh);
    }
}

/// What `escaped` wrote at the front of `s`, read back: the payload and the
/// number of bytes it took with its end mark. `None` where `s` does not start
/// with an escaped payload.
pub open spec fn unescaped(s: Seq<u8>) -> Option<(Seq<u8>, nat)>
    decreases s.len(),
{
    if s.len() == 0 {
        None
    } else if s[0] != 0 {
        prepend(seq![s[0]], 1, unescaped(s.skip(1)))
    } else if s.len() < 2 {
        None
    } else if s[1] == 0 {
        Some((Seq::empty(), 2nat))
    } else if s[1] == 0xFF {
        prepend(seq![0u8], 2, unescaped(s.skip(2)))
    } else {
        None
    }
}

/// A parse of the rest of a string, seen from `taken` bytes earlier, where
/// those bytes stood for `front`.
pub open spec fn prepend(front: Seq<u8>, taken: nat, rest: Option<(Seq<u8>, nat)>) -> Option<
    (Seq<u8>, nat),
> {
    match rest {
        Some((p, n)) => Some((front + p, n + taken)),
        None => None,
    }
}

/// An escaped payload is at least its end mark, and at most twice the
/// payload and the end mark.
pub proof fn lemma_escaped_len(p: Seq<u8>)
    ensures
        2 <= escaped(p).len() <= 2 * p.len() + 2,
    decreases p.len(),
{
    if p.len() > 0 {
        lemma_escaped_len(p.drop_first());
    }
}

/// Reading back an escaped payload gives the payload, whatever follows it.
pub proof fn lemma_unescaped_escaped(p: Seq<u8>, rest: Seq<u8>)
    ensures
        unescaped(escaped(p) + rest) == Some((p, escaped(p).len())),
    decreases p.len(),
{
    let s = escaped(p) + rest;
    if p.len() == 0 {
        assert(p =~= Seq::empty());
    } else {
        let tail = p.drop_first();
        lemma_unescaped_escaped(tail, rest);
        if p[0] == 0 {
            assert(s.skip(2) =~= escaped(tail) + rest);
            assert(seq![0u8] + tail =~= p);
        } else {
            assert(s.skip(1) =~= escaped(tail) + rest);
            assert(seq![p[0]] + tail =~= p);
        }
    }
}

/// What is read back was written by `escaped`: the bytes taken are the
/// escaped form of the payload found.
pub proof fn lemma_escaped_unescaped(s: Seq<u8>)
    requires
        unescaped(s) is Some,
    ensures
        unescaped(s) matches Some((p, n)) && n <= s.len() && s.subrange(0, n as int) == escaped(p),
    decreases s.len(),
{
    let (p, n) = unescaped(s)->0;
    if s[0] != 0 {
        let t = s.skip(1);
        lemma_escaped_unescaped(t);
        let (q, m) = unescaped(t)->0;
        assert(p.drop_first() =~= q);
        assert(s.subrange(0, n as int) =~= seq![s[0]] + t.subrange(0, m as int));
    } else if s[1] == 0 {
        assert(s.subrange(0, 2) =~= seq![0u8, 0u8]);
    } else {
        let t = s.skip(2);
        lemma_escaped_unescaped(t);
        let (q, m) = unescaped(t)->0;
        assert(p.drop_first() =~= q);
        assert(s.subrange(0, n as int) =~= seq![0u8, 0xFFu8] + t.subrange(0, m as int));
    }
}

/// The first bytes of an escaped payload with something after it.
proof fn lemma_escaped_head(p: Seq<u8>, x: Seq<u8>)
    ensures
        (escaped(p) + x).len() >= 2,
        p.len() == 0 ==> (escaped(p) + x)[0] == 0 && (escaped(p) + x).drop_first()[0] == 0,
        p.len() > 0 && p[0] == 0 ==> (escaped(p) + x)[0] == 0 && (escaped(p)
            + x).drop_first()[0] == 0xFF,
        p.len() > 0 && p[0] != 0 ==> (escaped(p) + x)[0] == p[0],
{
    lemma_escaped_len(p);
    if p.len() > 0 {
        lemma_escaped_len(p.drop_first());
    }
}

/// Escaped payloads order as the payloads do, and what follows them decides
/// only between equal payloads.
pub proof fn lemma_escaped_order(p: Seq<u8>, q: Seq<u8>, x: Seq<u8>, y: Seq<u8>)
    ensures
        lex_lt(escaped(p) + x, escaped(q) + y) == (lex_lt(p, q) || (p == q && lex_lt(x, y))),
    decreases p.len(),
{
    let a = escaped(p) + x;
    let b = escaped(q) + y;
    lemma_escaped_head(p, x);
    lemma_escaped_head(q, y);
    if p.len() == 0 && q.len() == 0 {
        assert(p =~= q);
        lemma_lex_common_prefix(escaped(p), x, y);
        lemma_lex_irreflexive(p);
    } else if p.len() == 0 {
        assert(lex_lt(p, q));
        if q[0] == 0 {
            assert(lex_lt(a.drop_first(), b.drop_first()));
        }
        assert(lex_lt(a, b));
    } else if q.len() == 0 {
        assert(!lex_lt(p, q));
        if p[0] == 0 {
            assert(!lex_lt(a.drop_first(), b.drop_first()));
        }
        assert(!lex_lt(a, b));
    } else if p[0] != q[0] {
        assert(lex_lt(p, q) == (p[0] < q[0]));
        assert(a[0] != b[0]);
        assert(lex_lt(a, b) == (a[0] < b[0]));
    } else {
        let p_rest = p.drop_first();
        let q_rest = q.drop_first();
        lemma_escaped_order(p_rest, q_rest, x, y);
        if p[0] == 0 {
            let head = seq![0u8, 0xFFu8];
            assert(a =~= head + (escaped(p_rest) + x));
            assert(b =~= head + (escaped(q_rest) + y));
            lemma_lex_common_prefix(head, escaped(p_rest) + x, escaped(q_rest) + y);
        } else {
            let head = seq![p[0]];
            assert(a =~= head + (escaped(p_rest) + x));
            assert(b =~= head + (escaped(q_rest) + y));
            lemma_lex_common_prefix(head, escaped(p_rest) + x, escaped(q_rest) + y);
        }
        if p_rest == q_rest {
            assert(p =~= seq![p[0]] + p_rest);
            assert(q =~= seq![q[0]] + q_rest);
        }
    }
}

/// An escaped payload can be told from what follows it: equal strings hold
/// equal payloads and equal remainders.
pub proof fn lemma_escaped_unique(p: Seq<u8>, q: Seq<u8>, x: Seq<u8>, y: Seq<u8>)
    requires
        escaped(p) + x == escaped(q) + y,
    ensures
        p == q,
        x == y,
{
    lemma_unescaped_escaped(p, x);
    lemma_unescaped_escaped(q, y);
    assert(x =~= (escaped(p) + x).skip(escaped(p).len() as int));
    assert(y =~= (escaped(q) + y).skip(escaped(q).len() as int));
}

/// Appends the big-endian bytes of `x`.
pub fn push_u32(out: &mut Vec<u8>, x: u32)
    ensures
        final(out)@ == old(out)@ + be32(x),
{
    out.push((x / 0x100_0000) as u8);
    out.push(((x / 0x1_0000) % 0x100) as u8);
    out.push(((x / 0x100) % 0x100) as u8);
    out.push((x % 0x100) as u8);
    assert(out@ =~= old(out)@ + be32(x));
}

/// Appends the big-endian bytes of `x`.
pub fn push_u64(out: &mut Vec<u8>, x: u64)
    ensures
        final(out)@ == old(out)@ + be64(x),
{
    push_u32(out, (x / 0x1_0000_0000) as u32);
    push_u32(out, (x % 0x1_0000_0000) as u32);
    assert(out@ =~= old(out)@ + be64(x));
}

/// Appends `bytes` as they are.
pub fn push_bytes(out: &mut Vec<u8>, bytes: &[u8])
    ensures
        final(out)@ == old(out)@ + bytes@,
{
    let mut i: usize = 0;
    while i < bytes.len()
        invariant
            i <= bytes@.len(),
            out@ == old(out)@ + bytes@.subrange(0, i as int),
        decreases bytes@.len() - i,
    {
        out.push(bytes[i]);
        i += 1;
    }
    assert(bytes@.subrange(0, i as int) =~= bytes@);
}

/// Appends `payload` in its escaped form, end mark included.
pub fn push_escaped(out: &mut Vec<u8>, payload: &[u8])
    ensures
        final(out)@ == old(out)@ + escaped(payload@),
{
    let mut i: usize = 0;
    assert(payload@.skip(0) =~= payload@);
    while i < payload.len()
        invariant
            i <= payload@.len(),
            out@ + escaped(payload@.skip(i as int)) == old(out)@ + escaped(payload@),
        decreases payload@.len() - i,
    {
        let b = payload[i];
        let ghost before = out@;
        let ghost rest = escaped(payload@.skip(i + 1));
        assert(payload@.skip(i as int).drop_first() =~= payload@.skip(i + 1));
        if b == 0 {
            out.push(0u8);
            out.push(0xFFu8);
            assert(out@ + rest =~= before + (seq![0u8, 0xFFu8] + rest));
        } else {
            out.push(b);
            assert(out@ + rest =~= before + (seq![b] + rest));
        }
        i += 1;
    }
    let ghost before = out@;
    out.push(0u8);
    out.push(0u8);
    assert(out@ =~= before + escaped(payload@.skip(i as int)));
}

/// The number whose big-endian bytes stand at `pos`.
pub fn read_u32(bytes: &[u8], pos: usize) -> (x: u32)
    requires
        pos + 4 <= bytes@.len(),
    ensures
        x == be32_value(bytes@.subrange(pos as int, pos + 4)),
        be32(x) == bytes@.subrange(pos as int, pos + 4),
{
    let b0: u32 = bytes[pos] as u32;
    let b1: u32 = bytes[pos + 1] as u32;
    let b2: u32 = bytes[pos + 2] as u32;
    let b3: u32 = bytes[pos + 3] as u32;
    proof {
        lemma_be32_of_value(bytes@.subrange(pos as int, pos + 4));
    }
    b0 * 0x100_0000 + b1 * 0x1_0000 + b2 * 0x100 + b3
}

/// The number whose big-endian bytes stand at `pos`.
pub fn read_u64(bytes: &[u8], pos: usize) -> (x: u64)
    requires
        pos + 8 <= bytes@.len(),
    ensures
        x == be64_value(bytes@.subrange(pos as int, pos + 8)),
        be64(x) == bytes@.subrange(pos as int, pos + 8),
{
    let n = bytes.len();
    let hi: u64 = read_u32(bytes, pos) as u64;
    let lo: u64 = read_u32(bytes, pos + 4) as u64;
    proof {
        let s = bytes@.subrange(pos as int, pos + 8);
        assert(s.subrange(0, 4) =~= bytes@.subrange(pos as int, pos + 4));
        assert(s.subrange(4, 8) =~= bytes@.subrange(pos + 4, pos + 8));
        lemma_be64_of_value(s);
    }
    hi * 0x1_0000_0000 + lo
}

/// The bytes of `bytes` from `from` up to `to`, copied out.
pub fn copy_range(bytes: &[u8], from: usize, to: usize) -> (out: Vec<u8>)
    requires
        from <= to <= bytes@.len(),
    ensures
        out@ == bytes@.subrange(from as int, to as int),
{
    let mut out: Vec<u8> = Vec::new();
    let mut i: usize = from;
    while i < to
        invariant
            from <= i <= to <= bytes@.len(),
            out@ == bytes@.subrange(from as int, i as int),
        decreases to - i,
    {
        out.push(bytes[i]);
        i += 1;
        assert(out@ =~= bytes@.subrange(from as int, i as int));
    }
    out
}

/// A copy of `bytes`.
pub fn copy_bytes(bytes: &[u8]) -> (out: Vec<u8>)
    ensures
        out@ == bytes@,
{
    let out = copy_range(bytes, 0, bytes.len());
    assert(bytes@.subrange(0, bytes@.len() as int) =~= bytes@);
    out
}

/// Reads the escaped payload that starts at `pos`: the payload and the
/// position after its end mark, or `None` where no escaped payload starts
/// there.
pub fn read_escaped(bytes: &[u8], pos: usize) -> (r: Option<(Vec<u8>, usize)>)
    requires
        pos <= bytes@.len(),
    ensures
        match r {
            Some((payload, next)) => unescaped(bytes@.skip(pos as int)) == Some(
                (payload@, (next - pos) as nat),
            ) && pos <= next <= bytes@.len(),
            None => unescaped(bytes@.skip(pos as int)) is None,
        },
{
    let mut payload: Vec<u8> = Vec::new();
    let mut i: usize = pos;
    let n = bytes.len();
    assert(payload@ + Seq::<u8>::empty() =~= payload@);
    loop
        invariant
            n == bytes@.len(),
            pos <= i <= n,
            unescaped(bytes@.skip(pos as int)) == prepend(
                payload@,
                (i - pos) as nat,
                unescaped(bytes@.skip(i as int)),
            ),
        decreases n - i,
    {
        let ghost here = bytes@.skip(i as int);
        let ghost sofar = payload@;
        if i >= n {
            return None;
        }
        let b = bytes[i];
        if b != 0 {
            payload.push(b);
            proof {
                let after = bytes@.skip(i + 1);
                assert(here.skip(1) =~= after);
                if let Some((p, m)) = unescaped(after) {
                    assert(sofar + (seq![b] + p) =~= payload@ + p);
                }
            }
            i += 1;
        } else if n - i < 2 {
            return None;
        } else {
            let c = bytes[i + 1];
            if c == 0 {
                assert(sofar + Seq::<u8>::empty() =~= sofar);
                return Some((payload, i + 2));
            } else if c == 0xFF {
                payload.push(0u8);
                proof {
                    let after = bytes@.skip(i + 2);
                    assert(here.skip(2) =~= after);
                    if let Some((p, m)) = unescaped(after) {
                        assert(sofar + (seq![0u8] + p) =~= payload@ + p);
                    }
                }
                i += 2;
            } else {
                return None;
            }
        }
    }
}

/// Whether `a` comes before `b` in byte order.
pub fn lex_less(a: &[u8], b: &[u8]) -> (r: bool)
    ensures
        r == lex_lt(a@, b@),
{
    let mut i: usize = 0;
    assert(a@.skip(0) =~= a@);
    assert(b@.skip(0) =~= b@);
    loop
        invariant
            i <= a@.len(),
            i <= b@.len(),
            lex_lt(a@, b@) == lex_lt(a@.skip(i as int), b@.skip(i as int)),
        decreases a@.len() - i,
    {
        let ghost x = a@.skip(i as int);
        let ghost y = b@.skip(i as int);
        if i >= b.len() {
            return false;
        }
        if i >= a.len() {
            return true;
        }
        if a[i] != b[i] {
            return a[i] < b[i];
        }
        assert(x.drop_first() =~= a@.skip(i + 1));
        assert(y.drop_first() =~= b@.skip(i + 1));
        i += 1;
    }
}

/// Whether `a` and `b` hold the same bytes.
pub fn bytes_equal(a: &[u8], b: &[u8]) -> (r: bool)
    ensures
        r == (a@ == b@),
{
    if a.len() != b.len() {
        return false;
    }
    let mut i: usize = 0;
    while i < a.len()
        invariant
            a@.len() == b@.len(),
            i <= a@.len(),
            a@.subrange(0, i as int) == b@.subrange(0, i as int),
        decreases a@.len() - i,
    {
        if a[i] != b[i] {
            return false;
        }
        i += 1;
        assert(a@.subrange(0, i as int) =~= a@.subrange(0, i - 1).push(a@[i - 1]));
        assert(b@.subrange(0, i as int) =~= b@.subrange(0, i - 1).push(b@[i - 1]));
    }
    assert(a@ =~= a@.subrange(0, i as int));
    assert(b@ =~= b@.subrange(0, i as int));
    true
}

} // verus!
