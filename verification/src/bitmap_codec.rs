//! The byte form of a posting list: its ids in ascending order, four
//! big-endian bytes each.

use vstd::prelude::*;
use crate::bitmap::{
    lemma_neighbours_increasing, neighbours_increasing, strictly_increasing, Bitmap,
};
use crate::codec::{be32, lemma_be32_injective, lemma_be32_value, push_u32, read_u32};
use crate::keys::{Deserialize, Serialize};

verus! {

/// The bytes of a sequence of ids: the bytes of each, in order.
pub open spec fn ids_encoding(s: Seq<u32>) -> Seq<u8>
    decreases s.len(),
{
    if s.len() == 0 {
        Seq::empty()
    } else {
        ids_encoding(s.drop_last()) + be32(s.last())
    }
}

/// The `i`-th group of four bytes.
pub open spec fn chunk(bytes: Seq<u8>, i: int) -> Seq<u8> {
    bytes.subrange(4 * i, 4 * i + 4)
}

/// An encoding is four times as long as the sequence, and its `i`-th group
/// of four bytes holds the `i`-th id.
pub proof fn lemma_ids_encoding_chunks(s: Seq<u32>)
    ensures
        ids_encoding(s).len() == 4 * s.len(),
        forall|i: int| 0 <= i < s.len() ==> #[trigger] chunk(ids_encoding(s), i) == be32(s[i]),
    decreases s.len(),
{
    if s.len() > 0 {
        let t = s.drop_last();
        lemma_ids_encoding_chunks(t);
        lemma_be32_value(s.last());
        let e = ids_encoding(s);
        assert forall|i: int| 0 <= i < s.len() implies #[trigger] chunk(e, i) == be32(s[i]) by {
            if i < t.len() {
                assert(chunk(e, i) =~= chunk(ids_encoding(t), i));
                assert(t[i] == s[i]);
            } else {
                assert(chunk(e, i) =~= be32(s.last()));
            }
        }
    }
}

/// Bytes whose groups of four hold the ids of a sequence are its encoding.
pub proof fn lemma_chunks_ids_encoding(s: Seq<u32>, bytes: Seq<u8>)
    requires
        bytes.len() == 4 * s.len(),
        forall|i: int| 0 <= i < s.len() ==> #[trigger] chunk(bytes, i) == be32(s[i]),
    ensures
        ids_encoding(s) == bytes,
    decreases s.len(),
{
    if s.len() == 0 {
        assert(bytes =~= Seq::<u8>::empty());
    } else {
        let t = s.drop_last();
        let head = bytes.subrange(0, 4 * (t.len() as int));
        assert forall|i: int| 0 <= i < t.len() implies #[trigger] chunk(head, i) == be32(t[i]) by {
            assert(chunk(head, i) =~= chunk(bytes, i));
            assert(t[i] == s[i]);
        }
        lemma_chunks_ids_encoding(t, head);
        assert(chunk(bytes, t.len() as int) == be32(s.last()));
        assert(bytes =~= head + chunk(bytes, t.len() as int));
    }
}

/// Different sequences of ids have different encodings.
pub proof fn lemma_ids_encoding_injective(s: Seq<u32>, t: Seq<u32>)
    requires
        ids_encoding(s) == ids_encoding(t),
    ensures
        s == t,
{
    lemma_ids_encoding_chunks(s);
    lemma_ids_encoding_chunks(t);
    assert forall|i: int| 0 <= i < s.len() implies s[i] == t[i] by {
        assert(chunk(ids_encoding(s), i) == be32(s[i]));
        assert(chunk(ids_encoding(t), i) == be32(t[i]));
        lemma_be32_injective(s[i], t[i]);
    }
    assert(s =~= t);
}

impl Bitmap {
    /// The bytes of the set.
    pub fn encode(&self) -> (bytes: Vec<u8>)
        ensures
            bytes@ == ids_encoding(self.ascending()),
    {
        let ids = self.as_slice();
        let mut out: Vec<u8> = Vec::new();
        let mut i: usize = 0;
        assert(ids@.subrange(0, 0) =~= Seq::<u32>::empty());
        while i < ids.len()
            invariant
                i <= ids@.len(),
                out@ == ids_encoding(ids@.subrange(0, i as int)),
            decreases ids@.len() - i,
        {
            assert(ids@.subrange(0, i + 1).drop_last() =~= ids@.subrange(0, i as int));
            push_u32(&mut out, ids[i]);
            i += 1;
        }
        assert(ids@.subrange(0, i as int) =~= ids@);
        out
    }

    /// Reads a set. `None` where `bytes` are not the encoding of ids in
    /// strictly increasing order.
    pub fn decode(bytes: &[u8]) -> (r: Option<Bitmap>)
        ensures
            match r {
                Some(b) => b.wf() && ids_encoding(b.ascending()) == bytes@,
                None => forall|s: Seq<u32>| strictly_increasing(s) ==> ids_encoding(s) != bytes@,
            },
    {
        let n = bytes.len();
        if n % 4 != 0 {
            proof {
                assert forall|s: Seq<u32>| strictly_increasing(s) implies ids_encoding(s)
                    != bytes@ by {
                    lemma_ids_encoding_chunks(s);
                }
            }
            return None;
        }
        let count = n / 4;
        let mut out: Vec<u32> = Vec::new();
        let mut k: usize = 0;
        while k < count
            invariant
                n == bytes@.len(),
                n == 4 * count,
                k <= count,
                out@.len() == k,
                forall|i: int| 0 <= i < k ==> #[trigger] chunk(bytes@, i) == be32(out@[i]),
                neighbours_increasing(out@, k as int),
            decreases count - k,
        {
            let x = read_u32(bytes, 4 * k);
            if k > 0 && out[k - 1] >= x {
                proof {
                    let last = out@[k - 1];
                    assert forall|s: Seq<u32>| strictly_increasing(s) implies ids_encoding(s)
                        != bytes@ by {
                        if ids_encoding(s) == bytes@ {
                            lemma_ids_encoding_chunks(s);
                            assert(chunk(bytes@, k - 1) == be32(s[k - 1]));
                            assert(chunk(bytes@, k - 1) == be32(last));
                            assert(chunk(bytes@, k as int) == be32(s[k as int]));
                            lemma_be32_injective(s[k - 1], last);
                            lemma_be32_injective(s[k as int], x);
                            assert(s[k - 1] < s[k as int]);
                        }
                    }
                }
                return None;
            }
            let ghost before = out@;
            out.push(x);
            proof {
                assert forall|i: int| 0 <= i < k + 1 implies #[trigger] chunk(bytes@, i) == be32(
                    out@[i],
                ) by {
                    if i < k {
                        assert(out@[i] == before[i]);
                    }
                }
                assert forall|i: int, j: int|
                    0 <= i && j == i + 1 && j < k + 1 && j < out@.len() implies out@[i]
                    < out@[j] by {
                    if j < k {
                        assert(before[i] < before[j]);
                    }
                }
            }
            k += 1;
        }
        proof {
            lemma_neighbours_increasing(out@);
            lemma_chunks_ids_encoding(out@, bytes@);
        }
        Some(Bitmap::from_increasing(out))
    }

    /// Reading the bytes of a well-formed set gives the set back.
    pub proof fn lemma_roundtrip(&self, read: Bitmap)
        requires
            self.wf(),
            read.wf(),
            ids_encoding(read.ascending()) == ids_encoding(self.ascending()),
        ensures
            read@ == self@,
            read.ascending() == self.ascending(),
    {
        lemma_ids_encoding_injective(read.ascending(), self.ascending());
        self.lemma_ascending();
        read.lemma_ascending();
    }
}

impl Serialize for Bitmap {
    open spec fn serialized(self) -> Seq<u8> {
        ids_encoding(self.ascending())
    }

    fn serialize(self) -> (bytes: Vec<u8>) {
        self.encode()
    }
}

impl Deserialize for Bitmap {
    open spec fn deserialized(bytes: Seq<u8>, r: Option<Bitmap>) -> bool {
        match r {
            Some(b) => b.wf() && ids_encoding(b.ascending()) == bytes,
            None => forall|s: Seq<u32>| strictly_increasing(s) ==> ids_encoding(s) != bytes,
        }
    }

    fn deserialize(bytes: &[u8]) -> (r: Option<Bitmap>) {
        Bitmap::decode(bytes)
    }
}

} // verus!
