//! The at-rest encoding of embedding vectors.
//!
//! A vector is stored as a flat little-endian byte sequence of its 32-bit
//! components in index order: no padding, no length prefix; the component
//! count is implicit from the byte count divided by four. Decoding is a
//! bounds-checked reinterpretation that rejects any payload whose length is
//! not a whole multiple of the component width, and the two directions are
//! proved inverse of each other bit for bit.

use vstd::arithmetic::div_mod::lemma_fundamental_div_mod;
use vstd::prelude::*;

use crate::error::StoreError;

verus! {

/// Byte `k` (0 through 3, least significant first) of a component's
/// little-endian encoding.
pub open spec fn le_byte(x: u32, k: int) -> u8 {
    ((x >> (8 * k)) & 0xff) as u8
}

/// The four bytes of one component, least significant first.
pub open spec fn le_bytes(x: u32) -> Seq<u8> {
    seq![le_byte(x, 0), le_byte(x, 1), le_byte(x, 2), le_byte(x, 3)]
}

/// The component whose little-endian encoding is `b0 b1 b2 b3`.
pub open spec fn le_word(b0: u8, b1: u8, b2: u8, b3: u8) -> u32 {
    (b0 as u32) | ((b1 as u32) << 8) | ((b2 as u32) << 16) | ((b3 as u32) << 24)
}

/// The at-rest byte form of a component vector: each component's four bytes
/// in index order.
pub open spec fn encoded(v: Seq<u32>) -> Seq<u8>
    decreases v.len(),
{
    if v.len() == 0 {
        Seq::empty()
    } else {
        le_bytes(v.first()) + encoded(v.drop_first())
    }
}

/// The component vector read back from a byte form, four bytes at a time.
pub open spec fn decoded(b: Seq<u8>) -> Seq<u32>
    decreases b.len(),
{
    if b.len() < 4 {
        Seq::empty()
    } else {
        seq![le_word(b[0], b[1], b[2], b[3])] + decoded(b.skip(4))
    }
}

pub broadcast proof fn lemma_encoded_len(v: Seq<u32>)
    ensures
        #[trigger] encoded(v).len() == 4 * v.len(),
    decreases v.len(),
{
    if v.len() > 0 {
        lemma_encoded_len(v.drop_first());
    }
}

/// Encoding one more component appends its four bytes.
proof fn lemma_encoded_push(v: Seq<u32>, x: u32)
    ensures
        encoded(v.push(x)) =~= encoded(v) + le_bytes(x),
    decreases v.len(),
{
    if v.len() == 0 {
        let s = v.push(x);
        assert(s.first() == x);
        assert(s.drop_first().len() == 0);
        assert(encoded(s.drop_first()) == Seq::<u8>::empty());
        assert(encoded(s) == le_bytes(x) + Seq::<u8>::empty());
        assert(le_bytes(x) + Seq::<u8>::empty() =~= Seq::<u8>::empty() + le_bytes(x));
    } else {
        assert(v.push(x).first() == v.first());
        assert(v.push(x).drop_first() =~= v.drop_first().push(x));
        lemma_encoded_push(v.drop_first(), x);
        assert(encoded(v.push(x)) =~= le_bytes(v.first()) + (encoded(v.drop_first())
            + le_bytes(x)));
        assert(le_bytes(v.first()) + (encoded(v.drop_first()) + le_bytes(x)) =~= (le_bytes(
            v.first(),
        ) + encoded(v.drop_first())) + le_bytes(x));
    }
}

/// Reassembling a component from its four encoded bytes yields the component.
proof fn lemma_le_word_of_le_bytes(x: u32)
    ensures
        le_word(le_byte(x, 0), le_byte(x, 1), le_byte(x, 2), le_byte(x, 3)) == x,
{
    assert((((x >> 0) & 0xff) as u8 as u32) | ((((x >> 8) & 0xff) as u8 as u32) << 8) | ((((x
        >> 16) & 0xff) as u8 as u32) << 16) | ((((x >> 24) & 0xff) as u8 as u32) << 24) == x)
        by (bit_vector);
}

/// Each encoded byte of a reassembled component is the byte it came from.
proof fn lemma_le_bytes_of_le_word(b0: u8, b1: u8, b2: u8, b3: u8)
    ensures
        le_bytes(le_word(b0, b1, b2, b3)) =~= seq![b0, b1, b2, b3],
{
    assert({
        let w = (b0 as u32) | ((b1 as u32) << 8) | ((b2 as u32) << 16) | ((b3 as u32) << 24);
        (((w >> 0) & 0xff) as u8) == b0 && (((w >> 8) & 0xff) as u8) == b1 && (((w >> 16)
            & 0xff) as u8) == b2 && (((w >> 24) & 0xff) as u8) == b3
    }) by (bit_vector);
}

/// Round trip, component side: decoding an encoded vector gives the vector
/// back, bit for bit.
pub proof fn lemma_decode_of_encode(v: Seq<u32>)
    ensures
        decoded(encoded(v)) =~= v,
    decreases v.len(),
{
    broadcast use lemma_encoded_len;

    if v.len() > 0 {
        let b = encoded(v);
        assert(b =~= le_bytes(v.first()) + encoded(v.drop_first()));
        assert(b.skip(4) =~= encoded(v.drop_first()));
        lemma_le_word_of_le_bytes(v.first());
        lemma_decode_of_encode(v.drop_first());
    }
}

/// Round trip, byte side: a well-formed payload re-encodes to itself.
pub proof fn lemma_encode_of_decode(b: Seq<u8>)
    requires
        b.len() % 4 == 0,
    ensures
        encoded(decoded(b)) =~= b,
    decreases b.len(),
{
    if b.len() > 0 {
        assert(b.len() >= 4) by {
            lemma_fundamental_div_mod(b.len() as int, 4);
        }
        let w = le_word(b[0], b[1], b[2], b[3]);
        let rest = b.skip(4);
        assert(rest.len() % 4 == 0) by {
            lemma_fundamental_div_mod(b.len() as int, 4);
            lemma_fundamental_div_mod(rest.len() as int, 4);
            assert(rest.len() == 4 * ((b.len() as int) / 4 - 1));
            vstd::arithmetic::div_mod::lemma_mod_multiples_basic(
                (b.len() as int) / 4 - 1,
                4,
            );
        }
        lemma_encode_of_decode(rest);
        lemma_le_bytes_of_le_word(b[0], b[1], b[2], b[3]);
        assert(decoded(b).first() == w);
        assert(decoded(b).drop_first() =~= decoded(rest));
        assert(encoded(decoded(b)) =~= le_bytes(w) + encoded(decoded(rest)));
        assert(le_bytes(w) =~= seq![b[0], b[1], b[2], b[3]]);
        assert(b =~= seq![b[0], b[1], b[2], b[3]] + rest);
    }
}

/// Encodes a component vector into its flat little-endian byte form.
pub fn encode_vector(v: &Vec<u32>) -> (r: Vec<u8>)
    ensures
        r@ =~= encoded(v@),
        r@.len() == 4 * v@.len(),
{
    proof {
        broadcast use lemma_encoded_len;

    }
    let mut r: Vec<u8> = Vec::new();
    let mut i: usize = 0;
    while i < v.len()
        invariant
            i <= v@.len(),
            r@ =~= encoded(v@.take(i as int)),
            r@.len() == 4 * i,
        decreases v@.len() - i,
    {
        let x = v[i];
        r.push((x & 0xff) as u8);
        r.push(((x >> 8) & 0xff) as u8);
        r.push(((x >> 16) & 0xff) as u8);
        r.push(((x >> 24) & 0xff) as u8);
        proof {
            broadcast use lemma_encoded_len;

            assert(v@.take(i + 1) =~= v@.take(i as int).push(v@[i as int]));
            lemma_encoded_push(v@.take(i as int), v@[i as int]);
            assert(le_byte(x, 0) == (x & 0xff) as u8) by (bit_vector);
            assert(le_byte(x, 1) == ((x >> 8) & 0xff) as u8);
            assert(le_byte(x, 2) == ((x >> 16) & 0xff) as u8);
            assert(le_byte(x, 3) == ((x >> 24) & 0xff) as u8);
            assert(r@ =~= encoded(v@.take(i as int)) + le_bytes(x));
        }
        i = i + 1;
    }
    assert(v@.take(v@.len() as int) =~= v@);
    r
}

/// The component at position `i` of a decoded payload, read off the four
/// bytes it came from.
proof fn lemma_decoded_index(b: Seq<u8>, i: int)
    requires
        0 <= i,
        4 * i + 4 <= b.len(),
    ensures
        decoded(b).len() >= i + 1,
        decoded(b)[i] == le_word(b[4 * i], b[4 * i + 1], b[4 * i + 2], b[4 * i + 3]),
    decreases i,
{
    if i == 0 {
        assert(decoded(b).first() == le_word(b[0], b[1], b[2], b[3]));
    } else {
        lemma_decoded_index(b.skip(4), i - 1);
        assert(decoded(b)[i] == decoded(b.skip(4))[i - 1]);
    }
}

/// Decodes a flat little-endian payload back into its component vector.
///
/// Fails with `StoreError::Decode` exactly when the payload length is not a
/// whole multiple of the component width; nothing is decoded in that case.
pub fn decode_vector(b: &Vec<u8>) -> (r: Result<Vec<u32>, StoreError>)
    ensures
        match r {
            Ok(v) => b@.len() % 4 == 0 && v@ =~= decoded(b@) && b@.len() == 4 * v@.len(),
            Err(e) => b@.len() % 4 != 0 && e == StoreError::Decode,
        },
{
    if b.len() % 4 != 0 {
        return Err(StoreError::Decode);
    }
    let n = b.len() / 4;
    proof {
        lemma_fundamental_div_mod(b@.len() as int, 4);
    }
    let mut v: Vec<u32> = Vec::new();
    let mut i: usize = 0;
    while i < n
        invariant
            i <= n,
            b@.len() == 4 * n,
            4 * n <= usize::MAX,
            v@.len() == i,
            forall|j: int|
                0 <= j < i ==> v@[j] == le_word(
                    b@[4 * j],
                    b@[4 * j + 1],
                    b@[4 * j + 2],
                    b@[4 * j + 3],
                ),
        decreases n - i,
    {
        let b0 = b[4 * i];
        let b1 = b[4 * i + 1];
        let b2 = b[4 * i + 2];
        let b3 = b[4 * i + 3];
        let w = (b0 as u32) | ((b1 as u32) << 8) | ((b2 as u32) << 16) | ((b3 as u32) << 24);
        v.push(w);
        i = i + 1;
    }
    proof {
        assert forall|j: int| 0 <= j < n implies v@[j] == decoded(b@)[j] by {
            lemma_decoded_index(b@, j);
        }
        if n > 0 {
            lemma_decoded_index(b@, n - 1);
        }
        assert(decoded(b@).len() == n) by {
            lemma_decoded_len(b@);
            lemma_fundamental_div_mod(b@.len() as int, 4);
        }
        assert(v@ =~= decoded(b@));
    }
    Ok(v)
}

/// A decoded payload has one component per whole group of four bytes.
pub proof fn lemma_decoded_len(b: Seq<u8>)
    ensures
        decoded(b).len() == b.len() / 4,
    decreases b.len(),
{
    if b.len() < 4 {
        assert(b.len() / 4 == 0) by {
            vstd::arithmetic::div_mod::lemma_basic_div(b.len() as int, 4);
        }
    } else {
        lemma_decoded_len(b.skip(4));
        assert(b.skip(4).len() == b.len() - 4);
        assert((b.len() - 4) / 4 == b.len() / 4 - 1) by {
            vstd::arithmetic::div_mod::lemma_div_minus_one(b.len() as int - 4, 4);
            lemma_fundamental_div_mod(b.len() as int, 4);
            lemma_fundamental_div_mod(b.len() as int - 4, 4);
            vstd::arithmetic::div_mod::lemma_mod_add_multiples_vanish(
                b.len() as int - 4,
                4,
            );
        }
    }
}

} // verus!
