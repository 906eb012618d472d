//! Byte-wise XOR of buffers, with a single byte or with a repeating key.

use vstd::prelude::*;

verus! {

/// The byte-wise XOR of `a` and `b`, as long as the shorter of the two.
pub open spec fn xor_bytes(a: Seq<u8>, b: Seq<u8>) -> Seq<u8> {
    let l = if a.len() < b.len() { a.len() } else { b.len() };
    Seq::new(l, |i: int| a[i] ^ b[i])
}

/// Each byte of `data` XORed with the byte at the same position of the key
/// repeated as often as needed.
pub open spec fn repeating_key_xor(data: Seq<u8>, key: Seq<u8>) -> Seq<u8> {
    Seq::new(data.len(), |i: int| key[i % key.len() as int] ^ data[i])
}

/// Each byte of `data` XORed with `c`.
pub open spec fn single_byte_xor(data: Seq<u8>, c: u8) -> Seq<u8> {
    Seq::new(data.len(), |i: int| c ^ data[i])
}

/// `s` with its first `t.len()` bytes replaced by `t`.
pub open spec fn overwrite_prefix(s: Seq<u8>, t: Seq<u8>) -> Seq<u8> {
    Seq::new(s.len(), |i: int| if i < t.len() { t[i] } else { s[i] })
}

/// The byte-wise XOR of two buffers, truncated to the shorter one.
pub fn xor_vecs(v1: &[u8], v2: &[u8]) -> (v3: Vec<u8>)
    ensures
        v3@ == xor_bytes(v1@, v2@),
{
    let mut v3: Vec<u8> = Vec::new();
    let l: usize = if v1.len() < v2.len() { v1.len() } else { v2.len() };
    let mut i: usize = 0;
    while i < l
        invariant
            l == (if v1@.len() < v2@.len() { v1@.len() } else { v2@.len() }),
            i <= l,
            v3@.len() == i,
            forall|j: int| 0 <= j < i ==> v3@[j] == v1@[j] ^ v2@[j],
        decreases l - i,
    {
        v3.push(v1[i] ^ v2[i]);
        i += 1;
    }
    proof {
        assert(v3@ =~= xor_bytes(v1@, v2@));
    }
    v3
}

/// Writes the byte-wise XOR of `v1` and `v2` (as long as the shorter of the
/// two) over the front of `into`; the rest of `into` is left as it was.
pub fn set_xor_slice(v1: &[u8], v2: &[u8], into: &mut [u8])
    requires
        old(into)@.len() >= xor_bytes(v1@, v2@).len(),
    ensures
        final(into)@ == overwrite_prefix(old(into)@, xor_bytes(v1@, v2@)),
{
    let l: usize = if v1.len() < v2.len() { v1.len() } else { v2.len() };
    let ghost start: Seq<u8> = into@;
    let mut i: usize = 0;
    while i < l
        invariant
            l == xor_bytes(v1@, v2@).len(),
            i <= l,
            into@.len() == start.len(),
            start.len() >= l,
            forall|j: int| 0 <= j < i ==> into@[j] == v1@[j] ^ v2@[j],
            forall|j: int| i <= j < start.len() ==> into@[j] == start[j],
        decreases l - i,
    {
        into[i] = v1[i] ^ v2[i];
        i += 1;
    }
    proof {
        assert(into@ =~= overwrite_prefix(start, xor_bytes(v1@, v2@)));
    }
}

/// Writes each byte of `to_encode` XORed with the repeating key `seq` over
/// the front of `result`.
pub fn repeating_seq_xor(to_encode: &[u8], result: &mut Vec<u8>, seq: &[u8])
    requires
        old(result)@.len() >= to_encode@.len(),
        to_encode@.len() > 0 ==> seq@.len() > 0,
    ensures
        final(result)@ == overwrite_prefix(old(result)@, repeating_key_xor(to_encode@, seq@)),
{
    let ghost start: Seq<u8> = result@;
    let mut i: usize = 0;
    while i < to_encode.len()
        invariant
            result@.len() == start.len(),
            start.len() >= to_encode@.len(),
            to_encode@.len() > 0 ==> seq@.len() > 0,
            i <= to_encode@.len(),
            forall|j: int| 0 <= j < i ==> result@[j] == seq@[j % seq@.len() as int] ^ to_encode@[j],
            forall|j: int| i <= j < start.len() ==> result@[j] == start[j],
        decreases to_encode@.len() - i,
    {
        result[i] = seq[i % seq.len()] ^ to_encode[i];
        i += 1;
    }
    proof {
        assert(result@ =~= overwrite_prefix(start, repeating_key_xor(to_encode@, seq@)));
    }
}

/// Writes each byte of `v` XORed with `c` over the front of `result`.
pub fn repeating_char_xor(v: &Vec<u8>, result: &mut Vec<u8>, c: &u8)
    requires
        old(result)@.len() >= v@.len(),
    ensures
        final(result)@ == overwrite_prefix(old(result)@, single_byte_xor(v@, *c)),
{
    let ghost start: Seq<u8> = result@;
    let mut i: usize = 0;
    while i < v.len()
        invariant
            result@.len() == start.len(),
            start.len() >= v@.len(),
            i <= v@.len(),
            forall|j: int| 0 <= j < i ==> result@[j] == *c ^ v@[j],
            forall|j: int| i <= j < start.len() ==> result@[j] == start[j],
        decreases v@.len() - i,
    {
        result[i] = *c ^ v[i];
        i += 1;
    }
    proof {
        assert(result@ =~= overwrite_prefix(start, single_byte_xor(v@, *c)));
    }
}

/// Copies `src` over the front of `dest`.
pub fn set_vec(src: &Vec<u8>, dest: &mut Vec<u8>)
    requires
        old(dest)@.len() >= src@.len(),
    ensures
        final(dest)@ == overwrite_prefix(old(dest)@, src@),
{
    let ghost start: Seq<u8> = dest@;
    let mut i: usize = 0;
    while i < src.len()
        invariant
            dest@.len() == start.len(),
            start.len() >= src@.len(),
            i <= src@.len(),
            forall|j: int| 0 <= j < i ==> dest@[j] == src@[j],
            forall|j: int| i <= j < start.len() ==> dest@[j] == start[j],
        decreases src@.len() - i,
    {
        dest[i] = src[i];
        i += 1;
    }
    proof {
        assert(dest@ =~= overwrite_prefix(start, src@));
    }
}

/// XOR with the same repeating key twice gives back the data.
pub proof fn law_repeating_key_xor_involution(data: Seq<u8>, key: Seq<u8>)
    requires
        key.len() > 0,
    ensures
        repeating_key_xor(repeating_key_xor(data, key), key) == data,
{
    let once = repeating_key_xor(data, key);
    let twice = repeating_key_xor(once, key);
    assert forall|i: int| 0 <= i < data.len() implies twice[i] == data[i] by {
        let k = key[i % key.len() as int];
        let d = data[i];
        assert(k ^ (k ^ d) == d) by (bit_vector);
    }
    assert(twice =~= data);
}

/// XOR with the same byte twice gives back the data.
pub proof fn law_single_byte_xor_involution(data: Seq<u8>, c: u8)
    ensures
        single_byte_xor(single_byte_xor(data, c), c) == data,
{
    let twice = single_byte_xor(single_byte_xor(data, c), c);
    assert forall|i: int| 0 <= i < data.len() implies twice[i] == data[i] by {
        let d = data[i];
        assert(c ^ (c ^ d) == d) by (bit_vector);
    }
    assert(twice =~= data);
}

/// XORing with `b` and then with `b` again gives back `a`, cut to the
/// shorter length.
pub proof fn law_xor_bytes_cancel(a: Seq<u8>, b: Seq<u8>)
    ensures
        xor_bytes(xor_bytes(a, b), b) == a.take(xor_bytes(a, b).len() as int),
{
    let once = xor_bytes(a, b);
    let twice = xor_bytes(once, b);
    assert forall|i: int| 0 <= i < once.len() implies twice[i] == a[i] by {
        let x = a[i];
        let y = b[i];
        assert((x ^ y) ^ y == x) by (bit_vector);
    }
    assert(twice =~= a.take(once.len() as int));
}

} // verus!
