//! A non-cryptographic mixing hash over raw bytes, on 32-bit words with
//! arithmetic modulo 2^32.
//!
//! The input is consumed in chunks of at most twelve bytes. Each chunk is
//! folded little-endian into three words; a mix round runs between chunks and
//! a closing round runs once at the end.

use vstd::prelude::*;

verus! {

/// The seed every word starts from, before the input length is added.
pub const SEED: u32 = 0xdead_beef;

/// The number of bytes folded into the three words at a time.
pub const CHUNK: usize = 12;

/// The sum of two words modulo 2^32.
pub open spec fn add32(x: u32, y: u32) -> u32 {
    ((x + y) % 0x1_0000_0000) as u32
}

/// The difference of two words modulo 2^32.
pub open spec fn sub32(x: u32, y: u32) -> u32 {
    ((x - y) % 0x1_0000_0000) as u32
}

/// `x` rotated left by `k` bits, for `0 < k < 32`.
pub open spec fn rot_left(x: u32, k: usize) -> u32 {
    (x << k) | (x >> ((32 - k) as usize))
}

/// The three words after one mix round.
pub open spec fn mixed(a: u32, b: u32, c: u32) -> (u32, u32, u32) {
    let a = sub32(a, c) ^ rot_left(c, 4);
    let c = add32(c, b);
    let b = sub32(b, a) ^ rot_left(a, 6);
    let a = add32(a, c);
    let c = sub32(c, b) ^ rot_left(b, 8);
    let b = add32(b, a);
    let a = sub32(a, c) ^ rot_left(c, 16);
    let c = add32(c, b);
    let b = sub32(b, a) ^ rot_left(a, 19);
    let a = add32(a, c);
    let c = sub32(c, b) ^ rot_left(b, 4);
    let b = add32(b, a);
    (a, b, c)
}

/// The three words after the closing round.
pub open spec fn final_mixed(a: u32, b: u32, c: u32) -> (u32, u32, u32) {
    let c = sub32(c ^ b, rot_left(b, 14));
    let a = sub32(a ^ c, rot_left(c, 11));
    let b = sub32(b ^ a, rot_left(a, 25));
    let c = sub32(c ^ b, rot_left(b, 16));
    let a = sub32(a ^ c, rot_left(c, 4));
    let b = sub32(b ^ a, rot_left(a, 14));
    let c = sub32(c ^ b, rot_left(b, 24));
    (a, b, c)
}

/// The little-endian value of one to four bytes; zero for any other length.
pub open spec fn le_word(s: Seq<u8>) -> u32 {
    if s.len() == 1 {
        s[0] as u32
    } else if s.len() == 2 {
        (s[0] + 0x100 * s[1]) as u32
    } else if s.len() == 3 {
        (s[0] + 0x100 * s[1] + 0x1_0000 * s[2]) as u32
    } else if s.len() == 4 {
        (s[0] + 0x100 * s[1] + 0x1_0000 * s[2] + 0x100_0000 * s[3]) as u32
    } else {
        0
    }
}

/// The three words after a chunk of at most `CHUNK` bytes is folded in: bytes
/// 0 to 3 go to `a`, bytes 4 to 7 to `b`, bytes 8 to 11 to `c`, each group
/// little-endian and only as far as the chunk reaches.
pub open spec fn folded(a: u32, b: u32, c: u32, chunk: Seq<u8>) -> (u32, u32, u32) {
    let len = chunk.len() as int;
    (
        add32(a, le_word(chunk.subrange(0, vstd::math::min(4, len)))),
        add32(b, le_word(chunk.subrange(vstd::math::min(4, len), vstd::math::min(8, len)))),
        add32(c, le_word(chunk.subrange(vstd::math::min(8, len), len))),
    )
}

/// The three words after all of `bytes` is consumed: every chunk is folded
/// in, and a mix round follows each chunk but the last.
pub open spec fn absorbed(a: u32, b: u32, c: u32, bytes: Seq<u8>) -> (u32, u32, u32)
    decreases bytes.len(),
{
    if bytes.len() <= CHUNK {
        folded(a, b, c, bytes)
    } else {
        let (a, b, c) = folded(a, b, c, bytes.subrange(0, CHUNK as int));
        let (a, b, c) = mixed(a, b, c);
        absorbed(a, b, c, bytes.subrange(CHUNK as int, bytes.len() as int))
    }
}

/// The word all three words start from: the seed plus the input length,
/// modulo 2^32.
pub open spec fn initial_word(len: nat) -> u32 {
    ((SEED + len) % 0x1_0000_0000) as u32
}

/// The three words `(a, b, c)` the hash ends with on `bytes`.
pub open spec fn hash_words(bytes: Seq<u8>) -> (u32, u32, u32) {
    let initial = initial_word(bytes.len());
    let (a, b, c) = absorbed(initial, initial, initial, bytes);
    final_mixed(a, b, c)
}

/// Adds two words modulo 2^32.
fn add_words(x: u32, y: u32) -> (r: u32)
    ensures
        r == add32(x, y),
{
    x.wrapping_add(y)
}

/// Subtracts `y` from `x` modulo 2^32.
fn sub_words(x: u32, y: u32) -> (r: u32)
    ensures
        r == sub32(x, y),
{
    x.wrapping_sub(y)
}

/// Rotates `x` left by `k` bits.
pub fn rot(x: u32, k: usize) -> (r: u32)
    requires
        0 < k < 32,
    ensures
        r == rot_left(x, k),
{
    (x << k) | (x >> (32 - k))
}

/// Runs one mix round on the three words.
pub fn mix(a: &mut u32, b: &mut u32, c: &mut u32)
    ensures
        (*final(a), *final(b), *final(c)) == mixed(*old(a), *old(b), *old(c)),
{
    *a = sub_words(*a, *c); *a = *a ^ rot(*c, 4); *c = add_words(*c, *b);
    *b = sub_words(*b, *a); *b = *b ^ rot(*a, 6); *a = add_words(*a, *c);
    *c = sub_words(*c, *b); *c = *c ^ rot(*b, 8); *b = add_words(*b, *a);
    *a = sub_words(*a, *c); *a = *a ^ rot(*c, 16); *c = add_words(*c, *b);
    *b = sub_words(*b, *a); *b = *b ^ rot(*a, 19); *a = add_words(*a, *c);
    *c = sub_words(*c, *b); *c = *c ^ rot(*b, 4); *b = add_words(*b, *a);
}

/// Runs the closing round on the three words.
pub fn final_mix(a: &mut u32, b: &mut u32, c: &mut u32)
    ensures
        (*final(a), *final(b), *final(c)) == final_mixed(*old(a), *old(b), *old(c)),
{
    *c = *c ^ *b; *c = sub_words(*c, rot(*b, 14));
    *a = *a ^ *c; *a = sub_words(*a, rot(*c, 11));
    *b = *b ^ *a; *b = sub_words(*b, rot(*a, 25));
    *c = *c ^ *b; *c = sub_words(*c, rot(*b, 16));
    *a = *a ^ *c; *a = sub_words(*a, rot(*c, 4));
    *b = *b ^ *a; *b = sub_words(*b, rot(*a, 14));
    *c = *c ^ *b; *c = sub_words(*c, rot(*b, 24));
}

/// The little-endian value of a slice of one to four bytes; zero for a
/// slice of any other length.
pub fn shift_add(s: &[u8]) -> (r: u32)
    ensures
        r == le_word(s@),
{
    let len = s.len();
    if len == 4 {
        let (b0, b1, b2, b3) = (s[0], s[1], s[2], s[3]);
        assert((b1 as u32) << 8 == 0x100 * b1) by (bit_vector);
        assert((b2 as u32) << 16 == 0x1_0000 * b2) by (bit_vector);
        assert((b3 as u32) << 24 == 0x100_0000 * b3) by (bit_vector);
        (b0 as u32) + ((b1 as u32) << 8) + ((b2 as u32) << 16) + ((b3 as u32) << 24)
    } else if len == 3 {
        let (b0, b1, b2) = (s[0], s[1], s[2]);
        assert((b1 as u32) << 8 == 0x100 * b1) by (bit_vector);
        assert((b2 as u32) << 16 == 0x1_0000 * b2) by (bit_vector);
        (b0 as u32) + ((b1 as u32) << 8) + ((b2 as u32) << 16)
    } else if len == 2 {
        let (b0, b1) = (s[0], s[1]);
        assert((b1 as u32) << 8 == 0x100 * b1) by (bit_vector);
        (b0 as u32) + ((b1 as u32) << 8)
    } else if len == 1 {
        s[0] as u32
    } else {
        0
    }
}

/// Folds a chunk of at most `CHUNK` bytes into the three words.
fn fold_chunk(chunk: &[u8], a: &mut u32, b: &mut u32, c: &mut u32)
    requires
        chunk@.len() <= CHUNK,
    ensures
        (*final(a), *final(b), *final(c)) == folded(*old(a), *old(b), *old(c), chunk@),
{
    let size = chunk.len();
    if size >= 8 {
        *c = add_words(*c, shift_add(&chunk[8..size]));
        *b = add_words(*b, shift_add(&chunk[4..8]));
        *a = add_words(*a, shift_add(&chunk[0..4]));
    } else if size >= 4 {
        assert(chunk@.subrange(size as int, size as int).len() == 0);
        *b = add_words(*b, shift_add(&chunk[4..size]));
        *a = add_words(*a, shift_add(&chunk[0..4]));
    } else {
        assert(chunk@.subrange(size as int, size as int).len() == 0);
        assert(chunk@.subrange(0, size as int) == chunk@);
        *a = add_words(*a, shift_add(chunk));
    }
}

/// The word all three words start from, for an input of `len` bytes.
fn seed_for(len: usize) -> (r: u32)
    ensures
        r == initial_word(len as nat),
{
    let low = #[verifier::truncate] (len as u32);
    proof {
        assert(low == (len as u64) % 0x1_0000_0000) by (bit_vector)
            requires
                low == len as u32,
        ;
        vstd::arithmetic::div_mod::lemma_add_mod_noop_right(
            SEED as int,
            len as int,
            0x1_0000_0000,
        );
    }
    add_words(SEED, low)
}

/// Hashes `bytes` to the pair of words `(c, b)` the closing round leaves,
/// and their combination `c + 2^32 * b` as one 64-bit value.
pub fn hash(bytes: &[u8]) -> (r: (u32, u32, u64))
    ensures
        r.0 == hash_words(bytes@).2,
        r.1 == hash_words(bytes@).1,
        r.2 == r.0 + 0x1_0000_0000 * r.1,
{
    let len = bytes.len();
    let initial = seed_for(len);
    let mut a = initial;
    let mut b = initial;
    let mut c = initial;
    let mut start: usize = 0;

    assert(bytes@.subrange(0, len as int) == bytes@);
    while len - start > CHUNK
        invariant
            len == bytes@.len(),
            start <= len,
            absorbed(initial, initial, initial, bytes@) == absorbed(
                a,
                b,
                c,
                bytes@.subrange(start as int, len as int),
            ),
        decreases len - start,
    {
        let ghost rest = bytes@.subrange(start as int, len as int);
        let chunk = &bytes[start..start + CHUNK];
        assert(chunk@ == rest.subrange(0, CHUNK as int));
        assert(rest.subrange(CHUNK as int, rest.len() as int) == bytes@.subrange(
            start + CHUNK,
            len as int,
        ));
        fold_chunk(chunk, &mut a, &mut b, &mut c);
        mix(&mut a, &mut b, &mut c);
        start += CHUNK;
    }

    fold_chunk(&bytes[start..len], &mut a, &mut b, &mut c);
    final_mix(&mut a, &mut b, &mut c);

    assert((b as u64) << 32 == 0x1_0000_0000 * b) by (bit_vector);
    (c, b, (c as u64) + ((b as u64) << 32))
}

} // verus!
