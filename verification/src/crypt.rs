//! The symmetric stream transform over the 688-byte leaderboard block.
//!
//! The two 344-byte leaderboard sub-blocks are processed as one continuous
//! 688-byte stream; the keystream state is not reset at the boundary.  The
//! keystream depends only on the byte position, so the transform is its own
//! inverse: one call deciphers, the next call re-enciphers.
//!
//! All state arithmetic is 16-bit wraparound arithmetic; it is carried here
//! in `u16` words with the signed truncated remainder of the original
//! recurrence written out over the two's-complement pattern.

use vstd::prelude::*;

verus! {

/// Truncated 16-bit signed remainder by 3389 (`0xD3D`), expressed on the
/// two's-complement bit pattern: patterns at or above `0x8000` are negative,
/// and their remainder is the negated remainder of their magnitude.
pub open spec fn wrap_rem(a: u16) -> u16 {
    if a < 32768 {
        (a % 3389) as u16
    } else {
        ((65536 - ((65536 - a) % 3389)) % 65536) as u16
    }
}

/// One step of the keystream recurrence on the state pair `(a, b)`:
/// `b' = b + wrap_rem(a) * 0xD3D` and `a' = b' * 0x1F + 0xD3D`,
/// both with 16-bit wraparound.
pub open spec fn cipher_step(st: (u16, u16)) -> (u16, u16) {
    let r = wrap_rem(st.0);
    let b2 = ((st.1 + r * 3389) % 65536) as u16;
    let a2 = ((b2 * 31 + 3389) % 65536) as u16;
    (a2, b2)
}

/// Keystream state before byte `i`; the initial state is
/// `a = 0x15`, `b = 0x2637`, set up once per call.
pub open spec fn cipher_state(i: nat) -> (u16, u16)
    decreases i,
{
    if i == 0 {
        (0x15u16, 0x2637u16)
    } else {
        cipher_step(cipher_state((i - 1) as nat))
    }
}

/// The keystream byte XORed onto byte `i`: the low byte of `a`.
pub open spec fn key_byte(i: nat) -> u8 {
    (cipher_state(i).0 % 256) as u8
}

/// The transform of a whole buffer: the first 688 bytes are XORed with the
/// keystream, any bytes beyond are left as they are.
pub open spec fn crypt_seq(s: Seq<u8>) -> Seq<u8> {
    Seq::new(s.len(), |i: int| if i < 688 { s[i] ^ key_byte(i as nat) } else { s[i] })
}

/// Applying the transform twice gives back the original buffer, whatever
/// its first 688 bytes hold.
pub proof fn lemma_crypt_involutive(s: Seq<u8>)
    ensures
        crypt_seq(crypt_seq(s)) == s,
{
    assert forall|i: int| 0 <= i < s.len() implies crypt_seq(crypt_seq(s))[i] == s[i] by {
        if i < 688 {
            let x = s[i];
            let k = key_byte(i as nat);
            assert((x ^ k) ^ k == x) by (bit_vector);
        }
    }
    assert(crypt_seq(crypt_seq(s)) =~= s);
}

/// Decipher or re-encipher the leaderboard block; the same transform does
/// both.  Bytes past the first 688 pass through unchanged.
pub fn crypt_top10(top10: Vec<u8>) -> (r: Vec<u8>)
    requires
        top10.len() >= 688,
    ensures
        r@ == crypt_seq(top10@),
{
    let ghost orig = top10@;
    let mut data = top10;
    let mut a: u16 = 0x15;
    let mut b: u16 = 0x2637;
    let mut i: usize = 0;
    while i < 688
        invariant
            i <= 688,
            data@.len() == orig.len() >= 688,
            (a, b) == cipher_state(i as nat),
            forall|j: int| 0 <= j < i ==> data@[j] == orig[j] ^ key_byte(j as nat),
            forall|j: int| i <= j < orig.len() ==> data@[j] == orig[j],
        decreases 688 - i,
    {
        let x = data[i];
        data.set(i, x ^ (a % 256) as u8);
        let r: u16 = if a < 32768 {
            a % 3389
        } else {
            let t: u32 = (65536 - a as u32) % 3389;
            ((65536 - t) % 65536) as u16
        };
        b = ((b as u32 + r as u32 * 3389) % 65536) as u16;
        a = ((b as u32 * 31 + 3389) % 65536) as u16;
        i = i + 1;
        assert((a, b) == cipher_state(i as nat));
    }
    assert(data@ =~= crypt_seq(orig));
    data
}

} // verus!
