//! Fixed-width string slots.
//!
//! Both formats store every name in a fixed-width byte slot: the semantic
//! value is the bytes up to the first zero, the remainder is ignored on read
//! (it may be stale data) and zero-filled on write.  A stored text therefore
//! needs room for at least one trailing zero byte.

use vstd::prelude::*;
use crate::EncodeError;
use crate::FieldId;

verus! {

/// The semantic value of a slot: its bytes up to (excluding) the first zero.
pub open spec fn text_of(w: Seq<u8>) -> Seq<u8>
    decreases w.len(),
{
    if w.len() == 0 {
        Seq::empty()
    } else if w[0] == 0 {
        Seq::empty()
    } else {
        seq![w[0]] + text_of(w.drop_first())
    }
}

/// `s` can live in a slot of width `n`: it leaves room for the mandatory
/// trailing zero and contains no zero byte that would cut it short on read.
pub open spec fn fits(s: Seq<u8>, n: nat) -> bool {
    &&& s.len() < n
    &&& forall|i: int| 0 <= i < s.len() ==> s[i] != 0
}

/// The `n`-byte slot holding `s`: the text followed by zero fill.
pub open spec fn slot_of(s: Seq<u8>, n: nat) -> Seq<u8>
    recommends
        s.len() <= n,
{
    s + Seq::new((n - s.len()) as nat, |i: int| 0u8)
}

/// The first zero cut: when the first `i` bytes of `w` are non-zero and byte
/// `i` (if any) is zero, the slot's text is exactly those `i` bytes.
proof fn lemma_text_of_cut(w: Seq<u8>, i: int)
    requires
        0 <= i <= w.len(),
        forall|j: int| 0 <= j < i ==> w[j] != 0,
        i == w.len() || w[i] == 0,
    ensures
        text_of(w) == w.take(i),
    decreases i,
{
    if i == 0 {
        assert(w.take(0) =~= Seq::<u8>::empty());
    } else {
        lemma_text_of_cut(w.drop_first(), i - 1);
        assert(w.take(i) =~= seq![w[0]] + w.drop_first().take(i - 1));
    }
}

/// Reading a slot gives back exactly the text that was stored in it.
///
/// Holds for every text that fits its slot; a text with an interior zero
/// byte cannot be stored faithfully, since the read stops at the first zero.
pub proof fn lemma_field_round_trip(s: Seq<u8>, n: nat)
    requires
        fits(s, n),
    ensures
        text_of(slot_of(s, n)) == s,
{
    let w = slot_of(s, n);
    assert(w[s.len() as int] == 0);
    lemma_text_of_cut(w, s.len() as int);
    assert(w.take(s.len() as int) =~= s);
}

/// Read the text of the `n`-byte slot at `pos`.
pub fn decode_field(buf: &Vec<u8>, pos: usize, n: usize) -> (r: Vec<u8>)
    requires
        pos + n <= buf.len(),
    ensures
        r@ == text_of(buf@.subrange(pos as int, pos + n)),
{
    let ghost w = buf@.subrange(pos as int, pos + n);
    let mut r: Vec<u8> = Vec::new();
    let mut i: usize = 0;
    while i < n
        invariant
            pos + n <= buf.len(),
            i <= n,
            w == buf@.subrange(pos as int, pos + n),
            r@ == w.take(i as int),
            forall|j: int| 0 <= j < i ==> w[j] != 0,
        decreases n - i,
    {
        let b = buf[pos + i];
        if b == 0 {
            proof {
                lemma_text_of_cut(w, i as int);
            }
            return r;
        }
        r.push(b);
        i = i + 1;
        assert(r@ =~= w.take(i as int));
    }
    proof {
        lemma_text_of_cut(w, n as int);
    }
    r
}

/// Append the `n`-byte slot holding `s`.
pub fn write_field(out: &mut Vec<u8>, s: &Vec<u8>, n: usize)
    requires
        s.len() < n,
    ensures
        final(out)@ == old(out)@ + slot_of(s@, n as nat),
{
    let mut i: usize = 0;
    while i < s.len()
        invariant
            s.len() < n,
            i <= s.len(),
            out@ == old(out)@ + s@.take(i as int),
        decreases s.len() - i,
    {
        out.push(s[i]);
        i = i + 1;
        assert(out@ =~= old(out)@ + s@.take(i as int));
    }
    while i < n
        invariant
            s.len() <= i <= n,
            out@ == old(out)@ + s@ + Seq::new((i - s.len()) as nat, |k: int| 0u8),
        decreases n - i,
    {
        out.push(0u8);
        i = i + 1;
        assert(out@ =~= old(out)@ + s@ + Seq::new((i - s.len()) as nat, |k: int| 0u8));
    }
    assert(out@ =~= old(out)@ + slot_of(s@, n as nat));
}

/// Store `s` in a slot of width `n`, or report which field overflowed.
///
/// Fails exactly when the byte length of `s` leaves no room for the
/// mandatory trailing zero.
pub fn encode_field(s: &Vec<u8>, n: usize, field: FieldId) -> (r: Result<Vec<u8>, EncodeError>)
    ensures
        match r {
            Ok(w) => s@.len() < n && w@ == slot_of(s@, n as nat),
            Err(e) => s@.len() >= n && e == (EncodeError::FieldTooLong { field, max: n }),
        },
{
    if s.len() >= n {
        return Err(EncodeError::FieldTooLong { field, max: n });
    }
    let mut w: Vec<u8> = Vec::new();
    write_field(&mut w, s, n);
    Ok(w)
}

} // verus!
