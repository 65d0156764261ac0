//! MIDI variable-length quantities.
//!
//! A quantity is written in base 128, most significant digit first.  Every
//! digit but the last carries bit 7 as a continuation flag.

use vstd::prelude::*;

verus! {

/// The digits of `v` in base 128, most significant first, each with the
/// continuation flag set.  Zero has no digits.
pub open spec fn vlq_leading(v: nat) -> Seq<u8>
    decreases v,
{
    if v == 0 {
        Seq::empty()
    } else {
        vlq_leading(v / 128).push((128 + v % 128) as u8)
    }
}

/// The variable-length encoding of `v`: the flagged digits of `v / 128`
/// followed by the last digit, unflagged.
pub open spec fn vlq(v: nat) -> Seq<u8> {
    vlq_leading(v / 128).push((v % 128) as u8)
}

/// Whether `s` has the shape of one variable-length quantity: it is not
/// empty, its last byte has no continuation flag and all others have it.
pub open spec fn vlq_well_formed(s: Seq<u8>) -> bool {
    &&& s.len() > 0
    &&& s.last() < 128
    &&& forall|i: int| 0 <= i < s.len() - 1 ==> s[i] >= 128
}

/// The number that the low seven bits of the bytes of `s` spell in base
/// 128, most significant digit first.
pub open spec fn vlq_value(s: Seq<u8>) -> nat
    decreases s.len(),
{
    if s.len() == 0 {
        0
    } else {
        vlq_value(s.drop_last()) * 128 + (s.last() % 128) as nat
    }
}

/// Flagged digits decode to the number they were made from.
proof fn lemma_leading_value(v: nat)
    ensures
        vlq_value(vlq_leading(v)) == v,
        forall|i: int| 0 <= i < vlq_leading(v).len() ==> vlq_leading(v)[i] >= 128,
    decreases v,
{
    if v != 0 {
        lemma_leading_value(v / 128);
        let s = vlq_leading(v);
        assert(s.drop_last() =~= vlq_leading(v / 128));
    }
}

/// Round trip: the encoding of any number is well formed and decodes to
/// that number.
pub proof fn lemma_vlq_round_trip(v: nat)
    ensures
        vlq_well_formed(vlq(v)),
        vlq_value(vlq(v)) == v,
{
    lemma_leading_value(v / 128);
    assert(vlq(v).drop_last() =~= vlq_leading(v / 128));
}

/// An encoding is one to five bytes long for a 32-bit number, and at most
/// four bytes long below 2^28.
pub proof fn lemma_vlq_len(v: nat)
    ensures
        vlq(v).len() >= 1,
        v <= 0x0FFF_FFFF ==> vlq(v).len() <= 4,
        v <= 0xFFFF_FFFF ==> vlq(v).len() <= 5,
{
    reveal_with_fuel(vlq_leading, 6);
}

/// Encodes `value` as a variable-length quantity.
pub fn var_len_from(value: u32) -> (bytes: Vec<u8>)
    ensures
        bytes@ == vlq(value as nat),
{
    let mut bytes: Vec<u8> = Vec::new();
    if value >= 0x1000_0000 {
        bytes.push((128 + value / 0x1000_0000 % 128) as u8);
    }
    if value >= 0x20_0000 {
        bytes.push((128 + value / 0x20_0000 % 128) as u8);
    }
    if value >= 0x4000 {
        bytes.push((128 + value / 0x4000 % 128) as u8);
    }
    if value >= 0x80 {
        bytes.push((128 + value / 0x80 % 128) as u8);
    }
    bytes.push((value % 128) as u8);
    proof {
        reveal_with_fuel(vlq_leading, 6);
        assert(bytes@ =~= vlq(value as nat));
    }
    bytes
}

/// Decodes one variable-length quantity that spans the whole of `bytes`.
///
/// Returns `None` when `bytes` is not well formed or spells a number that
/// does not fit 32 bits.
pub fn var_len_value(bytes: &[u8]) -> (value: Option<u32>)
    ensures
        value == if vlq_well_formed(bytes@) && vlq_value(bytes@) <= u32::MAX {
            Some(vlq_value(bytes@) as u32)
        } else {
            None
        },
{
    let n = bytes.len();
    if n == 0 {
        return None;
    }
    let mut acc: u64 = 0;
    let mut i: usize = 0;
    while i < n
        invariant
            n == bytes@.len(),
            0 <= i <= n,
            acc == vlq_value(bytes@.take(i as int)),
            acc <= u32::MAX,
            forall|j: int| 0 <= j < i ==> j < n - 1 ==> bytes@[j] >= 128,
            forall|j: int| 0 <= j < i ==> j == n - 1 ==> bytes@[j] < 128,
        decreases n - i,
    {
        let b = bytes[i];
        let last = i == n - 1;
        if (b >= 128) == last {
            return None;
        }
        proof {
            assert(bytes@.take(i + 1).drop_last() =~= bytes@.take(i as int));
            assert(bytes@.take(i + 1).last() == b);
        }
        acc = acc * 128 + (b % 128) as u64;
        if acc > 0xFFFF_FFFF {
            proof {
                lemma_value_prefix(bytes@, i + 1);
            }
            return None;
        }
        i += 1;
    }
    proof {
        assert(bytes@.take(n as int) =~= bytes@);
    }
    Some(acc as u32)
}

/// A prefix never spells a larger number than the whole.
proof fn lemma_value_prefix(s: Seq<u8>, k: int)
    requires
        0 <= k <= s.len(),
    ensures
        vlq_value(s.take(k)) <= vlq_value(s),
    decreases s.len() - k,
{
    if k < s.len() {
        lemma_value_prefix(s, k + 1);
        assert(s.take(k + 1).drop_last() =~= s.take(k));
    } else {
        assert(s.take(k) =~= s);
    }
}

} // verus!
