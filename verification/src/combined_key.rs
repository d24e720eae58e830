//! The 128-bit keys that order the buy list and the fills of each receipt.
use vstd::prelude::*;

verus! {

/// 2^32, 2^64 and 2^96.
pub open spec fn pow32() -> int { 0x1_0000_0000 }
pub open spec fn pow64() -> int { 0x1_0000_0000_0000_0000 }
pub open spec fn pow96() -> int { 0x1_0000_0000_0000_0000_0000_0000 }

/// The value of a key packed from a discount (its low 32 bits kept), an epoch
/// and an identifier: discount in the top 32 bits, epoch in the next 32, the
/// identifier in the low 64.
pub open spec fn spec_pack(discount: u64, epoch: u32, id: u64) -> int {
    (discount as int % pow32()) * pow96() + (epoch as int) * pow64() + (id as int)
}

/// Lexicographic order on (discount, epoch, identifier).
pub open spec fn lex_less(d1: int, e1: int, i1: int, d2: int, e2: int, i2: int) -> bool {
    d1 < d2 || (d1 == d2 && (e1 < e2 || (e1 == e2 && i1 < i2)))
}

/// A key of the buy list or of the fill tree.
#[derive(PartialEq, Eq, PartialOrd, Ord, Debug)]
pub struct CombinedKey {
    pub key: u128,
}

impl CombinedKey {
    /// Packs a discount (in basis points, low 32 bits kept), an epoch and an
    /// identifier into one key.
    pub fn new(discount_u64: u64, epoch: u32, liquidity_id: u64) -> (r: Self)
        ensures
            r.key == spec_pack(discount_u64, epoch, liquidity_id),
    {
        let key = ((discount_u64 as u128) << 96u128) | ((epoch as u128) << 64u128) | (liquidity_id as u128);
        proof {
            let d = discount_u64;
            let e = epoch;
            let i = liquidity_id;
            assert(((d as u128) << 96u128) | ((e as u128) << 64u128) | (i as u128)
                == ((d as u128) % 0x1_0000_0000u128) * 0x1_0000_0000_0000_0000_0000_0000u128
                    + (e as u128) * 0x1_0000_0000_0000_0000u128 + (i as u128)) by (bit_vector);
        }
        CombinedKey { key }
    }
}

/// Keys are ordered by discount first, then by epoch, then by identifier,
/// for discounts below 2^32 (the low 32 bits of a discount are what a key
/// keeps).
pub proof fn lemma_key_order(d1: u64, e1: u32, i1: u64, d2: u64, e2: u32, i2: u64)
    requires
        d1 < pow32(),
        d2 < pow32(),
    ensures
        spec_pack(d1, e1, i1) < spec_pack(d2, e2, i2) <==> lex_less(
            d1 as int, e1 as int, i1 as int, d2 as int, e2 as int, i2 as int),
        spec_pack(d1, e1, i1) == spec_pack(d2, e2, i2) <==> (d1 == d2 && e1 == e2 && i1 == i2),
{
    assert(d1 as int % pow32() == d1);
    assert(d2 as int % pow32() == d2);
}

/// The parts of a key are recovered from it.
pub proof fn lemma_key_parts(d: u64, e: u32, i: u64)
    ensures
        spec_pack(d, e, i) / pow96() == d as int % pow32(),
        (spec_pack(d, e, i) / pow64()) % pow32() == e as int,
        spec_pack(d, e, i) % pow64() == i as int,
        0 <= spec_pack(d, e, i) <= u128::MAX,
{
    let dd = d as int % pow32();
    assert(0 <= dd < pow32());
    let low = (e as int) * pow64() + (i as int);
    assert(0 <= low < pow96());
    assert(spec_pack(d, e, i) == dd * pow96() + low);
    vstd::arithmetic::div_mod::lemma_fundamental_div_mod_converse(spec_pack(d, e, i), pow96(), dd, low);
    vstd::arithmetic::div_mod::lemma_fundamental_div_mod_converse(
        spec_pack(d, e, i), pow64(), dd * pow32() + (e as int), i as int);
    vstd::arithmetic::div_mod::lemma_fundamental_div_mod_converse(
        dd * pow32() + (e as int), pow32(), dd, e as int);
}

} // verus!
