//! Splitting a raw address into block offset, set index and tag.

use vstd::arithmetic::power2::{lemma2_to64, lemma_pow2_pos, pow2};
use vstd::bits::{
    lemma_u64_low_bits_mask_is_mod, lemma_u64_pow2_no_overflow, lemma_u64_shl_is_mul,
    lemma_u64_shr_is_div, low_bits_mask,
};
use vstd::prelude::*;

verus! {

/// The three fields that an address is cut into.
#[derive(Clone, Copy, Debug, PartialEq, Eq, Structural)]
pub struct AddressParts {
    pub block_offset: u64,
    pub set_index: u64,
    pub tag: u64,
}

/// The low `offset_bits` bits of the address.
pub open spec fn offset_of(address: u64, offset_bits: nat) -> nat {
    address as nat % pow2(offset_bits)
}

/// The `index_bits` bits that follow the block offset.
pub open spec fn index_of(address: u64, offset_bits: nat, index_bits: nat) -> nat {
    (address as nat / pow2(offset_bits)) % pow2(index_bits)
}

/// Everything above the block offset and the set index.
pub open spec fn tag_of(address: u64, offset_bits: nat, index_bits: nat) -> nat {
    address as nat / pow2(offset_bits + index_bits)
}

/// Whether the two widths fit together in a 64-bit address.
pub open spec fn widths_fit(offset_bits: u64, index_bits: u64) -> bool {
    offset_bits + index_bits <= 64
}

/// The decomposition that `decompose_address` computes.
pub open spec fn parts_of(address: u64, offset_bits: nat, index_bits: nat) -> AddressParts {
    AddressParts {
        block_offset: offset_of(address, offset_bits) as u64,
        set_index: index_of(address, offset_bits, index_bits) as u64,
        tag: tag_of(address, offset_bits, index_bits) as u64,
    }
}

proof fn lemma_pow2_64()
    ensures
        pow2(64) == 0x1_0000_0000_0000_0000,
{
    lemma2_to64();
}

/// `x mod 2^n`, for any width up to the whole word.
fn low_bits(x: u64, n: u64) -> (r: u64)
    requires
        n <= 64,
    ensures
        r as nat == x as nat % pow2(n as nat),
{
    if n == 64 {
        proof {
            lemma_pow2_64();
        }
        x
    } else {
        proof {
            lemma_u64_pow2_no_overflow(n as nat);
            lemma_u64_shl_is_mul(1, n);
            lemma_u64_low_bits_mask_is_mod(x, n as nat);
        }
        let mask: u64 = (1u64 << n) - 1;
        assert(mask == low_bits_mask(n as nat) as u64);
        x & mask
    }
}

/// `x div 2^n`, for any width up to the whole word.
fn high_bits(x: u64, n: u64) -> (r: u64)
    requires
        n <= 64,
    ensures
        r as nat == x as nat / pow2(n as nat),
{
    if n == 64 {
        proof {
            lemma_pow2_64();
        }
        0
    } else {
        proof {
            lemma_u64_shr_is_div(x, n);
        }
        x >> n
    }
}

/// Splits `address` into block offset (its low `offset_bits` bits), set index
/// (the next `index_bits` bits) and tag (the rest). Widths that together
/// exceed the 64 bits of an address are refused with `None`.
pub fn decompose_address(address: u64, offset_bits: u64, index_bits: u64) -> (r: Option<
    AddressParts,
>)
    ensures
        r is Some <==> widths_fit(offset_bits, index_bits),
        r is Some ==> r->0 == parts_of(address, offset_bits as nat, index_bits as nat),
{
    if offset_bits > 64 || index_bits > 64 - offset_bits {
        return None;
    }
    let block_offset = low_bits(address, offset_bits);
    let above = high_bits(address, offset_bits);
    let set_index = low_bits(above, index_bits);
    let tag = high_bits(address, offset_bits + index_bits);
    proof {
        lemma_pow2_pos(offset_bits as nat);
        lemma_pow2_pos(index_bits as nat);
        lemma_pow2_pos((offset_bits + index_bits) as nat);
    }
    Some(AddressParts { block_offset, set_index, tag })
}

} // verus!
