use vstd::prelude::*;

verus! {

use vstd::arithmetic::power2::pow2;
use vstd::arithmetic::power2::lemma_pow2_adds;
use vstd::arithmetic::power2::lemma_pow2_pos;
use vstd::arithmetic::div_mod::lemma_fundamental_div_mod;
use vstd::arithmetic::div_mod::lemma_multiply_divide_lt;

/// `1u32 << w` is `pow2(w)` for shifts that fit in a `u32`.
pub(crate) proof fn lemma_shl1(w: u32)
    requires
        w < 32,
    ensures
        (1u32 << w) == pow2(w as nat),
{
    vstd::bits::lemma_u32_pow2_no_overflow(w as nat);
    vstd::bits::lemma_u32_shl_is_mul(1u32, w);
}

/// Splitting a value below `pow2(s + b)` at bit `s`: the upper part is below
/// `pow2(b)`, and the parts recombine.
pub(crate) proof fn lemma_split_at(acc: nat, s: nat, b: nat)
    requires
        acc < pow2(s + b),
    ensures
        acc / pow2(s) < pow2(b),
        acc % pow2(s) < pow2(s),
        acc == pow2(s) * (acc / pow2(s)) + acc % pow2(s),
{
    lemma_pow2_pos(s);
    lemma_pow2_pos(b);
    lemma_pow2_adds(s, b);
    lemma_multiply_divide_lt(acc as int, pow2(s) as int, pow2(b) as int);
    lemma_fundamental_div_mod(acc as int, pow2(s) as int);
    vstd::arithmetic::div_mod::lemma_mod_bound(acc as int, pow2(s) as int);
}

} // verus!
