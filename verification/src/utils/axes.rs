use vstd::prelude::*;

verus! {

/// The least number that, added to `axis_len`, gives a multiple of `div`.
pub open spec fn spec_divisible_pad(axis_len: nat, div: nat) -> nat
    recommends
        div > 0,
{
    if axis_len % div == 0 {
        0
    } else {
        (div - axis_len % div) as nat
    }
}

/// The padding that makes an axis of length `axis_len` divisible by `div`.
pub fn divisible_pad(axis_len: usize, div: usize) -> (pad: usize)
    requires
        div > 0,
    ensures
        pad == spec_divisible_pad(axis_len as nat, div as nat),
        pad < div,
        (axis_len + pad) % (div as int) == 0,
{
    let rest = axis_len % div;
    proof {
        vstd::arithmetic::div_mod::lemma_mod_self_0(div as int);
        if rest > 0 {
            vstd::arithmetic::div_mod::lemma_small_mod((div - rest) as nat, div as nat);
        }
        lemma_pad_divides(axis_len as nat, div as nat);
    }
    (div - rest) % div
}

/// Padding by [`spec_divisible_pad`] reaches a multiple of `div`.
pub proof fn lemma_pad_divides(axis_len: nat, div: nat)
    requires
        div > 0,
    ensures
        (axis_len + spec_divisible_pad(axis_len, div)) % div == 0,
        spec_divisible_pad(axis_len, div) < div,
{
    let rest = axis_len % div;
    vstd::arithmetic::div_mod::lemma_fundamental_div_mod(axis_len as int, div as int);
    if rest != 0 {
        let q = axis_len as int / div as int;
        assert(axis_len + (div - rest) == div * (q + 1)) by (nonlinear_arith)
            requires
                axis_len == div * q + rest,
        ;
        vstd::arithmetic::div_mod::lemma_mod_multiples_basic(q + 1, div as int);
        assert(div * (q + 1) == (q + 1) * div) by (nonlinear_arith);
    }
}

/// No smaller padding than [`spec_divisible_pad`] makes the axis divisible.
pub proof fn lemma_divisible_pad_least(axis_len: nat, div: nat, other: nat)
    requires
        div > 0,
        (axis_len + other) % div == 0,
    ensures
        spec_divisible_pad(axis_len, div) <= other,
{
    let rest = axis_len % div;
    if rest != 0 && other < div - rest {
        let q = axis_len as int / div as int;
        vstd::arithmetic::div_mod::lemma_fundamental_div_mod(axis_len as int, div as int);
        assert(axis_len + other == q * div + (rest + other)) by (nonlinear_arith)
            requires
                axis_len == div * q + rest,
        ;
        vstd::arithmetic::div_mod::lemma_mod_multiples_vanish(q, (rest + other) as int, div as int);
        vstd::arithmetic::div_mod::lemma_small_mod(rest + other, div);
    }
}

} // verus!
