use vstd::prelude::*;

verus! {

use vstd::string::StringSliceAdditionalSpecFns;

/// The smallest multiple of `align` that is at least `value`.
pub open spec fn spec_round_up(value: int, align: int) -> int
    recommends
        align > 0,
{
    if value % align == 0 {
        value
    } else {
        value + align - value % align
    }
}

/// The largest multiple of `align` that is at most `value`.
pub open spec fn spec_round_down(value: int, align: int) -> int
    recommends
        align > 0,
{
    value - value % align
}

pub fn round_up(value: u64, align: u64) -> (r: u64)
    requires
        align > 0,
        value + align - 1 <= u64::MAX,
    ensures
        r as int == spec_round_up(value as int, align as int),
        r % align == 0,
        value <= r < value + align,
{
    let rem = value % align;
    proof {
        let v = value as int;
        let a = align as int;
        let q = v / a;
        vstd::arithmetic::div_mod::lemma_mod_bound(v, a);
        vstd::arithmetic::div_mod::lemma_fundamental_div_mod(v, a);
        if rem != 0 {
            assert(v + (a - rem) == (q + 1) * a) by (nonlinear_arith)
                requires v == q * a + rem;
            vstd::arithmetic::div_mod::lemma_mod_multiples_basic(q + 1, a);
        }
    }
    if rem == 0 {
        value
    } else {
        value + (align - rem)
    }
}

pub fn round_down(value: u64, align: u64) -> (r: u64)
    requires
        align > 0,
    ensures
        r as int == spec_round_down(value as int, align as int),
        r % align == 0,
        r <= value < r + align,
{
    let rem = value % align;
    proof {
        let v = value as int;
        let a = align as int;
        let q = v / a;
        vstd::arithmetic::div_mod::lemma_mod_bound(v, a);
        vstd::arithmetic::div_mod::lemma_fundamental_div_mod(v, a);
        vstd::arithmetic::div_mod::lemma_div_pos_is_pos(v, a);
        assert(v - rem == q * a) by (nonlinear_arith)
            requires v == q * a + rem;
        assert(q * a >= 0) by (nonlinear_arith)
            requires q >= 0 && a > 0;
        vstd::arithmetic::div_mod::lemma_mod_multiples_basic(q, a);
    }
    value - rem
}


pub proof fn lemma_round_up_one(v: int)
    ensures
        spec_round_up(v, 1) == v,
{
    vstd::arithmetic::div_mod::lemma_fundamental_div_mod(v, 1);
    vstd::arithmetic::div_mod::lemma_mod_bound(v, 1);
}


/// A round-up by a positive alignment adds less than the alignment.
pub proof fn lemma_round_up_le(v: int, a: int, bound: int)
    requires
        a > 0,
        v >= 0,
        v + a <= bound,
    ensures
        spec_round_up(v, a) < bound,
{
    vstd::arithmetic::div_mod::lemma_mod_bound(v, a);
}


/// Whether a directory entry name is one of the two synthetic entries.
pub fn is_dot_or_dotdot(s: &str) -> (r: bool)
    ensures
        r == (s.spec_bytes() == seq![46u8] || s.spec_bytes() == seq![46u8, 46u8]),
{
    let b = s.as_bytes();
    if b.len() == 1 && b[0] == 46u8 {
        proof {
            assert(s.spec_bytes() =~= seq![46u8]);
        }
        true
    } else if b.len() == 2 && b[0] == 46u8 && b[1] == 46u8 {
        proof {
            assert(s.spec_bytes() =~= seq![46u8, 46u8]);
        }
        true
    } else {
        proof {
            if s.spec_bytes() == seq![46u8] {
                assert(s.spec_bytes().len() == 1);
            }
            if s.spec_bytes() == seq![46u8, 46u8] {
                assert(s.spec_bytes().len() == 2);
            }
        }
        false
    }
}

} // verus!
