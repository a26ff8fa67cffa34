use vstd::prelude::*;

verus! {

/// Size in bytes of a page and of a physical frame.
pub const PAGE_SIZE: u64 = 4096;

/// `addr` rounded up to the next multiple of `align`.
pub open spec fn align_up_spec(addr: int, align: int) -> int {
    if addr % align == 0 {
        addr
    } else {
        addr - addr % align + align
    }
}

/// Basic facts about the remainder of a division.
pub proof fn lemma_mod_facts(a: int, m: int)
    requires
        a >= 0,
        m > 0,
    ensures
        0 <= a % m < m,
        a % m <= a,
        (a - a % m) % m == 0,
        (a - a % m + m) % m == 0,
{
    vstd::arithmetic::div_mod::lemma_fundamental_div_mod(a, m);
    vstd::arithmetic::div_mod::lemma_mod_multiples_basic(a / m, m);
    vstd::arithmetic::div_mod::lemma_mod_multiples_basic(a / m + 1, m);
    assert((a / m + 1) * m == (a / m) * m + m) by (nonlinear_arith);
    assert(m * (a / m) == (a / m) * m) by (nonlinear_arith);
}

/// What rounding up to a multiple gives.
pub proof fn lemma_align_up(a: int, m: int)
    requires
        a >= 0,
        m > 0,
    ensures
        align_up_spec(a, m) % m == 0,
        a <= align_up_spec(a, m) <= a + m - 1,
        a % m == 0 ==> align_up_spec(a, m) == a,
{
    lemma_mod_facts(a, m);
}

/// A multiple of a multiple of `k` is a multiple of `k`.
pub proof fn lemma_multiple_transitive(a: int, m: int, k: int)
    requires
        a >= 0,
        m > 0,
        k > 0,
        a % m == 0,
        m % k == 0,
    ensures
        a % k == 0,
{
    vstd::arithmetic::div_mod::lemma_fundamental_div_mod(a, m);
    vstd::arithmetic::div_mod::lemma_fundamental_div_mod(m, k);
    let q = a / m;
    let p = m / k;
    assert(a == k * (p * q)) by (nonlinear_arith)
        requires
            a == m * q,
            m == k * p,
    ;
    vstd::arithmetic::div_mod::lemma_mod_multiples_basic(p * q, k);
    assert((p * q) * k == k * (p * q)) by (nonlinear_arith);
}

/// `n` is a power of two.
pub open spec fn is_pow2(n: int) -> bool
    decreases n,
{
    if n <= 0 {
        false
    } else if n == 1 {
        true
    } else {
        n % 2 == 0 && is_pow2(n / 2)
    }
}

/// A power of two of at least eight is a multiple of eight.
pub proof fn lemma_pow2_multiple_of_8(n: int)
    requires
        is_pow2(n),
        n >= 8,
    ensures
        n % 8 == 0,
{
    reveal_with_fuel(is_pow2, 4);
    let h = n / 2;
    let q = h / 2;
    assert(q >= 2);
    assert(q % 2 == 0);
}

/// A power of two divides every larger power of two.
pub proof fn lemma_pow2_divides(a: int, b: int)
    requires
        is_pow2(a),
        is_pow2(b),
        a <= b,
    ensures
        b % a == 0,
    decreases b,
{
    if b == a {
        vstd::arithmetic::div_mod::lemma_mod_self_0(a);
    } else {
        assert(b != 1) by {
            if b == 1 {
                assert(a <= 0 || a == 1);
            }
        }
        let h = b / 2;
        assert(b == 2 * h);
        if a <= h {
            lemma_pow2_divides(a, h);
            vstd::arithmetic::div_mod::lemma_mod_multiples_basic(2, h);
            lemma_multiple_transitive(b, h, a);
        } else {
            // a lies strictly between h and 2h, which no power of two does
            lemma_pow2_between(a, h);
        }
    }
}

/// No power of two lies strictly between `h` and `2h`, for `h` a power of two.
proof fn lemma_pow2_between(a: int, h: int)
    requires
        is_pow2(a),
        is_pow2(h),
    ensures
        !(h < a < 2 * h),
    decreases h,
{
    if h > 1 && h < a < 2 * h {
        assert(a != 1);
        lemma_pow2_between(a / 2, h / 2);
    }
}

/// Whether `n` is a power of two.
pub fn is_power_of_two(n: u64) -> (r: bool)
    ensures
        r == is_pow2(n as int),
{
    if n == 0 {
        return false;
    }
    let mut m: u64 = n;
    while m > 1
        invariant
            m > 0,
            is_pow2(n as int) == is_pow2(m as int),
        decreases m,
    {
        if m % 2 != 0 {
            return false;
        }
        m = m / 2;
    }
    true
}

/// Align the given address `addr` upwards to alignment `align`.
pub fn align_up(addr: u64, align: u64) -> (r: u64)
    requires
        align > 0,
        align_up_spec(addr as int, align as int) <= u64::MAX,
    ensures
        r == align_up_spec(addr as int, align as int),
        r % align == 0,
        addr <= r < addr + align,
        addr % align == 0 ==> r == addr,
{
    let remainder = addr % align;
    proof {
        lemma_mod_facts(addr as int, align as int);
        assert(remainder as int == addr as int % align as int);
    }
    if remainder == 0 {
        addr
    } else {
        addr - remainder + align
    }
}

} // verus!
