use vstd::prelude::*;

verus! {

/// Whether `r` is the whole number nearest to the square root of `n`.
///
/// For a positive `n` that is `r - 1/2 < sqrt(n) < r + 1/2`, squared and
/// brought to whole numbers; a square root never ends in one half.
pub open spec fn nearest_to_sqrt(n: nat, r: nat) -> bool {
    if n == 0 {
        r == 0
    } else {
        r * r - r < n <= r * r + r
    }
}

/// The square root of `n`, rounded to the nearest whole number.
pub open spec fn rounded_sqrt(n: nat) -> nat {
    choose|r: nat| nearest_to_sqrt(n, r)
}

/// Five percent of `n`, rounded to the nearest whole number, halves upwards.
pub open spec fn five_percent(n: nat) -> nat {
    (n + 10) / 20
}

/// The chunk size that the named policy picks for a list of `total` elements:
/// the rounded square root of `total`, or five percent of it, and 1 where
/// that would be 0.
pub open spec fn optimized_size(total: nat, by_sqrt: bool) -> nat {
    let target = if by_sqrt {
        rounded_sqrt(total)
    } else {
        five_percent(total)
    };
    if target == 0 {
        1
    } else {
        target
    }
}

/// Only one number is nearest to a square root.
pub proof fn lemma_rounded_sqrt(n: nat, r: nat)
    requires
        nearest_to_sqrt(n, r),
    ensures
        rounded_sqrt(n) == r,
        n >= 1 ==> 1 <= r <= n,
{
    let c = rounded_sqrt(n);
    assert(nearest_to_sqrt(n, c));
    if n > 0 {
        assert(c == r) by (nonlinear_arith)
            requires
                c * c - c < n <= c * c + c,
                r * r - r < n <= r * r + r,
        {
            if c < r {
                assert(c + 1 <= r);
                assert((c + 1) * (c + 1) - (c + 1) <= r * r - r);
                assert((c + 1) * (c + 1) - (c + 1) == c * c + c);
            } else if r < c {
                assert(r + 1 <= c);
                assert((r + 1) * (r + 1) - (r + 1) <= c * c - c);
                assert((r + 1) * (r + 1) - (r + 1) == r * r + r);
            }
        }
        assert(1 <= r <= n) by (nonlinear_arith)
            requires
                n >= 1,
                r * r - r < n <= r * r + r,
        {
            if r > n {
                assert(r * r - r >= (n + 1) * n);
            }
        }
    }
}

/// Computes the square root of `n`, rounded to the nearest whole number.
pub fn nearest_sqrt(n: usize) -> (r: usize)
    ensures
        r == rounded_sqrt(n as nat),
{
    if n == 0 {
        proof {
            lemma_rounded_sqrt(0, 0);
        }
        return 0;
    }
    let m: u64 = n as u64;
    let mut lo: u64 = 0;
    let mut hi: u64 = 0x1_0000_0000;
    assert(m < hi * hi) by (nonlinear_arith)
        requires
            m <= 0xffff_ffff_ffff_ffff,
            hi == 0x1_0000_0000,
    ;
    while hi - lo > 1
        invariant
            lo < hi <= 0x1_0000_0000,
            lo * lo <= m,
            m < hi * hi,
        decreases hi - lo,
    {
        let mid: u64 = lo + (hi - lo) / 2;
        assert(mid * mid <= 0xffff_ffff * 0xffff_ffff) by (nonlinear_arith)
            requires
                0 <= mid <= 0xffff_ffff,
        ;
        if mid * mid <= m {
            lo = mid;
        } else {
            hi = mid;
        }
    }
    assert(lo * lo + lo <= 0xffff_ffff * 0xffff_ffff + 0xffff_ffff) by (nonlinear_arith)
        requires
            0 <= lo <= 0xffff_ffff,
    ;
    let r: u64 = if m > lo * lo + lo {
        lo + 1
    } else {
        lo
    };
    proof {
        assert(nearest_to_sqrt(m as nat, r as nat)) by (nonlinear_arith)
            requires
                m >= 1,
                hi == lo + 1,
                lo * lo <= m,
                m < hi * hi,
                m > lo * lo + lo ==> r == lo + 1,
                m <= lo * lo + lo ==> r == lo,
        ;
        lemma_rounded_sqrt(m as nat, r as nat);
    }
    r as usize
}

/// Computes five percent of `n`, rounded to the nearest whole number, halves upwards.
pub fn five_percent_of(n: usize) -> (r: usize)
    ensures
        r == five_percent(n as nat),
{
    let whole: usize = n / 20;
    if n % 20 >= 10 {
        whole + 1
    } else {
        whole
    }
}

/// Computes the chunk size that the named policy picks for `total` elements.
pub fn optimized_chunk_size(total: usize, by_sqrt: bool) -> (r: usize)
    ensures
        r == optimized_size(total as nat, by_sqrt),
        r >= 1,
{
    let target: usize = if by_sqrt {
        nearest_sqrt(total)
    } else {
        five_percent_of(total)
    };
    if target == 0 {
        1
    } else {
        target
    }
}

} // verus!
