//! Partition arithmetic: `n` elements split into `c` committees whose sizes
//! differ by at most one, the remainder going to the first committees.

use vstd::prelude::*;

verus! {

/// Size of committee `k` when `n` elements are split into `c` parts.
pub open spec fn part_size(n: nat, c: nat, k: nat) -> nat {
    n / c + if k < n % c {
        1nat
    } else {
        0nat
    }
}

/// With at least as many elements as parts, no part is empty.
pub proof fn lemma_part_nonempty(n: nat, c: nat, k: nat)
    requires
        1 <= c <= n,
        k < c,
    ensures
        part_size(n, c, k) >= 1,
{
    assert(n / c >= 1) by {
        vstd::arithmetic::div_mod::lemma_fundamental_div_mod(n as int, c as int);
        vstd::arithmetic::div_mod::lemma_mod_bound(n as int, c as int);
        assert(n as int == (c as int) * (n as int / c as int) + (n as int) % (c as int));
        if n / c == 0 {
            assert((c as int) * (n as int / c as int) == 0) by (nonlinear_arith)
                requires
                    n as int / c as int == 0,
            ;
        }
    }
}

/// `2s/3` computed through quotient and remainder by 3, the shape the
/// executable threshold code uses.
pub proof fn lemma_two_thirds(s: nat)
    ensures
        (2 * s) / 3 == 2 * (s / 3) + if s % 3 == 2 {
            1nat
        } else {
            0nat
        },
{
    vstd::arithmetic::div_mod::lemma_fundamental_div_mod(s as int, 3);
    let q = s / 3;
    let rm = s % 3;
    vstd::arithmetic::div_mod::lemma_mod_bound(s as int, 3);
    let t: int = if rm == 2 {
        1
    } else {
        0
    };
    let r2: int = 2 * (rm as int) - 3 * t;
    assert(2 * (s as int) == (2 * (q as int) + t) * 3 + r2);
    vstd::arithmetic::div_mod::lemma_fundamental_div_mod_converse_div(
        2 * (s as int),
        3,
        2 * (q as int) + t,
        r2,
    );
}

} // verus!
