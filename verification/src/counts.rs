//! The three transforms on a single count: bounding, bounded increment and
//! decayed decrement.

use vstd::prelude::*;

verus! {

/// The counts that a state can hold: 0 to 39 exactly, then eleven larger
/// magnitudes up to 255.
pub open spec fn is_representable(v: int) -> bool {
    ||| 0 <= v <= 40
    ||| v == 44
    ||| v == 48
    ||| v == 56
    ||| v == 64
    ||| v == 96
    ||| v == 128
    ||| v == 160
    ||| v == 192
    ||| v == 224
    ||| v == 255
}

/// The bounded form of a count: the count itself below 40, then rounded down
/// to a multiple of 4, of 8 and of 32, and 255 from 255 on.
pub open spec fn round_spec(n: int) -> int {
    if n < 40 {
        n
    } else if n < 48 {
        n / 4 * 4
    } else if n < 64 {
        n / 8 * 8
    } else if n < 255 {
        n / 32 * 32
    } else {
        255
    }
}

/// The successor of a count: the next representable count above it, and 255
/// where there is none.
pub open spec fn inc_spec(n: int) -> int {
    if n < 40 {
        n + 1
    } else if n < 48 {
        n / 4 * 4 + 4
    } else if n < 64 {
        n / 8 * 8 + 8
    } else if n < 224 {
        n / 32 * 32 + 32
    } else {
        255
    }
}

/// `r` is the integer square root of `n`.
pub open spec fn is_isqrt(n: int, r: int) -> bool {
    0 <= r && r * r <= n < (r + 1) * (r + 1)
}

/// The integer square root of `n`: the largest `r` with `r * r <= n`.
pub open spec fn isqrt_spec(n: int) -> int {
    choose|r: int| is_isqrt(n, r)
}

/// A count after decay and before bounding: unchanged below 2, halved below
/// 25, and the square root plus 6 from 25 on.
pub open spec fn decay_spec(n: int) -> int {
    if n < 2 {
        n
    } else if n < 25 {
        n / 2
    } else {
        isqrt_spec(n) + 6
    }
}

/// The decayed count, bounded.
pub open spec fn dec_spec(n: int) -> int {
    round_spec(decay_spec(n))
}

/// Every non-negative number has exactly one integer square root, and
/// `isqrt_spec` is it.
pub proof fn lemma_isqrt(n: int)
    requires
        0 <= n,
    ensures
        is_isqrt(n, isqrt_spec(n)),
        forall|r: int| is_isqrt(n, r) ==> r == isqrt_spec(n),
    decreases n,
{
    if n == 0 {
        assert(is_isqrt(0, 0));
    } else {
        lemma_isqrt(n - 1);
        let p = isqrt_spec(n - 1);
        if (p + 1) * (p + 1) <= n {
            assert((p + 2) * (p + 2) > n) by (nonlinear_arith)
                requires
                    0 <= p,
                    n - 1 < (p + 1) * (p + 1),
            ;
            assert(is_isqrt(n, p + 1));
        } else {
            assert(is_isqrt(n, p));
        }
    }
    let s = isqrt_spec(n);
    assert forall|r: int| is_isqrt(n, r) implies r == s by {
        lemma_isqrt_unique(n, r, s);
    }
}

/// Two integer square roots of one number are equal.
pub proof fn lemma_isqrt_unique(n: int, a: int, b: int)
    requires
        is_isqrt(n, a),
        is_isqrt(n, b),
    ensures
        a == b,
{
    if a < b {
        assert((a + 1) * (a + 1) <= b * b) by (nonlinear_arith)
            requires
                0 <= a,
                a + 1 <= b,
        ;
    } else if b < a {
        assert((b + 1) * (b + 1) <= a * a) by (nonlinear_arith)
            requires
                0 <= b,
                b + 1 <= a,
        ;
    }
}

/// Bounds a count to a representable one.
pub fn round(n: u32) -> (r: u32)
    ensures
        r == round_spec(n as int),
        is_representable(r as int),
        r <= n,
{
    if n < 40 {
        n
    } else if n < 48 {
        n / 4 * 4
    } else if n < 64 {
        n / 8 * 8
    } else if n < 255 {
        n / 32 * 32
    } else {
        255
    }
}

/// The successor of a count below 255 is its own bounded form and lies above
/// the count.
proof fn lemma_successor_rounds(n: int)
    requires
        0 <= n,
    ensures
        n < 255 ==> n < inc_spec(n) <= 255 && round_spec(inc_spec(n)) == inc_spec(n),
{
}

/// No number from a count up to its successor has a bounded form above the
/// count.
proof fn lemma_below_successor(n: int, j: int)
    requires
        0 <= n <= j < inc_spec(n),
        n < 255,
    ensures
        round_spec(j) <= n,
{
}

/// The next representable count above `n`, found by scanning upward for the
/// first number whose bounded form exceeds `n`; 255 where no number below
/// 1000 has one.
pub fn inc(n: u32) -> (r: u32)
    ensures
        r == inc_spec(n as int),
        is_representable(r as int),
        n < 255 ==> r > n,
        n >= 255 ==> r == 255,
{
    let mut x: u32 = 255;
    let mut i: u32 = n;
    while i < 1000
        invariant_except_break
            x == 255,
        invariant
            n <= i,
            forall|j: int| n <= j < i ==> round_spec(j) <= n,
        ensures
            (i >= 1000 && x == 255) || (i == x && x < 1000 && round_spec(x as int) > n),
        decreases 1000 - i,
    {
        if round(i) > n {
            x = i;
            break ;
        }
        i += 1;
    }
    proof {
        let m = n as int;
        let t = inc_spec(m);
        lemma_successor_rounds(m);
        if m < 255 {
            if i >= 1000 || i > t {
                assert(round_spec(t) <= m);
            } else if i < t {
                lemma_below_successor(m, i as int);
            }
            assert(x == t);
        } else {
            assert(round_spec(x as int) <= 255);
        }
    }
    round(x)
}

/// The integer square root of `n`.
pub fn isqrt(n: u32) -> (r: u32)
    ensures
        r == isqrt_spec(n as int),
        is_isqrt(n as int, r as int),
        r < 65536,
{
    let mut lo: u64 = 0;
    let mut hi: u64 = 65536;
    while hi - lo > 1
        invariant
            lo < hi <= 65536,
            lo * lo <= n,
            n < hi * hi,
        decreases hi - lo,
    {
        let mid: u64 = lo + (hi - lo) / 2;
        assert(mid * mid < 65536 * 65536) by (nonlinear_arith)
            requires
                mid < 65536,
        ;
        if mid * mid <= n as u64 {
            lo = mid;
        } else {
            hi = mid;
        }
    }
    proof {
        lemma_isqrt(n as int);
        assert(hi == lo + 1);
        assert(is_isqrt(n as int, lo as int));
    }
    lo as u32
}

/// The count `n` after decay, bounded: what becomes of the opposing count
/// when the other signal is seen.
pub fn dec(n: u32) -> (r: u32)
    ensures
        r == dec_spec(n as int),
        is_representable(r as int),
        r <= n,
{
    let decayed: u32 = if n < 2 {
        n
    } else if n < 25 {
        n / 2
    } else {
        let s: u32 = isqrt(n);
        proof {
            lemma_decay_shrinks(n as int, s as int);
        }
        s + 6
    };
    round(decayed)
}

/// From 25 on, the square root plus 6 is below the number.
pub proof fn lemma_decay_shrinks(n: int, s: int)
    requires
        25 <= n,
        is_isqrt(n, s),
    ensures
        5 <= s,
        s + 6 <= n,
{
    if s < 5 {
        assert((s + 1) * (s + 1) <= 25) by (nonlinear_arith)
            requires
                0 <= s < 5,
        ;
    }
    assert(s + 6 <= s * s) by (nonlinear_arith)
        requires
            5 <= s,
    ;
}

/// A representable count is its own bounded form.
pub proof fn lemma_round_idempotent(v: int)
    requires
        is_representable(v),
    ensures
        round_spec(v) == v,
{
}

/// The bounded form of a count is representable, is not above the count, and
/// no representable count lies between the two.
pub proof fn lemma_round_range(n: int)
    requires
        0 <= n,
    ensures
        is_representable(round_spec(n)),
        round_spec(n) <= n,
        forall|v: int| is_representable(v) && v <= n ==> v <= round_spec(n),
{
}

/// Bounding keeps the order of counts.
pub proof fn lemma_round_monotone(a: int, b: int)
    requires
        a <= b,
    ensures
        round_spec(a) <= round_spec(b),
{
}

/// Below 255 the successor of a count is the least representable count above
/// it; the successor of 255 is 255.
pub proof fn lemma_inc_successor(v: int)
    requires
        0 <= v,
    ensures
        is_representable(inc_spec(v)),
        v < 255 ==> inc_spec(v) > v,
        v < 255 ==> forall|w: int| is_representable(w) && w > v ==> inc_spec(v) <= w,
        v >= 255 ==> inc_spec(v) == 255,
        inc_spec(v) == v <==> v == 255,
{
}

/// Decay never raises a count: the decayed count is representable and not
/// above the bounded form of the count.
pub proof fn lemma_dec_bounded(v: int)
    requires
        0 <= v,
    ensures
        is_representable(dec_spec(v)),
        dec_spec(v) <= round_spec(v),
        dec_spec(v) <= v,
{
    if v >= 25 {
        lemma_isqrt(v);
        lemma_decay_shrinks(v, isqrt_spec(v));
        lemma_round_monotone(decay_spec(v), v);
    }
    lemma_round_range(decay_spec(v));
}

} // verus!
