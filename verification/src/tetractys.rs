//! Triangular numbers: the parts of the nth triangular number, the series
//! of triangular numbers down from the nth, and the nth itself.

use vstd::prelude::*;

verus! {

/// The nth triangular number, with the zeroth counted as one.
pub open spec fn tri_m(n: int) -> int
    decreases n,
{
    if n < 2 {
        1
    } else {
        n + tri_m(n - 1)
    }
}

/// The nth triangular number never exceeds one more than the square of n.
pub proof fn lemma_tri_bound(n: int)
    ensures
        tri_m(n) <= 1 + n * n,
        tri_m(n) >= 1,
    decreases n,
{
    assert(n * n >= 0) by (nonlinear_arith);
    if n >= 2 {
        lemma_tri_bound(n - 1);
        assert((n - 1) * (n - 1) == n * n - 2 * n + 1) by (nonlinear_arith);
    }
}

/// The constituent parts of the nth triangular number: one up to n.
pub fn tetrads(n: u32) -> (r: Vec<u32>)
    requires
        n < u32::MAX,
    ensures
        r@ == Seq::new(n as nat, |i: int| (i + 1) as u32),
{
    let mut parts: Vec<u32> = Vec::new();
    let mut i: u32 = 1;
    proof {
        assert(parts@ =~= Seq::new(0, |i: int| (i + 1) as u32));
    }
    while i < n + 1
        invariant
            n < u32::MAX,
            1 <= i <= n + 1,
            parts@ == Seq::new((i - 1) as nat, |k: int| (k + 1) as u32),
        decreases n + 1 - i,
    {
        parts.push(i);
        i = i + 1;
        proof {
            assert(parts@ =~= Seq::new((i - 1) as nat, |k: int| (k + 1) as u32));
        }
    }
    parts
}

/// The nth triangular number, counted down recursively; the zeroth and
/// first are both one.
pub fn triangular(n: u32) -> (r: u32)
    requires
        tri_m(n as int) <= u32::MAX,
    ensures
        r as int == tri_m(n as int),
    decreases n,
{
    if n < 2 {
        return 1;
    }
    proof {
        lemma_tri_bound(n as int - 1);
        assert(tri_m(n as int) == n + tri_m(n as int - 1));
    }
    n + triangular(n - 1)
}

/// The triangular numbers from the nth down to the first.
pub fn tri_upto(n: u32) -> (r: Vec<u32>)
    requires
        tri_m(n as int) <= u32::MAX,
    ensures
        r@ == Seq::new(n as nat, |k: int| tri_m(n - k) as u32),
{
    let mut series: Vec<u32> = Vec::new();
    let mut i: u32 = n;
    proof {
        assert(series@ =~= Seq::new(0, |k: int| tri_m(n - k) as u32));
    }
    while i >= 1
        invariant
            i <= n,
            tri_m(n as int) <= u32::MAX,
            series@ == Seq::new((n - i) as nat, |k: int| tri_m(n - k) as u32),
        decreases i,
    {
        proof {
            lemma_tri_mono(i as int, n as int);
            lemma_tri_bound(i as int);
        }
        series.push(triangular(i));
        i = i - 1;
        proof {
            assert(series@ =~= Seq::new((n - i) as nat, |k: int| tri_m(n - k) as u32));
        }
    }
    proof {
        assert(series@ =~= Seq::new(n as nat, |k: int| tri_m(n - k) as u32));
    }
    series
}

/// Triangular numbers grow with their index.
pub proof fn lemma_tri_mono(a: int, b: int)
    requires
        a <= b,
    ensures
        tri_m(a) <= tri_m(b),
    decreases b,
{
    if a < b && b >= 2 {
        lemma_tri_mono(a, b - 1);
    }
}

} // verus!
