//! Unordered pairs of indices and their place in a packed triangular store.
use vstd::prelude::*;

verus! {

/// The lower of two indices.
pub open spec fn lo(a: int, b: int) -> int {
    if a <= b { a } else { b }
}

/// The higher of two indices.
pub open spec fn hi(a: int, b: int) -> int {
    if a <= b { b } else { a }
}

/// Number of cells in a triangular store over `n` locations, diagonal included.
pub open spec fn tri_len(n: int) -> int {
    n * (n + 1) / 2
}

/// Cell of the unordered pair `{a, b}` in the triangular store: row `hi`, column `lo`.
pub open spec fn tri_index(a: int, b: int) -> int {
    tri_len(hi(a, b)) + lo(a, b)
}

/// Orders two indices ascending.
pub fn order_ab(a: usize, b: usize) -> (r: (usize, usize))
    ensures
        r.0 == lo(a as int, b as int),
        r.1 == hi(a as int, b as int),
{
    if a <= b {
        (a, b)
    } else {
        (b, a)
    }
}

/// `tri_len` grows by `n + 1` from `n` to `n + 1`, and is never negative.
pub proof fn lemma_tri_len_step(n: int)
    requires
        n >= 0,
    ensures
        tri_len(n + 1) == tri_len(n) + n + 1,
        tri_len(n) >= 0,
{
    assert((n + 1) * (n + 2) == n * (n + 1) + 2 * (n + 1)) by (nonlinear_arith);
    assert(n * (n + 1) >= 0) by (nonlinear_arith)
        requires n >= 0;
}

/// `tri_len` is monotonic.
pub proof fn lemma_tri_len_mono(a: int, b: int)
    requires
        0 <= a <= b,
    ensures
        tri_len(a) <= tri_len(b),
    decreases b - a,
{
    if a < b {
        lemma_tri_len_mono(a, b - 1);
        lemma_tri_len_step(b - 1);
    }
}

/// Every pair of indices below `n` has its own cell below `tri_len(n)`, and
/// the cell of a pair does not depend on the order of its indices.
pub proof fn lemma_tri_index_bounds(a: int, b: int, n: int)
    requires
        0 <= a < n,
        0 <= b < n,
    ensures
        0 <= tri_index(a, b) < tri_len(n),
        tri_index(a, b) == tri_index(b, a),
{
    let h = hi(a, b);
    lemma_tri_len_step(h);
    lemma_tri_len_mono(h + 1, n);
}

/// Cell index of the unordered pair `{a, b}` in the triangular store over `n` locations.
pub fn pair_index(a: usize, b: usize, n: usize) -> (r: usize)
    requires
        a < n,
        b < n,
        tri_len(n as int) <= usize::MAX,
    ensures
        r == tri_index(a as int, b as int),
        r < tri_len(n as int),
{
    let (l, h) = order_ab(a, b);
    proof {
        lemma_tri_index_bounds(a as int, b as int, n as int);
        lemma_tri_len_step(h as int);
        lemma_tri_len_mono(h as int + 1, n as int);
    }
    let row: usize = if h % 2 == 0 {
        proof {
            let k = h as int / 2;
            assert(k * (h + 1) == h * (h + 1) / 2) by (nonlinear_arith)
                requires h == 2 * k;
        }
        (h / 2) * (h + 1)
    } else {
        proof {
            let k = (h as int + 1) / 2;
            assert(h * k == h * (h + 1) / 2) by (nonlinear_arith)
                requires h + 1 == 2 * k;
        }
        h * ((h + 1) / 2)
    };
    row + l
}

} // verus!
