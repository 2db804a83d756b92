//! A symmetric table of values over pairs of locations, stored packed: one
//! cell per unordered pair, diagonal included.
use vstd::prelude::*;
use crate::pair::{hi, lo, lemma_tri_index_bounds, lemma_tri_len_step, pair_index, tri_index, tri_len};

verus! {

/// Values for every unordered pair of `n` locations. The value of `{a, b}`
/// sits at `tri_index(a, b)`, so the table is symmetric by construction.
pub struct PairTable<T> {
    n: usize,
    cells: Vec<T>,
}

impl<T: Copy> PairTable<T> {
    /// The table holds one cell per unordered pair of its locations.
    pub open spec fn wf(&self) -> bool {
        &&& tri_len(self.size_spec() as int) <= usize::MAX
        &&& self.cells_spec().len() == tri_len(self.size_spec() as int)
    }

    /// Number of locations.
    pub closed spec fn size_spec(&self) -> nat {
        self.n as nat
    }

    /// The packed cells, row by row.
    pub closed spec fn cells_spec(&self) -> Seq<T> {
        self.cells@
    }

    /// The value of the pair `{a, b}`.
    pub open spec fn at(&self, a: int, b: int) -> T {
        self.cells_spec()[tri_index(a, b)]
    }

    /// Fills the table with `f(hi, lo)` for every pair of locations
    /// `lo <= hi < n`, calling `f` once per unordered pair.
    pub fn from_fn<F: Fn(usize, usize) -> T>(n: usize, f: F) -> (r: Self)
        requires
            tri_len(n as int) <= usize::MAX,
            forall|i: usize, j: usize| j <= i < n ==> f.requires((i, j)),
        ensures
            r.wf(),
            r.size_spec() == n,
            forall|a: int, b: int|
                0 <= a < n && 0 <= b < n ==> f.ensures(
                    (hi(a, b) as usize, lo(a, b) as usize),
                    #[trigger] r.at(a, b),
                ),
    {
        let mut cells: Vec<T> = Vec::new();
        let mut i: usize = 0;
        while i < n
            invariant
                i <= n,
                tri_len(n as int) <= usize::MAX,
                forall|x: usize, y: usize| y <= x < n ==> f.requires((x, y)),
                cells@.len() == tri_len(i as int),
                forall|x: int, y: int|
                    0 <= y <= x < i ==> f.ensures(
                        (x as usize, y as usize),
                        #[trigger] cells@[tri_index(x, y)],
                    ),
            decreases n - i,
        {
            proof {
                lemma_tri_len_step(i as int);
            }
            let mut j: usize = 0;
            while j <= i
                invariant
                    i < n,
                    j <= i + 1,
                    forall|x: usize, y: usize| y <= x < n ==> f.requires((x, y)),
                    cells@.len() == tri_len(i as int) + j,
                    tri_len(i as int + 1) == tri_len(i as int) + i + 1,
                    forall|x: int, y: int|
                        0 <= y <= x < i ==> f.ensures(
                            (x as usize, y as usize),
                            #[trigger] cells@[tri_index(x, y)],
                        ),
                    forall|y: int|
                        0 <= y < j ==> f.ensures(
                            (i, y as usize),
                            #[trigger] cells@[tri_index(i as int, y)],
                        ),
                decreases i + 1 - j,
            {
                let v = f(i, j);
                proof {
                    assert forall|x: int, y: int| 0 <= y <= x < i implies tri_index(x, y) < tri_len(i as int) by {
                        lemma_tri_index_bounds(x, y, i as int);
                    }
                }
                cells.push(v);
                j = j + 1;
            }
            i = i + 1;
        }
        let r = PairTable { n, cells };
        proof {
            assert forall|a: int, b: int|
                0 <= a < n && 0 <= b < n implies f.ensures(
                    (hi(a, b) as usize, lo(a, b) as usize),
                    #[trigger] r.at(a, b),
                ) by {
                assert(tri_index(a, b) == tri_index(hi(a, b), lo(a, b)));
            }
        }
        r
    }

    /// Number of locations.
    pub fn len(&self) -> (r: usize)
        ensures
            r == self.size_spec(),
    {
        self.n
    }

    /// The value of the pair `{a, b}`, in either order.
    pub fn get(&self, a: usize, b: usize) -> (r: T)
        requires
            self.wf(),
            a < self.size_spec(),
            b < self.size_spec(),
        ensures
            r == self.at(a as int, b as int),
            r == self.at(b as int, a as int),
    {
        proof {
            lemma_tri_index_bounds(a as int, b as int, self.n as int);
        }
        let k = pair_index(a, b, self.n);
        self.cells[k]
    }
}

/// The table answers the same for `{a, b}` whichever index comes first.
pub proof fn lemma_symmetric<T: Copy>(t: &PairTable<T>, a: int, b: int)
    requires
        t.wf(),
        0 <= a < t.size_spec(),
        0 <= b < t.size_spec(),
    ensures
        t.at(a, b) == t.at(b, a),
{
    lemma_tri_index_bounds(a, b, t.size_spec() as int);
}

} // verus!
