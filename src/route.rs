//! A tour as a permutation of location indices, and its local moves.
use vstd::prelude::*;
use crate::error::SearchError;
use crate::pair::{hi, lo, order_ab};
use rand::seq::SliceRandom;
use rand_pcg::Mcg128Xsl64;

verus! {

/// The random source that tours are shuffled with.
#[verifier::external_type_specification]
#[verifier::external_body]
pub struct ExMcg128Xsl64(Mcg128Xsl64);

/// Relies on rand's `SliceRandom::shuffle` (Fisher-Yates): it only exchanges
/// elements of the slice, so the same elements remain, each as often.
#[verifier::external_body]
fn shuffle_in_place(v: &mut Vec<usize>, rng: &mut Mcg128Xsl64)
    ensures
        final(v)@.len() == old(v)@.len(),
        final(v)@.to_multiset() == old(v)@.to_multiset(),
{
    v.shuffle(rng);
}

/// `s` visits each of the locations `0..n` exactly once.
pub open spec fn is_perm(s: Seq<usize>, n: nat) -> bool {
    &&& s.len() == n
    &&& forall|k: int| 0 <= k < n ==> #[trigger] s[k] < n
    &&& s.no_duplicates()
}

/// The position after `k` on a cycle of `n` positions.
pub open spec fn succ(n: int, k: int) -> int {
    if k + 1 >= n { 0 } else { k + 1 }
}

/// Whether a segment reversal between cut points `a <= b` reverses the inner
/// arc `a+1 ..= b` (the shorter one) rather than the outer arc `b+1 ..= a+n`.
pub open spec fn reverses_inner(n: int, a: int, b: int) -> bool {
    (b - a) * 2 <= n
}

/// Position `k` outside `a+1 ..= b`, counted along the outer arc `b+1 ..= a+n`.
pub open spec fn outer_pos(n: int, a: int, k: int) -> int {
    if k <= a { k + n } else { k }
}

/// The position of the outer arc `b+1 ..= a+n` that is `m`, taken modulo `n`.
pub open spec fn wrap(n: int, m: int) -> int {
    if m >= n { m - n } else { m }
}

/// The old position whose location sits at position `k` after reversing the
/// shorter arc between the cut points `a <= b`.
pub open spec fn two_opt_source(n: int, a: int, b: int, k: int) -> int {
    if a < k <= b {
        if reverses_inner(n, a, b) { a + 1 + b - k } else { k }
    } else {
        if reverses_inner(n, a, b) { k } else { wrap(n, a + b + 1 + n - outer_pos(n, a, k)) }
    }
}

/// The path after the segment reversal with cut points `i` and `j`: the two
/// edges leaving positions `i` and `j` are replaced by `(s[i], s[j])` and
/// `(s[i+1], s[j+1])`, and the shorter of the two arcs between them is reversed.
pub open spec fn two_opt_path(s: Seq<usize>, i: int, j: int) -> Seq<usize> {
    Seq::new(s.len(), |k: int| s[two_opt_source(s.len() as int, lo(i, j), hi(i, j), k)])
}

/// The position before `k` on a cycle of `n` positions.
pub open spec fn pred(n: int, k: int) -> int {
    if k == 0 { n - 1 } else { k - 1 }
}

/// The edge that leaves position `k` of `s`: from `s[k]` to its successor.
pub open spec fn edge_at(s: Seq<usize>, k: int) -> (usize, usize) {
    (s[k], s[succ(s.len() as int, k)])
}

/// The edges at positions `ps` of the cycle `s`.
pub open spec fn edges_at(s: Seq<usize>, ps: Seq<int>) -> Seq<(usize, usize)> {
    ps.map_values(|k: int| edge_at(s, k))
}

/// The edges that the segment reversal with cut points `i` and `j` removes;
/// none where the cut points are equal.
pub open spec fn two_opt_removed(s: Seq<usize>, i: int, j: int) -> Seq<(usize, usize)> {
    if i == j {
        seq![]
    } else {
        seq![edge_at(s, lo(i, j)), edge_at(s, hi(i, j))]
    }
}

/// The edges that the segment reversal with cut points `i` and `j` adds;
/// none where the cut points are equal.
pub open spec fn two_opt_added(s: Seq<usize>, i: int, j: int) -> Seq<(usize, usize)> {
    let n = s.len() as int;
    if i == j {
        seq![]
    } else {
        seq![(s[lo(i, j)], s[hi(i, j)]), (s[succ(n, lo(i, j))], s[succ(n, hi(i, j))])]
    }
}

/// The positions of the edges that touch position `i` or `j`, each once, in
/// the order: before `i`, after `i`, before `j`, after `j`. None where `i == j`.
pub open spec fn swap_positions(n: int, i: int, j: int) -> Seq<int> {
    if i == j {
        seq![]
    } else {
        let before_i = pred(n, i);
        let before_j = pred(n, j);
        let first = seq![before_i, i];
        let second = if before_j == before_i || before_j == i { first } else { first.push(before_j) };
        if j == before_i || j == i || j == before_j { second } else { second.push(j) }
    }
}

/// The path after exchanging the locations at positions `i` and `j`.
pub open spec fn swap_path(s: Seq<usize>, i: int, j: int) -> Seq<usize> {
    s.update(i, s[j]).update(j, s[i])
}

/// A location sequence is a permutation when it draws, injectively, from the
/// positions of a permutation.
proof fn lemma_perm_by_source(s: Seq<usize>, q: Seq<usize>, n: nat, src: spec_fn(int) -> int)
    requires
        is_perm(s, n),
        q.len() == n,
        forall|k: int| 0 <= k < n ==> 0 <= #[trigger] src(k) < n && q[k] == s[src(k)],
        forall|k1: int, k2: int| 0 <= k1 < n && 0 <= k2 < n && k1 != k2 ==> #[trigger] src(k1) != #[trigger] src(k2),
    ensures
        is_perm(q, n),
{
    assert forall|k1: int, k2: int| 0 <= k1 < q.len() && 0 <= k2 < q.len() && k1 != k2 implies q[k1] != q[k2] by {
        assert(src(k1) != src(k2));
    }
    assert forall|k: int| 0 <= k < n implies #[trigger] q[k] < n by {
        assert(s[src(k)] < n);
    }
}

/// Reversing an arc keeps a permutation a permutation.
pub proof fn lemma_two_opt_perm(s: Seq<usize>, i: int, j: int)
    requires
        is_perm(s, s.len()),
        0 <= i < s.len(),
        0 <= j < s.len(),
    ensures
        is_perm(two_opt_path(s, i, j), s.len()),
{
    let n = s.len() as int;
    let a = lo(i, j);
    let b = hi(i, j);
    let src = |k: int| two_opt_source(n, a, b, k);
    let q = two_opt_path(s, i, j);
    assert forall|k: int| 0 <= k < n implies 0 <= #[trigger] src(k) < n && q[k] == s[src(k)] by {}
    assert forall|k1: int, k2: int| 0 <= k1 < n && 0 <= k2 < n && k1 != k2 implies #[trigger] src(k1) != #[trigger] src(k2) by {
        if !reverses_inner(n, a, b) && !(a < k1 <= b) && !(a < k2 <= b) {
            assert(outer_pos(n, a, k1) != outer_pos(n, a, k2));
        }
    }
    lemma_perm_by_source(s, q, s.len(), src);
}

/// Exchanging two locations keeps a permutation a permutation.
pub proof fn lemma_swap_perm(s: Seq<usize>, i: int, j: int)
    requires
        is_perm(s, s.len()),
        0 <= i < s.len(),
        0 <= j < s.len(),
    ensures
        is_perm(swap_path(s, i, j), s.len()),
{
    let n = s.len();
    let q = swap_path(s, i, j);
    let src = |k: int| if k == i { j } else if k == j { i } else { k };
    assert forall|k: int| 0 <= k < n implies 0 <= #[trigger] src(k) < n && q[k] == s[src(k)] by {}
    lemma_perm_by_source(s, q, n, src);
}

/// The edges that a move removes from a tour and those that it adds. The
/// move changes the tour's length by the sum over `added` less the sum over
/// `removed`.
pub struct EdgeChange {
    pub removed: Vec<(usize, usize)>,
    pub added: Vec<(usize, usize)>,
}

/// A tour's visiting order: a permutation of the location indices `0..n`.
pub struct Route {
    path: Vec<usize>,
}

impl View for Route {
    type V = Seq<usize>;

    closed spec fn view(&self) -> Seq<usize> {
        self.path@
    }
}

impl Route {
    /// The route is a permutation of its own length.
    pub open spec fn wf(&self) -> bool {
        is_perm(self@, self@.len())
    }

    /// Takes `path` as a route over `n` locations; fails with `InvalidInput`
    /// unless it holds each of `0..n` exactly once.
    pub fn from_permutation(n: usize, path: Vec<usize>) -> (r: Result<Route, SearchError>)
        ensures
            r is Ok <==> is_perm(path@, n as nat),
            r matches Ok(t) ==> t@ == path@ && t.wf(),
            r matches Err(e) ==> e == SearchError::InvalidInput,
    {
        if path.len() != n {
            return Err(SearchError::InvalidInput);
        }
        let mut seen: Vec<bool> = Vec::new();
        let mut k: usize = 0;
        while k < n
            invariant
                k <= n,
                seen@.len() == k,
                forall|x: int| 0 <= x < k ==> !#[trigger] seen@[x],
            decreases n - k,
        {
            seen.push(false);
            k = k + 1;
        }
        let mut i: usize = 0;
        while i < n
            invariant
                i <= n,
                path@.len() == n,
                seen@.len() == n,
                forall|x: int| 0 <= x < i ==> #[trigger] path@[x] < n,
                forall|x: int, y: int| 0 <= x < y < i ==> path@[x] != path@[y],
                forall|v: int| 0 <= v < n ==> (#[trigger] seen@[v] <==> exists|x: int| 0 <= x < i && path@[x] == v),
            decreases n - i,
        {
            let v = path[i];
            if v >= n {
                return Err(SearchError::InvalidInput);
            }
            if seen[v] {
                proof {
                    let x = choose|x: int| 0 <= x < i && path@[x] == v;
                    assert(path@[x] == path@[i as int]);
                }
                return Err(SearchError::InvalidInput);
            }
            seen[v] = true;
            proof {
                assert forall|w: int| 0 <= w < n implies (#[trigger] seen@[w] <==> exists|x: int| 0 <= x < i + 1 && path@[x] == w) by {
                    if w == v {
                        assert(path@[i as int] == w);
                    } else if seen@[w] {
                        let x = choose|x: int| 0 <= x < i && path@[x] == w;
                        assert(0 <= x < i + 1 && path@[x] == w);
                    }
                }
            }
            i = i + 1;
        }
        Ok(Route { path })
    }

    /// The identity order `0, 1, ..., n-1`.
    pub fn identity(n: usize) -> (r: Route)
        ensures
            r.wf(),
            r@.len() == n,
            forall|k: int| 0 <= k < n ==> #[trigger] r@[k] == k,
    {
        let mut path: Vec<usize> = Vec::new();
        let mut k: usize = 0;
        while k < n
            invariant
                k <= n,
                path@.len() == k,
                forall|x: int| 0 <= x < k ==> #[trigger] path@[x] == x,
            decreases n - k,
        {
            path.push(k);
            k = k + 1;
        }
        Route { path }
    }

    /// A uniformly shuffled order of the locations `0..n`, drawn from `rng`;
    /// fails with `InvalidInput` when there is no location.
    pub fn shuffled(n: usize, rng: &mut Mcg128Xsl64) -> (r: Result<Route, SearchError>)
        ensures
            r is Err <==> n == 0,
            r matches Err(e) ==> e == SearchError::InvalidInput,
            r matches Ok(t) ==> t.wf() && t@.len() == n,
    {
        if n == 0 {
            return Err(SearchError::InvalidInput);
        }
        let start = Route::identity(n);
        let mut path = start.path;
        let ghost before = path@;
        shuffle_in_place(&mut path, rng);
        proof {
            broadcast use vstd::seq_lib::group_to_multiset_ensures;
            before.lemma_multiset_has_no_duplicates();
            assert forall|x: usize| path@.to_multiset().contains(x) implies path@.to_multiset().count(x) == 1 by {}
            path@.lemma_multiset_has_no_duplicates_conv();
            assert forall|k: int| 0 <= k < n implies #[trigger] path@[k] < n by {
                let v = path@[k];
                assert(path@.contains(v));
                vstd::seq_lib::to_multiset_contains(path@, v);
                vstd::seq_lib::to_multiset_contains(before, v);
                assert(before.contains(v));
                let x = choose|x: int| 0 <= x < before.len() && before[x] == v;
            }
        }
        Ok(Route { path })
    }

    /// Number of locations.
    pub fn len(&self) -> (r: usize)
        ensures
            r == self@.len(),
    {
        self.path.len()
    }

    /// The location at position `k`.
    pub fn at(&self, k: usize) -> (r: usize)
        requires
            k < self@.len(),
        ensures
            r == self@[k as int],
    {
        self.path[k]
    }

    /// The visiting order.
    pub fn path(&self) -> (r: &Vec<usize>)
        ensures
            r@ == self@,
    {
        &self.path
    }

    /// Applies the segment reversal with cut points `i` and `j`: reverses the
    /// shorter of the two arcs between them, so that at most `n / 2` pairs of
    /// locations are exchanged. Equal cut points leave the route as it is.
    pub fn apply_two_opt(&mut self, i: usize, j: usize)
        requires
            old(self).wf(),
            i < old(self)@.len(),
            j < old(self)@.len(),
        ensures
            final(self)@ == two_opt_path(old(self)@, i as int, j as int),
            final(self).wf(),
    {
        let ghost s = self.path@;
        let n = self.path.len();
        let (a, b) = order_ab(i, j);
        if b - a <= n / 2 {
            let mut x: usize = a + 1;
            let mut y: usize = b;
            while x < y
                invariant
                    a <= b < n,
                    self.path@.len() == n,
                    x + y == a + 1 + b,
                    a + 1 <= x <= y + 1,
                    forall|k: int|
                        0 <= k < n ==> #[trigger] self.path@[k] == if (a < k < x) || (y < k <= b) {
                            s[a + 1 + b - k]
                        } else {
                            s[k]
                        },
                decreases y + 1 - x,
            {
                let vx = self.path[x];
                let vy = self.path[y];
                self.path[x] = vy;
                self.path[y] = vx;
                x = x + 1;
                y = y - 1;
            }
            proof {
                assert(reverses_inner(n as int, a as int, b as int));
                assert(self.path@ =~= two_opt_path(s, i as int, j as int));
            }
        } else {
            let arc: usize = n - (b - a);
            let swaps: usize = arc / 2;
            let mut t: usize = 0;
            while t < swaps
                invariant
                    a <= b < n,
                    self.path@.len() == n,
                    arc == n - (b - a),
                    swaps == arc / 2,
                    t <= swaps,
                    forall|k: int|
                        0 <= k < n ==> #[trigger] self.path@[k] == if !(a < k <= b) && (outer_pos(n as int, a as int, k) < b + 1 + t
                            || outer_pos(n as int, a as int, k) > a + n - t) {
                            s[wrap(n as int, a + b + 1 + n - outer_pos(n as int, a as int, k))]
                        } else {
                            s[k]
                        },
                decreases swaps - t,
            {
                let x: usize = if t < n - 1 - b { b + 1 + t } else { t - (n - 1 - b) };
                let y: usize = if t <= a { a - t } else { n - (t - a) };
                proof {
                    assert(x == wrap(n as int, b + 1 + t));
                    assert(y == wrap(n as int, a + n - t));
                    assert(outer_pos(n as int, a as int, x as int) == b + 1 + t);
                    assert(outer_pos(n as int, a as int, y as int) == a + n - t);
                }
                let vx = self.path[x];
                let vy = self.path[y];
                self.path[x] = vy;
                self.path[y] = vx;
                t = t + 1;
            }
            proof {
                assert forall|k: int| 0 <= k < n implies #[trigger] self.path@[k] == two_opt_path(s, i as int, j as int)[k] by {
                    if !(a < k <= b) {
                        assert(wrap(n as int, outer_pos(n as int, a as int, k)) == k);
                    }
                }
                assert(self.path@ =~= two_opt_path(s, i as int, j as int));
            }
        }
        proof {
            lemma_two_opt_perm(s, i as int, j as int);
        }
    }

    /// The edges that the segment reversal with cut points `i` and `j`
    /// removes and adds, read off the route without changing it. The cut
    /// points may come in either order.
    pub fn two_opt_edges(&self, i: usize, j: usize) -> (r: EdgeChange)
        requires
            i < self@.len(),
            j < self@.len(),
        ensures
            r.removed@ == two_opt_removed(self@, i as int, j as int),
            r.added@ == two_opt_added(self@, i as int, j as int),
    {
        let mut removed: Vec<(usize, usize)> = Vec::new();
        let mut added: Vec<(usize, usize)> = Vec::new();
        if i != j {
            let n = self.path.len();
            let (a, b) = order_ab(i, j);
            let a1: usize = if a + 1 == n { 0 } else { a + 1 };
            let b1: usize = if b + 1 == n { 0 } else { b + 1 };
            removed.push((self.path[a], self.path[a1]));
            removed.push((self.path[b], self.path[b1]));
            added.push((self.path[a], self.path[b]));
            added.push((self.path[a1], self.path[b1]));
            proof {
                assert(a1 == succ(n as int, a as int));
                assert(b1 == succ(n as int, b as int));
                assert(removed@ =~= two_opt_removed(self@, i as int, j as int));
                assert(added@ =~= two_opt_added(self@, i as int, j as int));
            }
        } else {
            proof {
                assert(removed@ =~= two_opt_removed(self@, i as int, j as int));
                assert(added@ =~= two_opt_added(self@, i as int, j as int));
            }
        }
        EdgeChange { removed, added }
    }

    /// The edges that exchanging the locations at positions `i` and `j`
    /// removes and adds: those at the positions that touch `i` or `j`, each
    /// counted once where the two positions are neighbours. Read off the route
    /// without changing it.
    pub fn swap_edges(&self, i: usize, j: usize) -> (r: EdgeChange)
        requires
            i < self@.len(),
            j < self@.len(),
        ensures
            r.removed@ == edges_at(self@, swap_positions(self@.len() as int, i as int, j as int)),
            r.added@ == edges_at(
                swap_path(self@, i as int, j as int),
                swap_positions(self@.len() as int, i as int, j as int),
            ),
    {
        let ghost s = self@;
        let ghost q = swap_path(s, i as int, j as int);
        let ghost ps = swap_positions(s.len() as int, i as int, j as int);
        let mut removed: Vec<(usize, usize)> = Vec::new();
        let mut added: Vec<(usize, usize)> = Vec::new();
        if i == j {
            proof {
                assert(removed@ =~= edges_at(s, ps));
                assert(added@ =~= edges_at(q, ps));
            }
            return EdgeChange { removed, added };
        }
        let n = self.path.len();
        let before_i: usize = if i == 0 { n - 1 } else { i - 1 };
        let before_j: usize = if j == 0 { n - 1 } else { j - 1 };
        let mut positions: Vec<usize> = Vec::new();
        positions.push(before_i);
        positions.push(i);
        if before_j != before_i && before_j != i {
            positions.push(before_j);
        }
        if j != before_i && j != i && j != before_j {
            positions.push(j);
        }
        proof {
            assert(positions@.map_values(|k: usize| k as int) =~= ps);
        }
        let mut t: usize = 0;
        while t < positions.len()
            invariant
                s == self@,
                n == s.len(),
                i < n,
                j < n,
                q == swap_path(s, i as int, j as int),
                positions@.map_values(|k: usize| k as int) == ps,
                forall|x: int| 0 <= x < positions@.len() ==> #[trigger] positions@[x] < n,
                t <= positions@.len(),
                removed@ == edges_at(s, ps.take(t as int)),
                added@ == edges_at(q, ps.take(t as int)),
            decreases positions@.len() - t,
        {
            let k = positions[t];
            let k1: usize = if k + 1 == n { 0 } else { k + 1 };
            let qk = if k == i { self.path[j] } else if k == j { self.path[i] } else { self.path[k] };
            let qk1 = if k1 == i { self.path[j] } else if k1 == j { self.path[i] } else { self.path[k1] };
            removed.push((self.path[k], self.path[k1]));
            added.push((qk, qk1));
            proof {
                assert(k1 == succ(n as int, k as int));
                assert(ps[t as int] == k);
                assert(ps.take(t + 1) =~= ps.take(t as int).push(k as int));
                assert(removed@ =~= edges_at(s, ps.take(t + 1)));
                assert(added@ =~= edges_at(q, ps.take(t + 1)));
            }
            t = t + 1;
        }
        proof {
            assert(ps.take(t as int) =~= ps);
        }
        EdgeChange { removed, added }
    }

    /// Exchanges the locations at positions `i` and `j`.
    pub fn apply_swap(&mut self, i: usize, j: usize)
        requires
            old(self).wf(),
            i < old(self)@.len(),
            j < old(self)@.len(),
        ensures
            final(self)@ == swap_path(old(self)@, i as int, j as int),
            final(self).wf(),
    {
        let ghost s = self.path@;
        let vi = self.path[i];
        let vj = self.path[j];
        self.path[i] = vj;
        self.path[j] = vi;
        proof {
            assert(self.path@ == swap_path(s, i as int, j as int));
            lemma_swap_perm(s, i as int, j as int);
        }
    }
}

} // verus!
