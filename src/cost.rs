//! Tour length over an integer-valued weight, and how the local moves change it.
use vstd::prelude::*;
use crate::pair::{hi, lo};
use crate::route::{
    edge_at, edges_at, outer_pos, reverses_inner, succ, swap_path, swap_positions, two_opt_added,
    two_opt_path, two_opt_removed, wrap, pred,
};

verus! {

/// `f(lo) + f(lo + 1) + ... + f(hi - 1)`; zero when `hi <= lo`.
pub open spec fn sum(f: spec_fn(int) -> int, lo: int, hi: int) -> int
    decreases hi - lo,
{
    if hi <= lo {
        0
    } else {
        sum(f, lo, hi - 1) + f(hi - 1)
    }
}

/// The weight of an edge.
pub open spec fn weight(d: spec_fn(usize, usize) -> int, e: (usize, usize)) -> int {
    d(e.0, e.1)
}

/// Total weight of a list of edges.
pub open spec fn pairs_cost(d: spec_fn(usize, usize) -> int, es: Seq<(usize, usize)>) -> int {
    sum(|k: int| weight(d, es[k]), 0, es.len() as int)
}

/// Length of the closed tour `s`: its consecutive edges and the edge from
/// the last location back to the first.
pub open spec fn cycle_cost(d: spec_fn(usize, usize) -> int, s: Seq<usize>) -> int {
    sum(|k: int| weight(d, edge_at(s, k)), 0, s.len() as int)
}

/// `d` gives an edge the same weight in both directions.
pub open spec fn symmetric(d: spec_fn(usize, usize) -> int) -> bool {
    forall|x: usize, y: usize| #[trigger] d(x, y) == d(y, x)
}

proof fn lemma_sum_split(f: spec_fn(int) -> int, l: int, m: int, h: int)
    requires
        l <= m <= h,
    ensures
        sum(f, l, h) == sum(f, l, m) + sum(f, m, h),
    decreases h - m,
{
    if m < h {
        lemma_sum_split(f, l, m, h - 1);
    }
}

proof fn lemma_sum_ext(f: spec_fn(int) -> int, g: spec_fn(int) -> int, l: int, h: int)
    requires
        forall|k: int| l <= k < h ==> #[trigger] f(k) == g(k),
    ensures
        sum(f, l, h) == sum(g, l, h),
    decreases h - l,
{
    if l < h {
        lemma_sum_ext(f, g, l, h - 1);
    }
}

proof fn lemma_sum_shift(f: spec_fn(int) -> int, g: spec_fn(int) -> int, l: int, h: int, c: int)
    requires
        forall|k: int| l <= k < h ==> g(k + c) == #[trigger] f(k),
    ensures
        sum(f, l, h) == sum(g, l + c, h + c),
    decreases h - l,
{
    if l < h {
        lemma_sum_shift(f, g, l, h - 1, c);
    }
}

proof fn lemma_sum_reflect(f: spec_fn(int) -> int, g: spec_fn(int) -> int, l: int, h: int)
    requires
        l <= h,
        forall|k: int| l <= k < h ==> #[trigger] g(k) == f(l + h - 1 - k),
    ensures
        sum(f, l, h) == sum(g, l, h),
    decreases h - l,
{
    if l < h {
        // peel f's last term and g's first term
        lemma_sum_split(g, l, l + 1, h);
        let g1 = |k: int| g(k + 1);
        lemma_sum_shift(g1, g, l, h - 1, 1);
        lemma_sum_reflect(f, g1, l, h - 1);
        assert(sum(g, l, l + 1) == g(l)) by {
            assert(sum(g, l, l) == 0);
        }
    }
}

proof fn lemma_sum_point(f: spec_fn(int) -> int, l: int, h: int)
    requires
        l < h,
        h == l + 1,
    ensures
        sum(f, l, h) == f(l),
{
    assert(sum(f, l, l) == 0);
}

proof fn lemma_pairs_cost_two(d: spec_fn(usize, usize) -> int, e0: (usize, usize), e1: (usize, usize))
    ensures
        pairs_cost(d, seq![e0, e1]) == weight(d, e0) + weight(d, e1),
{
    let es = seq![e0, e1];
    let f = |k: int| weight(d, es[k]);
    assert(sum(f, 0, 0) == 0);
    assert(sum(f, 0, 1) == f(0));
    assert(sum(f, 0, 2) == f(0) + f(1));
}

/// A cyclic sum may start at any position `c + 1` of the cycle.
proof fn lemma_sum_rotate(f: spec_fn(int) -> int, n: int, c: int)
    requires
        0 <= c < n,
    ensures
        sum(f, 0, n) == sum(|m: int| f(wrap(n, m)), c + 1, c + 1 + n),
{
    let ff = |m: int| f(wrap(n, m));
    lemma_sum_split(f, 0, c + 1, n);
    lemma_sum_split(ff, c + 1, n, c + 1 + n);
    assert forall|k: int| c + 1 <= k < n implies #[trigger] f(k) == ff(k) by {}
    lemma_sum_ext(f, ff, c + 1, n);
    assert forall|k: int| 0 <= k < c + 1 implies ff(k + n) == #[trigger] f(k) by {}
    lemma_sum_shift(f, ff, 0, c + 1, n);
}

/// The segment reversal with cut points `i` and `j` changes the length of
/// the tour by exactly the weight of the edges it adds less that of the edges
/// it removes, for every weight that is the same in both directions.
pub proof fn lemma_two_opt_cost(d: spec_fn(usize, usize) -> int, s: Seq<usize>, i: int, j: int)
    requires
        symmetric(d),
        0 <= i < s.len(),
        0 <= j < s.len(),
    ensures
        cycle_cost(d, two_opt_path(s, i, j)) == cycle_cost(d, s) + pairs_cost(d, two_opt_added(s, i, j))
            - pairs_cost(d, two_opt_removed(s, i, j)),
{
    let n = s.len() as int;
    let a = lo(i, j);
    let b = hi(i, j);
    let q = two_opt_path(s, i, j);
    let f = |k: int| weight(d, edge_at(s, k));
    let g = |k: int| weight(d, edge_at(q, k));
    if i == j {
        assert(q =~= s) by {
            assert forall|k: int| 0 <= k < n implies #[trigger] q[k] == s[k] by {}
        }
        assert(pairs_cost(d, seq![]) == 0);
        return;
    }
    lemma_pairs_cost_two(d, edge_at(s, a), edge_at(s, b));
    lemma_pairs_cost_two(d, (s[a], s[b]), (s[succ(n, a)], s[succ(n, b)]));
    let add0 = d(s[a], s[b]);
    let add1 = d(s[succ(n, a)], s[succ(n, b)]);
    if reverses_inner(n, a, b) {
        assert forall|k: int| (0 <= k < a || b < k < n) implies #[trigger] g(k) == f(k) by {}
        lemma_sum_split(f, 0, a, n);
        lemma_sum_split(f, a, a + 1, n);
        lemma_sum_split(f, a + 1, b, n);
        lemma_sum_split(f, b, b + 1, n);
        lemma_sum_split(g, 0, a, n);
        lemma_sum_split(g, a, a + 1, n);
        lemma_sum_split(g, a + 1, b, n);
        lemma_sum_split(g, b, b + 1, n);
        lemma_sum_ext(f, g, 0, a);
        lemma_sum_ext(f, g, b + 1, n);
        lemma_sum_point(f, a, a + 1);
        lemma_sum_point(g, a, a + 1);
        lemma_sum_point(f, b, b + 1);
        lemma_sum_point(g, b, b + 1);
        assert(g(a) == add0);
        assert(g(b) == add1);
        assert forall|k: int| a + 1 <= k < b implies #[trigger] g(k) == f(a + 1 + b - 1 - k) by {
            assert(d(q[k], q[succ(n, k)]) == d(q[succ(n, k)], q[k]));
        }
        lemma_sum_reflect(f, g, a + 1, b);
    } else {
        let ff = |m: int| f(wrap(n, m));
        let gg = |m: int| g(wrap(n, m));
        let mm = a + b + 1 + n;
        lemma_sum_rotate(f, n, b);
        lemma_sum_rotate(g, n, b);
        lemma_sum_split(ff, b + 1, a + n, b + 1 + n);
        lemma_sum_split(ff, a + n, a + n + 1, b + 1 + n);
        lemma_sum_split(ff, a + n + 1, b + n, b + 1 + n);
        lemma_sum_split(gg, b + 1, a + n, b + 1 + n);
        lemma_sum_split(gg, a + n, a + n + 1, b + 1 + n);
        lemma_sum_split(gg, a + n + 1, b + n, b + 1 + n);
        lemma_sum_point(ff, a + n, a + n + 1);
        lemma_sum_point(gg, a + n, a + n + 1);
        lemma_sum_point(ff, b + n, b + n + 1);
        lemma_sum_point(gg, b + n, b + n + 1);
        assert(outer_pos(n, a, wrap(n, b + 1)) == b + 1);
        assert(gg(a + n) == d(s[succ(n, b)], s[succ(n, a)]));
        assert(gg(b + n) == d(s[b], s[a]));
        assert forall|m: int| a + n + 1 <= m < b + n implies #[trigger] gg(m) == ff(m) by {}
        lemma_sum_ext(ff, gg, a + n + 1, b + n);
        assert forall|m: int| b + 1 <= m < a + n implies #[trigger] gg(m) == ff(b + 1 + a + n - 1 - m) by {
            let k = wrap(n, m);
            let k1 = wrap(n, m + 1);
            assert(succ(n, k) == k1);
            assert(outer_pos(n, a, k) == m);
            assert(outer_pos(n, a, k1) == m + 1);
            let r = wrap(n, mm - 1 - m);
            assert(succ(n, r) == wrap(n, mm - m));
            assert(d(q[k], q[k1]) == d(q[k1], q[k]));
        }
        lemma_sum_reflect(ff, gg, b + 1, a + n);
    }
}

proof fn lemma_sum_sub(f: spec_fn(int) -> int, g: spec_fn(int) -> int, l: int, h: int)
    ensures
        sum(g, l, h) - sum(f, l, h) == sum(|k: int| g(k) - f(k), l, h),
    decreases h - l,
{
    if l < h {
        lemma_sum_sub(f, g, l, h - 1);
    }
}

/// Where `g` differs from `f` only at the distinct positions `ps`, the sums
/// over `0..n` differ by the differences at `ps`.
proof fn lemma_sum_diff(f: spec_fn(int) -> int, g: spec_fn(int) -> int, n: int, ps: Seq<int>)
    requires
        ps.no_duplicates(),
        forall|t: int| 0 <= t < ps.len() ==> 0 <= #[trigger] ps[t] < n,
        forall|k: int| 0 <= k < n && !ps.contains(k) ==> #[trigger] f(k) == g(k),
    ensures
        sum(g, 0, n) - sum(f, 0, n) == sum(|t: int| g(ps[t]) - f(ps[t]), 0, ps.len() as int),
    decreases ps.len(),
{
    let dd = |t: int| g(ps[t]) - f(ps[t]);
    if ps.len() == 0 {
        lemma_sum_ext(f, g, 0, n);
    } else {
        let p = ps.last();
        let rest = ps.drop_last();
        let h = |k: int| if k == p { g(k) } else { f(k) };
        assert forall|k: int| 0 <= k < n && !rest.contains(k) implies #[trigger] h(k) == g(k) by {
            if k != p && ps.contains(k) {
                let t = choose|t: int| 0 <= t < ps.len() && ps[t] == k;
                assert(rest[t] == k);
            }
        }
        lemma_sum_diff(h, g, n, rest);
        lemma_sum_split(f, 0, p, n);
        lemma_sum_split(f, p, p + 1, n);
        lemma_sum_split(h, 0, p, n);
        lemma_sum_split(h, p, p + 1, n);
        lemma_sum_point(f, p, p + 1);
        lemma_sum_point(h, p, p + 1);
        lemma_sum_ext(f, h, 0, p);
        lemma_sum_ext(f, h, p + 1, n);
        let dr = |t: int| g(rest[t]) - h(rest[t]);
        assert forall|t: int| 0 <= t < rest.len() implies #[trigger] dr(t) == dd(t) by {
            assert(ps[t] != ps[ps.len() - 1]);
        }
        lemma_sum_ext(dr, dd, 0, rest.len() as int);
    }
}

/// Exchanging the locations at positions `i` and `j` changes the length of
/// the tour by exactly the weight of the edges it adds less that of the edges
/// it removes.
pub proof fn lemma_swap_cost(d: spec_fn(usize, usize) -> int, s: Seq<usize>, i: int, j: int)
    requires
        0 <= i < s.len(),
        0 <= j < s.len(),
    ensures
        cycle_cost(d, swap_path(s, i, j)) == cycle_cost(d, s) + pairs_cost(
            d,
            edges_at(swap_path(s, i, j), swap_positions(s.len() as int, i, j)),
        ) - pairs_cost(d, edges_at(s, swap_positions(s.len() as int, i, j))),
{
    let n = s.len() as int;
    let q = swap_path(s, i, j);
    let ps = swap_positions(n, i, j);
    let f = |k: int| weight(d, edge_at(s, k));
    let g = |k: int| weight(d, edge_at(q, k));
    if i == j {
        assert(q =~= s);
        assert(pairs_cost(d, edges_at(q, ps)) == 0);
        assert(pairs_cost(d, edges_at(s, ps)) == 0);
        return;
    }
    let before_i = pred(n, i);
    let before_j = pred(n, j);
    assert(ps.contains(before_i)) by { assert(ps[0] == before_i); }
    assert(ps.contains(i)) by { assert(ps[1] == i); }
    assert(ps.contains(before_j)) by {
        if before_j != before_i && before_j != i { assert(ps[2] == before_j); }
    }
    assert(ps.contains(j)) by {
        if !(j == before_i || j == i || j == before_j) { assert(ps[ps.len() - 1] == j); }
    }
    assert forall|k: int| 0 <= k < n && !ps.contains(k) implies #[trigger] f(k) == g(k) by {
        assert(k != before_i && k != i && k != before_j && k != j);
        assert(succ(n, k) != i && succ(n, k) != j);
    }
    lemma_sum_diff(f, g, n, ps);
    let es_q = edges_at(q, ps);
    let es_s = edges_at(s, ps);
    let wq = |t: int| weight(d, es_q[t]);
    let ws = |t: int| weight(d, es_s[t]);
    lemma_sum_sub(ws, wq, 0, ps.len() as int);
    let dd = |t: int| g(ps[t]) - f(ps[t]);
    let dw = |t: int| wq(t) - ws(t);
    assert forall|t: int| 0 <= t < ps.len() implies #[trigger] dd(t) == dw(t) by {}
    lemma_sum_ext(dd, dw, 0, ps.len() as int);
}

/// The segment reversal removes and adds the same edges whichever cut point
/// is named first, so it is priced the same either way.
pub proof fn lemma_two_opt_order_free(d: spec_fn(usize, usize) -> int, s: Seq<usize>, i: int, j: int)
    ensures
        two_opt_removed(s, i, j) == two_opt_removed(s, j, i),
        two_opt_added(s, i, j) == two_opt_added(s, j, i),
        pairs_cost(d, two_opt_added(s, i, j)) - pairs_cost(d, two_opt_removed(s, i, j))
            == pairs_cost(d, two_opt_added(s, j, i)) - pairs_cost(d, two_opt_removed(s, j, i)),
        two_opt_path(s, i, j) == two_opt_path(s, j, i),
{
    assert(two_opt_path(s, i, j) =~= two_opt_path(s, j, i));
}

/// A segment reversal whose two cut points coincide changes no edge: it is
/// priced at zero and leaves the tour as it is.
pub proof fn lemma_two_opt_noop(d: spec_fn(usize, usize) -> int, s: Seq<usize>, i: int)
    requires
        0 <= i < s.len(),
    ensures
        two_opt_removed(s, i, i).len() == 0,
        two_opt_added(s, i, i).len() == 0,
        pairs_cost(d, two_opt_added(s, i, i)) - pairs_cost(d, two_opt_removed(s, i, i)) == 0,
        two_opt_path(s, i, i) == s,
{
    assert(two_opt_path(s, i, i) =~= s);
}

} // verus!
