//! Negative-cycle detection: Bellman-Ford relaxation from a start vertex, then
//! reconstruction of a cycle through the predecessor table.

use crate::cost_graph::{
    CostGraph, CostMatrix, MAX_VERTICES, edge_cost, has_edge, has_negative_cycle, is_negative_cycle,
    is_path, matrix_wf, path_cost, reaches, step_ok,
};
use vstd::prelude::*;
use vstd::set_lib::{lemma_int_range, lemma_len_subset, set_int_range};

verus! {

/// Bound on the magnitude of one edge cost.
pub open spec fn cost_bound() -> int {
    0x8000_0000_0000_0000
}

/// The finite distance stored for `x`.
pub open spec fn dval(dist: Seq<Option<i128>>, x: int) -> int {
    dist[x].unwrap() as int
}

/// The predecessor recorded for `v`, if any, is linked to it by an edge that the
/// distances respect; the link is strict where the predecessor was improved after `v`
/// was, and a vertex is its own predecessor only through an edge of negative cost.
pub open spec fn link_ok(
    m: CostMatrix,
    dist: Seq<Option<i128>>,
    pred: Seq<Option<usize>>,
    stamp: Seq<int>,
    v: int,
) -> bool {
    pred[v] is Some ==> {
        let u = pred[v].unwrap() as int;
        &&& has_edge(m, u, v)
        &&& dist[u] is Some
        &&& dist[v] is Some
        &&& dval(dist, v) >= dval(dist, u) + edge_cost(m, u, v)
        &&& (stamp[u] > stamp[v] ==> dval(dist, v) > dval(dist, u) + edge_cost(m, u, v))
        &&& (u == v ==> edge_cost(m, u, v) < 0)
    }
}

/// The invariant of the distance and predecessor tables after `t` improvements;
/// `stamp[v]` is the improvement that last set the predecessor of `v`.
pub open spec fn tables_ok(
    m: CostMatrix,
    dist: Seq<Option<i128>>,
    pred: Seq<Option<usize>>,
    stamp: Seq<int>,
    start: int,
    t: int,
) -> bool {
    &&& matrix_wf(m)
    &&& dist.len() == m.len()
    &&& pred.len() == m.len()
    &&& stamp.len() == m.len()
    &&& 0 <= start < m.len()
    &&& dist[start] is Some
    &&& forall|v: int| 0 <= v < m.len() ==> #[trigger] link_ok(m, dist, pred, stamp, v)
    &&& forall|a: int, b: int|
        0 <= a < m.len() && 0 <= b < m.len() && a != b && pred[a] is Some && pred[b] is Some
            ==> #[trigger] stamp[a] != #[trigger] stamp[b]
    &&& forall|v: int| 0 <= v < m.len() ==> 0 <= #[trigger] stamp[v] <= t
    &&& forall|v: int| 0 <= v < m.len() && #[trigger] pred[v] is Some ==> stamp[v] < t
    &&& forall|v: int|
        0 <= v < m.len() && #[trigger] dist[v] is Some && v != start ==> pred[v] is Some
    &&& forall|v: int| 0 <= v < m.len() && #[trigger] dist[v] is Some ==> reaches(m, start, v)
    &&& forall|v: int|
        0 <= v < m.len() && #[trigger] dist[v] is Some ==> -t * cost_bound() <= dval(dist, v) <= t
            * cost_bound()
}

/// Improving the distance of `v` through the edge `u -> v` keeps the tables' invariant.
proof fn lemma_relax(
    m: CostMatrix,
    dist: Seq<Option<i128>>,
    pred: Seq<Option<usize>>,
    stamp: Seq<int>,
    start: int,
    t: int,
    u: usize,
    v: usize,
    cand: i128,
)
    requires
        tables_ok(m, dist, pred, stamp, start, t),
        t >= 0,
        has_edge(m, u as int, v as int),
        dist[u as int] is Some,
        cand == dval(dist, u as int) + edge_cost(m, u as int, v as int),
        dist[v as int] is None || cand < dval(dist, v as int),
    ensures
        tables_ok(
            m,
            dist.update(v as int, Some(cand)),
            pred.update(v as int, Some(u)),
            stamp.update(v as int, t),
            start,
            t + 1,
        ),
{
    let d2 = dist.update(v as int, Some(cand));
    let p2 = pred.update(v as int, Some(u));
    let s2 = stamp.update(v as int, t);
    assert(-cost_bound() <= edge_cost(m, u as int, v as int) <= cost_bound());
    assert forall|x: int| 0 <= x < m.len() implies #[trigger] link_ok(m, d2, p2, s2, x) by {
        assert(link_ok(m, dist, pred, stamp, x));
        if x == v as int {
            assert(stamp[u as int] <= t);
            if u == v {
                assert(dist[v as int] is Some);
                assert(edge_cost(m, u as int, v as int) < 0);
            }
        } else if pred[x] is Some {
            let y = pred[x].unwrap() as int;
            if y == v as int {
                assert(stamp[x] < t);
                assert(dist[v as int] is Some);
                assert(dval(d2, y) < dval(dist, y));
                assert(dval(d2, x) > dval(d2, y) + edge_cost(m, y, x));
            } else {
                assert(d2[y] == dist[y] && d2[x] == dist[x]);
                assert(s2[y] == stamp[y] && s2[x] == stamp[x]);
            }
        }
    }
    assert forall|x: int| 0 <= x < m.len() implies 0 <= #[trigger] s2[x] <= t + 1 by {
        if x != v as int {
            assert(0 <= stamp[x] <= t);
        }
    }
    assert forall|a: int, b: int|
        0 <= a < m.len() && 0 <= b < m.len() && a != b && p2[a] is Some && p2[b] is Some
            implies #[trigger] s2[a] != #[trigger] s2[b] by {
        if a != v as int && b != v as int {
            assert(stamp[a] != stamp[b]);
        }
    }
    assert(reaches(m, start, u as int));
    let p = choose|p: Seq<usize>| p.len() >= 1 && p[0] == start && p[p.len() - 1] == u as int && #[trigger] is_path(m, p);
    let q = p.push(v);
    assert forall|k: int| 0 <= k < q.len() - 1 implies #[trigger] step_ok(m, q, k) by {
        if k < p.len() - 1 {
            assert(step_ok(m, p, k));
        }
    }
    assert(is_path(m, q));
    assert forall|x: int| 0 <= x < m.len() && #[trigger] d2[x] is Some implies reaches(m, start, x) by {
        if x != v as int {
            assert(dist[x] is Some);
        }
    }
    assert forall|x: int| 0 <= x < m.len() && #[trigger] d2[x] is Some implies -(t + 1) * cost_bound()
        <= dval(d2, x) <= (t + 1) * cost_bound() by {
        if x != v as int {
            assert(dist[x] is Some);
        }
    }
}

/// The sum of the slack `dist[p[k+1]] - dist[p[k]] - cost(p[k], p[k+1])` over the first
/// `i` steps of `p`.
pub open spec fn slack_sum(m: CostMatrix, dist: Seq<Option<i128>>, p: Seq<usize>, i: int) -> int
    decreases i,
{
    if i <= 0 {
        0
    } else {
        slack_sum(m, dist, p, i - 1) + slack(m, dist, p, i - 1)
    }
}

/// The slack of step `k` of `p`.
pub open spec fn slack(m: CostMatrix, dist: Seq<Option<i128>>, p: Seq<usize>, k: int) -> int {
    dval(dist, p[k + 1] as int) - dval(dist, p[k] as int) - edge_cost(m, p[k] as int, p[k + 1] as int)
}

/// The cost of a prefix of `p` telescopes into the difference of its end distances
/// minus the slack.
proof fn lemma_telescope(m: CostMatrix, dist: Seq<Option<i128>>, p: Seq<usize>, i: int)
    requires
        0 <= i < p.len(),
    ensures
        path_cost(m, p.subrange(0, i + 1)) == dval(dist, p[i] as int) - dval(dist, p[0] as int)
            - slack_sum(m, dist, p, i),
    decreases i,
{
    if i > 0 {
        lemma_telescope(m, dist, p, i - 1);
        assert(p.subrange(0, i + 1).drop_last() =~= p.subrange(0, i));
    }
}

/// With no negative slack, the sum over `i` steps is at least the slack of any one of them.
proof fn lemma_slack_sum_ge(m: CostMatrix, dist: Seq<Option<i128>>, p: Seq<usize>, i: int, k: int)
    requires
        0 <= k < i,
        forall|j: int| 0 <= j < i ==> #[trigger] slack(m, dist, p, j) >= 0,
    ensures
        slack_sum(m, dist, p, i) >= slack(m, dist, p, k),
    decreases i,
{
    if i - 1 > k {
        lemma_slack_sum_ge(m, dist, p, i - 1, k);
    } else {
        lemma_slack_sum_nonneg(m, dist, p, i - 1);
    }
}

proof fn lemma_slack_sum_nonneg(m: CostMatrix, dist: Seq<Option<i128>>, p: Seq<usize>, i: int)
    requires
        forall|j: int| 0 <= j < i ==> #[trigger] slack(m, dist, p, j) >= 0,
    ensures
        slack_sum(m, dist, p, i) >= 0,
    decreases i,
{
    if i > 0 {
        lemma_slack_sum_nonneg(m, dist, p, i - 1);
    }
}

/// Stamps that rise at every step rise from the first vertex to the `i`-th.
proof fn lemma_stamps_rise(stamp: Seq<int>, p: Seq<usize>, i: int)
    requires
        1 <= i < p.len(),
        forall|k: int| 0 <= k < p.len() - 1 ==> stamp[#[trigger] p[k] as int] < stamp[p[k + 1] as int],
    ensures
        stamp[p[0] as int] < stamp[p[i] as int],
    decreases i,
{
    if i > 1 {
        lemma_stamps_rise(stamp, p, i - 1);
        assert(stamp[p[i - 1] as int] < stamp[p[i] as int]);
    } else {
        assert(stamp[p[0] as int] < stamp[p[1] as int]);
    }
}

/// A cycle of the predecessor table has negative cost.
proof fn lemma_pred_cycle_negative(
    m: CostMatrix,
    dist: Seq<Option<i128>>,
    pred: Seq<Option<usize>>,
    stamp: Seq<int>,
    start: int,
    t: int,
    c: Seq<usize>,
)
    requires
        tables_ok(m, dist, pred, stamp, start, t),
        c.len() >= 2,
        c[0] == c[c.len() - 1],
        c.drop_last().no_duplicates(),
        forall|k: int| 0 <= k < c.len() ==> #[trigger] c[k] < m.len(),
        forall|k: int| 0 <= k < c.len() - 1 ==> pred[#[trigger] c[k + 1] as int] == Some(c[k]),
    ensures
        is_negative_cycle(m, c),
{
    let len = c.len() as int;
    assert forall|k: int| 0 <= k < len - 1 implies #[trigger] step_ok(m, c, k) && slack(
        m,
        dist,
        c,
        k,
    ) >= 0 by {
        assert(pred[c[k + 1] as int] == Some(c[k]));
        assert(link_ok(m, dist, pred, stamp, c[k + 1] as int));
    }
    assert forall|k: int| 0 <= k < len - 1 implies #[trigger] slack(m, dist, c, k) >= 0 by {
        assert(step_ok(m, c, k));
    }
    lemma_telescope(m, dist, c, len - 1);
    assert(c.subrange(0, len) =~= c);
    // some step has strictly positive slack
    let k0: int;
    if len == 2 {
        assert(pred[c[1] as int] == Some(c[0]));
        assert(link_ok(m, dist, pred, stamp, c[1] as int));
        k0 = 0;
    } else {
        // every vertex of the cycle has a predecessor
        assert forall|k: int| 0 <= k < len implies pred[#[trigger] c[k] as int] is Some by {
            if k == 0 {
                assert(pred[c[len - 1] as int] == Some(c[len - 2]));
            } else {
                assert(pred[c[(k - 1) + 1] as int] == Some(c[k - 1]));
            }
        }
        assert forall|k: int| 0 <= k < len - 1 implies #[trigger] c[k] != c[k + 1] by {
            if k + 1 < len - 1 {
                assert(c.drop_last()[k] == c[k] && c.drop_last()[k + 1] == c[k + 1]);
            } else {
                assert(c.drop_last()[k] == c[k] && c.drop_last()[0] == c[0]);
            }
        }
        if forall|k: int| 0 <= k < len - 1 ==> stamp[#[trigger] c[k] as int] < stamp[c[k + 1] as int] {
            lemma_stamps_rise(stamp, c, len - 1);
            assert(false);
        }
        let k = choose|k: int| 0 <= k < len - 1 && !(stamp[#[trigger] c[k] as int] < stamp[c[k + 1] as int]);
        assert(pred[c[k] as int] is Some && pred[c[k + 1] as int] is Some);
        assert(c[k] != c[k + 1]);
        assert(stamp[c[k] as int] != stamp[c[k + 1] as int]);
        assert(pred[c[k + 1] as int] == Some(c[k]));
        assert(link_ok(m, dist, pred, stamp, c[k + 1] as int));
        k0 = k;
    }
    assert(slack(m, dist, c, k0) > 0);
    lemma_slack_sum_ge(m, dist, c, len - 1, k0);
}

/// A sequence of distinct vertices below `n` has at most `n` entries.
proof fn lemma_distinct_bounded(s: Seq<usize>, n: usize)
    requires
        s.no_duplicates(),
        forall|i: int| 0 <= i < s.len() ==> #[trigger] s[i] < n,
    ensures
        s.len() <= n,
{
    let t = s.map_values(|x: usize| x as int);
    assert forall|i: int, j: int| 0 <= i < t.len() && 0 <= j < t.len() && i != j implies t[i] != t[j] by {
        assert(s[i] != s[j]);
    }
    t.unique_seq_to_set();
    lemma_int_range(0, n as int);
    assert forall|x: int| t.to_set().contains(x) implies set_int_range(0, n as int).contains(x) by {
        let i = choose|i: int| 0 <= i < t.len() && t[i] == x;
        assert(s[i] < n);
    }
    lemma_len_subset(t.to_set(), set_int_range(0, n as int));
}

/// The distance and predecessor tables of a search.
pub type Tables = (Seq<Option<i128>>, Seq<Option<usize>>);

/// The tables before any relaxation: distance 0 at `start`, nothing else known.
pub open spec fn initial_tables(n: nat, start: int) -> Tables {
    (Seq::new(n, |x: int| None::<i128>).update(start, Some(0i128)), Seq::new(n, |x: int| None::<usize>))
}

/// The edge `u -> v` can still improve the distance of `v`.
pub open spec fn can_relax(m: CostMatrix, s: Tables, u: int, v: int) -> bool {
    &&& m[u][v] is Some
    &&& s.0[u] is Some
    &&& (s.0[v] is None || s.0[u].unwrap() + m[u][v].unwrap() < s.0[v].unwrap())
}

/// Relaxing the edge `u -> v`.
pub open spec fn relax_edge(m: CostMatrix, s: Tables, u: int, v: int) -> Tables {
    if can_relax(m, s, u, v) {
        (
            s.0.update(v, Some((s.0[u].unwrap() + m[u][v].unwrap()) as i128)),
            s.1.update(v, Some(u as usize)),
        )
    } else {
        s
    }
}

/// Relaxing the edges `u -> 0`, ..., `u -> v - 1` in turn.
pub open spec fn relax_row(m: CostMatrix, s: Tables, u: int, v: int) -> Tables
    decreases v,
{
    if v <= 0 {
        s
    } else {
        relax_edge(m, relax_row(m, s, u, v - 1), u, v - 1)
    }
}

/// Relaxing the edges out of vertices `0`, ..., `u - 1` in turn.
pub open spec fn relax_rows(m: CostMatrix, s: Tables, u: int) -> Tables
    decreases u,
{
    if u <= 0 {
        s
    } else {
        relax_row(m, relax_rows(m, s, u - 1), u - 1, m.len() as int)
    }
}

/// `p` full passes of relaxation over every edge.
pub open spec fn relax_passes(m: CostMatrix, s: Tables, p: int) -> Tables
    decreases p,
{
    if p <= 0 {
        s
    } else {
        relax_rows(m, relax_passes(m, s, p - 1), m.len() as int)
    }
}

/// The tables after one pass per vertex from `start`.
pub open spec fn relaxed_tables(m: CostMatrix, start: int) -> Tables {
    relax_passes(m, initial_tables(m.len(), start), m.len() as int)
}

/// The first position of `x` in `trail`.
pub open spec fn first_index(trail: Seq<usize>, x: usize) -> int {
    choose|j: int| 0 <= j < trail.len() && trail[j] == x && forall|k: int| 0 <= k < j ==> trail[k] != x
}

/// The cycle closed when the walk along `trail` comes back to `x`: `x`, then the walk
/// read backwards down to the first occurrence of `x`.
pub open spec fn closed_cycle(trail: Seq<usize>, x: usize) -> Seq<usize> {
    let j = first_index(trail, x);
    seq![x] + Seq::new((trail.len() - j) as nat, |i: int| trail[trail.len() - 1 - i])
}

/// The predecessor walk that has visited `trail` and stands at `cur`: the cycle closed by
/// the first vertex met twice, or `None` once the walk reaches `start` (or cannot go on).
pub open spec fn pred_walk(pred: Seq<Option<usize>>, start: int, trail: Seq<usize>, cur: usize) -> Option<
    Seq<usize>,
>
    decreases pred.len() - trail.len(),
{
    if trail.contains(cur) {
        Some(closed_cycle(trail, cur))
    } else if cur as int == start || trail.len() >= pred.len() || !(0 <= cur < pred.len()) || pred[cur as int] is None {
        None
    } else {
        pred_walk(pred, start, trail.push(cur), pred[cur as int].unwrap())
    }
}

/// Scanning the edges from `u -> v` onwards, row by row: the cycle found from the first
/// edge that can still be relaxed and whose predecessor walk closes one.
pub open spec fn scan_from(m: CostMatrix, s: Tables, start: int, u: int, v: int) -> Option<Seq<usize>>
    decreases (m.len() - u) as nat, (m.len() - v) as nat,
{
    if u >= m.len() || u < 0 {
        None
    } else if v >= m.len() || v < 0 {
        scan_from(m, s, start, u + 1, 0)
    } else if can_relax(m, s, u, v) && pred_walk(s.1, start, seq![], u as usize) is Some {
        pred_walk(s.1, start, seq![], u as usize)
    } else {
        scan_from(m, s, start, u, v + 1)
    }
}

/// What a search for a negative cycle from `start` finds: after one pass of relaxation
/// per vertex, the cycle from the first edge, in row order, that can still be relaxed and
/// whose predecessor walk closes a cycle before it reaches `start`; `None` if none does.
pub open spec fn detect_spec(m: CostMatrix, start: int) -> Option<Seq<usize>> {
    scan_from(m, relaxed_tables(m, start), start, 0, 0)
}

/// The sequence a result holds, if any.
pub open spec fn found_seq(r: Option<Vec<usize>>) -> Option<Seq<usize>> {
    match r {
        Some(c) => Some(c@),
        None => None,
    }
}

/// Walks the predecessor table back from `u`; returns the cycle closed by the first
/// vertex met twice, or `None` where the walk reaches `start` first.
fn extract_cycle(
    pred: &Vec<Option<usize>>,
    u: usize,
    start: usize,
    n: usize,
    Ghost(m): Ghost<CostMatrix>,
    Ghost(dist): Ghost<Seq<Option<i128>>>,
    Ghost(stamp): Ghost<Seq<int>>,
    Ghost(t): Ghost<int>,
) -> (r: Option<Vec<usize>>)
    requires
        tables_ok(m, dist, pred@, stamp, start as int, t),
        n == m.len(),
        u < n,
        dist[u as int] is Some,
    ensures
        r matches Some(c) ==> is_negative_cycle(m, c@) && reaches(m, start as int, c@[0] as int),
        found_seq(r) == pred_walk(pred@, start as int, seq![], u),
{
    let mut trail: Vec<usize> = Vec::new();
    let mut cur = u;
    assert(trail@ =~= seq![]);
    loop
        invariant
            pred_walk(pred@, start as int, seq![], u) == pred_walk(pred@, start as int, trail@, cur),
            tables_ok(m, dist, pred@, stamp, start as int, t),
            n == m.len(),
            cur < n,
            dist[cur as int] is Some,
            trail@.no_duplicates(),
            trail.len() <= n,
            forall|k: int| 0 <= k < trail.len() ==> #[trigger] trail@[k] < n,
            forall|k: int|
                0 <= k < trail.len() ==> pred@[#[trigger] trail@[k] as int] == Some(
                    if k + 1 < trail.len() {
                        trail@[k + 1]
                    } else {
                        cur
                    },
                ),
        decreases n - trail.len(),
    {
        let mut j: usize = 0;
        while j < trail.len() && trail[j] != cur
            invariant
                j <= trail.len(),
                forall|k: int| 0 <= k < j ==> trail@[k] != cur,
            decreases trail.len() - j,
        {
            j += 1;
        }
        if j < trail.len() {
            let len = trail.len();
            let mut c: Vec<usize> = Vec::new();
            c.push(cur);
            let mut k = len;
            while k > j
                invariant
                    len == trail.len(),
                    j <= k <= len,
                    c.len() == 1 + len - k,
                    c@[0] == cur,
                    forall|i: int| 1 <= i < c.len() ==> #[trigger] c@[i] == trail@[len - i],
                decreases k,
            {
                k -= 1;
                c.push(trail[k]);
            }
            proof {
                let cs = c@;
                assert(cs[cs.len() - 1] == trail@[j as int]);
                assert forall|i: int| 0 <= i < cs.len() implies #[trigger] cs[i] < m.len() by {
                    if i >= 1 {
                        assert(cs[i] == trail@[len - i]);
                    }
                }
                assert forall|i: int| 0 <= i < cs.len() - 1 implies pred@[#[trigger] cs[i + 1] as int]
                    == Some(cs[i]) by {
                    assert(cs[i + 1] == trail@[len - i - 1]);
                    assert(pred@[trail@[len - i - 1] as int] == Some(
                        if len - i - 1 + 1 < len {
                            trail@[len - i - 1 + 1]
                        } else {
                            cur
                        },
                    ));
                }
                assert forall|a: int, b: int|
                    0 <= a < cs.drop_last().len() && 0 <= b < cs.drop_last().len() && a != b implies cs.drop_last()[a]
                    != cs.drop_last()[b] by {
                    if a == 0 {
                        assert(cs[b] == trail@[len - b]);
                    } else if b == 0 {
                        assert(cs[a] == trail@[len - a]);
                    } else {
                        assert(cs[a] == trail@[len - a]);
                        assert(cs[b] == trail@[len - b]);
                    }
                }
                lemma_pred_cycle_negative(m, dist, pred@, stamp, start as int, t, cs);
                assert(trail@.contains(cur));
                let fj = first_index(trail@, cur);
                if fj != j as int {
                    if fj < j {
                        assert(trail@[fj] != cur);
                    } else {
                        assert(trail@[j as int] != cur);
                    }
                }
                assert(cs =~= closed_cycle(trail@, cur));
            }
            return Some(c);
        }
        assert(!trail@.contains(cur));
        if cur == start {
            return None;
        }
        let p = pred[cur].unwrap();
        proof {
            assert(link_ok(m, dist, pred@, stamp, cur as int));
            let nt = trail@.push(cur);
            assert forall|a: int, b: int| 0 <= a < nt.len() && 0 <= b < nt.len() && a != b implies nt[a]
                != nt[b] by {
                if a < trail.len() && b < trail.len() {
                    assert(trail@[a] != trail@[b]);
                }
            }
            assert forall|i: int| 0 <= i < nt.len() implies #[trigger] nt[i] < n by {
                if i < trail.len() {
                    assert(trail@[i] < n);
                }
            }
            lemma_distinct_bounded(nt, n);
            assert(pred_walk(pred@, start as int, trail@, cur) == pred_walk(pred@, start as int, nt, p));
        }
        trail.push(cur);
        cur = p;
    }
}

/// Searches for a negative cycle reachable from `start`: relaxes every edge once per
/// vertex, then takes the first edge that could still be relaxed and reconstructs a cycle
/// through the predecessor table from its source. Where that walk reaches `start` before
/// it closes a cycle, the scan goes on with the next such edge.
pub fn detect_cycle(g: &CostGraph, start: usize) -> (r: Option<Vec<usize>>)
    requires
        g.wf(),
        start < g@.len(),
    ensures
        found_seq(r) == detect_spec(g@, start as int),
        r matches Some(c) ==> is_negative_cycle(g@, c@) && reaches(g@, start as int, c@[0] as int),
        !has_negative_cycle(g@) ==> r is None,
{
    let n = g.vertex_count();
    let mut dist: Vec<Option<i128>> = Vec::new();
    let mut pred: Vec<Option<usize>> = Vec::new();
    let mut i: usize = 0;
    while i < n
        invariant
            i <= n,
            dist@ == Seq::new(i as nat, |x: int| None::<i128>),
            pred@ == Seq::new(i as nat, |x: int| None::<usize>),
        decreases n - i,
    {
        dist.push(None);
        pred.push(None);
        i += 1;
        assert(dist@ =~= Seq::new(i as nat, |x: int| None::<i128>));
        assert(pred@ =~= Seq::new(i as nat, |x: int| None::<usize>));
    }
    dist.set(start, Some(0));
    assert((dist@, pred@) =~= initial_tables(n as nat, start as int));
    let ghost init = initial_tables(n as nat, start as int);
    assert(is_path(g@, seq![start]));
    assert(reaches(g@, start as int, start as int));
    let ghost mut stamp: Seq<int> = Seq::new(n as nat, |x: int| 0int);
    let ghost mut t: int = 0;
    let ghost nn: int = n as int * n as int;
    assert(nn <= 0x1_0000_0000) by (nonlinear_arith)
        requires
            nn == n * n,
            n <= 65536,
    ;
    assert(tables_ok(g@, dist@, pred@, stamp, start as int, t));
    let mut pass: usize = 0;
    while pass < n
        invariant
            n == g@.len(),
            g.wf(),
            start < n,
            pass <= n,
            nn == n * n,
            nn <= 0x1_0000_0000,
            tables_ok(g@, dist@, pred@, stamp, start as int, t),
            0 <= t <= pass * nn,
            init == initial_tables(n as nat, start as int),
            (dist@, pred@) == relax_passes(g@, init, pass as int),
        decreases n - pass,
    {
        let mut u: usize = 0;
        while u < n
            invariant
                n == g@.len(),
                g.wf(),
                start < n,
                pass < n,
                u <= n,
                nn == n * n,
                nn <= 0x1_0000_0000,
                tables_ok(g@, dist@, pred@, stamp, start as int, t),
                0 <= t <= pass * nn + u * n,
                init == initial_tables(n as nat, start as int),
                (dist@, pred@) == relax_rows(g@, relax_passes(g@, init, pass as int), u as int),
            decreases n - u,
        {
            let mut v: usize = 0;
            while v < n
                invariant
                    n == g@.len(),
                    g.wf(),
                    start < n,
                    pass < n,
                    u < n,
                    v <= n,
                    nn == n * n,
                    nn <= 0x1_0000_0000,
                    tables_ok(g@, dist@, pred@, stamp, start as int, t),
                    0 <= t <= pass * nn + u * n + v,
                    init == initial_tables(n as nat, start as int),
                    (dist@, pred@) == relax_row(
                        g@,
                        relax_rows(g@, relax_passes(g@, init, pass as int), u as int),
                        u as int,
                        v as int,
                    ),
                decreases n - v,
            {
                assert(pass * nn + u * n + v < 0x1_0000_0000_0000) by (nonlinear_arith)
                    requires
                        pass < n,
                        u < n,
                        v < n,
                        n <= 65536,
                        nn == n * n,
                ;
                let ghost before: Tables = (dist@, pred@);
                if let Some(w) = g.cost(u, v) {
                    if let Some(du) = dist[u] {
                        assert(-t * cost_bound() <= dval(dist@, u as int) <= t * cost_bound());
                        let cand: i128 = du + w as i128;
                        let better = match dist[v] {
                            None => true,
                            Some(dv) => cand < dv,
                        };
                        if better {
                            proof {
                                lemma_relax(g@, dist@, pred@, stamp, start as int, t, u, v, cand);
                            }
                            dist.set(v, Some(cand));
                            pred.set(v, Some(u));
                            proof {
                                stamp = stamp.update(v as int, t);
                                t = t + 1;
                            }
                        }
                    }
                }
                assert((dist@, pred@) =~= relax_edge(g@, before, u as int, v as int));
                v += 1;
            }
            assert(pass * nn + u * n + n == pass * nn + (u + 1) * n) by (nonlinear_arith);
            u += 1;
        }
        assert(pass * nn + n * n == (pass + 1) * nn) by (nonlinear_arith)
            requires
                nn == n * n,
        ;
        pass += 1;
    }
    assert(n * nn <= 0x1_0000_0000_0000) by (nonlinear_arith)
        requires
            nn == n * n,
            n <= 65536,
    ;
    let mut u: usize = 0;
    while u < n
        invariant
            n == g@.len(),
            g.wf(),
            start < n,
            u <= n,
            tables_ok(g@, dist@, pred@, stamp, start as int, t),
            0 <= t <= 0x1_0000_0000_0000,
            detect_spec(g@, start as int) == scan_from(g@, (dist@, pred@), start as int, u as int, 0),
        decreases n - u,
    {
        let mut v: usize = 0;
        while v < n
            invariant
                n == g@.len(),
                g.wf(),
                start < n,
                u < n,
                v <= n,
                tables_ok(g@, dist@, pred@, stamp, start as int, t),
                0 <= t <= 0x1_0000_0000_0000,
                detect_spec(g@, start as int) == scan_from(g@, (dist@, pred@), start as int, u as int, v as int),
            decreases n - v,
        {
            if let Some(w) = g.cost(u, v) {
                if let Some(du) = dist[u] {
                    assert(-t * cost_bound() <= dval(dist@, u as int) <= t * cost_bound());
                    let cand: i128 = du + w as i128;
                    let violated = match dist[v] {
                        None => true,
                        Some(dv) => cand < dv,
                    };
                    if violated {
                        let found = extract_cycle(
                            &pred,
                            u,
                            start,
                            n,
                            Ghost(g@),
                            Ghost(dist@),
                            Ghost(stamp),
                            Ghost(t),
                        );
                        if let Some(c) = found {
                            assert(is_negative_cycle(g@, c@) && reaches(g@, start as int, c@[0] as int));
                            return Some(c);
                        }
                    }
                }
            }
            v += 1;
        }
        u += 1;
    }
    None
}

/// Runs `detect_cycle` from every vertex; entry `v` of the result is what the search
/// from `v` found.
pub fn detect_any_cycle(g: &CostGraph) -> (r: Vec<Option<Vec<usize>>>)
    requires
        g.wf(),
    ensures
        r.len() == g@.len(),
        forall|v: int| 0 <= v < r.len() ==> #[trigger] found_seq(r@[v]) == detect_spec(g@, v),
        forall|v: int|
            0 <= v < r.len() ==> (#[trigger] r@[v] matches Some(c) ==> is_negative_cycle(g@, c@) && reaches(
                g@,
                v,
                c@[0] as int,
            )),
        !has_negative_cycle(g@) ==> forall|v: int| 0 <= v < r.len() ==> #[trigger] r@[v] is None,
{
    let n = g.vertex_count();
    let mut res: Vec<Option<Vec<usize>>> = Vec::new();
    let mut v: usize = 0;
    while v < n
        invariant
            n == g@.len(),
            g.wf(),
            v <= n,
            res.len() == v,
            forall|x: int| 0 <= x < v ==> #[trigger] found_seq(res@[x]) == detect_spec(g@, x),
            forall|x: int|
                0 <= x < v ==> (#[trigger] res@[x] matches Some(c) ==> is_negative_cycle(g@, c@) && reaches(
                    g@,
                    x,
                    c@[0] as int,
                )),
        decreases n - v,
    {
        let found = detect_cycle(g, v);
        res.push(found);
        v += 1;
    }
    res
}

} // verus!
