//! The raw rates along a detected cycle, from which the compounded gain is computed.

use crate::builder::{GraphBuilder, Row};
use vstd::prelude::*;

verus! {

/// The rate of the first entry of `row` whose target is `v`.
pub open spec fn rate_to<R>(row: Row<R>, v: int) -> Option<R>
    decreases row.len(),
{
    if row.len() == 0 {
        None
    } else if row[0].0 as int == v {
        Some(row[0].1)
    } else {
        rate_to(row.drop_first(), v)
    }
}

/// The rate that the fetched rows give for step `k` of `path`, if there is one.
pub open spec fn step_rate<R>(codes_len: int, rows: Seq<Option<Row<R>>>, path: Seq<usize>, k: int) -> Option<R> {
    let u = path[k] as int;
    if 0 <= u < codes_len && rows[u] is Some {
        rate_to(rows[u].unwrap(), path[k + 1] as int)
    } else {
        None
    }
}

proof fn lemma_rate_to_found<R>(row: Row<R>, v: int, j: int)
    requires
        0 <= j < row.len(),
        row[j].0 as int == v,
        forall|i: int| 0 <= i < j ==> row[i].0 as int != v,
    ensures
        rate_to(row, v) == Some(row[j].1),
    decreases j,
{
    if j > 0 {
        assert(row[0].0 as int != v);
        lemma_rate_to_found(row.drop_first(), v, j - 1);
    }
}

proof fn lemma_rate_to_absent<R>(row: Row<R>, v: int)
    requires
        forall|i: int| 0 <= i < row.len() ==> row[i].0 as int != v,
    ensures
        rate_to(row, v) is None,
    decreases row.len(),
{
    if row.len() > 0 {
        lemma_rate_to_absent(row.drop_first(), v);
    }
}

/// The rate of the edge `u -> v` in `row`, if it has one.
fn find_rate<R: Copy>(row: &Vec<(usize, R)>, v: usize) -> (r: Option<R>)
    ensures
        r == rate_to(row@, v as int),
{
    let mut j: usize = 0;
    while j < row.len()
        invariant
            j <= row.len(),
            forall|i: int| 0 <= i < j ==> row@[i].0 != v,
        decreases row.len() - j,
    {
        if row[j].0 == v {
            proof {
                lemma_rate_to_found(row@, v as int, j as int);
            }
            return Some(row[j].1);
        }
        j += 1;
    }
    proof {
        lemma_rate_to_absent(row@, v as int);
    }
    None
}

/// The rates of the successive steps of `path` in the graph that `b` has built: entry `k`
/// is the rate for converting `path[k]` into `path[k + 1]`. `None` where some step has no
/// fetched rate.
pub fn cycle_rates<R: Copy>(b: &GraphBuilder<R>, path: &Vec<usize>) -> (r: Option<Vec<R>>)
    requires
        b.wf(),
    ensures
        r is Some <==> forall|k: int|
            0 <= k < path.len() - 1 ==> #[trigger] step_rate(b.codes().len() as int, b.fetched(), path@, k) is Some,
        r matches Some(rs) ==> {
            &&& rs.len() == if path.len() == 0 { 0 } else { path.len() - 1 }
            &&& forall|k: int|
                0 <= k < rs.len() ==> Some(#[trigger] rs@[k]) == step_rate(
                    b.codes().len() as int,
                    b.fetched(),
                    path@,
                    k,
                )
        },
{
    let ghost len = b.codes().len() as int;
    let mut rs: Vec<R> = Vec::new();
    let mut k: usize = 0;
    while k + 1 < path.len()
        invariant
            b.wf(),
            len == b.codes().len(),
            rs.len() == k,
            k == 0 || k < path.len(),
            forall|i: int| 0 <= i < k ==> Some(#[trigger] rs@[i]) == step_rate(len, b.fetched(), path@, i),
        decreases path.len() - k,
    {
        let u = path[k];
        if u >= b.vertex_count() {
            assert(step_rate(len, b.fetched(), path@, k as int) is None);
            return None;
        }
        match b.rates_of(u) {
            None => {
                assert(step_rate(len, b.fetched(), path@, k as int) is None);
                return None;
            },
            Some(row) => {
                match find_rate(row, path[k + 1]) {
                    None => {
                        assert(step_rate(len, b.fetched(), path@, k as int) is None);
                        return None;
                    },
                    Some(rate) => {
                        rs.push(rate);
                    },
                }
            },
        }
        k += 1;
    }
    assert forall|i: int| 0 <= i < path.len() - 1 implies #[trigger] step_rate(len, b.fetched(), path@, i) is Some by {
        assert(Some(rs@[i]) == step_rate(len, b.fetched(), path@, i));
    }
    Some(rs)
}

} // verus!
