//! Construction of the currency graph by a worklist traversal over a rate source.
//!
//! The traversal is a state machine: `next_currency` names the currency whose rates are
//! needed, the caller obtains them and hands them to `record`, until no currency is left.
//! Each currency gets a vertex number the first time it is seen; it is queued for a rate
//! lookup exactly then, so that every currency is looked up once.

use vstd::prelude::*;
use vstd::set_lib::lemma_len_subset;

verus! {

/// The codes of `names`, as character sequences.
pub open spec fn codes_of(names: Seq<String>) -> Seq<Seq<char>> {
    Seq::new(names.len(), |i: int| names[i]@)
}

/// The first index at which `code` stands in `names`, if any.
fn position_of(names: &Vec<String>, code: &String) -> (r: Option<usize>)
    ensures
        r matches Some(i) ==> i < names.len() && names@[i as int]@ == code@,
        r is None ==> forall|i: int| 0 <= i < names.len() ==> names@[i]@ != code@,
{
    let mut i: usize = 0;
    while i < names.len()
        invariant
            i <= names.len(),
            forall|j: int| 0 <= j < i ==> names@[j]@ != code@,
        decreases names.len() - i,
    {
        if names[i] == *code {
            return Some(i);
        }
        i += 1;
    }
    None
}

/// `code` is one of the targets of `rates`.
pub open spec fn is_target<R>(rates: Seq<(String, R)>, code: Seq<char>) -> bool {
    exists|k: int| 0 <= k < rates.len() && #[trigger] rates[k].0@ == code
}

/// Vertex `i` is a target in `row`.
pub open spec fn in_row<R>(row: Row<R>, i: int) -> bool {
    exists|e: int| 0 <= e < row.len() && (#[trigger] row[e]).0 == i
}

/// A vertex's rates as `(target vertex, rate)` pairs.
pub type Row<R> = Seq<(usize, R)>;

/// Vertex `i` occurs as a target in the rates fetched for `j`.
pub open spec fn links<R>(rows: Seq<Option<Row<R>>>, j: int, i: int) -> bool {
    0 <= j < rows.len() && rows[j] is Some && exists|e: int|
        0 <= e < rows[j].unwrap().len() && (#[trigger] rows[j].unwrap()[e]).0 == i
}

/// Vertex `i` occurs among the rates fetched for a vertex numbered before it.
pub open spec fn discovered<R>(rows: Seq<Option<Row<R>>>, i: int) -> bool {
    exists|j: int| 0 <= j < i && #[trigger] links(rows, j, i)
}

/// `p` leads from the base currency (vertex 0) along fetched rates.
pub open spec fn is_discovery_path<R>(rows: Seq<Option<Row<R>>>, p: Seq<int>) -> bool {
    &&& p.len() >= 1
    &&& p[0] == 0
    &&& forall|k: int| 0 <= k < p.len() - 1 ==> #[trigger] links(rows, p[k], p[k + 1])
}

/// Vertex `i` is reachable from the base currency by repeated rate lookups.
pub open spec fn reachable<R>(rows: Seq<Option<Row<R>>>, i: int) -> bool {
    exists|p: Seq<int>| is_discovery_path(rows, p) && p[p.len() - 1] == i
}

/// The state of a graph construction: the currencies seen so far (vertex `i` is
/// `names[i]`), the rates fetched for each, and the vertices still to be looked up.
pub struct GraphBuilder<R> {
    names: Vec<String>,
    rows: Vec<Option<Vec<(usize, R)>>>,
    worklist: Vec<usize>,
}

impl<R: Copy> GraphBuilder<R> {
    /// The currency codes seen so far; the index of a code is its vertex.
    pub closed spec fn codes(&self) -> Seq<Seq<char>> {
        codes_of(self.names@)
    }

    /// For each vertex, the rates fetched for it, or `None` while it awaits its lookup.
    pub closed spec fn fetched(&self) -> Seq<Option<Row<R>>> {
        Seq::new(self.rows@.len(), |i: int| if self.rows@[i] is Some { Some(self.rows@[i].unwrap()@) } else { None })
    }

    /// The vertices awaiting their rate lookup; the last one is looked up next.
    pub closed spec fn pending(&self) -> Seq<usize> {
        self.worklist@
    }

    /// The invariant of a construction: codes are distinct; exactly the vertices without
    /// rates are pending, each once; every target is a vertex; and every vertex but the
    /// base was first seen among the rates of an earlier vertex.
    pub open spec fn wf(&self) -> bool {
        let codes = self.codes();
        let rows = self.fetched();
        let pend = self.pending();
        &&& codes.len() >= 1
        &&& rows.len() == codes.len()
        &&& codes.no_duplicates()
        &&& pend.no_duplicates()
        &&& forall|k: int| 0 <= k < pend.len() ==> #[trigger] pend[k] < codes.len()
        &&& forall|i: int| 0 <= i < rows.len() ==> (#[trigger] rows[i] is None <==> pend.contains(i as usize))
        &&& forall|i: int, e: int|
            0 <= i < rows.len() && rows[i] is Some && 0 <= e < rows[i].unwrap().len() ==> (
            #[trigger] rows[i].unwrap()[e]).0 < codes.len()
        &&& forall|i: int| 0 < i < rows.len() ==> #[trigger] discovered(rows, i)
    }

    /// Starts a construction from `base`, which is vertex 0 and the first to be looked up.
    pub fn new(base: String) -> (r: GraphBuilder<R>)
        ensures
            r.wf(),
            r.codes() == seq![base@],
            r.fetched() == seq![None::<Row<R>>],
            r.pending() == seq![0usize],
    {
        let mut names: Vec<String> = Vec::new();
        names.push(base);
        let mut rows: Vec<Option<Vec<(usize, R)>>> = Vec::new();
        rows.push(None);
        let mut worklist: Vec<usize> = Vec::new();
        worklist.push(0);
        let r = GraphBuilder { names, rows, worklist };
        assert(r.codes() =~= seq![base@]);
        assert(r.fetched() =~= seq![None::<Row<R>>]);
        assert(r.pending()[0] == 0);
        assert(r.pending().contains(0usize));
        r
    }

    /// The currency whose rates are needed next, or `None` when the construction is
    /// complete.
    pub fn next_currency(&self) -> (r: Option<String>)
        requires
            self.wf(),
        ensures
            self.pending().len() == 0 <==> r is None,
            r matches Some(c) ==> c@ == self.codes()[self.pending().last() as int],
    {
        if self.worklist.len() == 0 {
            None
        } else {
            let v = self.worklist[self.worklist.len() - 1];
            Some(self.names[v].clone())
        }
    }

    /// Records `rates`, the rates fetched for the currency that `next_currency` named:
    /// each target not seen before becomes a new vertex and is queued; the rates are kept
    /// as they came, with each target replaced by its vertex.
    pub fn record(&mut self, rates: &Vec<(String, R)>)
        requires
            old(self).wf(),
            old(self).pending().len() > 0,
        ensures
            final(self).wf(),
            ({
                let c = old(self).pending().last() as int;
                let old_len = old(self).codes().len();
                let codes = final(self).codes();
                let row = final(self).fetched()[c].unwrap();
                &&& codes.len() >= old_len
                &&& final(self).codes().subrange(0, old_len as int) == old(self).codes()
                &&& forall|k: int| 0 <= k < rates.len() ==> codes.contains(#[trigger] rates@[k].0@)
                &&& forall|i: int| old_len <= i < codes.len() ==> #[trigger] is_target(rates@, codes[i])
                &&& final(self).fetched().len() == codes.len()
                &&& old(self).fetched()[c] is None
                &&& final(self).fetched()[c] is Some
                &&& row.len() == rates.len()
                &&& forall|k: int|
                    0 <= k < rates.len() ==> codes[(#[trigger] row[k]).0 as int] == rates@[k].0@ && row[k].1
                        == rates@[k].1
                &&& forall|i: int|
                    0 <= i < old_len && i != c ==> #[trigger] final(self).fetched()[i] == old(self).fetched()[i]
                &&& forall|i: int| old_len <= i < codes.len() ==> #[trigger] final(self).fetched()[i] is None
                &&& final(self).pending() == old(self).pending().drop_last() + Seq::new(
                    (codes.len() - old_len) as nat,
                    |x: int| (old_len + x) as usize,
                )
            }),
    {
        let ghost old_rows = self.fetched();
        let ghost old_pend = self.pending();
        let ghost old_codes = self.codes();
        let c = self.worklist.pop().unwrap();
        assert(self.worklist@ == old_pend.drop_last());
        assert(old_pend.contains(c));
        assert(old_rows[c as int] is None);
        let old_len = self.names.len();
        assert(c < old_len);
        let mut row: Vec<(usize, R)> = Vec::new();
        let mut k: usize = 0;
        while k < rates.len()
            invariant
                k <= rates.len(),
                old_len == old_codes.len(),
                c < old_len,
                self.names.len() == self.rows.len(),
                self.names.len() >= old_len,
                codes_of(self.names@).subrange(0, old_len as int) == old_codes,
                codes_of(self.names@).no_duplicates(),
                self.fetched().subrange(0, old_len as int) == old_rows,
                forall|i: int| old_len <= i < self.rows.len() ==> #[trigger] self.rows@[i] is None,
                self.worklist@ == old_pend.drop_last() + Seq::new(
                    (self.names.len() - old_len) as nat,
                    |x: int| (old_len + x) as usize,
                ),
                row.len() == k,
                forall|j: int|
                    0 <= j < k ==> (#[trigger] row@[j]).0 < self.names.len() && codes_of(self.names@)[row@[j].0 as int]
                        == rates@[j].0@ && row@[j].1 == rates@[j].1,
                forall|i: int| old_len <= i < self.names.len() ==> #[trigger] in_row(row@, i),
            decreases rates.len() - k,
        {
            let ghost pre_names = self.names@;
            let ghost pre_rows = self.fetched();
            let ghost pre_work = self.worklist@;
            let code = &rates[k].0;
            let found = position_of(&self.names, code);
            let idx = match found {
                Some(i) => i,
                None => {
                    let i = self.names.len();
                    self.names.push(code.clone());
                    self.rows.push(None);
                    self.worklist.push(i);
                    proof {
                        let cs = codes_of(self.names@);
                        assert(cs =~= codes_of(pre_names).push(code@));
                        assert(cs.subrange(0, old_len as int) =~= codes_of(pre_names).subrange(0, old_len as int));
                        assert forall|a: int, b: int| 0 <= a < cs.len() && 0 <= b < cs.len() && a != b implies cs[a]
                            != cs[b] by {
                            if a < pre_names.len() && b < pre_names.len() {
                                assert(codes_of(pre_names)[a] != codes_of(pre_names)[b]);
                            }
                        }
                        assert(self.fetched().subrange(0, old_len as int) =~= pre_rows.subrange(0, old_len as int));
                        assert(self.worklist@ =~= old_pend.drop_last() + Seq::new(
                            (self.names.len() - old_len) as nat,
                            |x: int| (old_len + x) as usize,
                        ));
                    }
                    i
                },
            };
            let ghost pre_row = row@;
            row.push((idx, rates[k].1));
            proof {
                assert(row@.drop_last() =~= pre_row);
                assert forall|i: int| old_len <= i < self.names.len() implies #[trigger] in_row(row@, i) by {
                    if i == idx {
                        assert(row@[k as int].0 == i);
                    } else {
                        assert(in_row(pre_row, i));
                        let j = choose|j: int| 0 <= j < pre_row.len() && (#[trigger] pre_row[j]).0 == i;
                        assert(row@[j].0 == i);
                    }
                }
                assert forall|j: int| 0 <= j < k + 1 implies (#[trigger] row@[j]).0 < self.names.len()
                    && codes_of(self.names@)[row@[j].0 as int] == rates@[j].0@ && row@[j].1 == rates@[j].1 by {
                    if j < k {
                        assert(codes_of(pre_names)[row@[j].0 as int] == codes_of(self.names@)[row@[j].0 as int]);
                    }
                }
            }
            k += 1;
        }
        let ghost pre_rows = self.rows@;
        let ghost pre_fetched = self.fetched();
        let ghost fresh = row@;
        self.rows.set(c, Some(row));
        proof {
            let codes = codes_of(self.names@);
            let rows = self.fetched();
            let pend = self.worklist@;
            let len = codes.len();
            assert(codes == self.codes());
            assert(rows == self.fetched());
            assert(rows[c as int] == Some(fresh));
            assert forall|i: int| 0 <= i < len && i != c implies #[trigger] rows[i] == pre_fetched[i] by {}
            assert forall|i: int| 0 <= i < old_len implies #[trigger] codes[i] == old_codes[i] by {
                assert(codes.subrange(0, old_len as int)[i] == codes[i]);
            }
            assert forall|i: int| 0 <= i < old_len && i != c implies #[trigger] rows[i] == old_rows[i] by {
                assert(pre_fetched.subrange(0, old_len as int)[i] == pre_fetched[i]);
            }
            assert forall|kk: int| 0 <= kk < rates.len() implies codes.contains(#[trigger] rates@[kk].0@) by {
                assert(codes[fresh[kk].0 as int] == rates@[kk].0@);
            }
            assert forall|i: int| old_len <= i < len implies #[trigger] is_target(rates@, codes[i]) by {
                assert(in_row(fresh, i));
                let j = choose|j: int| 0 <= j < fresh.len() && (#[trigger] fresh[j]).0 == i;
                assert(rates@[j].0@ == codes[i]);
            }
            // pending: the old list without its last entry, then the new vertices
            let dl = old_pend.drop_last();
            assert forall|x: int| 0 <= x < dl.len() implies #[trigger] dl[x] < old_len && dl[x] != c by {
                assert(old_pend[x] < old_len);
                assert(old_pend[x] != old_pend[old_pend.len() - 1]);
            }
            assert forall|x: int| 0 <= x < pend.len() implies #[trigger] pend[x] < len by {
                if x >= dl.len() {
                    assert(pend[x] == old_len + (x - dl.len()));
                }
            }
            assert forall|a: int, b: int| 0 <= a < pend.len() && 0 <= b < pend.len() && a != b implies pend[a]
                != pend[b] by {
                if a < dl.len() && b < dl.len() {
                    assert(old_pend[a] != old_pend[b]);
                } else if a < dl.len() {
                    assert(dl[a] < old_len);
                } else if b < dl.len() {
                    assert(dl[b] < old_len);
                }
            }
            assert forall|i: int| 0 <= i < len implies (#[trigger] rows[i] is None <==> pend.contains(i as usize)) by {
                if i < old_len {
                    if i == c {
                        if pend.contains(i as usize) {
                            let x = choose|x: int| 0 <= x < pend.len() && pend[x] == i as usize;
                            if x < dl.len() {
                                assert(dl[x] != c);
                            }
                        }
                    } else {
                        assert(old_rows[i] is None <==> old_pend.contains(i as usize));
                        if old_pend.contains(i as usize) {
                            let x = choose|x: int| 0 <= x < old_pend.len() && old_pend[x] == i as usize;
                            assert(x != old_pend.len() - 1);
                            assert(pend[x] == i as usize);
                        }
                        if pend.contains(i as usize) {
                            let x = choose|x: int| 0 <= x < pend.len() && pend[x] == i as usize;
                            if x >= dl.len() {
                                assert(pend[x] >= old_len);
                            }
                            assert(old_pend[x] == i as usize);
                        }
                    }
                } else {
                    assert(pend[dl.len() + (i - old_len)] == i as usize);
                }
            }
            assert forall|i: int, e: int|
                0 <= i < len && rows[i] is Some && 0 <= e < rows[i].unwrap().len() implies (
                #[trigger] rows[i].unwrap()[e]).0 < len by {
                if i != c {
                    assert(old_rows[i].unwrap()[e].0 < old_len);
                }
            }
            assert forall|i: int| 0 < i < len implies #[trigger] discovered(rows, i) by {
                if i < old_len {
                    assert(discovered(old_rows, i));
                    let j = choose|j: int| 0 <= j < i && #[trigger] links(old_rows, j, i);
                    assert(j != c);
                    let e = choose|e: int|
                        0 <= e < old_rows[j].unwrap().len() && (#[trigger] old_rows[j].unwrap()[e]).0 == i;
                    assert(rows[j].unwrap()[e].0 == i);
                    assert(links(rows, j, i));
                } else {
                    assert(in_row(fresh, i));
                    let e = choose|e: int| 0 <= e < fresh.len() && (#[trigger] fresh[e]).0 == i;
                    assert(rows[c as int].unwrap()[e].0 == i);
                    assert(links(rows, c as int, i));
                }
            }
        }
    }
    /// The number of currencies seen so far.
    pub fn vertex_count(&self) -> (r: usize)
        requires
            self.wf(),
        ensures
            r == self.codes().len(),
    {
        self.names.len()
    }

    /// The currency code of vertex `i`.
    pub fn code(&self, i: usize) -> (r: &String)
        requires
            self.wf(),
            i < self.codes().len(),
        ensures
            r@ == self.codes()[i as int],
    {
        &self.names[i]
    }

    /// The rates fetched for vertex `i`, or `None` while its lookup is pending.
    pub fn rates_of(&self, i: usize) -> (r: Option<&Vec<(usize, R)>>)
        requires
            self.wf(),
            i < self.codes().len(),
        ensures
            r is None <==> self.fetched()[i as int] is None,
            r matches Some(v) ==> v@ == self.fetched()[i as int].unwrap(),
    {
        match &self.rows[i] {
            Some(v) => Some(v),
            None => None,
        }
    }
}

/// Every vertex of a construction in progress is reachable from the base currency.
proof fn lemma_reachable<R>(rows: Seq<Option<Row<R>>>, i: int)
    requires
        0 <= i < rows.len(),
        forall|x: int| 0 < x < rows.len() ==> #[trigger] discovered(rows, x),
    ensures
        reachable(rows, i),
    decreases i,
{
    if i == 0 {
        let p = seq![0int];
        assert(is_discovery_path(rows, p));
    } else {
        assert(discovered(rows, i));
        let j = choose|j: int| 0 <= j < i && #[trigger] links(rows, j, i);
        lemma_reachable(rows, j);
        let p = choose|p: Seq<int>| is_discovery_path(rows, p) && p[p.len() - 1] == j;
        let q = p.push(i);
        assert forall|k: int| 0 <= k < q.len() - 1 implies #[trigger] links(rows, q[k], q[k + 1]) by {
            if k < p.len() - 1 {
                assert(links(rows, p[k], p[k + 1]));
            }
        }
        assert(is_discovery_path(rows, q));
    }
}

/// A finished construction is the transitive closure of the base currency under rate
/// lookups: every currency has been looked up, every target of every lookup is itself
/// a looked-up currency, and every currency is reachable from the base.
pub proof fn lemma_complete_graph_is_closure<R: Copy>(b: GraphBuilder<R>)
    requires
        b.wf(),
        b.pending().len() == 0,
    ensures
        forall|i: int| 0 <= i < b.codes().len() ==> #[trigger] b.fetched()[i] is Some,
        forall|i: int, e: int|
            0 <= i < b.codes().len() && 0 <= e < b.fetched()[i].unwrap().len() ==> (
            #[trigger] b.fetched()[i].unwrap()[e]).0 < b.codes().len(),
        forall|i: int| 0 <= i < b.codes().len() ==> #[trigger] reachable(b.fetched(), i),
{
    assert forall|i: int| 0 <= i < b.codes().len() implies #[trigger] b.fetched()[i] is Some by {
        if b.fetched()[i] is None {
            assert(b.pending().contains(i as usize));
        }
    }
    assert forall|i: int| 0 <= i < b.codes().len() implies #[trigger] reachable(b.fetched(), i) by {
        lemma_reachable(b.fetched(), i);
    }
}

/// Where every code a rate source can name lies in the finite set `universe`, a
/// construction never holds more currencies than `universe` has; since each call of
/// `record` looks one of them up for good, a construction makes at most that many
/// lookups and then ends.
pub proof fn lemma_construction_bounded<R: Copy>(b: GraphBuilder<R>, universe: Set<Seq<char>>)
    requires
        b.wf(),
        universe.finite(),
        forall|i: int| 0 <= i < b.codes().len() ==> universe.contains(#[trigger] b.codes()[i]),
    ensures
        b.codes().len() <= universe.len(),
{
    let cs = b.codes();
    cs.unique_seq_to_set();
    assert forall|x: Seq<char>| cs.to_set().contains(x) implies universe.contains(x) by {
        let i = choose|i: int| 0 <= i < cs.len() && cs[i] == x;
        assert(universe.contains(cs[i]));
    }
    lemma_len_subset(cs.to_set(), universe);
}

/// The codes that have an entry in `table`.
pub open spec fn table_keys<R>(table: Seq<(String, Vec<(String, R)>)>) -> Set<Seq<char>> {
    Seq::new(table.len(), |k: int| table[k].0@).to_set()
}

/// The index of the first entry of `table` whose code is `code`.
pub open spec fn first_entry<R>(table: Seq<(String, Vec<(String, R)>)>, code: Seq<char>) -> int {
    choose|k: int| 0 <= k < table.len() && table[k].0@ == code && forall|j: int| 0 <= j < k ==> table[j].0@ != code
}

/// The rates that `table` gives for `code`: those of its first entry.
pub open spec fn table_rates<R>(table: Seq<(String, Vec<(String, R)>)>, code: Seq<char>) -> Seq<(String, R)> {
    table[first_entry(table, code)].1@
}

/// Step `k` of `p` goes from a code of `table` to one of the targets of its rates.
pub open spec fn source_step<R>(table: Seq<(String, Vec<(String, R)>)>, p: Seq<Seq<char>>, k: int) -> bool {
    table_keys(table).contains(p[k]) && is_target(table_rates(table, p[k]), p[k + 1])
}

/// `code` is reached from `base` by repeated lookups in `table`.
pub open spec fn source_reaches<R>(table: Seq<(String, Vec<(String, R)>)>, base: Seq<char>, code: Seq<char>) -> bool {
    exists|p: Seq<Seq<char>>|
        p.len() >= 1 && p[0] == base && p[p.len() - 1] == code && forall|k: int|
            0 <= k < p.len() - 1 ==> #[trigger] source_step(table, p, k)
}

/// `row` holds `rates` as they came, each target code replaced by its vertex in `codes`.
pub open spec fn row_matches<R>(codes: Seq<Seq<char>>, row: Row<R>, rates: Seq<(String, R)>) -> bool {
    &&& row.len() == rates.len()
    &&& forall|e: int|
        0 <= e < row.len() ==> codes[(#[trigger] row[e]).0 as int] == rates[e].0@ && row[e].1 == rates[e].1
}

/// The first entry of `table` whose code is `code`.
fn table_entry<R>(table: &Vec<(String, Vec<(String, R)>)>, code: &String) -> (r: Option<usize>)
    ensures
        r matches Some(k) ==> k < table.len() && table@[k as int].0@ == code@ && forall|j: int|
            0 <= j < k ==> table@[j].0@ != code@,
        r is None ==> !table_keys(table@).contains(code@),
{
    let mut k: usize = 0;
    while k < table.len()
        invariant
            k <= table.len(),
            forall|j: int| 0 <= j < k ==> table@[j].0@ != code@,
        decreases table.len() - k,
    {
        if table[k].0 == *code {
            return Some(k);
        }
        k += 1;
    }
    proof {
        if table_keys(table@).contains(code@) {
            let ks = Seq::new(table.len() as nat, |k: int| table@[k].0@);
            let j = choose|j: int| 0 <= j < ks.len() && #[trigger] ks[j] == code@;
            assert(table@[j].0@ == code@);
        }
    }
    None
}

/// In a finished construction against `table`, every code on a lookup path from a code of
/// the construction is itself a code of the construction.
proof fn lemma_path_in_codes<R: Copy>(table: Seq<(String, Vec<(String, R)>)>, b: GraphBuilder<R>, p: Seq<Seq<char>>, n: int)
    requires
        b.wf(),
        1 <= n <= p.len(),
        b.codes().contains(p[0]),
        forall|k: int| 0 <= k < p.len() - 1 ==> #[trigger] source_step(table, p, k),
        forall|i: int| 0 <= i < b.codes().len() ==> #[trigger] b.fetched()[i] is Some,
        forall|i: int|
            0 <= i < b.codes().len() ==> row_matches(
                b.codes(),
                #[trigger] b.fetched()[i].unwrap(),
                table_rates(table, b.codes()[i]),
            ),
    ensures
        b.codes().contains(p[n - 1]),
    decreases n,
{
    if n > 1 {
        lemma_path_in_codes(table, b, p, n - 1);
        let codes = b.codes();
        let i = choose|i: int| 0 <= i < codes.len() && codes[i] == p[n - 2];
        assert(source_step(table, p, n - 2));
        let rates = table_rates(table, p[n - 2]);
        let e = choose|e: int| 0 <= e < rates.len() && #[trigger] rates[e].0@ == p[n - 1];
        assert(b.fetched()[i] is Some);
        let row = b.fetched()[i].unwrap();
        assert(row_matches(codes, row, table_rates(table, codes[i])));
        assert(row[e].0 < codes.len());
        assert(codes[row[e].0 as int] == p[n - 1]);
    }
}

/// Runs a construction from `base` against `table`, a rate source held in memory that
/// gives each code the rates of its first entry. It ends after at most one lookup per
/// code of `table`: with the finished graph, whose codes are exactly those reached from
/// `base` and whose rows are the table's rates, or with the first code looked up that has
/// no entry.
pub fn construct_from_table<R: Copy>(table: &Vec<(String, Vec<(String, R)>)>, base: String) -> (r: Result<
    GraphBuilder<R>,
    String,
>)
    ensures
        r matches Ok(b) ==> {
            &&& b.wf()
            &&& b.pending().len() == 0
            &&& b.codes()[0] == base@
            &&& forall|i: int| 0 <= i < b.codes().len() ==> #[trigger] b.fetched()[i] is Some
            &&& forall|i: int| 0 <= i < b.codes().len() ==> table_keys(table@).contains(#[trigger] b.codes()[i])
            &&& forall|i: int| 0 <= i < b.codes().len() ==> #[trigger] reachable(b.fetched(), i)
            &&& b.codes().len() <= table_keys(table@).len()
            &&& forall|i: int|
                0 <= i < b.codes().len() ==> row_matches(
                    b.codes(),
                    #[trigger] b.fetched()[i].unwrap(),
                    table_rates(table@, b.codes()[i]),
                )
            &&& forall|c: Seq<char>| source_reaches(table@, base@, c) <==> #[trigger] b.codes().contains(c)
        },
        r matches Err(c) ==> !table_keys(table@).contains(c@) && source_reaches(table@, base@, c@),
{
    let ghost keys = table_keys(table@);
    let ghost base_code = base@;
    let ghost mut done: Set<Seq<char>> = Set::empty();
    let mut b: GraphBuilder<R> = GraphBuilder::new(base);
    proof {
        let p0 = seq![base_code];
        assert(p0[0] == base_code && p0[p0.len() - 1] == base_code);
        assert(source_reaches(table@, base_code, base_code));
        assert(b.codes()[0] == base_code);
        vstd::seq_lib::seq_to_set_is_finite(Seq::new(table.len() as nat, |k: int| table@[k].0@));
    }
    loop
        invariant
            keys == table_keys(table@),
            base_code == base@,
            keys.finite(),
            b.wf(),
            b.codes()[0] == base_code,
            done.finite(),
            done.subset_of(keys),
            done.len() <= keys.len(),
            forall|x: Seq<char>| #[trigger] done.contains(x) ==> exists|i: int|
                0 <= i < b.codes().len() && b.fetched()[i] is Some && b.codes()[i] == x,
            forall|i: int|
                0 <= i < b.codes().len() && #[trigger] b.fetched()[i] is Some ==> done.contains(b.codes()[i]),
            forall|i: int| 0 <= i < b.codes().len() ==> source_reaches(table@, base_code, #[trigger] b.codes()[i]),
            forall|i: int|
                0 <= i < b.codes().len() && b.fetched()[i] is Some ==> row_matches(
                    b.codes(),
                    #[trigger] b.fetched()[i].unwrap(),
                    table_rates(table@, b.codes()[i]),
                ),
        decreases keys.len() - done.len(),
    {
        match b.next_currency() {
            None => {
                proof {
                    lemma_complete_graph_is_closure(b);
                    assert forall|i: int| 0 <= i < b.codes().len() implies keys.contains(#[trigger] b.codes()[i]) by {
                        assert(b.fetched()[i] is Some);
                        assert(done.contains(b.codes()[i]));
                    }
                    lemma_construction_bounded(b, keys);
                    assert forall|x: Seq<char>| source_reaches(table@, base@, x) <==> #[trigger] b.codes().contains(x) by {
                        if b.codes().contains(x) {
                            let i = choose|i: int| 0 <= i < b.codes().len() && b.codes()[i] == x;
                            assert(source_reaches(table@, base_code, b.codes()[i]));
                        }
                        if source_reaches(table@, base@, x) {
                            let p = choose|p: Seq<Seq<char>>|
                                p.len() >= 1 && p[0] == base@ && p[p.len() - 1] == x && forall|kk: int|
                                    0 <= kk < p.len() - 1 ==> #[trigger] source_step(table@, p, kk);
                            assert(b.codes()[0] == p[0]);
                            lemma_path_in_codes(table@, b, p, p.len() as int);
                        }
                    }
                }
                return Ok(b);
            },
            Some(cur) => {
                match table_entry(table, &cur) {
                    None => {
                        assert(source_reaches(table@, base_code, b.codes()[b.pending().last() as int]));
                        return Err(cur);
                    },
                    Some(k) => {
                        let ghost c = b.pending().last() as int;
                        let ghost old_b = b.codes();
                        let ghost old_f = b.fetched();
                        proof {
                            assert(b.pending().contains(c as usize));
                            assert(old_f[c] is None);
                            if done.contains(cur@) {
                                let i = choose|i: int|
                                    0 <= i < b.codes().len() && b.fetched()[i] is Some && b.codes()[i] == cur@;
                                assert(i != c);
                                assert(b.codes()[i] == b.codes()[c]);
                            }
                            assert(keys.contains(cur@)) by {
                                assert(Seq::new(table.len() as nat, |j: int| table@[j].0@)[k as int] == cur@);
                            }
                            let fk = first_entry(table@, cur@);
                            if fk != k as int {
                                if fk < k {
                                    assert(table@[fk].0@ != cur@);
                                } else {
                                    assert(table@[k as int].0@ != cur@);
                                }
                            }
                            assert(table_rates(table@, cur@) == table@[k as int].1@);
                            assert(source_reaches(table@, base_code, b.codes()[c]));
                        }
                        b.record(&table[k].1);
                        proof {
                            let nb = b.codes();
                            let nf = b.fetched();
                            assert forall|i: int| 0 <= i < old_b.len() implies #[trigger] nb[i] == old_b[i] by {
                                assert(nb.subrange(0, old_b.len() as int)[i] == nb[i]);
                            }
                            done = done.insert(cur@);
                            vstd::set_lib::lemma_len_subset(done, keys);
                            assert forall|x: Seq<char>| #[trigger] done.contains(x) implies exists|i: int|
                                0 <= i < nb.len() && nf[i] is Some && nb[i] == x by {
                                if x == cur@ {
                                    assert(nf[c] is Some && nb[c] == x);
                                } else {
                                    let i = choose|i: int|
                                        0 <= i < old_b.len() && old_f[i] is Some && old_b[i] == x;
                                    assert(i != c);
                                    assert(nf[i] is Some && nb[i] == x);
                                }
                            }
                            assert forall|i: int| 0 <= i < nb.len() && #[trigger] nf[i] is Some implies done.contains(
                                nb[i],
                            ) by {
                                if i >= old_b.len() {
                                    assert(nf[i] is None);
                                } else if i != c {
                                    assert(old_f[i] is Some);
                                }
                            }
                            assert forall|i: int| 0 <= i < nb.len() implies source_reaches(
                                table@,
                                base_code,
                                #[trigger] nb[i],
                            ) by {
                                if i >= old_b.len() {
                                    assert(is_target(table@[k as int].1@, nb[i]));
                                    let p = choose|p: Seq<Seq<char>>|
                                        p.len() >= 1 && p[0] == base_code && p[p.len() - 1] == cur@ && forall|kk: int|
                                            0 <= kk < p.len() - 1 ==> #[trigger] source_step(table@, p, kk);
                                    let q = p.push(nb[i]);
                                    assert forall|kk: int| 0 <= kk < q.len() - 1 implies #[trigger] source_step(
                                        table@,
                                        q,
                                        kk,
                                    ) by {
                                        if kk < p.len() - 1 {
                                            assert(source_step(table@, p, kk));
                                            assert(q[kk] == p[kk] && q[kk + 1] == p[kk + 1]);
                                        } else {
                                            assert(q[kk] == cur@ && q[kk + 1] == nb[i]);
                                        }
                                    }
                                    assert(q[0] == base_code && q[q.len() - 1] == nb[i]);
                                } else {
                                    assert(source_reaches(table@, base_code, old_b[i]));
                                }
                            }
                            assert forall|i: int| 0 <= i < nb.len() && nf[i] is Some implies row_matches(
                                nb,
                                #[trigger] nf[i].unwrap(),
                                table_rates(table@, nb[i]),
                            ) by {
                                if i == c {
                                    assert(nb[c] == cur@);
                                } else if i < old_b.len() {
                                    let row = old_f[i].unwrap();
                                    assert(row_matches(old_b, row, table_rates(table@, old_b[i])));
                                    assert(nf[i].unwrap() == row);
                                    assert forall|e: int| 0 <= e < row.len() implies nb[(#[trigger] row[e]).0 as int]
                                        == old_b[row[e].0 as int] by {
                                        assert(row[e].0 < old_b.len());
                                    }
                                } else {
                                    assert(nf[i] is None);
                                }
                            }
                        }
                    },
                }
            },
        }
    }
}

} // verus!
