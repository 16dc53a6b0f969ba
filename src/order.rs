//! Execution order: a stable topological sort over the non-delayed edges.
use vstd::prelude::*;
use vstd::set_lib::lemma_len_subset;
use crate::graph::{BlockModel, BuildError, Graph, has_producer, produces, graph_wf};

verus! {

broadcast use vstd::seq_lib::group_seq_properties, vstd::set::group_set_axioms;

/// Block `v` reads, through an edge that is not delayed, a signal that block
/// `u` produces. The inputs of a delay block form no such edge.
pub open spec fn depends(g: Seq<BlockModel>, v: int, u: int) -> bool {
    &&& 0 <= v < g.len()
    &&& !g[v].delay
    &&& exists|j: int| 0 <= j < g[v].ins.len() && produces(g, u, #[trigger] g[v].ins[j].0)
}

/// Some input of some block reads a signal that no block produces.
pub open spec fn missing_producer(g: Seq<BlockModel>) -> bool {
    exists|v: int, j: int|
        0 <= v < g.len() && 0 <= j < g[v].ins.len() && !has_producer(g, #[trigger] g[v].ins[j].0)
}

/// Block `u` stands in the list `p`.
pub open spec fn placed_has(p: Seq<usize>, u: int) -> bool {
    exists|j: int| 0 <= j < p.len() && p[j] == u
}

/// Block `v` is not placed yet and every block it depends on is.
pub open spec fn ready(g: Seq<BlockModel>, placed: Seq<usize>, v: int) -> bool {
    &&& 0 <= v < g.len()
    &&& !placed_has(placed, v)
    &&& forall|u: int| #[trigger] depends(g, v, u) ==> placed_has(placed, u)
}

/// Block `v` is not placed yet and every block it depends on stands among
/// the first `base` placed blocks, the levels completed so far.
pub open spec fn ready_in(g: Seq<BlockModel>, placed: Seq<usize>, base: int, v: int) -> bool {
    &&& 0 <= v < g.len()
    &&& !placed_has(placed, v)
    &&& forall|u: int| #[trigger] depends(g, v, u) ==> placed_has(placed.subrange(0, base), u)
}

/// The lowest-indexed block at or after `from` that is ready over the
/// completed levels.
pub open spec fn first_ready(g: Seq<BlockModel>, placed: Seq<usize>, base: int, from: int) -> Option<
    int,
>
    decreases g.len() - from,
{
    if from < 0 || from >= g.len() {
        None
    } else if ready_in(g, placed, base, from) {
        Some(from)
    } else {
        first_ready(g, placed, base, from + 1)
    }
}

/// Kahn's order, level by level: the current level takes, in insertion
/// order, every block whose producers all stand in earlier levels (the
/// first `base` placed blocks); when none is left, the level is complete and
/// the next one starts. `None` when blocks remain and a level comes out
/// empty.
pub open spec fn order_from(g: Seq<BlockModel>, placed: Seq<usize>, base: int) -> Option<
    Seq<usize>,
>
    decreases g.len() - placed.len(), placed.len() - base,
{
    if placed.len() >= g.len() {
        Some(placed)
    } else if base < 0 || base > placed.len() {
        None
    } else {
        match first_ready(g, placed, base, 0) {
            Some(v) => order_from(g, placed.push(v as usize), base),
            None => if base == placed.len() {
                None
            } else {
                order_from(g, placed, placed.len() as int)
            },
        }
    }
}

/// The execution order of a graph, or `None` when it has a cycle of edges
/// that are not delayed.
pub open spec fn topo_order(g: Seq<BlockModel>) -> Option<Seq<usize>> {
    order_from(g, Seq::empty(), 0)
}

/// Ready over the completed levels implies ready; over all placed blocks
/// the two agree.
proof fn lemma_ready_in(g: Seq<BlockModel>, placed: Seq<usize>, base: int, v: int)
    requires
        0 <= base <= placed.len(),
    ensures
        ready_in(g, placed, base, v) ==> ready(g, placed, v),
        ready_in(g, placed, placed.len() as int, v) == ready(g, placed, v),
{
    assert(placed.subrange(0, placed.len() as int) =~= placed);
    if ready_in(g, placed, base, v) {
        assert forall|u: int| #[trigger] depends(g, v, u) implies placed_has(placed, u) by {
            let j = choose|j: int|
                0 <= j < placed.subrange(0, base).len() && placed.subrange(0, base)[j] == u;
            assert(placed[j] == u);
        }
    }
}

/// `o` lists every block once, and each block after all it depends on.
pub open spec fn is_topological(g: Seq<BlockModel>, o: Seq<usize>) -> bool {
    &&& o.len() == g.len()
    &&& o.no_duplicates()
    &&& forall|i: int| 0 <= i < o.len() ==> #[trigger] o[i] < g.len()
    &&& forall|i: int, u: int|
        0 <= i < o.len() && #[trigger] depends(g, o[i] as int, u) ==> exists|j: int|
            0 <= j < i && #[trigger] o[j] == u
}

pub open spec fn has_topological_order(g: Seq<BlockModel>) -> bool {
    exists|o: Seq<usize>| is_topological(g, o)
}

/// `p` is a start of an order: distinct blocks, each after all it depends on.
pub open spec fn prefix_ok(g: Seq<BlockModel>, p: Seq<usize>) -> bool {
    &&& p.len() <= g.len()
    &&& p.no_duplicates()
    &&& forall|i: int| 0 <= i < p.len() ==> #[trigger] p[i] < g.len()
    &&& forall|i: int, u: int|
        0 <= i < p.len() && #[trigger] depends(g, p[i] as int, u) ==> exists|j: int|
            0 <= j < i && #[trigger] p[j] == u
}

proof fn lemma_first_ready(g: Seq<BlockModel>, placed: Seq<usize>, base: int, from: int)
    requires
        0 <= from,
    ensures
        first_ready(g, placed, base, from) matches Some(v) ==> from <= v < g.len() && ready_in(
            g,
            placed,
            base,
            v,
        ) && forall|w: int| from <= w < v ==> !#[trigger] ready_in(g, placed, base, w),
        first_ready(g, placed, base, from) is None ==> forall|w: int|
            from <= w < g.len() ==> !#[trigger] ready_in(g, placed, base, w),
    decreases g.len() - from,
{
    if from < g.len() && !ready_in(g, placed, base, from) {
        lemma_first_ready(g, placed, base, from + 1);
    }
}

/// A list of distinct blocks that all stand in `p` is no longer than `p`.
proof fn lemma_distinct_within(o: Seq<usize>, p: Seq<usize>)
    requires
        o.no_duplicates(),
        forall|i: int| 0 <= i < o.len() ==> p.contains(#[trigger] o[i]),
    ensures
        o.len() <= p.len(),
{
    o.unique_seq_to_set();
    p.lemma_cardinality_of_set();
    assert(o.to_set().subset_of(p.to_set()));
    lemma_len_subset(o.to_set(), p.to_set());
}

/// The first position at or after `i` whose block is not in `p`.
proof fn first_unplaced(o: Seq<usize>, p: Seq<usize>, i: int) -> (k: int)
    requires
        0 <= i <= o.len(),
        forall|j: int| 0 <= j < i ==> p.contains(#[trigger] o[j]),
        exists|j: int| i <= j < o.len() && !p.contains(#[trigger] o[j]),
    ensures
        i <= k < o.len(),
        !p.contains(o[k]),
        forall|j: int| 0 <= j < k ==> p.contains(#[trigger] o[j]),
    decreases o.len() - i,
{
    if !p.contains(o[i]) {
        i
    } else {
        first_unplaced(o, p, i + 1)
    }
}

/// When blocks remain and none is ready, no order exists.
proof fn lemma_stuck_has_no_order(g: Seq<BlockModel>, p: Seq<usize>)
    requires
        prefix_ok(g, p),
        p.len() < g.len(),
        forall|w: int| 0 <= w < g.len() ==> !#[trigger] ready(g, p, w),
    ensures
        !has_topological_order(g),
{
    if has_topological_order(g) {
        let o = choose|o: Seq<usize>| is_topological(g, o);
        if forall|j: int| 0 <= j < o.len() ==> p.contains(#[trigger] o[j]) {
            lemma_distinct_within(o, p);
        }
        let k = first_unplaced(o, p, 0);
        let v = o[k] as int;
        if placed_has(p, v) {
            let j = choose|j: int| 0 <= j < p.len() && p[j] == v;
            assert(p.contains(o[k]));
        }
        assert(!ready(g, p, v));
        let u = choose|u: int| #[trigger] depends(g, v, u) && !placed_has(p, u);
        let j = choose|j: int| 0 <= j < k && #[trigger] o[j] == u;
        assert(p.contains(o[j]));
        let jj = choose|jj: int| 0 <= jj < p.len() && p[jj] == o[j];
        assert(placed_has(p, u));
    }
}

/// What the order computed from a valid start is.
proof fn lemma_order_from(g: Seq<BlockModel>, p: Seq<usize>, base: int)
    requires
        g.len() <= usize::MAX,
        prefix_ok(g, p),
        0 <= base <= p.len(),
    ensures
        order_from(g, p, base) matches Some(o) ==> is_topological(g, o),
        order_from(g, p, base) is None ==> !has_topological_order(g),
    decreases g.len() - p.len(), p.len() - base,
{
    lemma_first_ready(g, p, base, 0);
    if p.len() < g.len() {
        match first_ready(g, p, base, 0) {
            None => {
                if base == p.len() {
                    assert forall|w: int| 0 <= w < g.len() implies !#[trigger] ready(g, p, w) by {
                        lemma_ready_in(g, p, base, w);
                    }
                    lemma_stuck_has_no_order(g, p);
                } else {
                    lemma_order_from(g, p, p.len() as int);
                }
            },
            Some(v) => {
                lemma_ready_in(g, p, base, v);
                lemma_push_ready(g, p, v);
                lemma_order_from(g, p.push(v as usize), base);
            },
        }
    }
}

/// Appending a ready block keeps a valid start valid.
proof fn lemma_push_ready(g: Seq<BlockModel>, p: Seq<usize>, v: int)
    requires
        g.len() <= usize::MAX,
        p.len() < g.len(),
        prefix_ok(g, p),
        ready(g, p, v),
    ensures
        prefix_ok(g, p.push(v as usize)),
{
    let q = p.push(v as usize);
    assert(q[p.len() as int] == v);
    assert forall|i: int, u: int|
        0 <= i < q.len() && #[trigger] depends(g, q[i] as int, u) implies exists|j: int|
        0 <= j < i && #[trigger] q[j] == u by {
        if i < p.len() {
            let j = choose|j: int| 0 <= j < i && #[trigger] p[j] == u;
            assert(q[j] == p[j]);
        } else {
            assert(placed_has(p, u));
            let j = choose|j: int| 0 <= j < p.len() && p[j] == u;
            assert(q[j] == p[j]);
        }
    }
    assert forall|a: int, b: int| 0 <= a < q.len() && 0 <= b < q.len() && a != b implies q[a]
        != q[b] by {
        if b == p.len() && q[a] == q[b] {
            assert(p[a] == v);
        }
        if a == p.len() && q[a] == q[b] {
            assert(p[b] == v);
        }
    }
    assert(q.no_duplicates());
}

/// Cycle detection: a graph gets an execution order exactly when some order
/// puts every block after the blocks it reads through edges that are not
/// delayed, that is, exactly when it has no cycle of such edges; and the
/// order it gets is one of those.
pub proof fn lemma_cycle_detection(g: Seq<BlockModel>)
    requires
        g.len() <= usize::MAX,
    ensures
        topo_order(g) is None <==> !has_topological_order(g),
        topo_order(g) matches Some(o) ==> is_topological(g, o),
{
    assert(prefix_ok(g, Seq::<usize>::empty()));
    lemma_order_from(g, Seq::empty(), 0);
}


/// A signal has at most one producer in a well-formed graph.
proof fn lemma_one_producer(g: Seq<BlockModel>, u1: int, u2: int, s: Seq<char>)
    requires
        graph_wf(g),
        produces(g, u1, s),
        produces(g, u2, s),
    ensures
        u1 == u2,
{
    let k1 = choose|k: int| 0 <= k < g[u1].outs.len() && g[u1].outs[k].0 == s;
    let k2 = choose|k: int| 0 <= k < g[u2].outs.len() && g[u2].outs[k].0 == s;
}

/// `d[v]` lists the blocks that block `v` depends on.
pub open spec fn deps_match(g: Seq<BlockModel>, d: Seq<Vec<usize>>) -> bool {
    &&& d.len() == g.len()
    &&& forall|v: int, j: int| 0 <= v < d.len() && 0 <= j < d[v]@.len() ==> #[trigger] d[v]@[j] < g.len()
    &&& forall|v: int, u: int|
        0 <= v < d.len() ==> (#[trigger] depends(g, v, u) <==> exists|j: int|
            0 <= j < d[v]@.len() && #[trigger] d[v]@[j] == u)
}

/// The lowest-indexed block that is not placed and whose dependencies are
/// all settled.
fn find_ready(d: &Vec<Vec<usize>>, is_placed: &Vec<bool>, settled: &Vec<bool>) -> (r: Option<usize>)
    requires
        d@.len() == is_placed@.len(),
        d@.len() == settled@.len(),
        forall|v: int, j: int|
            0 <= v < d@.len() && 0 <= j < d@[v]@.len() ==> #[trigger] d@[v]@[j] < d@.len(),
    ensures
        r matches Some(v) ==> v < d@.len() && !is_placed@[v as int] && (forall|j: int|
            0 <= j < d@[v as int]@.len() ==> settled@[#[trigger] d@[v as int]@[j] as int]) && (
        forall|w: int|
            0 <= w < v ==> is_placed@[w] || exists|j: int|
                0 <= j < d@[w]@.len() && !settled@[#[trigger] d@[w]@[j] as int]),
        r is None ==> forall|w: int|
            0 <= w < d@.len() ==> is_placed@[w] || exists|j: int|
                0 <= j < d@[w]@.len() && !settled@[#[trigger] d@[w]@[j] as int],
{
    let mut v: usize = 0;
    while v < d.len()
        invariant
            0 <= v <= d@.len(),
            d@.len() == is_placed@.len(),
            d@.len() == settled@.len(),
            forall|vv: int, j: int|
                0 <= vv < d@.len() && 0 <= j < d@[vv]@.len() ==> #[trigger] d@[vv]@[j] < d@.len(),
            forall|w: int|
                0 <= w < v ==> is_placed@[w] || exists|j: int|
                    0 <= j < d@[w]@.len() && !settled@[#[trigger] d@[w]@[j] as int],
        decreases d@.len() - v,
    {
        if !is_placed[v] {
            let dv = &d[v];
            let mut all = true;
            let mut j: usize = 0;
            while j < dv.len()
                invariant
                    0 <= j <= dv@.len(),
                    v < d@.len(),
                    dv == d@[v as int],
                    d@.len() == is_placed@.len(),
                    d@.len() == settled@.len(),
                    forall|jj: int| 0 <= jj < dv@.len() ==> #[trigger] dv@[jj] < d@.len(),
                    all ==> forall|jj: int| 0 <= jj < j ==> settled@[#[trigger] dv@[jj] as int],
                    !all ==> exists|jj: int|
                        0 <= jj < dv@.len() && !settled@[#[trigger] dv@[jj] as int],
                decreases dv@.len() - j,
            {
                if !settled[dv[j]] {
                    all = false;
                }
                j += 1;
            }
            if all {
                return Some(v);
            }
        }
        v += 1;
    }
    None
}

impl Graph {
    /// The blocks that each block depends on, or `UnknownSignal` when some
    /// input reads a signal that no block produces.
    fn dependencies(&self) -> (r: Result<Vec<Vec<usize>>, BuildError>)
        requires
            self.wf(),
        ensures
            r is Err <==> missing_producer(self@),
            r matches Err(e) ==> e == BuildError::UnknownSignal,
            r matches Ok(d) ==> deps_match(self@, d@),
    {
        let ghost g = self@;
        let n = self.len();
        let mut d: Vec<Vec<usize>> = Vec::new();
        let mut v: usize = 0;
        while v < n
            invariant
                0 <= v <= n,
                n == g.len(),
                g == self@,
                graph_wf(g),
                d@.len() == v,
                forall|vv: int, j: int|
                    0 <= vv < v && 0 <= j < g[vv].ins.len() ==> has_producer(
                        g,
                        #[trigger] g[vv].ins[j].0,
                    ),
                forall|vv: int, j: int|
                    0 <= vv < v && 0 <= j < d@[vv]@.len() ==> #[trigger] d@[vv]@[j] < n,
                forall|vv: int, u: int|
                    0 <= vv < v ==> (#[trigger] depends(g, vv, u) <==> exists|j: int|
                        0 <= j < d@[vv]@.len() && #[trigger] d@[vv]@[j] == u),
            decreases n - v,
        {
            let blk = self.block(v);
            let mut dv: Vec<usize> = Vec::new();
            let mut j: usize = 0;
            while j < blk.inputs.len()
                invariant
                    0 <= j <= blk.inputs@.len(),
                    v < n,
                    n == g.len(),
                    g == self@,
                    graph_wf(g),
                    blk@ == g[v as int],
                    blk.delay ==> dv@.len() == 0,
                    !blk.delay ==> dv@.len() == j,
                    forall|jj: int| 0 <= jj < j ==> has_producer(g, #[trigger] g[v as int].ins[jj].0),
                    forall|jj: int| 0 <= jj < dv@.len() ==> #[trigger] dv@[jj] < n,
                    !blk.delay ==> forall|jj: int|
                        0 <= jj < j ==> produces(g, #[trigger] dv@[jj] as int, g[v as int].ins[jj].0),
                decreases blk.inputs@.len() - j,
            {
                assert(g[v as int].ins[j as int] == blk.inputs@[j as int]@);
                match self.producer_of(&blk.inputs[j].signal) {
                    None => {
                        assert(!has_producer(g, g[v as int].ins[j as int].0));
                        return Err(BuildError::UnknownSignal);
                    },
                    Some((b, k)) => {
                        assert(produces(g, b as int, g[v as int].ins[j as int].0));
                        if !blk.delay {
                            dv.push(b);
                        }
                    },
                }
                j += 1;
            }
            assert forall|u: int| #[trigger] depends(g, v as int, u) <==> exists|jj: int|
                0 <= jj < dv@.len() && #[trigger] dv@[jj] == u by {
                if depends(g, v as int, u) {
                    let jj = choose|jj: int|
                        0 <= jj < g[v as int].ins.len() && produces(g, u, #[trigger] g[v as int].ins[jj].0);
                    lemma_one_producer(g, u, dv@[jj] as int, g[v as int].ins[jj].0);
                }
                if exists|jj: int| 0 <= jj < dv@.len() && #[trigger] dv@[jj] == u {
                    let jj = choose|jj: int| 0 <= jj < dv@.len() && #[trigger] dv@[jj] == u;
                    assert(produces(g, u, g[v as int].ins[jj].0));
                }
            }
            let ghost dold = d@;
            d.push(dv);
            assert(d@[v as int] == dv);
            assert(forall|vv: int| 0 <= vv < v ==> d@[vv] == dold[vv]);
            v += 1;
        }
        Ok(d)
    }

    /// The order in which the blocks run: Kahn's order over the edges that
    /// are not delayed, level by level, each level in insertion order.
    pub fn execution_order(&self) -> (r: Result<Vec<usize>, BuildError>)
        requires
            self.wf(),
        ensures
            missing_producer(self@) ==> r == Err::<Vec<usize>, BuildError>(BuildError::UnknownSignal),
            !missing_producer(self@) ==> match topo_order(self@) {
                None => r == Err::<Vec<usize>, BuildError>(BuildError::Cycle),
                Some(o) => r matches Ok(v) && v@ == o,
            },
    {
        let ghost g = self@;
        let d = match self.dependencies() {
            Err(e) => return Err(e),
            Ok(d) => d,
        };
        let n = self.len();
        let mut is_placed: Vec<bool> = Vec::new();
        let mut i: usize = 0;
        while i < n
            invariant
                0 <= i <= n,
                is_placed@.len() == i,
                forall|w: int| 0 <= w < i ==> !#[trigger] is_placed@[w],
            decreases n - i,
        {
            is_placed.push(false);
            i += 1;
        }
        let mut settled: Vec<bool> = Vec::new();
        let mut i: usize = 0;
        while i < n
            invariant
                0 <= i <= n,
                settled@.len() == i,
                forall|w: int| 0 <= w < i ==> !#[trigger] settled@[w],
            decreases n - i,
        {
            settled.push(false);
            i += 1;
        }
        let mut placed: Vec<usize> = Vec::new();
        let mut base: usize = 0;
        assert(prefix_ok(g, placed@));
        while placed.len() < n
            invariant
                n == g.len(),
                g == self@,
                deps_match(g, d@),
                !missing_producer(g),
                is_placed@.len() == n,
                settled@.len() == n,
                base <= placed@.len(),
                forall|w: int| 0 <= w < n ==> (#[trigger] is_placed@[w] <==> placed_has(placed@, w)),
                forall|w: int|
                    0 <= w < n ==> (#[trigger] settled@[w] <==> placed_has(
                        placed@.subrange(0, base as int),
                        w,
                    )),
                prefix_ok(g, placed@),
                order_from(g, placed@, base as int) == topo_order(g),
            decreases n - placed@.len(), placed@.len() - base,
        {
            proof {
                lemma_first_ready(g, placed@, base as int, 0);
            }
            match find_ready(&d, &is_placed, &settled) {
                None => {
                    assert forall|w: int| 0 <= w < n implies !#[trigger] ready_in(
                        g,
                        placed@,
                        base as int,
                        w,
                    ) by {
                        if !is_placed@[w] {
                            let j = choose|j: int|
                                0 <= j < d@[w]@.len() && !settled@[#[trigger] d@[w]@[j] as int];
                            assert(depends(g, w, d@[w]@[j] as int));
                        }
                    }
                    assert(first_ready(g, placed@, base as int, 0) is None);
                    if base == placed.len() {
                        return Err(BuildError::Cycle);
                    }
                    let mut k: usize = base;
                    while k < placed.len()
                        invariant
                            base <= k <= placed@.len(),
                            placed@.len() <= n,
                            settled@.len() == n,
                            forall|q: int| 0 <= q < placed@.len() ==> #[trigger] placed@[q] < n,
                            forall|w: int|
                                0 <= w < n ==> (#[trigger] settled@[w] <==> placed_has(
                                    placed@.subrange(0, k as int),
                                    w,
                                )),
                        decreases placed@.len() - k,
                    {
                        let ghost before = settled@;
                        settled.set(placed[k], true);
                        assert forall|w: int| 0 <= w < n implies (#[trigger] settled@[w] <==> placed_has(
                            placed@.subrange(0, k + 1),
                            w,
                        )) by {
                            let s0 = placed@.subrange(0, k as int);
                            let s1 = placed@.subrange(0, k + 1);
                            if placed_has(s0, w) {
                                let j = choose|j: int| 0 <= j < s0.len() && s0[j] == w;
                                assert(s1[j] == s0[j]);
                            }
                            if placed_has(s1, w) && w != placed@[k as int] {
                                let j = choose|j: int| 0 <= j < s1.len() && s1[j] == w;
                                assert(s0[j] == s1[j]);
                            }
                            if w == placed@[k as int] {
                                assert(s1[k as int] == w);
                            }
                        }
                        k += 1;
                    }
                    base = placed.len();
                },
                Some(v) => {
                    assert(ready_in(g, placed@, base as int, v as int)) by {
                        assert forall|u: int| #[trigger] depends(g, v as int, u) implies placed_has(
                            placed@.subrange(0, base as int),
                            u,
                        ) by {
                            let j = choose|j: int| 0 <= j < d@[v as int]@.len() && #[trigger] d@[v as int]@[j] == u;
                            assert(settled@[d@[v as int]@[j] as int]);
                        }
                    }
                    assert forall|w: int| 0 <= w < v implies !#[trigger] ready_in(
                        g,
                        placed@,
                        base as int,
                        w,
                    ) by {
                        if !is_placed@[w] {
                            let j = choose|j: int|
                                0 <= j < d@[w]@.len() && !settled@[#[trigger] d@[w]@[j] as int];
                            assert(depends(g, w, d@[w]@[j] as int));
                        }
                    }
                    assert(first_ready(g, placed@, base as int, 0) == Some(v as int));
                    proof {
                        lemma_ready_in(g, placed@, base as int, v as int);
                        lemma_push_ready(g, placed@, v as int);
                    }
                    let ghost before = placed@;
                    placed.push(v);
                    is_placed.set(v, true);
                    assert(placed@.subrange(0, base as int) =~= before.subrange(0, base as int));
                    assert forall|w: int| 0 <= w < n implies (#[trigger] is_placed@[w] <==> placed_has(placed@, w)) by {
                        if placed_has(before, w) {
                            let j = choose|j: int| 0 <= j < before.len() && before[j] == w;
                            assert(placed@[j] == before[j]);
                        }
                        if placed_has(placed@, w) && w != v {
                            let j = choose|j: int| 0 <= j < placed@.len() && placed@[j] == w;
                            assert(before[j] == placed@[j]);
                        }
                        assert(placed@[before.len() as int] == v);
                    }
                },
            }
        }
        Ok(placed)
    }
}

/// The blocks that produce signal `s`.
pub open spec fn producers(g: Seq<BlockModel>, s: Seq<char>) -> Set<int> {
    Set::new(|b: int| produces(g, b, s))
}

/// One producer: in a graph that builds, every signal that some port is
/// bound to has exactly one producing block, and within it one output port.
pub proof fn lemma_one_producer_per_signal(g: Seq<BlockModel>, v: int, j: int)
    requires
        graph_wf(g),
        !missing_producer(g),
        0 <= v < g.len(),
        0 <= j < crate::graph::ports_of(g[v]).len(),
    ensures
        ({
            let s = crate::graph::ports_of(g[v])[j].0;
            &&& exists|b: int| producers(g, s) == set![b]
            &&& forall|b: int, k1: int, k2: int|
                0 <= b < g.len() && 0 <= k1 < g[b].outs.len() && 0 <= k2 < g[b].outs.len()
                    && g[b].outs[k1].0 == s && g[b].outs[k2].0 == s ==> k1 == k2
        }),
{
    let s = crate::graph::ports_of(g[v])[j].0;
    let b = if j < g[v].ins.len() {
        assert(crate::graph::ports_of(g[v])[j] == g[v].ins[j]);
        assert(has_producer(g, g[v].ins[j].0));
        choose|b: int| produces(g, b, s)
    } else {
        assert(crate::graph::ports_of(g[v])[j] == g[v].outs[j - g[v].ins.len()]);
        assert(produces(g, v, s));
        v
    };
    assert forall|c: int| producers(g, s).contains(c) <==> c == b by {
        if produces(g, c, s) {
            lemma_one_producer(g, c, b, s);
        }
    }
    assert(producers(g, s) =~= set![b]);
}

/// `c` is a cycle of edges that are not delayed: each block of `c` reads
/// the block before it, and the first reads the last.
pub open spec fn is_cycle(g: Seq<BlockModel>, c: Seq<int>) -> bool {
    &&& c.len() > 0
    &&& forall|i: int| 0 <= i < c.len() ==> 0 <= #[trigger] c[i] < g.len()
    &&& forall|i: int| 0 <= i < c.len() - 1 ==> depends(g, #[trigger] c[i + 1], c[i])
    &&& depends(g, c[0], c[c.len() - 1])
}

/// In a topological order a block stands after every block it reads.
proof fn lemma_edge_goes_forward(g: Seq<BlockModel>, o: Seq<usize>, iu: int, iv: int)
    requires
        is_topological(g, o),
        0 <= iu < o.len(),
        0 <= iv < o.len(),
        depends(g, o[iv] as int, o[iu] as int),
    ensures
        iu < iv,
{
    let j = choose|j: int| 0 <= j < iv && #[trigger] o[j] == o[iu] as int;
    assert(o[j] == o[iu]);
}

/// Position of block `b` in a topological order.
proof fn position(g: Seq<BlockModel>, o: Seq<usize>, b: int) -> (i: int)
    requires
        is_topological(g, o),
        0 <= b < g.len(),
    ensures
        0 <= i < o.len(),
        o[i] == b,
{
    lemma_covers(o, g.len() as int, b);
    choose|i: int| 0 <= i < o.len() && o[i] == b
}

/// Every index below `n` appears in a list of `n` distinct indices below `n`.
pub proof fn lemma_covers(o: Seq<usize>, n: int, b: int)
    requires
        o.len() == n,
        o.no_duplicates(),
        forall|i: int| 0 <= i < o.len() ==> #[trigger] o[i] < n,
        0 <= b < n,
    ensures
        exists|i: int| 0 <= i < o.len() && o[i] == b,
{
    if !(exists|i: int| 0 <= i < o.len() && o[i] == b) {
        let oi = o.map_values(|x: usize| x as int);
        assert forall|i: int, j: int| 0 <= i < oi.len() && 0 <= j < oi.len() && i != j implies oi[i]
            != oi[j] by {
            assert(o[i] != o[j]);
        }
        assert(oi.no_duplicates());
        oi.unique_seq_to_set();
        vstd::set_lib::lemma_int_range(0, n);
        let r = vstd::set_lib::set_int_range(0, n).remove(b);
        assert(oi.to_set().subset_of(r)) by {
            assert forall|x: int| oi.to_set().contains(x) implies r.contains(x) by {
                let i = choose|i: int| 0 <= i < oi.len() && oi[i] == x;
                assert(o[i] < n);
                assert(o[i] != b);
            }
        }
        lemma_len_subset(oi.to_set(), r);
    }
}

/// Walking a cycle forward from its first block never returns to an
/// earlier position of a topological order.
proof fn lemma_along_cycle(g: Seq<BlockModel>, o: Seq<usize>, c: Seq<int>, i: int) -> (p: int)
    requires
        is_topological(g, o),
        is_cycle(g, c),
        0 <= i < c.len(),
    ensures
        0 <= p < o.len(),
        o[p] == c[i],
        forall|q: int| 0 <= q < o.len() && o[q] == c[0] ==> q <= p,
    decreases i,
{
    if i == 0 {
        let p = position(g, o, c[0]);
        assert forall|q: int| 0 <= q < o.len() && o[q] == c[0] implies q <= p by {
            if q != p {
                assert(o[q] != o[p]);
            }
        }
        p
    } else {
        let pp = lemma_along_cycle(g, o, c, i - 1);
        let pn = position(g, o, c[i]);
        assert(depends(g, c[(i - 1) + 1], c[i - 1]));
        lemma_edge_goes_forward(g, o, pp, pn);
        pn
    }
}

/// Cycle rejection: a graph with a cycle of edges that are not delayed has
/// no execution order, so building it fails with `Cycle`.
pub proof fn lemma_cycle_rejected(g: Seq<BlockModel>, c: Seq<int>)
    requires
        g.len() <= usize::MAX,
        is_cycle(g, c),
    ensures
        topo_order(g) is None,
        !has_topological_order(g),
{
    lemma_cycle_detection(g);
    if has_topological_order(g) {
        let o = choose|o: Seq<usize>| is_topological(g, o);
        let pl = lemma_along_cycle(g, o, c, c.len() - 1);
        let p0 = position(g, o, c[0]);
        lemma_edge_goes_forward(g, o, pl, p0);
    }
}

} // verus!
