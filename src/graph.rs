use vstd::prelude::*;
use vstd::pervasive::VecAdditionalExecFns;
use crate::error::{DecodeError, ErrorKind};
use crate::fields::texts;
use crate::node::str_eq;

verus! {

/// Each node's dependencies, as node indices.
pub open spec fn graph_views(deps: Seq<Vec<usize>>) -> Seq<Seq<usize>> {
    deps.map_values(|d: Vec<usize>| d@)
}

/// `v` occurs in `order`.
pub open spec fn listed(order: Seq<usize>, v: int) -> bool {
    exists|a: int| 0 <= a < order.len() && order[a] == v
}

/// `order` lists every node of `deps`, each after all of its dependencies.
pub open spec fn is_order(deps: Seq<Seq<usize>>, order: Seq<usize>) -> bool {
    &&& order.len() == deps.len()
    &&& forall|a: int| 0 <= a < order.len() ==> (#[trigger] order[a]) < deps.len()
    &&& forall|v: int| 0 <= v < deps.len() ==> #[trigger] listed(order, v)
    &&& forall|a: int, k: int|
        0 <= a < order.len() && 0 <= k < deps[order[a] as int].len() ==> #[trigger] placed_before(deps, order, a, k)
}

/// The `k`-th dependency of `order[a]` occurs in `order` before position `a`.
pub open spec fn placed_before(deps: Seq<Seq<usize>>, order: Seq<usize>, a: int, k: int) -> bool {
    exists|b: int| 0 <= b < a && order[b] == deps[order[a] as int][k]
}

pub open spec fn count_true(s: Seq<bool>) -> nat
    decreases s.len(),
{
    if s.len() == 0 {
        0
    } else {
        count_true(s.drop_last()) + if s.last() { 1nat } else { 0nat }
    }
}

proof fn lemma_count_bound(s: Seq<bool>)
    ensures
        count_true(s) <= s.len(),
        count_true(s) == s.len() ==> forall|v: int| 0 <= v < s.len() ==> s[v],
    decreases s.len(),
{
    if s.len() > 0 {
        lemma_count_bound(s.drop_last());
        if count_true(s) == s.len() {
            assert forall|v: int| 0 <= v < s.len() implies s[v] by {
                if v < s.len() - 1 {
                    assert(s.drop_last()[v] == s[v]);
                }
            }
        }
    }
}

proof fn lemma_count_set(s: Seq<bool>, v: int)
    requires
        0 <= v < s.len(),
        !s[v],
    ensures
        count_true(s.update(v, true)) == count_true(s) + 1,
    decreases s.len(),
{
    let t = s.update(v, true);
    if v == s.len() - 1 {
        assert(t.drop_last() == s.drop_last());
    } else {
        assert(t.drop_last() == s.drop_last().update(v, true));
        lemma_count_set(s.drop_last(), v);
    }
}

/// No order exists when a non-empty set of nodes (those not `placed`) has
/// every member depending on another member.
proof fn lemma_stuck_no_order(deps: Seq<Seq<usize>>, placed: Seq<bool>, u: int, order: Seq<usize>)
    requires
        placed.len() == deps.len(),
        0 <= u < deps.len(),
        !placed[u],
        forall|v: int|
            0 <= v < deps.len() && !placed[v] ==> exists|k: int|
                0 <= k < deps[v].len() && deps[v][k] < deps.len() && !placed[#[trigger] deps[v][k] as int],
    ensures
        !is_order(deps, order),
{
    if is_order(deps, order) {
        assert forall|a: int| 0 <= a < order.len() implies placed[#[trigger] order[a] as int] by {
            lemma_prefix_placed(deps, placed, order, a);
        }
        assert(listed(order, u));
        let a = choose|a: int| 0 <= a < order.len() && order[a] == u;
        assert(placed[order[a] as int]);
    }
}

proof fn lemma_prefix_placed(deps: Seq<Seq<usize>>, placed: Seq<bool>, order: Seq<usize>, a: int)
    requires
        placed.len() == deps.len(),
        forall|v: int|
            0 <= v < deps.len() && !placed[v] ==> exists|k: int|
                0 <= k < deps[v].len() && deps[v][k] < deps.len() && !placed[#[trigger] deps[v][k] as int],
        is_order(deps, order),
        0 <= a < order.len(),
    ensures
        placed[order[a] as int],
    decreases a,
{
    let v = order[a] as int;
    if !placed[v] {
        let k = choose|k: int| 0 <= k < deps[v].len() && deps[v][k] < deps.len() && !placed[#[trigger] deps[v][k] as int];
        assert(0 <= k < deps[order[a] as int].len());
        assert(placed_before(deps, order, a, k));
        let b = choose|b: int| 0 <= b < a && order[b] == deps[order[a] as int][k];
        lemma_prefix_placed(deps, placed, order, b);
    }
}

proof fn lemma_count_full(s: Seq<bool>)
    requires
        forall|v: int| 0 <= v < s.len() ==> s[v],
    ensures
        count_true(s) == s.len(),
    decreases s.len(),
{
    if s.len() > 0 {
        lemma_count_full(s.drop_last());
    }
}

/// `b` is one of the dependencies of `a`.
pub open spec fn edge(g: Seq<Seq<usize>>, a: int, b: int) -> bool {
    exists|k: int| 0 <= k < g[a].len() && g[a][k] == b
}

/// `c` is a cycle of the dependency relation: it starts and ends on the
/// same node, and each node depends on the next.
pub open spec fn is_cycle(g: Seq<Seq<usize>>, c: Seq<usize>) -> bool {
    &&& c.len() >= 2
    &&& forall|i: int| 0 <= i < c.len() ==> (#[trigger] c[i]) < g.len()
    &&& c[0] == c[c.len() - 1]
    &&& forall|i: int| 0 <= i < c.len() - 1 ==> #[trigger] edge(g, c[i] as int, c[i + 1] as int)
}

/// A dependency of the unplaced node `cur` that is not placed either.
fn unplaced_dep(deps: &Vec<Vec<usize>>, placed: &Vec<bool>, cur: usize) -> (r: usize)
    requires
        placed@.len() == deps@.len(),
        cur < deps@.len(),
        forall|v: int, k: int|
            0 <= v < deps@.len() && 0 <= k < deps@[v]@.len() ==> #[trigger] deps@[v]@[k] < deps@.len(),
        exists|k: int| 0 <= k < deps@[cur as int]@.len() && !placed@[#[trigger] deps@[cur as int]@[k] as int],
    ensures
        r < deps@.len(),
        !placed@[r as int],
        edge(graph_views(deps@), cur as int, r as int),
{
    let ghost g = graph_views(deps@);
    assert(g.len() == deps@.len());
    let ds = &deps[cur];
    assert(ds@ == g[cur as int]);
    let mut k: usize = 0;
    while k < ds.len()
        invariant
            g == graph_views(deps@),
            g.len() == deps@.len(),
            ds@ == deps@[cur as int]@,
            ds@ == g[cur as int],
            cur < deps@.len(),
            placed@.len() == deps@.len(),
            k <= ds@.len(),
            forall|j: int| 0 <= j < k ==> placed@[#[trigger] ds@[j] as int],
            exists|j: int| 0 <= j < ds@.len() && !placed@[#[trigger] ds@[j] as int],
            forall|v: int, j: int|
                0 <= v < deps@.len() && 0 <= j < deps@[v]@.len() ==> #[trigger] deps@[v]@[j] < deps@.len(),
        decreases ds@.len() - k,
    {
        let d = ds[k];
        if !placed[d] {
            assert(deps@[cur as int]@[k as int] == d);
            assert(g[cur as int][k as int] == d);
            assert(edge(g, cur as int, d as int));
            return d;
        }
        k = k + 1;
    }
    let ghost j = choose|j: int| 0 <= j < ds@.len() && !placed@[#[trigger] ds@[j] as int];
    assert(placed@[ds@[j] as int]);
    0
}

/// The cycle that closes when the walk `trail` reaches `next` again.
fn close_cycle(g: Ghost<Seq<Seq<usize>>>, trail: &Vec<usize>, next: usize) -> (c: Vec<usize>)
    requires
        trail@.len() > 0,
        next < g@.len(),
        forall|a: int| 0 <= a < trail@.len() ==> (#[trigger] trail@[a]) < g@.len(),
        listed(trail@, next as int),
        edge(g@, trail@[trail@.len() - 1] as int, next as int),
        forall|a: int| 0 <= a < trail@.len() - 1 ==> #[trigger] edge(g@, trail@[a] as int, trail@[a + 1] as int),
    ensures
        is_cycle(g@, c@),
        c@[0] == next,
{
    let mut s: usize = 0;
    while s < trail.len() && trail[s] != next
        invariant
            0 <= s <= trail@.len(),
            exists|a: int| s <= a < trail@.len() && trail@[a] == next,
        decreases trail@.len() - s,
    {
        s = s + 1;
    }
    assert(s < trail@.len());
    let mut c: Vec<usize> = Vec::new();
    let mut a: usize = s;
    while a < trail.len()
        invariant
            s <= a <= trail@.len(),
            s < trail@.len(),
            c@ == trail@.subrange(s as int, a as int),
        decreases trail@.len() - a,
    {
        c.push(trail[a]);
        assert(c@ =~= trail@.subrange(s as int, a + 1));
        a = a + 1;
    }
    c.push(next);
    proof {
        let t = trail@;
        assert forall|i: int| 0 <= i < c@.len() implies (#[trigger] c@[i]) < g@.len() by {
            if i < c@.len() - 1 {
                assert(c@[i] == t[s + i]);
            }
        }
        assert forall|i: int| 0 <= i < c@.len() - 1 implies #[trigger] edge(g@, c@[i] as int, c@[i + 1] as int) by {
            if i < c@.len() - 2 {
                assert(c@[i] == t[s + i] && c@[i + 1] == t[s + i + 1]);
                assert(edge(g@, t[s + i] as int, t[s + i + 1] as int));
            } else {
                assert(c@[i] == t[t.len() - 1]);
            }
        }
    }
    c
}

/// Follows unmet dependencies from the unplaced node `start` until a node
/// repeats, and returns the cycle so found.
#[verifier::rlimit(40)]
fn find_cycle(deps: &Vec<Vec<usize>>, placed: &Vec<bool>, start: usize) -> (r: Vec<usize>)
    requires
        placed@.len() == deps@.len(),
        start < deps@.len(),
        !placed@[start as int],
        forall|v: int, k: int|
            0 <= v < deps@.len() && 0 <= k < deps@[v]@.len() ==> #[trigger] deps@[v]@[k] < deps@.len(),
        forall|v: int|
            0 <= v < deps@.len() && !placed@[v] ==> exists|k: int|
                0 <= k < deps@[v]@.len() && !placed@[#[trigger] deps@[v]@[k] as int],
    ensures
        is_cycle(graph_views(deps@), r@),
        r@[0] < deps@.len(),
{
    let ghost g = graph_views(deps@);
    let n = deps.len();
    let mut seen: Vec<bool> = Vec::new();
    let mut i: usize = 0;
    while i < n
        invariant
            n == deps@.len(),
            i <= n,
            seen@.len() == i,
            forall|v: int| 0 <= v < i ==> !seen@[v],
        decreases n - i,
    {
        seen.push(false);
        i = i + 1;
    }
    proof { lemma_count_zero(seen@); }
    proof { lemma_count_set(seen@, start as int); }
    seen.set(start, true);
    let mut trail: Vec<usize> = Vec::new();
    trail.push(start);
    proof {
        assert forall|v: int| 0 <= v < n && seen@[v] implies #[trigger] listed(trail@, v) by {
            assert(trail@[0] == start);
        }
    }
    loop
        invariant
            n == deps@.len(),
            g == graph_views(deps@),
            placed@.len() == n,
            seen@.len() == n,
            trail@.len() > 0,
            trail@.len() == count_true(seen@),
            g.len() == n,
            forall|v: int, k: int|
                0 <= v < deps@.len() && 0 <= k < deps@[v]@.len() ==> #[trigger] deps@[v]@[k] < deps@.len(),
            forall|v: int|
                0 <= v < deps@.len() && !placed@[v] ==> exists|k: int|
                    0 <= k < deps@[v]@.len() && !placed@[#[trigger] deps@[v]@[k] as int],
            forall|a: int| 0 <= a < trail@.len() ==> (#[trigger] trail@[a]) < n && !placed@[trail@[a] as int],
            forall|v: int| 0 <= v < n && seen@[v] ==> #[trigger] listed(trail@, v),
            forall|a: int| 0 <= a < trail@.len() ==> seen@[(#[trigger] trail@[a]) as int],
            forall|a: int| 0 <= a < trail@.len() - 1 ==> #[trigger] edge(g, trail@[a] as int, trail@[a + 1] as int),
        decreases n - trail@.len(),
    {
        proof { lemma_count_bound(seen@); }
        let cur = trail[trail.len() - 1];
        assert(!placed@[cur as int]);
        let next = unplaced_dep(deps, placed, cur);
        if seen[next] {
            return close_cycle(Ghost(g), &trail, next);
        }
        proof { lemma_count_set(seen@, next as int); }
        let ghost old_trail = trail@;
        seen.set(next, true);
        trail.push(next);
        proof {
            assert forall|v: int| 0 <= v < n && seen@[v] implies #[trigger] listed(trail@, v) by {
                if v == next {
                    assert(trail@[trail@.len() - 1] == v);
                } else {
                    assert(listed(old_trail, v));
                    let a = choose|a: int| 0 <= a < old_trail.len() && old_trail[a] == v;
                    assert(trail@[a] == v);
                }
            }
            assert forall|a: int| 0 <= a < trail@.len() - 1 implies #[trigger] edge(g, trail@[a] as int, trail@[a + 1] as int) by {
                if a < old_trail.len() - 1 {
                    assert(edge(g, old_trail[a] as int, old_trail[a + 1] as int));
                }
            }
        }
    }
}

/// An order of the nodes in which each follows its dependencies; or, when
/// no such order exists, a cycle of the dependencies.
#[verifier::loop_isolation(false)]
#[verifier::rlimit(40)]
pub fn topological_order(deps: &Vec<Vec<usize>>) -> (r: Result<Vec<usize>, Vec<usize>>)
    requires
        forall|v: int, k: int|
            0 <= v < deps@.len() && 0 <= k < deps@[v]@.len() ==> #[trigger] deps@[v]@[k] < deps@.len(),
    ensures
        r matches Ok(o) ==> is_order(graph_views(deps@), o@),
        r matches Err(c) ==> is_cycle(graph_views(deps@), c@) && c@[0] < deps@.len() && forall|o: Seq<usize>|
            !is_order(graph_views(deps@), o),
{
    let ghost g = graph_views(deps@);
    let n = deps.len();
    let mut placed: Vec<bool> = Vec::new();
    let mut i: usize = 0;
    while i < n
        invariant
            n == deps@.len(),
            i <= n,
            placed@.len() == i,
            forall|v: int| 0 <= v < i ==> !placed@[v],
        decreases n - i,
    {
        placed.push(false);
        i = i + 1;
    }
    proof {
        assert(count_true(placed@) == 0) by {
            lemma_count_zero(placed@);
        }
    }
    let mut order: Vec<usize> = Vec::new();
    while order.len() < n
        invariant
            n == deps@.len(),
            g == graph_views(deps@),
            placed@.len() == n,
            order@.len() == count_true(placed@),
            forall|v: int, k: int| 0 <= v < g.len() && 0 <= k < g[v].len() ==> #[trigger] g[v][k] < g.len(),
            forall|a: int| 0 <= a < order@.len() ==> (#[trigger] order@[a]) < n && placed@[order@[a] as int],
            forall|v: int| 0 <= v < n && placed@[v] ==> #[trigger] listed(order@, v),
            forall|a: int, k: int|
                0 <= a < order@.len() && 0 <= k < g[order@[a] as int].len() ==> #[trigger] placed_before(g, order@, a, k),
        decreases n - order@.len(),
    {
        proof { lemma_count_bound(placed@); }
        let mut found: Option<usize> = None;
        let mut v: usize = 0;
        while v < n && found.is_none()
            invariant
                n == deps@.len(),
                g == graph_views(deps@),
                placed@.len() == n,
                v <= n,
                found matches Some(w) ==> w < n && !placed@[w as int] && forall|k: int|
                    0 <= k < g[w as int].len() ==> placed@[#[trigger] g[w as int][k] as int],
                found is None ==> forall|x: int|
                    0 <= x < v && !placed@[x] ==> exists|k: int|
                        0 <= k < g[x].len() && g[x][k] < n && !placed@[#[trigger] g[x][k] as int],
                forall|x: int, k: int| 0 <= x < g.len() && 0 <= k < g[x].len() ==> #[trigger] g[x][k] < g.len(),
            decreases n - v,
        {
            if !placed[v] {
                let ds = &deps[v];
                assert(ds@ == g[v as int]);
                let mut k: usize = 0;
                let mut ready = true;
                while k < ds.len() && ready
                    invariant
                        ds@ == g[v as int],
                        placed@.len() == n,
                        k <= ds@.len(),
                        v < n,
                        n == g.len(),
                        forall|x: int, j: int| 0 <= x < g.len() && 0 <= j < g[x].len() ==> #[trigger] g[x][j] < g.len(),
                        ready ==> forall|j: int| 0 <= j < k ==> placed@[#[trigger] g[v as int][j] as int],
                        !ready ==> exists|j: int| 0 <= j < g[v as int].len() && g[v as int][j] < n && !placed@[#[trigger] g[v as int][j] as int],
                    decreases ds@.len() - k,
                {
                    let d = ds[k];
                    assert(d == g[v as int][k as int]);
                    if !placed[d] {
                        ready = false;
                    }
                    k = k + 1;
                }
                if ready {
                    found = Some(v);
                }
            }
            v = v + 1;
        }
        match found {
            None => {
                proof {
                    lemma_count_bound(placed@);
                    if forall|x: int| 0 <= x < n ==> placed@[x] {
                        lemma_count_full(placed@);
                    }
                    let u = choose|u: int| 0 <= u < n && !placed@[u];
                    assert forall|o: Seq<usize>| !is_order(g, o) by {
                        lemma_stuck_no_order(g, placed@, u, o);
                    }
                }
                let mut u: usize = 0;
                while u < n && placed[u]
                    invariant
                        u <= n,
                        placed@.len() == n,
                        exists|x: int| u <= x < n && !placed@[x],
                    decreases n - u,
                {
                    u = u + 1;
                }
                let c = find_cycle(deps, &placed, u);
                return Err(c);
            },
            Some(w) => {
                let ghost old_order = order@;
                let ghost old_placed = placed@;
                proof { lemma_count_set(placed@, w as int); }
                placed.set(w, true);
                order.push(w);
                assert(order@.drop_last() == old_order);
                assert forall|v: int| 0 <= v < n && placed@[v] implies #[trigger] listed(order@, v) by {
                    if v == w {
                        assert(order@[order@.len() - 1] == v);
                    } else {
                        assert(old_placed[v]);
                        assert(listed(old_order, v));
                        let a = choose|a: int| 0 <= a < old_order.len() && old_order[a] == v;
                        assert(order@[a] == v);
                    }
                }
                assert forall|a: int, k: int|
                    0 <= a < order@.len() && 0 <= k < g[order@[a] as int].len() implies #[trigger] placed_before(g, order@, a, k) by {
                    if a == order@.len() - 1 {
                        let d = g[w as int][k] as int;
                        assert(old_placed[d]);
                        assert(listed(old_order, d));
                        let b = choose|b: int| 0 <= b < old_order.len() && old_order[b] == d;
                        assert(order@[b] == g[order@[a] as int][k]);
                    } else {
                        assert(order@[a] == old_order[a]);
                        assert(placed_before(g, old_order, a, k));
                        let b = choose|b: int| 0 <= b < a && old_order[b] == g[old_order[a] as int][k];
                        assert(order@[b] == old_order[b]);
                    }
                }
            },
        }
    }
    proof { lemma_count_bound(placed@); }
    Ok(order)
}

proof fn lemma_count_zero(s: Seq<bool>)
    requires
        forall|v: int| 0 <= v < s.len() ==> !s[v],
    ensures
        count_true(s) == 0,
    decreases s.len(),
{
    if s.len() > 0 {
        lemma_count_zero(s.drop_last());
    }
}

pub open spec fn needs_views(needs: Seq<Vec<String>>) -> Seq<Seq<Seq<char>>> {
    needs.map_values(|v: Vec<String>| texts(v@))
}

pub open spec fn ids_unique(ids: Seq<Seq<char>>) -> bool {
    forall|i: int, j: int| 0 <= i < j < ids.len() ==> ids[i] != ids[j]
}

/// Every dependency names one of `ids`.
pub open spec fn needs_exist(ids: Seq<Seq<char>>, needs: Seq<Seq<Seq<char>>>) -> bool {
    forall|j: int, k: int| 0 <= j < needs.len() && 0 <= k < needs[j].len() ==> ids.contains(#[trigger] needs[j][k])
}

/// The `k`-th dependency of job `order[a]` is named at a position before `a`.
pub open spec fn named_before(ids: Seq<Seq<char>>, needs: Seq<Seq<Seq<char>>>, order: Seq<usize>, a: int, k: int) -> bool {
    exists|b: int| 0 <= b < a && ids[order[b] as int] == needs[order[a] as int][k]
}

/// `order` lists every job (by position in `ids`), each after all the jobs it
/// needs.
pub open spec fn is_job_order(ids: Seq<Seq<char>>, needs: Seq<Seq<Seq<char>>>, order: Seq<usize>) -> bool {
    &&& order.len() == ids.len()
    &&& forall|a: int| 0 <= a < order.len() ==> (#[trigger] order[a]) < ids.len()
    &&& forall|v: int| 0 <= v < ids.len() ==> #[trigger] listed(order, v)
    &&& forall|a: int, k: int|
        0 <= a < order.len() && 0 <= k < needs[order[a] as int].len() ==> #[trigger] named_before(
            ids,
            needs,
            order,
            a,
            k,
        )
}

/// The `needs` relation has no cycle: the jobs can be ordered.
pub open spec fn acyclic(ids: Seq<Seq<char>>, needs: Seq<Seq<Seq<char>>>) -> bool {
    exists|o: Seq<usize>| is_job_order(ids, needs, o)
}

/// `g` holds the positions of the jobs that `needs` names.
pub open spec fn resolves(ids: Seq<Seq<char>>, needs: Seq<Seq<Seq<char>>>, g: Seq<Seq<usize>>) -> bool {
    &&& g.len() == needs.len()
    &&& forall|j: int| 0 <= j < g.len() ==> (#[trigger] g[j]).len() == needs[j].len()
    &&& forall|j: int, k: int|
        0 <= j < g.len() && 0 <= k < g[j].len() ==> (#[trigger] g[j][k]) < ids.len() && ids[g[j][k] as int]
            == needs[j][k]
}

proof fn lemma_orders_agree(ids: Seq<Seq<char>>, needs: Seq<Seq<Seq<char>>>, g: Seq<Seq<usize>>, o: Seq<usize>)
    requires
        ids.len() == needs.len(),
        resolves(ids, needs, g),
        ids_unique(ids),
    ensures
        is_order(g, o) <==> is_job_order(ids, needs, o),
{
    if is_order(g, o) {
        assert forall|a: int, k: int|
            0 <= a < o.len() && 0 <= k < needs[o[a] as int].len() implies #[trigger] named_before(ids, needs, o, a, k) by {
            assert(placed_before(g, o, a, k));
            let b = choose|b: int| 0 <= b < a && o[b] == g[o[a] as int][k];
            assert(ids[o[b] as int] == needs[o[a] as int][k]);
        }
    }
    if is_job_order(ids, needs, o) {
        assert forall|a: int, k: int|
            0 <= a < o.len() && 0 <= k < g[o[a] as int].len() implies #[trigger] placed_before(g, o, a, k) by {
            assert(named_before(ids, needs, o, a, k));
            let b = choose|b: int| 0 <= b < a && ids[o[b] as int] == needs[o[a] as int][k];
            let t = g[o[a] as int][k];
            assert(ids[t as int] == needs[o[a] as int][k]);
            if o[b] != t {
                if (o[b] as int) < (t as int) {
                    assert(ids[o[b] as int] != ids[t as int]);
                } else {
                    assert(ids[t as int] != ids[o[b] as int]);
                }
            }
        }
    }
}

/// The position of the first id that repeats an earlier one, if any.
pub fn find_repeat(ids: &Vec<String>) -> (r: Option<usize>)
    ensures
        r is None <==> ids_unique(texts(ids@)),
        r matches Some(j) ==> j < ids@.len(),
{
    let mut j: usize = 0;
    while j < ids.len()
        invariant
            j <= ids@.len(),
            forall|a: int, b: int| 0 <= a < b < j ==> ids@[a]@ != ids@[b]@,
        decreases ids@.len() - j,
    {
        let mut i: usize = 0;
        while i < j
            invariant
                i <= j < ids@.len(),
                forall|a: int| 0 <= a < i ==> ids@[a]@ != ids@[j as int]@,
            decreases j - i,
        {
            if str_eq(ids[i].as_str(), ids[j].as_str()) {
                assert(texts(ids@)[i as int] == texts(ids@)[j as int]);
                return Some(j);
            }
            i = i + 1;
        }
        j = j + 1;
    }
    None
}

/// The position of the id equal to `name`, if any.
pub fn position_of(ids: &Vec<String>, name: &str) -> (r: Option<usize>)
    ensures
        r matches Some(i) ==> i < ids@.len() && ids@[i as int]@ == name@,
        r is None ==> !texts(ids@).contains(name@),
{
    let mut i: usize = 0;
    while i < ids.len()
        invariant
            i <= ids@.len(),
            forall|a: int| 0 <= a < i ==> ids@[a]@ != name@,
        decreases ids@.len() - i,
    {
        if str_eq(ids[i].as_str(), name) {
            return Some(i);
        }
        i = i + 1;
    }
    assert(!texts(ids@).contains(name@)) by {
        if texts(ids@).contains(name@) {
            let a = choose|a: int| 0 <= a < texts(ids@).len() && texts(ids@)[a] == name@;
            assert(ids@[a]@ == name@);
        }
    }
    None
}

/// Checks the dependency relation of a set of jobs, given each job's id and
/// the ids it needs, and orders the jobs so that each follows what it needs.
/// Ids must be unique, every needed id must exist, and the relation must hold
/// no cycle.
#[verifier::loop_isolation(false)]
pub fn dependency_order(ids: &Vec<String>, needs: &Vec<Vec<String>>) -> (r: Result<Vec<usize>, DecodeError>)
    requires
        ids@.len() == needs@.len(),
    ensures
        !ids_unique(texts(ids@)) ==> kind_of(r, ErrorKind::DuplicateKey),
        ids_unique(texts(ids@)) && !needs_exist(texts(ids@), needs_views(needs@)) ==> reports_missing(
            texts(ids@),
            needs_views(needs@),
            r,
            Seq::empty(),
        ),
        ids_unique(texts(ids@)) && needs_exist(texts(ids@), needs_views(needs@)) ==> {
            &&& r is Ok <==> acyclic(texts(ids@), needs_views(needs@))
            &&& r matches Ok(o) ==> is_job_order(texts(ids@), needs_views(needs@), o@)
            &&& r is Err ==> reports_cycle(texts(ids@), needs_views(needs@), r, Seq::empty())
        },
{
    let ghost tid = texts(ids@);
    let ghost tn = needs_views(needs@);
    match find_repeat(ids) {
        Some(j) => {
            return Err(DecodeError::new(ErrorKind::DuplicateKey, ids[j].clone()));
        },
        None => {},
    }
    let mut deps: Vec<Vec<usize>> = Vec::new();
    let mut j: usize = 0;
    while j < needs.len()
        invariant
            j <= needs@.len(),
            deps@.len() == j,
            resolves(tid, tn.subrange(0, j as int), graph_views(deps@)),
            needs_exist(tid, tn.subrange(0, j as int)),
        decreases needs@.len() - j,
    {
        let ns = &needs[j];
        let mut row: Vec<usize> = Vec::new();
        let mut k: usize = 0;
        while k < ns.len()
            invariant
                ns@ == needs@[j as int]@,
                tn[j as int] == texts(ns@),
                j < needs@.len(),
                k <= ns@.len(),
                row@.len() == k,
                forall|x: int| 0 <= x < k ==> (#[trigger] row@[x]) < tid.len() && tid[row@[x] as int] == tn[j as int][x],
                forall|x: int| 0 <= x < k ==> tid.contains(#[trigger] tn[j as int][x]),
            decreases ns@.len() - k,
        {
            match position_of(ids, ns[k].as_str()) {
                Some(i) => {
                    row.push(i);
                    assert(tid[i as int] == tn[j as int][k as int]);
                },
                None => {
                    proof {
                        assert(!needs_exist(tid, tn)) by {
                            assert(!tid.contains(tn[j as int][k as int]));
                        }
                    }
                    let e = DecodeError::new(ErrorKind::DanglingReference, ns[k].clone()).within(ids[j].as_str());
                    proof {
                        assert(texts(e.path@) =~= Seq::<Seq<char>>::empty().push(tid[j as int]));
                        assert(e.subject@ == tn[j as int][k as int]);
                    }
                    return Err(e);
                },
            }
            k = k + 1;
        }
        let ghost before = deps@;
        deps.push(row);
        proof {
            assert(tn.subrange(0, j + 1).drop_last() == tn.subrange(0, j as int));
            assert(graph_views(deps@) == graph_views(before).push(row@));
            assert forall|x: int, y: int|
                0 <= x < j + 1 && 0 <= y < tn.subrange(0, j + 1)[x].len() implies tid.contains(
                #[trigger] tn.subrange(0, j + 1)[x][y],
            ) by {
                if x < j {
                    assert(tn.subrange(0, j + 1)[x] == tn.subrange(0, j as int)[x]);
                }
            }
        }
        j = j + 1;
    }
    assert(tn.subrange(0, needs@.len() as int) == tn);
    let ghost g = graph_views(deps@);
    assert forall|v: int, k: int| 0 <= v < deps@.len() && 0 <= k < deps@[v]@.len() implies #[trigger] deps@[v]@[k]
        < deps@.len() by {
        assert(g[v] == deps@[v]@);
        assert(g[v][k] < tid.len());
    }
    match topological_order(&deps) {
        Ok(order) => {
            proof { lemma_orders_agree(tid, tn, g, order@); }
            Ok(order)
        },
        Err(c) => {
            proof {
                assert forall|o: Seq<usize>| !is_job_order(tid, tn, o) by {
                    lemma_orders_agree(tid, tn, g, o);
                }
            }
            let e = DecodeError::new(ErrorKind::CyclicDependency, ids[c[0]].clone());
            proof {
                let cs = c@;
                assert forall|i: int| 0 <= i < cs.len() implies (#[trigger] cs[i]) < tid.len() by {
                    if i > 0 {
                        assert(cs[i] < g.len());
                    }
                }
                assert forall|i: int| 0 <= i < cs.len() - 1 implies (#[trigger] tn[cs[i] as int]).contains(tid[cs[i + 1] as int]) by {
                    assert(edge(g, cs[i] as int, cs[i + 1] as int));
                    let k = choose|k: int| 0 <= k < g[cs[i] as int].len() && #[trigger] g[cs[i] as int][k] == cs[i + 1];
                    assert(tid[g[cs[i] as int][k] as int] == tn[cs[i] as int][k]);
                }
                assert(job_cycle(tid, tn, cs));
                assert(texts(e.path@) =~= Seq::empty());
            }
            Err(e)
        },
    }
}

/// `r` is a `DanglingReference` error that names a needed id missing from
/// `ids`, at the path `prefix` followed by the id of the job that needs it.
pub open spec fn reports_missing<T>(
    ids: Seq<Seq<char>>,
    needs: Seq<Seq<Seq<char>>>,
    r: Result<T, DecodeError>,
    prefix: Seq<Seq<char>>,
) -> bool {
    match r {
        Err(e) => e.kind == ErrorKind::DanglingReference && exists|j: int, k: int|
            0 <= j < needs.len() && 0 <= k < needs[j].len() && e.subject@ == #[trigger] needs[j][k] && !ids.contains(
                needs[j][k],
            ) && texts(e.path@) == prefix.push(ids[j]),
        Ok(_) => false,
    }
}

/// `c` lists positions of jobs that form a cycle of `needs`: it starts and
/// ends on the same job, and each job needs the next.
pub open spec fn job_cycle(ids: Seq<Seq<char>>, needs: Seq<Seq<Seq<char>>>, c: Seq<usize>) -> bool {
    &&& c.len() >= 2
    &&& c[0] == c[c.len() - 1]
    &&& forall|i: int| 0 <= i < c.len() ==> (#[trigger] c[i]) < ids.len()
    &&& forall|i: int| 0 <= i < c.len() - 1 ==> (#[trigger] needs[c[i] as int]).contains(ids[c[i + 1] as int])
}

/// `r` is a `CyclicDependency` error at the path `prefix` that names a job on
/// a cycle of `needs`.
pub open spec fn reports_cycle<T>(
    ids: Seq<Seq<char>>,
    needs: Seq<Seq<Seq<char>>>,
    r: Result<T, DecodeError>,
    prefix: Seq<Seq<char>>,
) -> bool {
    match r {
        Err(e) => e.kind == ErrorKind::CyclicDependency && texts(e.path@) == prefix && exists|c: Seq<usize>|
            #[trigger] job_cycle(ids, needs, c) && e.subject@ == ids[c[0] as int],
        Ok(_) => false,
    }
}

pub open spec fn kind_of<T>(r: Result<T, DecodeError>, k: ErrorKind) -> bool {
    r matches Err(e) && e.kind == k
}

} // verus!
