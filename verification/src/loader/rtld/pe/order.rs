//! The order in which modules are linked and initialised: a module after those
//! that it needs, each module once.
use vstd::prelude::*;

verus! {

/// What is left to do.
#[derive(Clone, Copy, PartialEq, Eq, Debug, Structural)]
pub enum Visit {
    /// Look at a module, if that was not done.
    Enter(usize),
    /// All that a module needs was looked at.
    Leave(usize),
}

/// The modules that each module needs, as indices.
pub open spec fn graph_view(deps: Seq<Vec<usize>>) -> Seq<Seq<usize>> {
    Seq::new(deps.len(), |i: int| deps[i]@)
}

/// Every index is that of a module.
pub open spec fn graph_ok(deps: Seq<Seq<usize>>) -> bool {
    forall|i: int, k: int|
        0 <= i < deps.len() && 0 <= k < deps[i].len() ==> #[trigger] deps[i][k] < deps.len()
}

/// A stack with the modules that a module needs on it, the first one on top.
pub open spec fn with_needed(stack: Seq<Visit>, needed: Seq<usize>, n: int) -> Seq<Visit>
    decreases n,
{
    if n <= 0 {
        stack
    } else {
        with_needed(stack.push(Visit::Enter(needed[n - 1])), needed, n - 1)
    }
}

/// The order that results from what is left to do, the modules that were looked
/// at, and the order so far.
pub open spec fn visit_order(
    deps: Seq<Seq<usize>>,
    stack: Seq<Visit>,
    seen: Seq<usize>,
    order: Seq<usize>,
) -> Seq<usize>
    decreases deps.len() - seen.len(), stack.len(),
{
    if stack.len() == 0 {
        order
    } else {
        let rest = stack.drop_last();
        match stack.last() {
            Visit::Leave(i) => visit_order(deps, rest, seen, order.push(i)),
            Visit::Enter(i) => if seen.contains(i) || seen.len() >= deps.len() || i >= deps.len() {
                visit_order(deps, rest, seen, order)
            } else {
                visit_order(
                    deps,
                    with_needed(
                        rest.push(Visit::Leave(i)),
                        deps[i as int],
                        deps[i as int].len() as int,
                    ),
                    seen.push(i),
                    order,
                )
            },
        }
    }
}

/// The order of the modules in `roots` and all that they need.
pub open spec fn module_order(deps: Seq<Seq<usize>>, roots: Seq<usize>) -> Seq<usize> {
    visit_order(
        deps,
        with_needed(Seq::empty(), roots, roots.len() as int),
        Seq::empty(),
        Seq::empty(),
    )
}

fn push_needed(stack: &mut Vec<Visit>, needed: &[usize])
    ensures
        final(stack)@ == with_needed(old(stack)@, needed@, needed@.len() as int),
{
    let mut n: usize = needed.len();
    while n > 0
        invariant
            n <= needed@.len(),
            with_needed(old(stack)@, needed@, needed@.len() as int) == with_needed(
                stack@,
                needed@,
                n as int,
            ),
        decreases n,
    {
        n = n - 1;
        stack.push(Visit::Enter(needed[n]));
    }
}

fn has_index(list: &Vec<usize>, i: usize) -> (r: bool)
    ensures
        r == list@.contains(i),
{
    let mut k: usize = 0;
    while k < list.len()
        invariant
            k <= list@.len(),
            forall|j: int| 0 <= j < k ==> list@[j] != i,
        decreases list@.len() - k,
    {
        if list[k] == i {
            assert(list@.contains(list@[k as int]));
            return true;
        }
        k = k + 1;
    }
    false
}

/// The order in which the modules in `roots` and all that they need are visited,
/// depth first: a module comes after those that it needs. A module that is
/// reached again while it waits for what it needs is not waited for.
pub fn initialization_order(deps: &Vec<Vec<usize>>, roots: &[usize]) -> (r: Vec<usize>)
    ensures
        r@ == module_order(graph_view(deps@), roots@),
{
    let ghost g = graph_view(deps@);
    let mut stack: Vec<Visit> = Vec::new();
    assert(stack@ =~= Seq::empty());
    push_needed(&mut stack, roots);
    let mut seen: Vec<usize> = Vec::new();
    let mut order: Vec<usize> = Vec::new();
    assert(seen@ =~= Seq::empty());
    assert(order@ =~= Seq::empty());
    loop
        invariant
            g == graph_view(deps@),
            seen@.len() <= g.len(),
            module_order(g, roots@) == visit_order(g, stack@, seen@, order@),
        decreases g.len() - seen@.len(), stack@.len(),
    {
        match stack.pop() {
            None => {
                return order;
            },
            Some(Visit::Leave(i)) => {
                order.push(i);
            },
            Some(Visit::Enter(i)) => {
                if !has_index(&seen, i) && seen.len() < deps.len() && i < deps.len() {
                    stack.push(Visit::Leave(i));
                    assert(g[i as int] == deps@[i as int]@);
                    push_needed(&mut stack, deps[i].as_slice());
                    seen.push(i);
                }
            },
        }
    }
}

// ---------------------------------------------------------------------------
// Laws
// ---------------------------------------------------------------------------

/// Whether a module waits for what it needs.
pub open spec fn leaves(stack: Seq<Visit>, i: usize) -> bool {
    stack.contains(Visit::Leave(i))
}

/// What holds at all times: each module that was looked at is in the order or
/// waits, never both, and once.
pub open spec fn visit_ok(
    deps: Seq<Seq<usize>>,
    stack: Seq<Visit>,
    seen: Seq<usize>,
    order: Seq<usize>,
) -> bool {
    &&& seen.no_duplicates()
    &&& order.no_duplicates()
    &&& forall|k: int| 0 <= k < seen.len() ==> #[trigger] seen[k] < deps.len()
    &&& forall|i: usize| #[trigger] seen.contains(i) <==> order.contains(i) || leaves(stack, i)
    &&& forall|i: usize| #[trigger] order.contains(i) ==> !leaves(stack, i)
    &&& forall|p: int, q: int|
        0 <= p < q < stack.len() && #[trigger] stack[p] is Leave && #[trigger] stack[q] is Leave
            ==> stack[p] != stack[q]
    &&& forall|p: int|
        0 <= p < stack.len() ==> match #[trigger] stack[p] {
            Visit::Enter(i) => i < deps.len(),
            Visit::Leave(i) => i < deps.len(),
        }
}

proof fn lemma_with_needed(stack: Seq<Visit>, needed: Seq<usize>, n: int)
    requires
        0 <= n <= needed.len(),
    ensures
        with_needed(stack, needed, n).len() == stack.len() + n,
        forall|p: int|
            0 <= p < stack.len() ==> #[trigger] with_needed(stack, needed, n)[p] == stack[p],
        forall|p: int|
            0 <= p < n ==> #[trigger] with_needed(stack, needed, n)[stack.len() + p]
                == Visit::Enter(needed[n - 1 - p]),
    decreases n,
{
    if n > 0 {
        let next = stack.push(Visit::Enter(needed[n - 1]));
        lemma_with_needed(next, needed, n - 1);
        let all = with_needed(stack, needed, n);
        assert(all == with_needed(next, needed, n - 1));
        assert forall|p: int| 0 <= p < stack.len() implies #[trigger] all[p] == stack[p] by {
            assert(all[p] == next[p]);
        }
        assert forall|p: int| 0 <= p < n implies #[trigger] all[stack.len() + p] == Visit::Enter(
            needed[n - 1 - p],
        ) by {
            if p == 0 {
                assert(all[stack.len() as int] == next[stack.len() as int]);
            } else {
                assert(all[next.len() + (p - 1)] == Visit::Enter(needed[n - 2 - (p - 1)]));
            }
        }
    }
}

proof fn lemma_seen_is_bounded(deps: Seq<Seq<usize>>, seen: Seq<usize>, i: usize)
    requires
        seen.no_duplicates(),
        forall|k: int| 0 <= k < seen.len() ==> #[trigger] seen[k] < deps.len(),
        i < deps.len(),
        !seen.contains(i),
    ensures
        seen.len() < deps.len(),
{
    let ints = seen.push(i).map_values(|x: usize| x as int);
    assert(ints.no_duplicates()) by {
        assert forall|a: int, b: int| 0 <= a < ints.len() && 0 <= b < ints.len() && a != b implies
            ints[a] != ints[b] by {
            let s = seen.push(i);
            if a < seen.len() && b < seen.len() {
                assert(seen[a] != seen[b]);
            } else if a < seen.len() {
                assert(seen.contains(seen[a]));
            } else {
                assert(seen.contains(seen[b]));
            }
        }
    }
    let all = Set::new(|x: int| 0 <= x < deps.len());
    vstd::set_lib::lemma_int_range(0, deps.len() as int);
    assert(vstd::set_lib::set_int_range(0, deps.len() as int) =~= all);
    ints.unique_seq_to_set();
    assert(ints.to_set().subset_of(all)) by {
        assert forall|x: int| ints.to_set().contains(x) implies all.contains(x) by {
            let k = choose|k: int| 0 <= k < ints.len() && ints[k] == x;
            if k < seen.len() {
                assert(seen[k] < deps.len());
            }
        }
    }
    vstd::set_lib::lemma_len_subset(ints.to_set(), all);
}

/// Entering a module keeps the invariant.
proof fn lemma_enter(
    deps: Seq<Seq<usize>>,
    stack: Seq<Visit>,
    seen: Seq<usize>,
    order: Seq<usize>,
    i: usize,
)
    requires
        graph_ok(deps),
        visit_ok(deps, stack, seen, order),
        stack.len() > 0,
        stack.last() == Visit::Enter(i),
        !seen.contains(i),
    ensures
        visit_ok(
            deps,
            with_needed(
                stack.drop_last().push(Visit::Leave(i)),
                deps[i as int],
                deps[i as int].len() as int,
            ),
            seen.push(i),
            order,
        ),
{
    assert(stack[stack.len() - 1] == Visit::Enter(i));
    let rest = stack.drop_last();
    let base = rest.push(Visit::Leave(i));
    let n = deps[i as int].len() as int;
    let next = with_needed(base, deps[i as int], n);
    let seen2 = seen.push(i);
    lemma_with_needed(base, deps[i as int], n);
    assert forall|j: usize| leaves(next, j) <==> (leaves(stack, j) || j == i) by {
        if leaves(next, j) {
            let p = choose|p: int| 0 <= p < next.len() && next[p] == Visit::Leave(j);
            if p < rest.len() {
                assert(next[p] == base[p]);
                assert(stack[p] == Visit::Leave(j));
            } else if p == rest.len() {
                assert(next[p] == base[p]);
            } else {
                assert(next[base.len() + (p - base.len())] is Enter);
            }
        }
        if leaves(stack, j) {
            let p = choose|p: int| 0 <= p < stack.len() && stack[p] == Visit::Leave(j);
            assert(p < rest.len());
            assert(next[p] == base[p]);
        }
        if j == i {
            assert(next[rest.len() as int] == base[rest.len() as int]);
        }
    }
    assert forall|j: usize| #[trigger] seen2.contains(j) <==> order.contains(j) || leaves(next, j) by {
        if seen.contains(j) {
            let k = choose|k: int| 0 <= k < seen.len() && seen[k] == j;
            assert(seen2[k] == j);
        }
        assert(seen2[seen.len() as int] == i);
        if seen2.contains(j) && j != i {
            let k = choose|k: int| 0 <= k < seen2.len() && seen2[k] == j;
            assert(seen[k] == j);
        }
    }
    assert(!leaves(stack, i) && !order.contains(i));
    assert forall|p: int, q: int|
        0 <= p < q < next.len() && #[trigger] next[p] is Leave && #[trigger] next[q]
            is Leave implies next[p] != next[q] by {
        if q >= base.len() {
            assert(next[base.len() + (q - base.len())] is Enter);
        } else {
            assert(next[p] == base[p]);
            assert(next[q] == base[q]);
            if q < rest.len() {
                assert(stack[p] == next[p] && stack[q] == next[q]);
            } else {
                assert(stack[p] == next[p]);
                if next[p] == next[q] {
                    assert(leaves(stack, i));
                }
            }
        }
    }
    assert forall|p: int| 0 <= p < next.len() implies match #[trigger] next[p] {
        Visit::Enter(j) => j < deps.len(),
        Visit::Leave(j) => j < deps.len(),
    } by {
        if p < rest.len() {
            assert(next[p] == base[p]);
            assert(stack[p] == next[p]);
        } else if p == rest.len() {
            assert(next[p] == base[p]);
        } else {
            let m = p - base.len();
            assert(next[base.len() + m] == Visit::Enter(deps[i as int][n - 1 - m]));
        }
    }
    assert(seen2.no_duplicates());
}

proof fn lemma_drop_enter(
    deps: Seq<Seq<usize>>,
    stack: Seq<Visit>,
    seen: Seq<usize>,
    order: Seq<usize>,
)
    requires
        visit_ok(deps, stack, seen, order),
        stack.len() > 0,
        stack.last() is Enter,
    ensures
        visit_ok(deps, stack.drop_last(), seen, order),
{
    let rest = stack.drop_last();
    assert forall|j: usize| leaves(rest, j) <==> leaves(stack, j) by {
        if leaves(stack, j) {
            let p = choose|p: int| 0 <= p < stack.len() && stack[p] == Visit::Leave(j);
            assert(p < rest.len());
            assert(rest[p] == stack[p]);
        }
        if leaves(rest, j) {
            let p = choose|p: int| 0 <= p < rest.len() && rest[p] == Visit::Leave(j);
            assert(stack[p] == rest[p]);
        }
    }
    assert forall|p: int, q: int|
        0 <= p < q < rest.len() && #[trigger] rest[p] is Leave && #[trigger] rest[q]
            is Leave implies rest[p] != rest[q] by {
        assert(stack[p] == rest[p] && stack[q] == rest[q]);
    }
    assert forall|p: int| 0 <= p < rest.len() implies match #[trigger] rest[p] {
        Visit::Enter(j) => j < deps.len(),
        Visit::Leave(j) => j < deps.len(),
    } by {
        assert(stack[p] == rest[p]);
    }
}

proof fn lemma_leave(
    deps: Seq<Seq<usize>>,
    stack: Seq<Visit>,
    seen: Seq<usize>,
    order: Seq<usize>,
    i: usize,
)
    requires
        visit_ok(deps, stack, seen, order),
        stack.len() > 0,
        stack.last() == Visit::Leave(i),
    ensures
        visit_ok(deps, stack.drop_last(), seen, order.push(i)),
{
    let rest = stack.drop_last();
    let n = stack.len() - 1;
    let order2 = order.push(i);
    assert(stack[n] == Visit::Leave(i));
    assert(leaves(stack, i));
    assert forall|j: usize| leaves(rest, j) <==> (leaves(stack, j) && j != i) by {
        if leaves(stack, j) && j != i {
            let p = choose|p: int| 0 <= p < stack.len() && stack[p] == Visit::Leave(j);
            assert(p < n);
            assert(rest[p] == stack[p]);
        }
        if leaves(rest, j) {
            let p = choose|p: int| 0 <= p < rest.len() && rest[p] == Visit::Leave(j);
            assert(stack[p] == rest[p]);
            assert(stack[p] != stack[n]);
        }
    }
    assert forall|j: usize| order2.contains(j) <==> (order.contains(j) || j == i) by {
        assert(order2[order.len() as int] == i);
        if order.contains(j) {
            let k = choose|k: int| 0 <= k < order.len() && order[k] == j;
            assert(order2[k] == j);
        }
        if order2.contains(j) && j != i {
            let k = choose|k: int| 0 <= k < order2.len() && order2[k] == j;
            assert(order[k] == j);
        }
    }
    assert(!order.contains(i));
    assert(order2.no_duplicates());
    assert forall|p: int, q: int|
        0 <= p < q < rest.len() && #[trigger] rest[p] is Leave && #[trigger] rest[q]
            is Leave implies rest[p] != rest[q] by {
        assert(stack[p] == rest[p] && stack[q] == rest[q]);
    }
    assert forall|p: int| 0 <= p < rest.len() implies match #[trigger] rest[p] {
        Visit::Enter(j) => j < deps.len(),
        Visit::Leave(j) => j < deps.len(),
    } by {
        assert(stack[p] == rest[p]);
    }
}

/// Whether an order lists a module after all that it needs.
pub open spec fn is_topological(deps: Seq<Seq<usize>>, order: Seq<usize>) -> bool {
    forall|k: int, m: int|
        0 <= k < order.len() && order[k] < deps.len() && 0 <= m < deps[order[k] as int].len()
            ==> order.take(k).contains(#[trigger] deps[order[k] as int][m])
}

/// Whether ranks show that no module needs itself, not even through others.
pub open spec fn is_ranked(deps: Seq<Seq<usize>>, rank: Seq<int>) -> bool {
    &&& rank.len() == deps.len()
    &&& forall|i: int, m: int|
        0 <= i < deps.len() && 0 <= m < deps[i].len() ==> rank[(
        #[trigger] deps[i][m]) as int] < rank[i]
}

/// What a visit leads to.
pub open spec fn target(v: Visit) -> int {
    match v {
        Visit::Enter(i) => i as int,
        Visit::Leave(i) => i as int,
    }
}

/// What also holds of the modules that wait: all that one needs was looked at or
/// will be before it, and what is above it on the stack has a lower rank.
pub open spec fn waits_ok(
    deps: Seq<Seq<usize>>,
    rank: Seq<int>,
    stack: Seq<Visit>,
    seen: Seq<usize>,
) -> bool {
    &&& forall|p: int, m: int|
        0 <= p < stack.len() && stack[p] is Leave && 0 <= m < deps[target(stack[p])].len()
            ==> seen.contains(#[trigger] deps[target(stack[p])][m]) || exists|q: int|
            p < q < stack.len() && #[trigger] stack[q] == Visit::Enter(
                deps[target(stack[p])][m],
            )
    &&& forall|p: int, q: int|
        0 <= p < q < stack.len() && #[trigger] stack[p] is Leave ==> rank[target(
            #[trigger] stack[q],
        )] < rank[target(stack[p])]
}

proof fn lemma_order_is_topological(
    deps: Seq<Seq<usize>>,
    rank: Seq<int>,
    stack: Seq<Visit>,
    seen: Seq<usize>,
    order: Seq<usize>,
)
    requires
        graph_ok(deps),
        is_ranked(deps, rank),
        visit_ok(deps, stack, seen, order),
        waits_ok(deps, rank, stack, seen),
        is_topological(deps, order),
    ensures
        is_topological(deps, visit_order(deps, stack, seen, order)),
    decreases deps.len() - seen.len(), stack.len(),
{
    if stack.len() > 0 {
        let n = stack.len() - 1;
        let rest = stack.drop_last();
        assert forall|p: int| 0 <= p < n implies rest[p] == stack[p] by {}
        match stack.last() {
            Visit::Leave(i) => {
                assert(stack[n] == Visit::Leave(i));
                lemma_leave(deps, stack, seen, order, i);
                let order2 = order.push(i);
                assert forall|k: int, m: int|
                    0 <= k < order2.len() && order2[k] < deps.len() && 0 <= m < deps[order2[k] as int].len()
                    implies order2.take(k).contains(#[trigger] deps[order2[k] as int][m]) by {
                    if k < order.len() {
                        assert(order2[k] == order[k]);
                        assert(order.take(k).contains(deps[order[k] as int][m]));
                        assert(order2.take(k) =~= order.take(k));
                    } else {
                        let d = deps[i as int][m];
                        assert(deps[target(stack[n])][m] == d);
                        assert(seen.contains(d));
                        assert(rank[d as int] < rank[i as int]);
                        if leaves(stack, d) {
                            let p = choose|p: int| 0 <= p < stack.len() && stack[p] == Visit::Leave(d);
                            if p < n {
                                assert(rank[target(stack[n])] < rank[target(stack[p])]);
                            } else {
                                assert(stack[p] == stack[n]);
                            }
                        }
                        assert(order.contains(d));
                        assert(order2.take(k) =~= order);
                    }
                }
                assert(waits_ok(deps, rank, rest, seen)) by {
                    assert forall|p: int, m: int|
                        0 <= p < rest.len() && rest[p] is Leave && 0 <= m < deps[target(rest[p])].len()
                        implies seen.contains(#[trigger] deps[target(rest[p])][m]) || exists|q: int|
                        p < q < rest.len() && #[trigger] rest[q] == Visit::Enter(
                            deps[target(rest[p])][m],
                        ) by {
                        assert(stack[p] == rest[p]);
                        let d = deps[target(stack[p])][m];
                        if !seen.contains(d) {
                            let q = choose|q: int|
                                p < q < stack.len() && #[trigger] stack[q] == Visit::Enter(d);
                            assert(q < n);
                            assert(rest[q] == stack[q]);
                        }
                    }
                    assert forall|p: int, q: int|
                        0 <= p < q < rest.len() && #[trigger] rest[p] is Leave implies rank[target(
                        #[trigger] rest[q],
                    )] < rank[target(rest[p])] by {
                        assert(stack[p] == rest[p] && stack[q] == rest[q]);
                    }
                }
                lemma_order_is_topological(deps, rank, rest, seen, order2);
            },
            Visit::Enter(i) => {
                assert(stack[n] == Visit::Enter(i));
                if seen.contains(i) {
                    lemma_drop_enter(deps, stack, seen, order);
                    assert(waits_ok(deps, rank, rest, seen)) by {
                        assert forall|p: int, m: int|
                            0 <= p < rest.len() && rest[p] is Leave && 0 <= m < deps[target(
                                rest[p],
                            )].len() implies seen.contains(#[trigger] deps[target(rest[p])][m])
                            || exists|q: int|
                            p < q < rest.len() && #[trigger] rest[q] == Visit::Enter(
                                deps[target(rest[p])][m],
                            ) by {
                            assert(stack[p] == rest[p]);
                            let d = deps[target(stack[p])][m];
                            if !seen.contains(d) {
                                let q = choose|q: int|
                                    p < q < stack.len() && #[trigger] stack[q] == Visit::Enter(d);
                                assert(q < n);
                                assert(rest[q] == stack[q]);
                            }
                        }
                        assert forall|p: int, q: int|
                            0 <= p < q < rest.len() && #[trigger] rest[p] is Leave implies rank[target(
                            #[trigger] rest[q],
                        )] < rank[target(rest[p])] by {
                            assert(stack[p] == rest[p] && stack[q] == rest[q]);
                        }
                    }
                    lemma_order_is_topological(deps, rank, rest, seen, order);
                } else {
                    lemma_seen_is_bounded(deps, seen, i);
                    lemma_enter(deps, stack, seen, order, i);
                    lemma_enter_waits(deps, rank, stack, seen, i);
                    lemma_order_is_topological(
                        deps,
                        rank,
                        with_needed(
                            rest.push(Visit::Leave(i)),
                            deps[i as int],
                            deps[i as int].len() as int,
                        ),
                        seen.push(i),
                        order,
                    );
                }
            },
        }
    }
}

proof fn lemma_enter_waits(
    deps: Seq<Seq<usize>>,
    rank: Seq<int>,
    stack: Seq<Visit>,
    seen: Seq<usize>,
    i: usize,
)
    requires
        graph_ok(deps),
        is_ranked(deps, rank),
        i < deps.len(),
        stack.len() > 0,
        stack.last() == Visit::Enter(i),
        waits_ok(deps, rank, stack, seen),
    ensures
        waits_ok(
            deps,
            rank,
            with_needed(
                stack.drop_last().push(Visit::Leave(i)),
                deps[i as int],
                deps[i as int].len() as int,
            ),
            seen.push(i),
        ),
{
    let top = stack.len() - 1;
    let rest = stack.drop_last();
    let base = rest.push(Visit::Leave(i));
    let n = deps[i as int].len() as int;
    let next = with_needed(base, deps[i as int], n);
    let seen2 = seen.push(i);
    lemma_with_needed(base, deps[i as int], n);
    assert(stack[top] == Visit::Enter(i));
    assert forall|p: int| 0 <= p < top implies #[trigger] next[p] == stack[p] by {
        assert(next[p] == base[p]);
    }
    assert(next[top] == base[top]);
    assert(next[top] == Visit::Leave(i));
    assert forall|j: usize| seen.contains(j) implies seen2.contains(j) by {
        let k = choose|k: int| 0 <= k < seen.len() && seen[k] == j;
        assert(seen2[k] == j);
    }
    assert(seen2[seen.len() as int] == i);
    assert forall|p: int, m: int|
        0 <= p < next.len() && next[p] is Leave && 0 <= m < deps[target(next[p])].len()
        implies seen2.contains(#[trigger] deps[target(next[p])][m]) || exists|q: int|
        p < q < next.len() && #[trigger] next[q] == Visit::Enter(deps[target(next[p])][m]) by {
        if p < top {
            assert(next[p] == stack[p]);
            let d = deps[target(stack[p])][m];
            if seen.contains(d) {
            } else {
                let q = choose|q: int|
                    p < q < stack.len() && #[trigger] stack[q] == Visit::Enter(d);
                if q < top {
                    assert(next[q] == stack[q]);
                } else {
                    assert(d == i);
                    assert(seen2.contains(i));
                }
            }
        } else if p == top {
            let d = deps[i as int][m];
            let q = base.len() + (n - 1 - m);
            assert(next[base.len() + (n - 1 - m)] == Visit::Enter(deps[i as int][n - 1 - (n - 1
                - m)]));
            assert(next[q] == Visit::Enter(d));
        } else {
            assert(next[base.len() + (p - base.len())] is Enter);
        }
    }
    assert forall|p: int, q: int|
        0 <= p < q < next.len() && #[trigger] next[p] is Leave implies rank[target(
        #[trigger] next[q],
    )] < rank[target(next[p])] by {
        if q < top {
            assert(next[p] == stack[p] && next[q] == stack[q]);
        } else if q == top {
            assert(next[p] == stack[p]);
            assert(rank[target(stack[top])] < rank[target(stack[p])]);
        } else {
            let m = q - base.len();
            assert(next[base.len() + m] == Visit::Enter(deps[i as int][n - 1 - m]));
            assert(rank[deps[i as int][n - 1 - m] as int] < rank[i as int]);
            if p < top {
                assert(next[p] == stack[p]);
                assert(rank[target(stack[top])] < rank[target(stack[p])]);
            } else if p > top {
                assert(next[base.len() + (p - base.len())] is Enter);
            }
        }
    }
}

proof fn lemma_order_is_unique(
    deps: Seq<Seq<usize>>,
    stack: Seq<Visit>,
    seen: Seq<usize>,
    order: Seq<usize>,
    i: usize,
)
    requires
        graph_ok(deps),
        visit_ok(deps, stack, seen, order),
        seen.contains(i) || stack.contains(Visit::Enter(i)),
    ensures
        visit_order(deps, stack, seen, order).no_duplicates(),
        visit_order(deps, stack, seen, order).contains(i),
    decreases deps.len() - seen.len(), stack.len(),
{
    if stack.len() > 0 {
        let n = stack.len() - 1;
        let rest = stack.drop_last();
        assert forall|v: Visit| stack.contains(v) && v != stack[n] implies rest.contains(v) by {
            let p = choose|p: int| 0 <= p < stack.len() && stack[p] == v;
            assert(rest[p] == v);
        }
        match stack.last() {
            Visit::Leave(j) => {
                assert(stack[n] == Visit::Leave(j));
                lemma_leave(deps, stack, seen, order, j);
                lemma_order_is_unique(deps, rest, seen, order.push(j), i);
            },
            Visit::Enter(j) => {
                assert(stack[n] == Visit::Enter(j));
                if seen.contains(j) {
                    lemma_drop_enter(deps, stack, seen, order);
                    lemma_order_is_unique(deps, rest, seen, order, i);
                } else {
                    lemma_seen_is_bounded(deps, seen, j);
                    lemma_enter(deps, stack, seen, order, j);
                    let base = rest.push(Visit::Leave(j));
                    let next = with_needed(base, deps[j as int], deps[j as int].len() as int);
                    lemma_with_needed(base, deps[j as int], deps[j as int].len() as int);
                    let seen2 = seen.push(j);
                    assert(seen2[seen.len() as int] == j);
                    if seen.contains(i) {
                        let k = choose|k: int| 0 <= k < seen.len() && seen[k] == i;
                        assert(seen2[k] == i);
                    } else if i != j {
                        assert(rest.contains(Visit::Enter(i)));
                        let p = choose|p: int| 0 <= p < rest.len() && rest[p] == Visit::Enter(i);
                        assert(next[p] == base[p]);
                    }
                    lemma_order_is_unique(deps, next, seen2, order, i);
                }
            },
        }
    }
}

proof fn lemma_start(deps: Seq<Seq<usize>>, roots: Seq<usize>)
    requires
        forall|k: int| 0 <= k < roots.len() ==> #[trigger] roots[k] < deps.len(),
    ensures
        visit_ok(
            deps,
            with_needed(Seq::empty(), roots, roots.len() as int),
            Seq::empty(),
            Seq::empty(),
        ),
        forall|p: int|
            0 <= p < roots.len() ==> #[trigger] with_needed(
                Seq::empty(),
                roots,
                roots.len() as int,
            )[p] is Enter,
        forall|k: int|
            0 <= k < roots.len() ==> with_needed(
                Seq::empty(),
                roots,
                roots.len() as int,
            ).contains(Visit::Enter(#[trigger] roots[k])),
{
    let none = Seq::<Visit>::empty();
    let n = roots.len() as int;
    let stack = with_needed(none, roots, n);
    lemma_with_needed(none, roots, n);
    assert forall|p: int| 0 <= p < n implies #[trigger] stack[p] == Visit::Enter(roots[n - 1 - p]) by {
        assert(stack[none.len() + p] == Visit::Enter(roots[n - 1 - p]));
    }
    assert forall|k: int| 0 <= k < n implies stack.contains(Visit::Enter(#[trigger] roots[k])) by {
        assert(stack[n - 1 - k] == Visit::Enter(roots[n - 1 - (n - 1 - k)]));
    }
}

/// Each module that is asked for is visited, and no module is visited twice.
pub proof fn lemma_modules_are_visited_once(
    deps: Seq<Seq<usize>>,
    roots: Seq<usize>,
    k: int,
)
    requires
        graph_ok(deps),
        forall|j: int| 0 <= j < roots.len() ==> #[trigger] roots[j] < deps.len(),
        0 <= k < roots.len(),
    ensures
        module_order(deps, roots).no_duplicates(),
        module_order(deps, roots).contains(roots[k]),
{
    lemma_start(deps, roots);
    lemma_order_is_unique(
        deps,
        with_needed(Seq::empty(), roots, roots.len() as int),
        Seq::empty(),
        Seq::empty(),
        roots[k],
    );
}

/// Where no module needs itself, not even through others, every module comes
/// after all that it needs.
pub proof fn lemma_needed_modules_come_first(
    deps: Seq<Seq<usize>>,
    roots: Seq<usize>,
    rank: Seq<int>,
)
    requires
        graph_ok(deps),
        is_ranked(deps, rank),
        forall|j: int| 0 <= j < roots.len() ==> #[trigger] roots[j] < deps.len(),
    ensures
        is_topological(deps, module_order(deps, roots)),
{
    lemma_start(deps, roots);
    lemma_with_needed(Seq::empty(), roots, roots.len() as int);
    let stack = with_needed(Seq::empty(), roots, roots.len() as int);
    assert forall|p: int| 0 <= p < stack.len() implies !(#[trigger] stack[p] is Leave) by {}
    lemma_order_is_topological(deps, rank, stack, Seq::empty(), Seq::empty());
}

} // verus!
