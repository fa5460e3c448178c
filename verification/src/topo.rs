//! Ordering a dependency graph: dependencies before dependents, found by
//! repeatedly taking the spells whose dependencies have all been taken
//! (Kahn's algorithm), ties broken by name.
use crate::text::{
    ascending, index_in, lemma_index_in_unique, lemma_insert_ascending, lemma_lex_equal, lex,
    lex_order_str, str_eq, string_views, Order,
};
use vstd::prelude::*;

verus! {

/// Nodes by name; `deps[c]` lists the names that node `c` depends on, once
/// per requirement.
pub type Deps = Map<Seq<char>, Seq<Seq<char>>>;

/// How many entries of `ds` are not in `done`.
pub open spec fn pending(ds: Seq<Seq<char>>, done: Seq<Seq<char>>) -> nat
    decreases ds.len(),
{
    if ds.len() == 0 {
        0
    } else {
        pending(ds.drop_last(), done) + if done.contains(ds.last()) {
            0nat
        } else {
            1nat
        }
    }
}

/// How many entries of `ds` are `m`.
pub open spec fn count_of(ds: Seq<Seq<char>>, m: Seq<char>) -> nat
    decreases ds.len(),
{
    if ds.len() == 0 {
        0
    } else {
        count_of(ds.drop_last(), m) + if ds.last() == m {
            1nat
        } else {
            0nat
        }
    }
}

/// The nodes of `nodes`, in order, that depend on nothing.
pub open spec fn initial(nodes: Seq<Seq<char>>, deps: Deps) -> Seq<Seq<char>>
    decreases nodes.len(),
{
    if nodes.len() == 0 {
        seq![]
    } else {
        let rest = initial(nodes.drop_last(), deps);
        if deps[nodes.last()].len() == 0 {
            rest.push(nodes.last())
        } else {
            rest
        }
    }
}

/// Whether taking `m` after `done` leaves node `c` with nothing pending
/// where something was pending before.
pub open spec fn freed_by(deps: Deps, done: Seq<Seq<char>>, m: Seq<char>, c: Seq<char>) -> bool {
    pending(deps[c], done) > 0 && pending(deps[c], done.push(m)) == 0
}

/// The nodes of `nodes`, in order, that taking `m` after `done` frees.
pub open spec fn freed(nodes: Seq<Seq<char>>, deps: Deps, done: Seq<Seq<char>>, m: Seq<char>) -> Seq<
    Seq<char>,
>
    decreases nodes.len(),
{
    if nodes.len() == 0 {
        seq![]
    } else {
        let rest = freed(nodes.drop_last(), deps, done, m);
        if freed_by(deps, done, m, nodes.last()) {
            rest.push(nodes.last())
        } else {
            rest
        }
    }
}

/// One step: take the head of the queue, then queue, in node order, the
/// nodes that it frees.
pub open spec fn step(nodes: Seq<Seq<char>>, deps: Deps, queue: Seq<Seq<char>>, done: Seq<Seq<char>>) -> (
    Seq<Seq<char>>,
    Seq<Seq<char>>,
) {
    let m = queue[0];
    (queue.drop_first() + freed(nodes, deps, done, m), done.push(m))
}

/// The queue and the taken nodes after at most `fuel` steps, stopping when
/// the queue runs empty.
pub open spec fn run(
    nodes: Seq<Seq<char>>,
    deps: Deps,
    queue: Seq<Seq<char>>,
    done: Seq<Seq<char>>,
    fuel: nat,
) -> (Seq<Seq<char>>, Seq<Seq<char>>)
    decreases fuel,
{
    if fuel == 0 || queue.len() == 0 {
        (queue, done)
    } else {
        let (q, d) = step(nodes, deps, queue, done);
        run(nodes, deps, q, d, (fuel - 1) as nat)
    }
}

/// The order in which the nodes are taken, starting from those that depend
/// on nothing. It holds every node exactly when the graph has no cycle.
pub open spec fn topo_order(nodes: Seq<Seq<char>>, deps: Deps) -> Seq<Seq<char>> {
    run(nodes, deps, initial(nodes, deps), seq![], (nodes.len() + 1) as nat).1
}

/// Each node appears once and every dependency of a node is a node.
pub open spec fn graph_ok(nodes: Seq<Seq<char>>, deps: Deps) -> bool {
    &&& nodes.no_duplicates()
    &&& forall|c: Seq<char>, j: int|
        nodes.contains(c) && 0 <= j < deps[c].len() ==> nodes.contains(#[trigger] deps[c][j])
}

/// A nonempty set of nodes each of which depends on a member of the set:
/// what a dependency cycle leaves behind.
pub open spec fn stuck(nodes: Seq<Seq<char>>, deps: Deps, s: Set<Seq<char>>) -> bool {
    &&& exists|x: Seq<char>| s.contains(x)
    &&& forall|x: Seq<char>|
        s.contains(x) ==> nodes.contains(x) && exists|j: int|
            0 <= j < deps[x].len() && s.contains(#[trigger] deps[x][j])
}

pub open spec fn has_cycle(nodes: Seq<Seq<char>>, deps: Deps) -> bool {
    exists|s: Set<Seq<char>>| stuck(nodes, deps, s)
}

/// Nothing is taken or queued twice, and only nodes are.
pub open spec fn inv_distinct(nodes: Seq<Seq<char>>, queue: Seq<Seq<char>>, done: Seq<Seq<char>>) -> bool {
    &&& (done + queue).no_duplicates()
    &&& forall|x: Seq<char>| #[trigger] (done + queue).contains(x) ==> nodes.contains(x)
}

/// Every queued node has all its dependencies taken.
pub open spec fn inv_queued(deps: Deps, queue: Seq<Seq<char>>, done: Seq<Seq<char>>) -> bool {
    forall|j: int| 0 <= j < queue.len() ==> pending(deps[#[trigger] queue[j]], done) == 0
}

/// Every taken node was taken after all its dependencies.
pub open spec fn inv_taken(deps: Deps, done: Seq<Seq<char>>) -> bool {
    forall|i: int| 0 <= i < done.len() ==> pending(deps[#[trigger] done[i]], done.take(i)) == 0
}

/// Every node whose dependencies are all taken is taken or queued.
pub open spec fn inv_complete(nodes: Seq<Seq<char>>, deps: Deps, queue: Seq<Seq<char>>, done: Seq<Seq<char>>) -> bool {
    forall|c: Seq<char>|
        nodes.contains(c) && pending(deps[c], done) == 0 ==> #[trigger] (done + queue).contains(c)
}

/// What holds of every queue and taken list that the steps reach.
pub open spec fn inv(nodes: Seq<Seq<char>>, deps: Deps, queue: Seq<Seq<char>>, done: Seq<Seq<char>>) -> bool {
    &&& inv_distinct(nodes, queue, done)
    &&& inv_queued(deps, queue, done)
    &&& inv_taken(deps, done)
    &&& inv_complete(nodes, deps, queue, done)
}

pub proof fn lemma_pending_empty(ds: Seq<Seq<char>>)
    ensures
        pending(ds, seq![]) == ds.len(),
    decreases ds.len(),
{
    if ds.len() > 0 {
        lemma_pending_empty(ds.drop_last());
    }
}

pub proof fn lemma_pending_zero(ds: Seq<Seq<char>>, done: Seq<Seq<char>>)
    ensures
        pending(ds, done) == 0 <==> forall|j: int| 0 <= j < ds.len() ==> done.contains(#[trigger] ds[j]),
    decreases ds.len(),
{
    if ds.len() > 0 {
        lemma_pending_zero(ds.drop_last(), done);
        if pending(ds, done) == 0 {
            assert forall|j: int| 0 <= j < ds.len() implies done.contains(#[trigger] ds[j]) by {
                if j < ds.len() - 1 {
                    assert(ds.drop_last()[j] == ds[j]);
                }
            }
        }
        if forall|j: int| 0 <= j < ds.len() ==> done.contains(#[trigger] ds[j]) {
            assert forall|j: int| 0 <= j < ds.drop_last().len() implies done.contains(
                #[trigger] ds.drop_last()[j],
            ) by {
                assert(ds.drop_last()[j] == ds[j]);
            }
            assert(done.contains(ds[ds.len() - 1]));
        }
    }
}

pub proof fn lemma_pending_mono(ds: Seq<Seq<char>>, d1: Seq<Seq<char>>, d2: Seq<Seq<char>>)
    requires
        forall|x: Seq<char>| d1.contains(x) ==> d2.contains(x),
    ensures
        pending(ds, d2) <= pending(ds, d1),
    decreases ds.len(),
{
    if ds.len() > 0 {
        lemma_pending_mono(ds.drop_last(), d1, d2);
    }
}

pub proof fn lemma_contains_push(s: Seq<Seq<char>>, m: Seq<char>, x: Seq<char>)
    ensures
        s.push(m).contains(x) <==> (s.contains(x) || x == m),
{
    if s.contains(x) {
        let i = choose|i: int| 0 <= i < s.len() && s[i] == x;
        assert(s.push(m)[i] == x);
    }
    if x == m {
        assert(s.push(m)[s.len() as int] == m);
    }
    if s.push(m).contains(x) {
        let i = choose|i: int| 0 <= i < s.push(m).len() && s.push(m)[i] == x;
        if i < s.len() {
            assert(s[i] == x);
        }
    }
}

pub proof fn lemma_pending_push(ds: Seq<Seq<char>>, done: Seq<Seq<char>>, m: Seq<char>)
    requires
        !done.contains(m),
    ensures
        pending(ds, done.push(m)) + count_of(ds, m) == pending(ds, done),
    decreases ds.len(),
{
    if ds.len() > 0 {
        lemma_pending_push(ds.drop_last(), done, m);
        lemma_contains_push(done, m, ds.last());
    }
}

pub proof fn lemma_initial(nodes: Seq<Seq<char>>, deps: Deps)
    ensures
        forall|x: Seq<char>| #[trigger] initial(nodes, deps).contains(x) <==> (nodes.contains(x)
            && deps[x].len() == 0),
        nodes.no_duplicates() ==> initial(nodes, deps).no_duplicates(),
    decreases nodes.len(),
{
    if nodes.len() > 0 {
        let rest = initial(nodes.drop_last(), deps);
        lemma_initial(nodes.drop_last(), deps);
        assert forall|x: Seq<char>| #[trigger] initial(nodes, deps).contains(x) <==> (nodes.contains(
            x,
        ) && deps[x].len() == 0) by {
            lemma_contains_push(nodes.drop_last(), nodes.last(), x);
            lemma_contains_push(rest, nodes.last(), x);
            assert(nodes.drop_last().push(nodes.last()) =~= nodes);
        }
        if nodes.no_duplicates() {
            assert(nodes.drop_last().no_duplicates());
            if deps[nodes.last()].len() == 0 {
                assert(!nodes.drop_last().contains(nodes.last()));
                assert(!rest.contains(nodes.last()));
                lemma_push_no_dup(rest, nodes.last());
            }
        }
    }
}

pub proof fn lemma_freed(nodes: Seq<Seq<char>>, deps: Deps, done: Seq<Seq<char>>, m: Seq<char>)
    ensures
        forall|x: Seq<char>| #[trigger] freed(nodes, deps, done, m).contains(x) <==> (nodes.contains(
            x,
        ) && freed_by(deps, done, m, x)),
        nodes.no_duplicates() ==> freed(nodes, deps, done, m).no_duplicates(),
    decreases nodes.len(),
{
    if nodes.len() > 0 {
        let rest = freed(nodes.drop_last(), deps, done, m);
        lemma_freed(nodes.drop_last(), deps, done, m);
        assert forall|x: Seq<char>| #[trigger] freed(nodes, deps, done, m).contains(x) <==> (
        nodes.contains(x) && freed_by(deps, done, m, x)) by {
            lemma_contains_push(nodes.drop_last(), nodes.last(), x);
            lemma_contains_push(rest, nodes.last(), x);
            assert(nodes.drop_last().push(nodes.last()) =~= nodes);
        }
        if nodes.no_duplicates() {
            assert(nodes.drop_last().no_duplicates());
            if freed_by(deps, done, m, nodes.last()) {
                assert(!nodes.drop_last().contains(nodes.last()));
                assert(!rest.contains(nodes.last()));
                lemma_push_no_dup(rest, nodes.last());
            }
        }
    }
}

pub proof fn lemma_push_no_dup(s: Seq<Seq<char>>, x: Seq<char>)
    requires
        s.no_duplicates(),
        !s.contains(x),
    ensures
        s.push(x).no_duplicates(),
{
    assert forall|i: int, j: int|
        0 <= i < s.push(x).len() && 0 <= j < s.push(x).len() && i != j implies s.push(x)[i]
        != s.push(x)[j] by {
        if i < s.len() && j < s.len() {
        } else if i < s.len() {
            assert(s.contains(s[i]));
        } else if j < s.len() {
            assert(s.contains(s[j]));
        }
    }
}

pub proof fn lemma_inv_init(nodes: Seq<Seq<char>>, deps: Deps)
    requires
        graph_ok(nodes, deps),
    ensures
        inv(nodes, deps, initial(nodes, deps), seq![]),
{
    let q = initial(nodes, deps);
    let d: Seq<Seq<char>> = seq![];
    lemma_initial(nodes, deps);
    assert(d + q =~= q);
    assert forall|j: int| 0 <= j < q.len() implies pending(deps[#[trigger] q[j]], d) == 0 by {
        assert(q.contains(q[j]));
        lemma_pending_empty(deps[q[j]]);
    }
    assert forall|c: Seq<char>| nodes.contains(c) && pending(deps[c], d) == 0 implies #[trigger] (d
        + q).contains(c) by {
        lemma_pending_empty(deps[c]);
    }
}

/// A taken node has nothing pending against the taken list.
proof fn lemma_taken_settled(deps: Deps, done: Seq<Seq<char>>, k: int)
    requires
        inv_taken(deps, done),
        0 <= k < done.len(),
    ensures
        pending(deps[done[k]], done) == 0,
{
    assert(pending(deps[done[k]], done.take(k)) == 0);
    assert forall|y: Seq<char>| done.take(k).contains(y) implies done.contains(y) by {
        let t = choose|t: int| 0 <= t < done.take(k).len() && done.take(k)[t] == y;
        assert(done[t] == y);
    }
    lemma_pending_mono(deps[done[k]], done.take(k), done);
}

proof fn lemma_step_distinct(nodes: Seq<Seq<char>>, deps: Deps, queue: Seq<Seq<char>>, done: Seq<Seq<char>>)
    requires
        graph_ok(nodes, deps),
        inv_distinct(nodes, queue, done),
        inv_queued(deps, queue, done),
        inv_taken(deps, done),
        queue.len() > 0,
    ensures
        inv_distinct(nodes, step(nodes, deps, queue, done).0, step(nodes, deps, queue, done).1),
        step(nodes, deps, queue, done).1 + step(nodes, deps, queue, done).0 == (done + queue)
            + freed(nodes, deps, done, queue[0]),
{
    let m = queue[0];
    let r = freed(nodes, deps, done, m);
    let q2 = queue.drop_first() + r;
    let d2 = done.push(m);
    let all = done + queue;
    lemma_freed(nodes, deps, done, m);
    assert(d2 + q2 =~= all + r);
    assert forall|x: Seq<char>| #[trigger] r.contains(x) implies !all.contains(x) by {
        if all.contains(x) {
            let k = choose|k: int| 0 <= k < all.len() && all[k] == x;
            if k < done.len() {
                assert(done[k] == x);
                lemma_taken_settled(deps, done, k);
            } else {
                assert(queue[k - done.len()] == x);
            }
        }
    }
    assert forall|i: int, j: int|
        0 <= i < (all + r).len() && 0 <= j < (all + r).len() && i != j implies (all + r)[i]
        != (all + r)[j] by {
        if i < all.len() && j < all.len() {
        } else if i >= all.len() && j >= all.len() {
            assert((all + r)[i] == r[i - all.len()]);
            assert((all + r)[j] == r[j - all.len()]);
        } else if i < all.len() {
            assert((all + r)[j] == r[j - all.len()]);
            assert(r.contains(r[j - all.len()]));
            assert(all.contains(all[i]));
        } else {
            assert((all + r)[i] == r[i - all.len()]);
            assert(r.contains(r[i - all.len()]));
            assert(all.contains(all[j]));
        }
    }
    assert forall|x: Seq<char>| #[trigger] (d2 + q2).contains(x) implies nodes.contains(x) by {
        let k = choose|k: int| 0 <= k < (all + r).len() && (all + r)[k] == x;
        if k < all.len() {
            assert(all.contains(x));
        } else {
            assert(r[k - all.len()] == x);
            assert(r.contains(x));
        }
    }
}

proof fn lemma_step_queued(nodes: Seq<Seq<char>>, deps: Deps, queue: Seq<Seq<char>>, done: Seq<Seq<char>>)
    requires
        inv_queued(deps, queue, done),
        queue.len() > 0,
    ensures
        inv_queued(deps, step(nodes, deps, queue, done).0, step(nodes, deps, queue, done).1),
{
    let m = queue[0];
    let r = freed(nodes, deps, done, m);
    let q2 = queue.drop_first() + r;
    let d2 = done.push(m);
    lemma_freed(nodes, deps, done, m);
    assert forall|y: Seq<char>| done.contains(y) implies d2.contains(y) by {
        lemma_contains_push(done, m, y);
    }
    assert forall|j: int| 0 <= j < q2.len() implies pending(deps[#[trigger] q2[j]], d2) == 0 by {
        if j < queue.len() - 1 {
            assert(q2[j] == queue[j + 1]);
            lemma_pending_mono(deps[queue[j + 1]], done, d2);
        } else {
            let x = r[j - (queue.len() - 1)];
            assert(q2[j] == x);
            assert(r.contains(x));
        }
    }
}

proof fn lemma_step_taken(nodes: Seq<Seq<char>>, deps: Deps, queue: Seq<Seq<char>>, done: Seq<Seq<char>>)
    requires
        inv_queued(deps, queue, done),
        inv_taken(deps, done),
        queue.len() > 0,
    ensures
        inv_taken(deps, step(nodes, deps, queue, done).1),
{
    let m = queue[0];
    let d2 = done.push(m);
    assert(pending(deps[queue[0]], done) == 0);
    assert forall|i: int| 0 <= i < d2.len() implies pending(deps[#[trigger] d2[i]], d2.take(i)) == 0 by {
        if i < done.len() {
            assert(d2.take(i) =~= done.take(i));
            assert(d2[i] == done[i]);
        } else {
            assert(d2.take(i) =~= done);
            assert(d2[i] == m);
        }
    }
}

proof fn lemma_step_complete(nodes: Seq<Seq<char>>, deps: Deps, queue: Seq<Seq<char>>, done: Seq<Seq<char>>)
    requires
        inv_complete(nodes, deps, queue, done),
        queue.len() > 0,
        step(nodes, deps, queue, done).1 + step(nodes, deps, queue, done).0 == (done + queue)
            + freed(nodes, deps, done, queue[0]),
    ensures
        inv_complete(nodes, deps, step(nodes, deps, queue, done).0, step(nodes, deps, queue, done).1),
{
    let m = queue[0];
    let r = freed(nodes, deps, done, m);
    let (q2, d2) = step(nodes, deps, queue, done);
    let all = done + queue;
    lemma_freed(nodes, deps, done, m);
    assert forall|c: Seq<char>| nodes.contains(c) && pending(deps[c], d2) == 0 implies #[trigger] (d2
        + q2).contains(c) by {
        if pending(deps[c], done) == 0 {
            assert((done + queue).contains(c));
            let k = choose|k: int| 0 <= k < all.len() && all[k] == c;
            assert((all + r)[k] == c);
        } else {
            assert(freed_by(deps, done, m, c));
            assert(r.contains(c));
            let k = choose|k: int| 0 <= k < r.len() && r[k] == c;
            assert((all + r)[k + all.len()] == c);
        }
    }
}

pub proof fn lemma_inv_step(nodes: Seq<Seq<char>>, deps: Deps, queue: Seq<Seq<char>>, done: Seq<Seq<char>>)
    requires
        graph_ok(nodes, deps),
        inv(nodes, deps, queue, done),
        queue.len() > 0,
    ensures
        inv(nodes, deps, step(nodes, deps, queue, done).0, step(nodes, deps, queue, done).1),
        step(nodes, deps, queue, done).1 + step(nodes, deps, queue, done).0 == (done + queue)
            + freed(nodes, deps, done, queue[0]),
        !done.contains(queue[0]),
{
    lemma_step_distinct(nodes, deps, queue, done);
    lemma_step_queued(nodes, deps, queue, done);
    lemma_step_taken(nodes, deps, queue, done);
    lemma_step_complete(nodes, deps, queue, done);
    let all = done + queue;
    assert(all[done.len() as int] == queue[0]);
    if done.contains(queue[0]) {
        let i = choose|i: int| 0 <= i < done.len() && done[i] == queue[0];
        assert(all[i] == queue[0]);
    }
}

/// A sequence without duplicates whose entries all lie in another such
/// sequence is no longer than it, and as long exactly when it holds all of it.
pub proof fn lemma_sub_len(s: Seq<Seq<char>>, t: Seq<Seq<char>>)
    requires
        s.no_duplicates(),
        t.no_duplicates(),
        forall|x: Seq<char>| #[trigger] s.contains(x) ==> t.contains(x),
    ensures
        s.len() <= t.len(),
        s.len() == t.len() ==> forall|x: Seq<char>| #[trigger] t.contains(x) ==> s.contains(x),
{
    s.unique_seq_to_set();
    t.unique_seq_to_set();
    assert(s.to_set().subset_of(t.to_set()));
    vstd::set_lib::lemma_len_subset(s.to_set(), t.to_set());
    if s.len() == t.len() {
        assert forall|x: Seq<char>| #[trigger] t.contains(x) implies s.contains(x) by {
            if !s.contains(x) {
                assert(s.to_set().subset_of(t.to_set().remove(x)));
                vstd::set_lib::lemma_len_subset(s.to_set(), t.to_set().remove(x));
            }
        }
    }
}

pub proof fn lemma_inv_bound(nodes: Seq<Seq<char>>, deps: Deps, queue: Seq<Seq<char>>, done: Seq<Seq<char>>)
    requires
        graph_ok(nodes, deps),
        inv(nodes, deps, queue, done),
    ensures
        done.len() + queue.len() <= nodes.len(),
{
    lemma_sub_len(done + queue, nodes);
}

pub proof fn lemma_run(
    nodes: Seq<Seq<char>>,
    deps: Deps,
    queue: Seq<Seq<char>>,
    done: Seq<Seq<char>>,
    fuel: nat,
)
    requires
        graph_ok(nodes, deps),
        inv(nodes, deps, queue, done),
        fuel > nodes.len() - done.len(),
    ensures
        inv(nodes, deps, run(nodes, deps, queue, done, fuel).0, run(nodes, deps, queue, done, fuel).1),
        run(nodes, deps, queue, done, fuel).0.len() == 0,
    decreases fuel,
{
    if queue.len() > 0 {
        lemma_inv_bound(nodes, deps, queue, done);
        lemma_inv_step(nodes, deps, queue, done);
        let (q, d) = step(nodes, deps, queue, done);
        lemma_run(nodes, deps, q, d, (fuel - 1) as nat);
    }
}

/// No member of a stuck set is ever taken.
pub proof fn lemma_stuck_never_taken(
    nodes: Seq<Seq<char>>,
    deps: Deps,
    done: Seq<Seq<char>>,
    s: Set<Seq<char>>,
    n: int,
)
    requires
        stuck(nodes, deps, s),
        0 <= n <= done.len(),
        inv_taken(deps, done),
    ensures
        forall|x: Seq<char>| #[trigger] done.take(n).contains(x) ==> !s.contains(x),
    decreases n,
{
    if n > 0 {
        lemma_stuck_never_taken(nodes, deps, done, s, n - 1);
        assert forall|x: Seq<char>| #[trigger] done.take(n).contains(x) implies !s.contains(x) by {
            let k = choose|k: int| 0 <= k < n && done.take(n)[k] == x;
            if k < n - 1 {
                assert(done.take(n - 1)[k] == x);
                assert(done.take(n - 1).contains(x));
            } else {
                assert(done[n - 1] == x);
                if s.contains(x) {
                    let j = choose|j: int| 0 <= j < deps[x].len() && s.contains(#[trigger] deps[x][j]);
                    assert(pending(deps[done[n - 1]], done.take(n - 1)) == 0);
                    lemma_pending_zero(deps[x], done.take(n - 1));
                    assert(done.take(n - 1).contains(deps[x][j]));
                    assert(!s.contains(deps[x][j]));
                    assert(false);
                }
            }
        }
    }
}

proof fn lemma_final_cycle(nodes: Seq<Seq<char>>, deps: Deps, done: Seq<Seq<char>>)
    requires
        graph_ok(nodes, deps),
        inv(nodes, deps, seq![], done),
        done.len() < nodes.len(),
    ensures
        stuck(nodes, deps, Set::new(|x: Seq<char>| nodes.contains(x) && !done.contains(x))),
{
    assert(done + seq![] =~= done);
    let s = Set::new(|x: Seq<char>| nodes.contains(x) && !done.contains(x));
    assert(exists|x: Seq<char>| s.contains(x)) by {
        if forall|x: Seq<char>| !s.contains(x) {
            assert forall|x: Seq<char>| #[trigger] nodes.contains(x) implies done.contains(x) by {
                assert(!s.contains(x));
            }
            lemma_sub_len(nodes, done);
        }
    }
    assert forall|x: Seq<char>| s.contains(x) implies nodes.contains(x) && exists|j: int|
        0 <= j < deps[x].len() && s.contains(#[trigger] deps[x][j]) by {
        assert(pending(deps[x], done) != 0) by {
            if pending(deps[x], done) == 0 {
                assert((done + seq![]).contains(x));
            }
        }
        lemma_pending_zero(deps[x], done);
        let j = choose|j: int| 0 <= j < deps[x].len() && !done.contains(#[trigger] deps[x][j]);
        assert(nodes.contains(deps[x][j]));
        assert(s.contains(deps[x][j]));
    }
}

/// When the queue has run empty, the taken list holds every node exactly
/// when no set of nodes is stuck; when it does, every dependency of a node
/// comes before it.
#[verifier::rlimit(40)]
pub proof fn lemma_final(nodes: Seq<Seq<char>>, deps: Deps, done: Seq<Seq<char>>)
    requires
        graph_ok(nodes, deps),
        inv(nodes, deps, seq![], done),
    ensures
        done.no_duplicates(),
        forall|x: Seq<char>| #[trigger] done.contains(x) ==> nodes.contains(x),
        (done.len() == nodes.len()) <==> !has_cycle(nodes, deps),
        done.len() == nodes.len() ==> forall|x: Seq<char>| #[trigger] nodes.contains(x) ==> done.contains(x),
        forall|i: int, j: int|
            0 <= i < done.len() && 0 <= j < deps[done[i]].len() ==> #[trigger] done.take(i).contains(
                #[trigger] deps[done[i]][j],
            ),
        done.len() < nodes.len() ==> stuck(nodes, deps, Set::new(|x: Seq<char>| nodes.contains(x) && !done.contains(x))),
{
    assert(done + seq![] =~= done);
    lemma_sub_len(done, nodes);
    assert forall|i: int, j: int|
        0 <= i < done.len() && 0 <= j < deps[done[i]].len() implies #[trigger] done.take(i).contains(
        #[trigger] deps[done[i]][j],
    ) by {
        lemma_pending_zero(deps[done[i]], done.take(i));
    }
    if done.len() < nodes.len() {
        lemma_final_cycle(nodes, deps, done);
    } else {
        if has_cycle(nodes, deps) {
            let s = choose|s: Set<Seq<char>>| stuck(nodes, deps, s);
            lemma_stuck_never_taken(nodes, deps, done, s, done.len() as int);
            let x = choose|x: Seq<char>| s.contains(x);
            assert(nodes.contains(x));
            assert(done.contains(x));
            let k = choose|k: int| 0 <= k < done.len() && done[k] == x;
            assert(done.take(done.len() as int) =~= done);
            assert(done.take(done.len() as int).contains(x));
        }
    }
}

/// The order that `topo_order` gives: when the graph has no cycle it holds
/// every node once, each after all its dependencies; when it has one, it
/// holds fewer nodes than there are.
pub proof fn lemma_topo_order(nodes: Seq<Seq<char>>, deps: Deps)
    requires
        graph_ok(nodes, deps),
    ensures
        topo_order(nodes, deps).no_duplicates(),
        forall|x: Seq<char>| #[trigger] topo_order(nodes, deps).contains(x) ==> nodes.contains(x),
        (topo_order(nodes, deps).len() == nodes.len()) <==> !has_cycle(nodes, deps),
        !has_cycle(nodes, deps) ==> forall|x: Seq<char>| #[trigger] nodes.contains(x) ==> topo_order(nodes, deps).contains(x),
        forall|i: int, j: int|
            0 <= i < topo_order(nodes, deps).len() && 0 <= j < deps[topo_order(nodes, deps)[i]].len()
                ==> #[trigger] topo_order(nodes, deps).take(i).contains(
                #[trigger] deps[topo_order(nodes, deps)[i]][j],
            ),
{
    lemma_inv_init(nodes, deps);
    lemma_run(nodes, deps, initial(nodes, deps), seq![], (nodes.len() + 1) as nat);
    let (q, d) = run(nodes, deps, initial(nodes, deps), seq![], (nodes.len() + 1) as nat);
    assert(q =~= Seq::<Seq<char>>::empty());
    lemma_final(nodes, deps, d);
}

pub open spec fn dep_views(deps: Seq<Vec<String>>) -> Seq<Seq<Seq<char>>> {
    deps.map_values(|d: Vec<String>| string_views(d@))
}

/// The dependency map of nodes `nv` whose dependency lists are `dv`, index
/// for index.
pub open spec fn vec_deps(nv: Seq<Seq<char>>, dv: Seq<Seq<Seq<char>>>) -> Deps {
    Map::new(|k: Seq<char>| nv.contains(k), |k: Seq<char>| dv[index_in(nv, k)])
}

/// The names at the indices `idx`.
pub open spec fn idx_names(nv: Seq<Seq<char>>, idx: Seq<usize>) -> Seq<Seq<char>> {
    idx.map_values(|i: usize| nv[i as int])
}

/// How many entries of `ds` are `m`.
fn count_in(ds: &Vec<String>, m: &str) -> (r: usize)
    ensures
        r == count_of(string_views(ds@), m@),
{
    let ghost sv = string_views(ds@);
    let mut acc: usize = 0;
    let mut i: usize = 0;
    while i < ds.len()
        invariant
            sv == string_views(ds@),
            i <= ds.len(),
            acc == count_of(sv.take(i as int), m@),
            acc <= i,
        decreases ds.len() - i,
    {
        proof {
            assert(sv.take(i + 1).drop_last() =~= sv.take(i as int));
            assert(sv.take(i + 1).last() == ds@[i as int]@);
        }
        if str_eq(ds[i].as_str(), m) {
            acc = acc + 1;
        }
        i = i + 1;
    }
    proof {
        assert(sv.take(i as int) =~= sv);
    }
    acc
}

proof fn lemma_vec_deps_at(nv: Seq<Seq<char>>, dv: Seq<Seq<Seq<char>>>, c: int)
    requires
        nv.no_duplicates(),
        0 <= c < nv.len(),
    ensures
        vec_deps(nv, dv)[nv[c]] == dv[c],
{
    lemma_index_in_unique(nv, c);
    assert(nv.contains(nv[c]));
}

/// The indices of `names` in the order that [`topo_order`] takes them.
pub fn topo_sort(names: &Vec<String>, deps: &Vec<Vec<String>>) -> (r: Vec<usize>)
    requires
        names.len() == deps.len(),
        graph_ok(string_views(names@), vec_deps(string_views(names@), dep_views(deps@))),
    ensures
        forall|i: int| 0 <= i < r.len() ==> r@[i] < names.len(),
        idx_names(string_views(names@), r@) == topo_order(
            string_views(names@),
            vec_deps(string_views(names@), dep_views(deps@)),
        ),
{
    let ghost nv = string_views(names@);
    let ghost dv = dep_views(deps@);
    let ghost dm = vec_deps(nv, dv);
    let n = names.len();
    let mut deg: Vec<usize> = Vec::new();
    let mut queue: Vec<usize> = Vec::new();
    let mut i: usize = 0;
    while i < n
        invariant
            n == names.len(),
            n == deps.len(),
            nv == string_views(names@),
            dv == dep_views(deps@),
            dm == vec_deps(nv, dv),
            graph_ok(nv, dm),
            i <= n,
            deg.len() == i,
            forall|j: int| 0 <= j < i ==> deg@[j] == pending(dm[nv[j]], seq![]),
            forall|j: int| 0 <= j < queue.len() ==> queue@[j] < n,
            idx_names(nv, queue@) == initial(nv.take(i as int), dm),
        decreases n - i,
    {
        proof {
            lemma_vec_deps_at(nv, dv, i as int);
            lemma_pending_empty(dm[nv[i as int]]);
            assert(dv[i as int] == string_views(deps@[i as int]@));
            assert(nv.take(i + 1).drop_last() =~= nv.take(i as int));
            assert(nv.take(i + 1).last() == nv[i as int]);
        }
        deg.push(deps[i].len());
        if deps[i].len() == 0 {
            let ghost before = queue@;
            queue.push(i);
            proof {
                assert(idx_names(nv, queue@) =~= idx_names(nv, before).push(nv[i as int]));
            }
        }
        i = i + 1;
    }
    proof {
        assert(nv.take(n as int) =~= nv);
        assert(queue@.skip(0) =~= queue@);
        lemma_inv_init(nv, dm);
        assert(idx_names(nv, Seq::<usize>::empty()) =~= Seq::<Seq<char>>::empty());
    }
    let mut order: Vec<usize> = Vec::new();
    let mut head: usize = 0;
    while head < queue.len()
        invariant
            n == names.len(),
            n == deps.len(),
            nv == string_views(names@),
            dv == dep_views(deps@),
            dm == vec_deps(nv, dv),
            graph_ok(nv, dm),
            head <= queue.len(),
            deg.len() == n,
            forall|j: int| 0 <= j < queue.len() ==> queue@[j] < n,
            forall|j: int| 0 <= j < order.len() ==> order@[j] < n,
            forall|j: int| 0 <= j < n ==> deg@[j] == pending(dm[nv[j]], idx_names(nv, order@)),
            inv(nv, dm, idx_names(nv, queue@.skip(head as int)), idx_names(nv, order@)),
            order.len() <= n,
            run(nv, dm, idx_names(nv, queue@.skip(head as int)), idx_names(nv, order@), (n + 1 - order.len()) as nat)
                == run(nv, dm, initial(nv, dm), seq![], (n + 1) as nat),
        decreases n - order.len(),
    {
        let ghost qs = idx_names(nv, queue@.skip(head as int));
        let ghost ds = idx_names(nv, order@);
        let m = queue[head];
        let ghost nm = nv[m as int];
        proof {
            assert(qs[0] == nm);
            lemma_inv_bound(nv, dm, qs, ds);
            lemma_inv_step(nv, dm, qs, ds);
            assert(idx_names(nv, queue@.skip(head + 1)) =~= qs.drop_first());
            assert(nv.take(0) =~= Seq::<Seq<char>>::empty());
            assert(qs.drop_first() + freed(nv.take(0), dm, ds, nm) =~= qs.drop_first());
        }
        head = head + 1;
        let ghost old_order = order@;
        order.push(m);
        proof {
            assert(idx_names(nv, order@) =~= ds.push(nm));
        }
        let mut c: usize = 0;
        while c < n
            invariant
                n == names.len(),
                n == deps.len(),
                nv == string_views(names@),
                dv == dep_views(deps@),
                dm == vec_deps(nv, dv),
                graph_ok(nv, dm),
                m < n,
                nm == nv[m as int],
                !ds.contains(nm),
                head <= queue.len(),
                c <= n,
                deg.len() == n,
                forall|j: int| 0 <= j < queue.len() ==> queue@[j] < n,
                forall|j: int| 0 <= j < c ==> deg@[j] == pending(dm[nv[j]], ds.push(nm)),
                forall|j: int| c <= j < n ==> deg@[j] == pending(dm[nv[j]], ds),
                idx_names(nv, queue@.skip(head as int)) == qs.drop_first() + freed(nv.take(c as int), dm, ds, nm),
            decreases n - c,
        {
            let ghost before = queue@;
            proof {
                lemma_vec_deps_at(nv, dv, c as int);
                assert(dv[c as int] == string_views(deps@[c as int]@));
                assert(nv.take(c + 1).drop_last() =~= nv.take(c as int));
                assert(nv.take(c + 1).last() == nv[c as int]);
                assert(names@[m as int]@ == nm);
            }
            if deg[c] > 0 {
                let k = count_in(&deps[c], names[m].as_str());
                proof {
                    lemma_pending_push(dm[nv[c as int]], ds, nm);
                }
                let nd = deg[c] - k;
                deg.set(c, nd);
                if nd == 0 {
                    queue.push(c);
                    proof {
                        assert(queue@.skip(head as int) =~= before.skip(head as int).push(c));
                        assert(idx_names(nv, queue@.skip(head as int)) =~= idx_names(nv, before.skip(head as int)).push(nv[c as int]));
                    }
                }
            } else {
                proof {
                    assert forall|y: Seq<char>| ds.contains(y) implies ds.push(nm).contains(y) by {
                        lemma_contains_push(ds, nm, y);
                    }
                    lemma_pending_mono(dm[nv[c as int]], ds, ds.push(nm));
                }
            }
            c = c + 1;
        }
        proof {
            assert(nv.take(n as int) =~= nv);
            lemma_inv_bound(nv, dm, step(nv, dm, qs, ds).0, step(nv, dm, qs, ds).1);
            assert forall|j: int| 0 <= j < order.len() implies order@[j] < n by {
                if j < old_order.len() {
                    assert(order@[j] == old_order[j]);
                }
            }
        }
    }
    proof {
        let qs = idx_names(nv, queue@.skip(head as int));
        assert(qs =~= Seq::<Seq<char>>::empty());
    }
    order
}

/// The indices of `names`, ordered so that their names ascend.
pub fn ascending_indices(names: &Vec<String>) -> (perm: Vec<usize>)
    requires
        string_views(names@).no_duplicates(),
    ensures
        perm.len() == names.len(),
        forall|i: int| 0 <= i < perm.len() ==> perm@[i] < names.len(),
        ascending(idx_names(string_views(names@), perm@)),
        idx_names(string_views(names@), perm@).to_set() == string_views(names@).to_set(),
{
    let ghost nv = string_views(names@);
    let n = names.len();
    let mut perm: Vec<usize> = Vec::new();
    let mut i: usize = 0;
    proof {
        assert(idx_names(nv, perm@).to_set() =~= nv.take(0).to_set());
    }
    while i < n
        invariant
            n == names.len(),
            nv == string_views(names@),
            nv.no_duplicates(),
            i <= n,
            perm.len() == i,
            forall|j: int| 0 <= j < perm.len() ==> perm@[j] < i,
            ascending(idx_names(nv, perm@)),
            idx_names(nv, perm@).to_set() == nv.take(i as int).to_set(),
        decreases n - i,
    {
        let ghost cur = idx_names(nv, perm@);
        let ghost k = nv[i as int];
        proof {
            assert(names@[i as int]@ == k);
        }
        let mut pos: usize = 0;
        while pos < perm.len() && lex_order_str(names[perm[pos]].as_str(), names[i].as_str())
            == Order::Less
            invariant
                n == names.len(),
                nv == string_views(names@),
                i < n,
                k == nv[i as int],
                cur == idx_names(nv, perm@),
                forall|j: int| 0 <= j < perm.len() ==> perm@[j] < i,
                pos <= perm.len(),
                forall|j: int| 0 <= j < pos ==> lex(#[trigger] cur[j], k) == Order::Less,
            decreases perm.len() - pos,
        {
            proof {
                assert(names@[perm@[pos as int] as int]@ == cur[pos as int]);
            }
            pos = pos + 1;
        }
        proof {
            if pos < perm.len() {
                let q = perm@[pos as int];
                assert(names@[q as int]@ == cur[pos as int]);
                assert(q != i);
                assert(nv[q as int] != nv[i as int]);
                lemma_lex_equal(cur[pos as int], k);
            }
            lemma_insert_ascending(cur, pos as int, k);
        }
        let ghost old_perm = perm@;
        perm.insert(pos, i);
        proof {
            assert(idx_names(nv, perm@) =~= cur.insert(pos as int, k));
            assert(nv.take(i + 1) =~= nv.take(i as int).push(k));
            assert(idx_names(nv, perm@).to_set() =~= nv.take(i + 1).to_set()) by {
                assert forall|x: Seq<char>| idx_names(nv, perm@).to_set().contains(x) <==> nv.take(
                    i + 1,
                ).to_set().contains(x) by {
                    if idx_names(nv, perm@).to_set().contains(x) {
                        let a = choose|a: int| 0 <= a < perm.len() && idx_names(nv, perm@)[a] == x;
                        if a < pos {
                            assert(cur[a] == x);
                            assert(cur.to_set().contains(x));
                        } else if a == pos {
                            assert(nv.take(i + 1)[i as int] == x);
                        } else {
                            assert(cur[a - 1] == x);
                            assert(cur.to_set().contains(x));
                        }
                        if x != k {
                            assert(nv.take(i as int).to_set().contains(x));
                            let b = choose|b: int| 0 <= b < i && nv.take(i as int)[b] == x;
                            assert(nv.take(i + 1)[b] == x);
                        }
                    }
                    if nv.take(i + 1).to_set().contains(x) {
                        let b = choose|b: int| 0 <= b < nv.take(i + 1).len() && #[trigger] nv.take(i + 1)[b] == x;
                        if b < i {
                            assert(nv.take(i as int)[b] == x);
                            assert(nv.take(i as int).to_set().contains(x));
                            assert(cur.to_set().contains(x));
                            let a = choose|a: int| 0 <= a < cur.len() && cur[a] == x;
                            if a < pos {
                                assert(idx_names(nv, perm@)[a] == x);
                            } else {
                                assert(idx_names(nv, perm@)[a + 1] == x);
                            }
                        } else {
                            assert(idx_names(nv, perm@)[pos as int] == x);
                        }
                    }
                }
            }
            assert forall|j: int| 0 <= j < perm.len() implies perm@[j] < i + 1 by {
                if j < pos {
                    assert(perm@[j] == old_perm[j]);
                } else if j > pos {
                    assert(perm@[j] == old_perm[j - 1]);
                }
            }
        }
        i = i + 1;
    }
    proof {
        assert(nv.take(n as int) =~= nv);
    }
    perm
}

} // verus!
