//! What the evaluation order of WHERE bindings guarantees: every binding
//! comes after the bindings it refers to, and a circular dependency is
//! reported exactly when no such order exists.

use vstd::prelude::*;

use super::ast::SExpr;
use super::codegen::{
    deps_of, deps_of_list, deps_table, first_duplicate, index_of, initial_in_deg, initial_queue,
    kahn, kahn_state_ok, relax, topo_spec, where_names,
};

verus! {

/// Each binding is listed once.
pub open spec fn is_permutation(order: Seq<nat>, n: nat) -> bool {
    &&& order.len() == n
    &&& order.no_duplicates()
    &&& forall|k: int| 0 <= k < order.len() ==> order[k] < n
}

/// Each binding comes after every binding it refers to.
pub open spec fn respects_deps(order: Seq<nat>, deps: Seq<Seq<nat>>) -> bool {
    forall|k: int, d: nat|
        0 <= k < order.len() && #[trigger] deps[order[k] as int].contains(d) ==> order.take(
            k,
        ).contains(d)
}

/// `order` is an evaluation order for bindings with these dependencies.
pub open spec fn is_topological(order: Seq<nat>, deps: Seq<Seq<nat>>) -> bool {
    is_permutation(order, deps.len()) && respects_deps(order, deps)
}

/// The dependencies refer to bindings that exist, each at most once.
pub open spec fn deps_wf(deps: Seq<Seq<nat>>) -> bool {
    forall|j: int|
        0 <= j < deps.len() ==> (#[trigger] deps[j]).no_duplicates() && forall|k: int|
            0 <= k < deps[j].len() ==> deps[j][k] < deps.len()
}

/// How many of `ds` are not yet in `order`.
pub open spec fn count_missing(ds: Seq<nat>, order: Seq<nat>) -> nat
    decreases ds.len(),
{
    if ds.len() == 0 {
        0
    } else {
        count_missing(ds.drop_last(), order) + if order.contains(ds.last()) {
            0nat
        } else {
            1nat
        }
    }
}

proof fn lemma_count_missing_zero(ds: Seq<nat>, order: Seq<nat>)
    ensures
        count_missing(ds, order) == 0 <==> forall|k: int| 0 <= k < ds.len() ==> order.contains(ds[k]),
    decreases ds.len(),
{
    if ds.len() > 0 {
        lemma_count_missing_zero(ds.drop_last(), order);
        if count_missing(ds, order) == 0 {
            assert forall|k: int| 0 <= k < ds.len() implies order.contains(ds[k]) by {
                if k < ds.len() - 1 {
                    assert(ds.drop_last()[k] == ds[k]);
                }
            }
        }
        if forall|k: int| 0 <= k < ds.len() ==> order.contains(ds[k]) {
            assert forall|k: int| 0 <= k < ds.drop_last().len() implies order.contains(
                ds.drop_last()[k],
            ) by {
                assert(ds.drop_last()[k] == ds[k]);
            }
            assert(order.contains(ds[ds.len() - 1]));
        }
    }
}

proof fn lemma_count_missing_empty(ds: Seq<nat>)
    ensures
        count_missing(ds, seq![]) == ds.len(),
    decreases ds.len(),
{
    if ds.len() > 0 {
        lemma_count_missing_empty(ds.drop_last());
    }
}

proof fn lemma_count_missing_push(ds: Seq<nat>, order: Seq<nat>, i: nat)
    requires
        ds.no_duplicates(),
        !order.contains(i),
    ensures
        count_missing(ds, order.push(i)) + (if ds.contains(i) {
            1nat
        } else {
            0nat
        }) == count_missing(ds, order),
    decreases ds.len(),
{
    if ds.len() > 0 {
        let dl = ds.drop_last();
        assert(dl.no_duplicates()) by {
            assert forall|a: int, b: int| 0 <= a < dl.len() && 0 <= b < dl.len() && a != b implies dl[a]
                != dl[b] by {
                assert(dl[a] == ds[a] && dl[b] == ds[b]);
            }
        }
        lemma_count_missing_push(dl, order, i);
        let x = ds.last();
        assert(order.push(i).contains(x) <==> (order.contains(x) || x == i)) by {
            if order.push(i).contains(x) {
                let k = choose|k: int| 0 <= k < order.push(i).len() && order.push(i)[k] == x;
                if k < order.len() {
                    assert(order[k] == x);
                }
            }
            if order.contains(x) {
                let k = choose|k: int| 0 <= k < order.len() && order[k] == x;
                assert(order.push(i)[k] == x);
            }
            if x == i {
                assert(order.push(i)[order.len() as int] == x);
            }
        }
        assert(ds.contains(i) <==> (dl.contains(i) || x == i)) by {
            if ds.contains(i) {
                let k = choose|k: int| 0 <= k < ds.len() && ds[k] == i;
                if k < ds.len() - 1 {
                    assert(dl[k] == i);
                }
            }
            if dl.contains(i) {
                let k = choose|k: int| 0 <= k < dl.len() && dl[k] == i;
                assert(ds[k] == i);
            }
        }
        if x == i {
            assert(!dl.contains(i)) by {
                if dl.contains(i) {
                    let k = choose|k: int| 0 <= k < dl.len() && dl[k] == i;
                    assert(ds[k] == ds[ds.len() - 1]);
                }
            }
        }
    }
}

/// The state of Kahn's algorithm: sound, with each pending count the
/// number of dependencies not yet emitted, and every emitted binding after
/// its dependencies.
pub open spec fn kahn_inv(deps: Seq<Seq<nat>>, in_deg: Seq<int>, queue: Seq<nat>, order: Seq<nat>) -> bool {
    &&& kahn_state_ok(deps.len(), in_deg, queue, order)
    &&& forall|j: int| 0 <= j < deps.len() ==> in_deg[j] == count_missing(#[trigger] deps[j], order)
    &&& respects_deps(order, deps)
}

proof fn lemma_seq_push_contains(s: Seq<nat>, x: nat, y: nat)
    ensures
        s.push(x).contains(y) <==> (s.contains(y) || y == x),
{
    if s.push(x).contains(y) {
        let k = choose|k: int| 0 <= k < s.push(x).len() && s.push(x)[k] == y;
        if k < s.len() {
            assert(s[k] == y);
        }
    }
    if s.contains(y) {
        let k = choose|k: int| 0 <= k < s.len() && s[k] == y;
        assert(s.push(x)[k] == y);
    }
    if y == x {
        assert(s.push(x)[s.len() as int] == y);
    }
}

proof fn lemma_drop_last_contains(s: Seq<nat>, y: nat)
    requires
        s.len() > 0,
        s.no_duplicates(),
    ensures
        s.drop_last().contains(y) <==> (s.contains(y) && y != s.last()),
{
    if s.drop_last().contains(y) {
        let k = choose|k: int| 0 <= k < s.drop_last().len() && s.drop_last()[k] == y;
        assert(s[k] == y);
        assert(s[k] != s[s.len() - 1]);
    }
    if s.contains(y) && y != s.last() {
        let k = choose|k: int| 0 <= k < s.len() && s[k] == y;
        assert(k != s.len() - 1);
        assert(s.drop_last()[k] == y);
    }
}

/// One relaxation pass from `from` on, after `i` was emitted: bindings
/// before `from` already count against the new order.
proof fn lemma_relax(
    deps: Seq<Seq<nat>>,
    i: nat,
    from: int,
    in_deg: Seq<int>,
    queue: Seq<nat>,
    order: Seq<nat>,
)
    requires
        deps_wf(deps),
        0 <= from <= deps.len(),
        order.len() > 0,
        order.last() == i,
        !order.drop_last().contains(i),
        kahn_state_ok(deps.len(), in_deg, queue, order),
        forall|j: int|
            0 <= j < deps.len() ==> in_deg[j] == if j < from {
                count_missing(#[trigger] deps[j], order)
            } else {
                count_missing(deps[j], order.drop_last())
            },
        respects_deps(order, deps),
    ensures
        kahn_inv(deps, relax(deps, i, from, in_deg, queue).0, relax(deps, i, from, in_deg, queue).1, order),
    decreases deps.len() - from,
{
    let n = deps.len();
    if from >= n {
        return;
    }
    let o0 = order.drop_last();
    assert(o0.push(i) =~= order);
    lemma_count_missing_push(deps[from], o0, i);
    if deps[from].contains(i) && in_deg[from] > 0 {
        let d = in_deg[from] - 1;
        let in2 = in_deg.update(from, d);
        let q2 = if d == 0 {
            queue.push(from as nat)
        } else {
            queue
        };
        assert(kahn_state_ok(n, in2, q2, order)) by {
            if d == 0 {
                assert(!order.contains(from as nat) && !queue.contains(from as nat));
                assert forall|a: int, b: int| 0 <= a < q2.len() && 0 <= b < q2.len() && a != b implies q2[a]
                    != q2[b] by {
                    if a == queue.len() {
                        assert(queue.contains(q2[b]));
                    } else if b == queue.len() {
                        assert(queue.contains(q2[a]));
                    }
                }
                assert forall|x: nat| order.contains(x) implies !q2.contains(x) by {
                    lemma_seq_push_contains(queue, from as nat, x);
                }
                assert forall|x: nat| x < n implies ((order.contains(x) || q2.contains(x)) <==> in2[x as int]
                    == 0) by {
                    lemma_seq_push_contains(queue, from as nat, x);
                }
            } else {
                assert forall|x: nat| x < n implies ((order.contains(x) || q2.contains(x)) <==> in2[x as int]
                    == 0) by {
                    if x == from as nat {
                        assert(in_deg[x as int] != 0);
                    }
                }
            }
        }
        lemma_relax(deps, i, from + 1, in2, q2, order);
    } else {
        if deps[from].contains(i) {
            // A dependency not yet emitted keeps the count positive.
            lemma_count_missing_zero(deps[from], o0);
            let k = choose|k: int| 0 <= k < deps[from].len() && deps[from][k] == i;
            assert(!o0.contains(deps[from][k]));
            assert(false);
        }
        lemma_relax(deps, i, from + 1, in_deg, queue, order);
    }
}

/// One step of Kahn's algorithm keeps its invariant.
proof fn lemma_kahn_step(deps: Seq<Seq<nat>>, in_deg: Seq<int>, queue: Seq<nat>, order: Seq<nat>)
    requires
        deps_wf(deps),
        kahn_inv(deps, in_deg, queue, order),
        queue.len() > 0,
    ensures
        ({
            let i = queue.last();
            let (in2, q2) = relax(deps, i, 0, in_deg, queue.drop_last());
            kahn_inv(deps, in2, q2, order.push(i))
        }),
{
    let n = deps.len();
    let i = queue.last();
    let q1 = queue.drop_last();
    let o1 = order.push(i);
    assert(queue.contains(i)) by {
        assert(queue[queue.len() - 1] == i);
    }
    assert(!order.contains(i));
    assert(o1.drop_last() =~= order);
    assert(kahn_state_ok(n, in_deg, q1, o1)) by {
        assert(o1.no_duplicates()) by {
            assert forall|a: int, b: int| 0 <= a < o1.len() && 0 <= b < o1.len() && a != b implies o1[a]
                != o1[b] by {
                if a == order.len() {
                    assert(order.contains(o1[b]));
                } else if b == order.len() {
                    assert(order.contains(o1[a]));
                }
            }
        }
        assert(q1.no_duplicates()) by {
            assert forall|a: int, b: int| 0 <= a < q1.len() && 0 <= b < q1.len() && a != b implies q1[a]
                != q1[b] by {
                assert(q1[a] == queue[a] && q1[b] == queue[b]);
            }
        }
        assert forall|x: nat| o1.contains(x) implies !q1.contains(x) by {
            lemma_seq_push_contains(order, i, x);
            lemma_drop_last_contains(queue, x);
        }
        assert forall|k: int| 0 <= k < q1.len() implies q1[k] < n by {
            assert(q1[k] == queue[k]);
        }
        assert forall|x: nat| x < n implies ((o1.contains(x) || q1.contains(x)) <==> in_deg[x as int]
            == 0) by {
            lemma_seq_push_contains(order, i, x);
            lemma_drop_last_contains(queue, x);
        }
    }
    assert(respects_deps(o1, deps)) by {
        assert forall|k: int, d: nat|
            0 <= k < o1.len() && #[trigger] deps[o1[k] as int].contains(d) implies o1.take(k).contains(
            d,
        ) by {
            if k < order.len() {
                assert(o1.take(k) =~= order.take(k));
                assert(o1[k] == order[k]);
            } else {
                assert(o1.take(k) =~= order);
                assert(in_deg[i as int] == 0);
                lemma_count_missing_zero(deps[i as int], order);
                let m = choose|m: int| 0 <= m < deps[i as int].len() && deps[i as int][m] == d;
            }
        }
    }
    lemma_relax(deps, i, 0, in_deg, q1, o1);
}

/// What Kahn's algorithm ends with, from a sound state and with enough
/// steps: emitted bindings come after their dependencies, each once, and a
/// binding left out depends on another one left out.
proof fn lemma_kahn_run(
    deps: Seq<Seq<nat>>,
    in_deg: Seq<int>,
    queue: Seq<nat>,
    order: Seq<nat>,
    fuel: nat,
)
    requires
        deps_wf(deps),
        kahn_inv(deps, in_deg, queue, order),
        fuel + order.len() >= deps.len() + 1,
    ensures
        ({
            let r = kahn(deps, in_deg, queue, order, fuel);
            &&& r.no_duplicates()
            &&& forall|k: int| 0 <= k < r.len() ==> r[k] < deps.len()
            &&& respects_deps(r, deps)
            &&& forall|j: nat|
                j < deps.len() && !r.contains(j) ==> exists|d: nat|
                    #[trigger] deps[j as int].contains(d) && !r.contains(d)
        }),
    decreases fuel,
{
    let n = deps.len();
    lemma_distinct_below(order, n);
    if queue.len() == 0 {
        assert forall|j: nat| j < n && !order.contains(j) implies exists|d: nat|
            #[trigger] deps[j as int].contains(d) && !order.contains(d) by {
            assert(in_deg[j as int] != 0);
            lemma_count_missing_zero(deps[j as int], order);
            let k = choose|k: int| 0 <= k < deps[j as int].len() && !order.contains(deps[j as int][k]);
            assert(deps[j as int].contains(deps[j as int][k]));
        }
        return;
    }
    assert(queue.contains(queue.last())) by {
        assert(queue[queue.len() - 1] == queue.last());
    }
    assert(order.len() < n) by {
        let i = queue.last();
        let o1 = order.push(i);
        assert(o1.no_duplicates()) by {
            assert forall|a: int, b: int| 0 <= a < o1.len() && 0 <= b < o1.len() && a != b implies o1[a]
                != o1[b] by {
                if a == order.len() {
                    assert(order.contains(o1[b]));
                } else if b == order.len() {
                    assert(order.contains(o1[a]));
                }
            }
        }
        lemma_distinct_below(o1, n);
    }
    lemma_kahn_step(deps, in_deg, queue, order);
    let i = queue.last();
    let (in2, q2) = relax(deps, i, 0, in_deg, queue.drop_last());
    lemma_kahn_run(deps, in2, q2, order.push(i), (fuel - 1) as nat);
}

/// A sequence of distinct naturals below `n` has at most `n` elements.
pub proof fn lemma_distinct_below(s: Seq<nat>, n: nat)
    requires
        s.no_duplicates(),
        forall|k: int| 0 <= k < s.len() ==> s[k] < n,
    ensures
        s.len() <= n,
{
    let t = s.map_values(|x: nat| x as int);
    assert(t.no_duplicates()) by {
        assert forall|a: int, b: int| 0 <= a < t.len() && 0 <= b < t.len() && a != b implies t[a]
            != t[b] by {
            assert(s[a] != s[b]);
        }
    }
    t.unique_seq_to_set();
    vstd::set_lib::lemma_int_range(0, n as int);
    assert(t.to_set().subset_of(vstd::set_lib::set_int_range(0, n as int))) by {
        assert forall|x: int| t.to_set().contains(x) implies vstd::set_lib::set_int_range(
            0,
            n as int,
        ).contains(x) by {
            let k = choose|k: int| 0 <= k < t.len() && t[k] == x;
            assert(s[k] < n);
        }
    }
    vstd::set_lib::lemma_len_subset(t.to_set(), vstd::set_lib::set_int_range(0, n as int));
}

/// A sequence of fewer than `n` naturals misses one below `n`.
proof fn lemma_short_misses(s: Seq<nat>, n: nat)
    requires
        s.len() < n,
    ensures
        exists|j: nat| j < n && !s.contains(j),
{
    if forall|j: nat| j < n ==> s.contains(j) {
        let t = s.map_values(|x: nat| x as int);
        t.lemma_cardinality_of_set();
        vstd::set_lib::lemma_int_range(0, n as int);
        assert(vstd::set_lib::set_int_range(0, n as int).subset_of(t.to_set())) by {
            assert forall|x: int| vstd::set_lib::set_int_range(0, n as int).contains(x) implies t.to_set().contains(
                x,
            ) by {
                assert(s.contains(x as nat));
                let k = choose|k: int| 0 <= k < s.len() && s[k] == x as nat;
                assert(t[k] == x);
            }
        }
        vstd::seq_lib::seq_to_set_is_finite(t);
        vstd::set_lib::lemma_len_subset(vstd::set_lib::set_int_range(0, n as int), t.to_set());
    }
}

/// `n` distinct naturals below `n` include every natural below `n`.
proof fn lemma_full_covers(s: Seq<nat>, n: nat, j: nat)
    requires
        s.len() == n,
        s.no_duplicates(),
        forall|k: int| 0 <= k < s.len() ==> s[k] < n,
        j < n,
    ensures
        s.contains(j),
{
    if !s.contains(j) {
        let t = s.map_values(|x: nat| x as int);
        assert(t.no_duplicates()) by {
            assert forall|a: int, b: int| 0 <= a < t.len() && 0 <= b < t.len() && a != b implies t[a]
                != t[b] by {
                assert(s[a] != s[b]);
            }
        }
        t.unique_seq_to_set();
        vstd::set_lib::lemma_int_range(0, n as int);
        let r = vstd::set_lib::set_int_range(0, n as int).remove(j as int);
        assert(t.to_set().subset_of(r)) by {
            assert forall|x: int| t.to_set().contains(x) implies r.contains(x) by {
                let k = choose|k: int| 0 <= k < t.len() && t[k] == x;
                assert(s[k] < n);
                assert(s[k] != j);
            }
        }
        vstd::set_lib::lemma_len_subset(t.to_set(), r);
    }
}

proof fn lemma_index_of_bound(names: Seq<Seq<char>>, n: Seq<char>)
    ensures
        index_of(names, n) matches Some(i) ==> i < names.len(),
    decreases names.len(),
{
    if names.len() > 0 {
        lemma_index_of_bound(names.drop_last(), n);
    }
}

/// Dependencies collected from an expression are distinct indices of
/// names.
proof fn lemma_deps_of_wf(e: SExpr, names: Seq<Seq<char>>, acc: Seq<nat>)
    requires
        acc.no_duplicates(),
        forall|k: int| 0 <= k < acc.len() ==> acc[k] < names.len(),
    ensures
        deps_of(e, names, acc).no_duplicates(),
        forall|k: int|
            0 <= k < deps_of(e, names, acc).len() ==> deps_of(e, names, acc)[k] < names.len(),
    decreases e,
{
    match e {
        SExpr::Lit(_) => {},
        SExpr::Var(n) => {
            lemma_index_of_bound(names, n);
            match index_of(names, n) {
                Some(i) => if !acc.contains(i) {
                    let a2 = acc.push(i);
                    assert forall|a: int, b: int| 0 <= a < a2.len() && 0 <= b < a2.len() && a != b implies a2[a]
                        != a2[b] by {
                        if a == acc.len() {
                            assert(acc.contains(a2[b]));
                        } else if b == acc.len() {
                            assert(acc.contains(a2[a]));
                        }
                    }
                },
                None => {},
            }
        },
        SExpr::Bin(_, l, r) => {
            lemma_deps_of_wf(*l, names, acc);
            lemma_deps_of_wf(*r, names, deps_of(*l, names, acc));
        },
        SExpr::Neg(x) => lemma_deps_of_wf(*x, names, acc),
        SExpr::Call(_, args) => lemma_deps_of_list_wf(args, names, acc),
    }
}

proof fn lemma_deps_of_list_wf(es: Seq<SExpr>, names: Seq<Seq<char>>, acc: Seq<nat>)
    requires
        acc.no_duplicates(),
        forall|k: int| 0 <= k < acc.len() ==> acc[k] < names.len(),
    ensures
        deps_of_list(es, names, acc).no_duplicates(),
        forall|k: int|
            0 <= k < deps_of_list(es, names, acc).len() ==> deps_of_list(es, names, acc)[k]
                < names.len(),
    decreases es,
{
    if es.len() > 0 {
        lemma_deps_of_wf(es[0], names, acc);
        lemma_deps_of_list_wf(es.subrange(1, es.len() as int), names, deps_of(es[0], names, acc));
    }
}

proof fn lemma_deps_table_wf(ws: Seq<(Seq<char>, SExpr)>)
    ensures
        deps_wf(deps_table(ws)),
        deps_table(ws).len() == ws.len(),
{
    let deps = deps_table(ws);
    assert forall|j: int| 0 <= j < deps.len() implies (#[trigger] deps[j]).no_duplicates() && forall|k: int|
        0 <= k < deps[j].len() ==> deps[j][k] < deps.len() by {
        assert(Seq::<nat>::empty().no_duplicates());
        lemma_deps_of_wf(ws[j].1, where_names(ws), seq![]);
    }
}

proof fn lemma_kahn_initial(deps: Seq<Seq<nat>>)
    requires
        deps_wf(deps),
    ensures
        kahn_inv(deps, initial_in_deg(deps), initial_queue(deps, 0), seq![]),
{
    let n = deps.len();
    let in0 = initial_in_deg(deps);
    let q0 = initial_queue(deps, 0);
    super::codegen::lemma_initial_queue(deps, 0);
    assert forall|j: int| 0 <= j < n implies in0[j] == count_missing(#[trigger] deps[j], seq![]) by {
        lemma_count_missing_empty(deps[j]);
    }
    assert forall|k: int| 0 <= k < q0.len() implies q0[k] < n by {
        assert(q0.contains(q0[k]));
    }
    assert forall|x: nat| x < n implies ((Seq::<nat>::empty().contains(x) || q0.contains(x)) <==> in0[x as int]
        == 0) by {
    }
}

/// Soundness of the evaluation order: when the bindings are ordered, every
/// binding is listed once and comes after each binding it refers to.
pub proof fn topo_order_is_topological(ws: Seq<(Seq<char>, SExpr)>)
    requires
        topo_spec(ws) is Ok,
    ensures
        is_topological(topo_spec(ws)->Ok_0, deps_table(ws)),
{
    let deps = deps_table(ws);
    lemma_deps_table_wf(ws);
    lemma_kahn_initial(deps);
    lemma_kahn_run(deps, initial_in_deg(deps), initial_queue(deps, 0), seq![], (ws.len() + 1) as nat);
}

/// Completeness of cycle detection: when the names are distinct and some
/// order puts every binding after the bindings it refers to, the bindings
/// are ordered rather than reported circular.
pub proof fn topo_finds_order_when_one_exists(ws: Seq<(Seq<char>, SExpr)>, t: Seq<nat>)
    requires
        first_duplicate(where_names(ws), 0) is None,
        is_topological(t, deps_table(ws)),
    ensures
        topo_spec(ws) is Ok,
{
    let deps = deps_table(ws);
    let n = ws.len();
    lemma_deps_table_wf(ws);
    lemma_kahn_initial(deps);
    let r = kahn(deps, initial_in_deg(deps), initial_queue(deps, 0), seq![], (n + 1) as nat);
    lemma_kahn_run(deps, initial_in_deg(deps), initial_queue(deps, 0), seq![], (n + 1) as nat);
    if r.len() != n {
        lemma_distinct_below(r, n as nat);
        // Every binding of `t` was emitted, by induction along `t`.
        assert forall|k: int| 0 <= k < t.len() implies r.contains(#[trigger] t[k]) by {
            lemma_emitted_along(deps, r, t, k);
        }
        lemma_short_misses(r, n as nat);
        let j = choose|j: nat| j < n && !r.contains(j);
        lemma_full_covers(t, n as nat, j);
        let k = choose|k: int| 0 <= k < t.len() && t[k] == j;
        assert(r.contains(t[k]));
    }
}

proof fn lemma_emitted_along(deps: Seq<Seq<nat>>, r: Seq<nat>, t: Seq<nat>, k: int)
    requires
        is_topological(t, deps),
        0 <= k < t.len(),
        forall|j: nat|
            j < deps.len() && !r.contains(j) ==> exists|d: nat|
                #[trigger] deps[j as int].contains(d) && !r.contains(d),
    ensures
        r.contains(t[k]),
    decreases k,
{
    if !r.contains(t[k]) {
        let d = choose|d: nat| #[trigger] deps[t[k] as int].contains(d) && !r.contains(d);
        assert(t.take(k).contains(d));
        let m = choose|m: int| 0 <= m < t.take(k).len() && t.take(k)[m] == d;
        lemma_emitted_along(deps, r, t, m);
        assert(t[m] == d);
    }
}

} // verus!
