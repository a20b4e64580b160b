use vstd::prelude::*;

use crate::engine::{next_state, pass, pass_prefix, lemma_pass_stops, StateModel};
use crate::expression::{deps_of, eval, ExprView};
use crate::module::{check_id, checks_completed, distinct, ids_of, NodeView};
use crate::order::{depends, is_eval_order, lists, reads_of};
use crate::state::ObjectiveState;

verus! {

/// `a` and `b` hold the same entry for key `k`, or both lack it.
pub open spec fn same_at(a: StateModel, b: StateModel, k: Seq<char>) -> bool {
    &&& a.contains_key(k) == b.contains_key(k)
    &&& a.contains_key(k) ==> a[k] == b[k]
}

pub open spec fn agree_on(a: StateModel, b: StateModel, ks: Seq<Seq<char>>) -> bool {
    forall|t: int| 0 <= t < ks.len() ==> #[trigger] same_at(a, b, ks[t])
}

/// Every node has a state in `env`.
pub open spec fn covers(nodes: Seq<NodeView>, env: StateModel) -> bool {
    forall|i: int| 0 <= i < nodes.len() ==> #[trigger] env.contains_key(nodes[i].id)
}

/// A node that one pass moves down by more than one test: an unlocked node
/// whose unlock and enable conditions both fail (and that is not completed),
/// or a complete node whose completion and unlock conditions both fail.
pub open spec fn drops_twice(n: NodeView, x: ObjectiveState, env: StateModel) -> bool {
    let e = n.enabled_by != ExprView::Manual && eval(n.enabled_by, env, ObjectiveState::Locked)
        == Ok::<bool, crate::error::ErrorView>(false);
    let u = n.unlocked_by != ExprView::Manual && eval(n.unlocked_by, env, ObjectiveState::Unlocked)
        == Ok::<bool, crate::error::ErrorView>(false);
    let c = n.completed_by != ExprView::Manual && eval(
        n.completed_by,
        env,
        ObjectiveState::Unlocked,
    ) == Ok::<bool, crate::error::ErrorView>(false);
    ||| (x == ObjectiveState::Unlocked && e && u && (n.completed_by == ExprView::Manual || c))
    ||| (x == ObjectiveState::Complete && c && u)
}

proof fn lemma_agree_split(a: StateModel, b: StateModel, x: Seq<Seq<char>>, y: Seq<Seq<char>>)
    requires
        agree_on(a, b, x + y),
    ensures
        agree_on(a, b, x),
        agree_on(a, b, y),
{
    assert forall|t: int| 0 <= t < x.len() implies #[trigger] same_at(a, b, x[t]) by {
        assert((x + y)[t] == x[t]);
    }
    assert forall|t: int| 0 <= t < y.len() implies #[trigger] same_at(a, b, y[t]) by {
        assert((x + y)[x.len() + t] == y[t]);
    }
}

/// An expression's value depends only on the states of the ids it reads.
pub proof fn lemma_eval_local(e: ExprView, a: StateModel, b: StateModel, th: ObjectiveState)
    requires
        agree_on(a, b, deps_of(e)),
    ensures
        eval(e, a, th) == eval(e, b, th),
    decreases e,
{
    match e {
        ExprView::Node(id) => {
            assert(same_at(a, b, deps_of(e)[0]));
        },
        ExprView::NodeComplete(id) => {
            assert(same_at(a, b, deps_of(e)[0]));
        },
        ExprView::NodeDisabled(id) => {
            assert(same_at(a, b, deps_of(e)[0]));
        },
        ExprView::NodeUnlocked(id) => {
            assert(same_at(a, b, deps_of(e)[0]));
        },
        ExprView::Not(x) => {
            lemma_eval_local(*x, a, b, th);
        },
        ExprView::And(x, y) => {
            lemma_agree_split(a, b, deps_of(*x), deps_of(*y));
            lemma_eval_local(*x, a, b, th);
            lemma_eval_local(*y, a, b, th);
        },
        ExprView::Or(x, y) => {
            lemma_agree_split(a, b, deps_of(*x), deps_of(*y));
            lemma_eval_local(*x, a, b, th);
            lemma_eval_local(*y, a, b, th);
        },
        _ => {},
    }
}

/// A node's transition depends only on the states of the ids it reads.
pub proof fn lemma_step_local(n: NodeView, x: ObjectiveState, a: StateModel, b: StateModel)
    requires
        agree_on(a, b, reads_of(n)),
    ensures
        next_state(n, x, a) == next_state(n, x, b),
{
    lemma_agree_split(a, b, deps_of(n.enabled_by) + deps_of(n.unlocked_by), deps_of(n.completed_by));
    lemma_agree_split(a, b, deps_of(n.enabled_by), deps_of(n.unlocked_by));
    lemma_eval_local(n.enabled_by, a, b, ObjectiveState::Locked);
    lemma_eval_local(n.unlocked_by, a, b, ObjectiveState::Unlocked);
    lemma_eval_local(n.completed_by, a, b, ObjectiveState::Unlocked);
}

/// A transition that does not drop a node twice lands on a state the same
/// transition keeps.
pub proof fn lemma_step_settles(n: NodeView, x: ObjectiveState, env: StateModel)
    requires
        next_state(n, x, env) is Ok,
        !drops_twice(n, x, env),
    ensures
        next_state(n, next_state(n, x, env)->Ok_0, env) == next_state(n, x, env),
{
}

proof fn lemma_prefix_ok(nodes: Seq<NodeView>, order: Seq<usize>, env: StateModel, j: int, k: int)
    requires
        0 <= j <= k,
        pass_prefix(nodes, order, env, k).1 is None,
    ensures
        pass_prefix(nodes, order, env, j).1 is None,
{
    if pass_prefix(nodes, order, env, j).1 is Some {
        lemma_pass_stops(nodes, order, env, j, k);
    }
}

/// Keys that no stepped node owns keep their entry.
proof fn lemma_untouched(nodes: Seq<NodeView>, order: Seq<usize>, env: StateModel, k: int, d: Seq<char>)
    requires
        0 <= k <= order.len(),
        forall|p: int| 0 <= p < order.len() ==> order[p] < nodes.len(),
        pass_prefix(nodes, order, env, k).1 is None,
        forall|q: int| 0 <= q < k ==> nodes[order[q] as int].id != d,
    ensures
        same_at(pass_prefix(nodes, order, env, k).0, env, d),
    decreases k,
{
    if k > 0 {
        lemma_prefix_ok(nodes, order, env, k - 1, k);
        lemma_untouched(nodes, order, env, k - 1, d);
    }
}

/// Stepping keeps the set of keys when every node already has one.
proof fn lemma_keys_kept(nodes: Seq<NodeView>, order: Seq<usize>, env: StateModel, k: int)
    requires
        0 <= k <= order.len(),
        forall|p: int| 0 <= p < order.len() ==> order[p] < nodes.len(),
        covers(nodes, env),
    ensures
        pass_prefix(nodes, order, env, k).0.dom() == env.dom(),
    decreases k,
{
    if k > 0 {
        lemma_keys_kept(nodes, order, env, k - 1);
        let e = pass_prefix(nodes, order, env, k - 1).0;
        let n = nodes[order[k - 1] as int];
        assert(env.contains_key(n.id));
        assert(e.insert(n.id, ObjectiveState::Disabled).dom() =~= e.dom());
        match next_state(n, e[n.id], e) {
            Ok(s) => {
                assert(e.insert(n.id, s).dom() =~= e.dom());
            },
            Err(_) => {},
        }
    }
}

/// Once node `order[q]` has been stepped, later steps leave its state alone.
proof fn lemma_kept(nodes: Seq<NodeView>, order: Seq<usize>, env: StateModel, q: int, k: int)
    requires
        0 <= q < k <= order.len(),
        distinct(ids_of(nodes)),
        is_eval_order(nodes, order),
        pass_prefix(nodes, order, env, k).1 is None,
    ensures
        same_at(
            pass_prefix(nodes, order, env, k).0,
            pass_prefix(nodes, order, env, q + 1).0,
            nodes[order[q] as int].id,
        ),
    decreases k,
{
    if k > q + 1 {
        lemma_prefix_ok(nodes, order, env, k - 1, k);
        lemma_kept(nodes, order, env, q, k - 1);
        let a = order[k - 1] as int;
        let b = order[q] as int;
        assert(order[q] != order[k - 1]);
        assert(ids_of(nodes)[a] != ids_of(nodes)[b]) by {
            if a < b {
                assert(ids_of(nodes)[a] != ids_of(nodes)[b]);
            } else {
                assert(ids_of(nodes)[b] != ids_of(nodes)[a]);
            }
        }
    }
}

/// The states a node saw when it was stepped agree, on the ids it reads, with
/// the states at the end of the pass.
proof fn lemma_seen_agrees(nodes: Seq<NodeView>, order: Seq<usize>, env: StateModel, k: int)
    requires
        0 <= k < order.len(),
        distinct(ids_of(nodes)),
        is_eval_order(nodes, order),
        covers(nodes, env),
        pass(nodes, order, env).1 is None,
    ensures
        agree_on(
            pass_prefix(nodes, order, env, k).0,
            pass(nodes, order, env).0,
            reads_of(nodes[order[k] as int]),
        ),
{
    let len = order.len() as int;
    let n = nodes[order[k] as int];
    let ek = pass_prefix(nodes, order, env, k).0;
    let fin = pass(nodes, order, env).0;
    lemma_prefix_ok(nodes, order, env, k, len);
    assert forall|t: int| 0 <= t < reads_of(n).len() implies #[trigger] same_at(
        ek,
        fin,
        reads_of(n)[t],
    ) by {
        let d = reads_of(n)[t];
        if exists|m: int| 0 <= m < nodes.len() && nodes[m].id == d {
            let m = choose|m: int| 0 <= m < nodes.len() && nodes[m].id == d;
            assert(lists(order, m));
            let q = choose|q: int| 0 <= q < order.len() && order[q] as int == m;
            assert(reads_of(n).contains(d));
            assert(depends(nodes, order[q] as int, order[k] as int));
            assert(q < k);
            lemma_kept(nodes, order, env, q, k);
            lemma_kept(nodes, order, env, q, len);
        } else {
            lemma_untouched(nodes, order, env, k, d);
            lemma_untouched(nodes, order, env, len, d);
        }
    }
}

/// What one step of a pass that succeeds does to the node it visits.
proof fn lemma_visit(nodes: Seq<NodeView>, order: Seq<usize>, env: StateModel, k: int)
    requires
        0 <= k < order.len(),
        distinct(ids_of(nodes)),
        is_eval_order(nodes, order),
        covers(nodes, env),
        pass(nodes, order, env).1 is None,
    ensures
        ({
            let n = nodes[order[k] as int];
            let fin = pass(nodes, order, env).0;
            &&& fin.contains_key(n.id)
            &&& next_state(n, env[n.id], fin) == Ok::<ObjectiveState, crate::error::ErrorView>(
                fin[n.id],
            )
        }),
{
    let len = order.len() as int;
    let n = nodes[order[k] as int];
    let ek = pass_prefix(nodes, order, env, k).0;
    let fin = pass(nodes, order, env).0;
    lemma_prefix_ok(nodes, order, env, k + 1, len);
    assert forall|q: int| 0 <= q < k implies nodes[order[q] as int].id != n.id by {
        let a = order[q] as int;
        let b = order[k] as int;
        assert(order[q] != order[k]);
        if a < b {
            assert(ids_of(nodes)[a] != ids_of(nodes)[b]);
        } else {
            assert(ids_of(nodes)[b] != ids_of(nodes)[a]);
        }
    }
    lemma_untouched(nodes, order, env, k, n.id);
    lemma_kept(nodes, order, env, k, len);
    lemma_seen_agrees(nodes, order, env, k);
    lemma_step_local(n, env[n.id], ek, fin);
}

proof fn lemma_rerun(nodes: Seq<NodeView>, order: Seq<usize>, env: StateModel, k: int)
    requires
        0 <= k <= order.len(),
        distinct(ids_of(nodes)),
        is_eval_order(nodes, order),
        covers(nodes, env),
        pass(nodes, order, env).1 is None,
        forall|i: int|
            0 <= i < nodes.len() ==> !drops_twice(
                nodes[i],
                env[nodes[i].id],
                pass(nodes, order, env).0,
            ),
    ensures
        pass_prefix(nodes, order, pass(nodes, order, env).0, k) == (
            pass(nodes, order, env).0,
            None::<crate::error::ErrorView>,
        ),
    decreases k,
{
    if k > 0 {
        let fin = pass(nodes, order, env).0;
        lemma_rerun(nodes, order, env, k - 1);
        lemma_visit(nodes, order, env, k - 1);
        let n = nodes[order[k - 1] as int];
        lemma_step_settles(n, env[n.id], fin);
        assert(fin.insert(n.id, fin[n.id]) =~= fin);
    }
}

/// Running a second pass right after a pass that succeeded changes nothing,
/// provided the first pass moved no node down by more than one test.
pub proof fn lemma_pass_idempotent(nodes: Seq<NodeView>, order: Seq<usize>, env: StateModel)
    requires
        distinct(ids_of(nodes)),
        is_eval_order(nodes, order),
        covers(nodes, env),
        pass(nodes, order, env).1 is None,
        forall|i: int|
            0 <= i < nodes.len() ==> !drops_twice(
                nodes[i],
                env[nodes[i].id],
                pass(nodes, order, env).0,
            ),
    ensures
        pass(nodes, order, pass(nodes, order, env).0) == (
            pass(nodes, order, env).0,
            None::<crate::error::ErrorView>,
        ),
{
    lemma_rerun(nodes, order, env, order.len() as int);
}

/// Each of the first `m` checks of `o` is complete or disabled in `env`.
pub open spec fn checks_done(o: NodeView, m: int, env: StateModel) -> bool {
    forall|t: int|
        0 <= t < m ==> (env[check_id(o, t)] == ObjectiveState::Complete || env[check_id(o, t)]
            == ObjectiveState::Disabled)
}

proof fn lemma_completed_shape(o: NodeView, m: int)
    ensures
        checks_completed(o, m) != ExprView::False,
        checks_completed(o, m) != ExprView::Manual,
        m > 0 ==> checks_completed(o, m) != ExprView::True,
    decreases m,
{
    if m > 0 {
        lemma_completed_shape(o, m - 1);
    }
}

/// The completion fold is true exactly when every check is complete or disabled.
proof fn lemma_completed_value(o: NodeView, m: int, env: StateModel, th: ObjectiveState)
    requires
        0 <= m <= o.checks.len(),
        forall|t: int| 0 <= t < m ==> #[trigger] env.contains_key(check_id(o, t)),
    ensures
        eval(checks_completed(o, m), env, th) == Ok::<bool, crate::error::ErrorView>(
            checks_done(o, m, env),
        ),
    decreases m,
{
    if m > 0 {
        lemma_completed_value(o, m - 1, env, th);
        lemma_completed_shape(o, m - 1);
        assert(env.contains_key(check_id(o, m - 1)));
        let c = check_id(o, m - 1);
        let cond = env[c] == ObjectiveState::Complete || env[c] == ObjectiveState::Disabled;
        let term = ExprView::Or(
            Box::new(ExprView::NodeComplete(c)),
            Box::new(ExprView::NodeDisabled(c)),
        );
        assert(eval(ExprView::NodeComplete(c), env, th) == Ok::<bool, crate::error::ErrorView>(
            env[c] == ObjectiveState::Complete,
        ));
        assert(eval(ExprView::NodeDisabled(c), env, th) == Ok::<bool, crate::error::ErrorView>(
            env[c] == ObjectiveState::Disabled,
        ));
        assert(eval(term, env, th) == Ok::<bool, crate::error::ErrorView>(cond));
        let prev = checks_completed(o, m - 1);
        if m - 1 > 0 {
            assert(checks_completed(o, m) == ExprView::And(Box::new(prev), Box::new(term)));
        } else {
            assert(checks_completed(o, m) == term);
        }
        if m - 1 == 0 {
            assert(checks_done(o, m, env) == (env[check_id(o, 0)] == ObjectiveState::Complete
                || env[check_id(o, 0)] == ObjectiveState::Disabled));
        } else {
            if checks_done(o, m - 1, env) {
                assert(checks_done(o, m, env) == (env[check_id(o, m - 1)]
                    == ObjectiveState::Complete || env[check_id(o, m - 1)]
                    == ObjectiveState::Disabled));
            } else {
                let t = choose|t: int|
                    0 <= t < m - 1 && !(env[check_id(o, t)] == ObjectiveState::Complete
                        || env[check_id(o, t)] == ObjectiveState::Disabled);
                assert(!checks_done(o, m, env));
            }
        }
    }
}

/// After a pass that succeeds, a node whose completion condition is the fold
/// of its checks is complete exactly when every check is complete or
/// disabled; a node whose checks are all disabled is therefore complete.
pub proof fn lemma_check_aggregation(
    nodes: Seq<NodeView>,
    order: Seq<usize>,
    env: StateModel,
    o: NodeView,
    i: int,
)
    requires
        distinct(ids_of(nodes)),
        is_eval_order(nodes, order),
        covers(nodes, env),
        pass(nodes, order, env).1 is None,
        0 <= i < nodes.len(),
        o.checks.len() > 0,
        nodes[i].completed_by == checks_completed(o, o.checks.len() as int),
        forall|t: int| 0 <= t < o.checks.len() ==> ids_of(nodes).contains(#[trigger] check_id(o, t)),
    ensures
        (pass(nodes, order, env).0[nodes[i].id] == ObjectiveState::Complete) <==> checks_done(
            o,
            o.checks.len() as int,
            pass(nodes, order, env).0,
        ),
{
    let fin = pass(nodes, order, env).0;
    let m = o.checks.len() as int;
    assert(lists(order, i));
    let k = choose|k: int| 0 <= k < order.len() && order[k] as int == i;
    lemma_visit(nodes, order, env, k);
    lemma_keys_kept(nodes, order, env, order.len() as int);
    assert forall|t: int| 0 <= t < m implies #[trigger] fin.contains_key(check_id(o, t)) by {
        assert(ids_of(nodes).contains(check_id(o, t)));
        let q = choose|q: int| 0 <= q < ids_of(nodes).len() && ids_of(nodes)[q] == check_id(o, t);
        assert(env.contains_key(nodes[q].id));
    }
    lemma_completed_value(o, m, fin, ObjectiveState::Unlocked);
    lemma_completed_shape(o, m);
}

} // verus!
