use vstd::prelude::*;

use crate::error::{agrees, EngineError, ErrorView};
use crate::expression::{eval, ExprView};
use crate::module::{distinct, ids_of, node_views, text_views, Module, NodeInfo, NodeView};
use crate::order::{dependency_cycle, dependency_order, is_eval_order};
use crate::display::{CheckBoxParamValue, DisplayViewCount, ModuleParam, ModuleParamValue};
use crate::state::{reaches, ObjectiveState, StateMap};

verus! {

pub type StateModel = Map<Seq<char>, ObjectiveState>;

/// The enable test: a disabled node whose condition holds becomes locked, a
/// locked node whose condition fails becomes disabled.
pub open spec fn enable_step(n: NodeView, x: ObjectiveState, env: StateModel) -> Result<
    ObjectiveState,
    ErrorView,
> {
    if n.enabled_by == ExprView::Manual {
        Ok(x)
    } else {
        match eval(n.enabled_by, env, ObjectiveState::Locked) {
            Ok(e) => Ok(
                if x == ObjectiveState::Disabled && e {
                    ObjectiveState::Locked
                } else if x == ObjectiveState::Locked && !e {
                    ObjectiveState::Disabled
                } else {
                    x
                },
            ),
            Err(f) => Err(f),
        }
    }
}

/// The unlock test: locked becomes unlocked when the condition holds, unlocked
/// becomes locked when it fails.
pub open spec fn unlock_step(n: NodeView, x: ObjectiveState, env: StateModel) -> Result<
    ObjectiveState,
    ErrorView,
> {
    if n.unlocked_by == ExprView::Manual {
        Ok(x)
    } else {
        match eval(n.unlocked_by, env, ObjectiveState::Unlocked) {
            Ok(u) => Ok(
                if x == ObjectiveState::Locked && u {
                    ObjectiveState::Unlocked
                } else if x == ObjectiveState::Unlocked && !u {
                    ObjectiveState::Locked
                } else {
                    x
                },
            ),
            Err(f) => Err(f),
        }
    }
}

/// The completion test: the node is complete when the condition holds; a
/// complete node whose condition fails falls back to unlocked.
pub open spec fn complete_step(n: NodeView, x: ObjectiveState, env: StateModel) -> Result<
    ObjectiveState,
    ErrorView,
> {
    if n.completed_by == ExprView::Manual {
        Ok(x)
    } else {
        match eval(n.completed_by, env, ObjectiveState::Unlocked) {
            Ok(c) => Ok(
                if c {
                    ObjectiveState::Complete
                } else if x == ObjectiveState::Complete {
                    ObjectiveState::Unlocked
                } else {
                    x
                },
            ),
            Err(f) => Err(f),
        }
    }
}

/// The new state of node `n`, now in state `x`: the enable, unlock and
/// completion tests in turn.
pub open spec fn next_state(n: NodeView, x: ObjectiveState, env: StateModel) -> Result<
    ObjectiveState,
    ErrorView,
> {
    match enable_step(n, x, env) {
        Ok(a) => match unlock_step(n, a, env) {
            Ok(b) => complete_step(n, b, env),
            Err(f) => Err(f),
        },
        Err(f) => Err(f),
    }
}

/// The states after the first `k` nodes of `order` have been stepped, and the
/// error that stopped the pass, if one did. Nodes stepped before an error keep
/// their new states.
pub open spec fn pass_prefix(nodes: Seq<NodeView>, order: Seq<usize>, env: StateModel, k: int) -> (
    StateModel,
    Option<ErrorView>,
)
    decreases k,
{
    if k <= 0 {
        (env, None)
    } else {
        let (e, f) = pass_prefix(nodes, order, env, k - 1);
        if f is Some {
            (e, f)
        } else {
            let n = nodes[order[k - 1] as int];
            match next_state(n, e[n.id], e) {
                Ok(s) => (e.insert(n.id, s), None),
                Err(x) => (e, Some(x)),
            }
        }
    }
}

/// Overwriting known ids keeps the set of ids; the next update of `u`, known
/// at the start, is still known.
proof fn lemma_overwrite_keeps_keys(
    env: StateModel,
    done: Seq<(Seq<char>, ObjectiveState)>,
    u: Seq<(Seq<char>, ObjectiveState)>,
    t: int,
)
    requires
        0 <= t < u.len(),
        done == u.take(t),
        first_unknown(env, u) is None,
    ensures
        overwritten(env, done).dom() == env.dom(),
        env.contains_key(u[t].0),
    decreases t,
{
    lemma_known_updates(env, u, t);
    if t > 0 {
        assert(u.take(t).drop_last() =~= u.take(t - 1));
        lemma_overwrite_keeps_keys(env, u.take(t - 1), u, t - 1);
        lemma_known_updates(env, u, t - 1);
        assert(overwritten(env, done).dom() =~= env.dom());
    }
}

proof fn lemma_known_updates(env: StateModel, u: Seq<(Seq<char>, ObjectiveState)>, t: int)
    requires
        0 <= t < u.len(),
        first_unknown(env, u) is None,
    ensures
        env.contains_key(u[t].0),
    decreases t,
{
    if t > 0 {
        lemma_known_updates(env, u.drop_first(), t - 1);
    }
}

/// Once a pass has stopped on an error, stepping further changes nothing.
pub proof fn lemma_pass_stops(
    nodes: Seq<NodeView>,
    order: Seq<usize>,
    env: StateModel,
    j: int,
    k: int,
)
    requires
        0 <= j <= k,
        pass_prefix(nodes, order, env, j).1 is Some,
    ensures
        pass_prefix(nodes, order, env, k) == pass_prefix(nodes, order, env, j),
    decreases k - j,
{
    if j < k {
        lemma_pass_stops(nodes, order, env, j, k - 1);
    }
}

/// One full evaluation pass over `order`.
pub open spec fn pass(nodes: Seq<NodeView>, order: Seq<usize>, env: StateModel) -> (
    StateModel,
    Option<ErrorView>,
) {
    pass_prefix(nodes, order, env, order.len() as int)
}

/// Every node of `nodes` in state `s`.
pub open spec fn uniform(nodes: Seq<NodeView>, s: ObjectiveState) -> StateModel {
    Map::new(|k: Seq<char>| ids_of(nodes).contains(k), |k: Seq<char>| s)
}

/// The state a manual toggle moves a node to.
pub open spec fn toggled(s: ObjectiveState) -> ObjectiveState {
    match s {
        ObjectiveState::Disabled => ObjectiveState::Disabled,
        ObjectiveState::Locked => ObjectiveState::Unlocked,
        ObjectiveState::GlitchLocked => ObjectiveState::Unlocked,
        ObjectiveState::Unlocked => ObjectiveState::Complete,
        ObjectiveState::Complete => ObjectiveState::Locked,
    }
}

/// `env` with each update written over it, in order.
pub open spec fn overwritten(env: StateModel, updates: Seq<(Seq<char>, ObjectiveState)>) -> StateModel
    decreases updates.len(),
{
    if updates.len() == 0 {
        env
    } else {
        overwritten(env, updates.drop_last()).insert(updates.last().0, updates.last().1)
    }
}

pub open spec fn update_views(u: Seq<(String, ObjectiveState)>) -> Seq<(Seq<char>, ObjectiveState)> {
    u.map_values(|p: (String, ObjectiveState)| (p.0@, p.1))
}

/// The first id of `updates` that `env` has no state for.
pub open spec fn first_unknown(env: StateModel, updates: Seq<(Seq<char>, ObjectiveState)>) -> Option<
    Seq<char>,
>
    decreases updates.len(),
{
    if updates.len() == 0 {
        None
    } else if !env.contains_key(updates[0].0) {
        Some(updates[0].0)
    } else {
        first_unknown(env, updates.drop_first())
    }
}

/// The ids of the nodes at the positions `order` lists.
pub open spec fn ids_in(nodes: Seq<NodeView>, order: Seq<usize>) -> Seq<Seq<char>> {
    order.map_values(|k: usize| nodes[k as int].id)
}

fn toggle(s: ObjectiveState) -> (r: ObjectiveState)
    ensures
        r == toggled(s),
{
    match s {
        ObjectiveState::Disabled => ObjectiveState::Disabled,
        ObjectiveState::Locked => ObjectiveState::Unlocked,
        ObjectiveState::GlitchLocked => ObjectiveState::Unlocked,
        ObjectiveState::Unlocked => ObjectiveState::Complete,
        ObjectiveState::Complete => ObjectiveState::Locked,
    }
}

fn order_ids(module: &Module, order: &Vec<usize>) -> (r: Vec<String>)
    requires
        forall|p: int| 0 <= p < order.len() ==> order[p] < module.nodes.len(),
    ensures
        text_views(r@) == ids_in(node_views(module.nodes@), order@),
{
    let mut r: Vec<String> = Vec::new();
    let mut p: usize = 0;
    while p < order.len()
        invariant
            p <= order.len(),
            r.len() == p,
            forall|q: int| 0 <= q < order.len() ==> order[q] < module.nodes.len(),
            text_views(r@) == ids_in(node_views(module.nodes@), order@).take(p as int),
        decreases order.len() - p,
    {
        let ghost before = r@;
        let id = module.nodes[order[p]].id.clone();
        let ghost idv = id@;
        r.push(id);
        proof {
            assert(text_views(before) =~= ids_in(node_views(module.nodes@), order@).take(p as int));
            assert(r@ == before.push(id));
            assert(node_views(module.nodes@)[order[p as int] as int] == module.nodes[order[p as int] as int]@);
            let want = ids_in(node_views(module.nodes@), order@);
            assert(r@[p as int]@ == idv);
            assert(text_views(r@)[p as int] == want[p as int]);
            assert forall|q: int| 0 <= q < p implies #[trigger] text_views(r@)[q] == want[q] by {
                assert(r@[q] == before[q]);
                assert(text_views(before)[q] == want.take(p as int)[q]);
            }
            assert(text_views(r@) =~= want.take(p + 1));
        }
        p = p + 1;
    }
    assert(ids_in(node_views(module.nodes@), order@).take(p as int) =~= ids_in(node_views(module.nodes@), order@));
    r
}

/// The number of nodes of type `ty`.
pub open spec fn count_typed(nodes: Seq<NodeView>, ty: Seq<char>) -> nat
    decreases nodes.len(),
{
    if nodes.len() == 0 {
        0
    } else {
        count_typed(nodes.drop_last(), ty) + if nodes.last().ty == ty {
            1nat
        } else {
            0nat
        }
    }
}

/// The number of nodes of type `ty` that are unlocked or complete.
pub open spec fn count_found(nodes: Seq<NodeView>, env: StateModel, ty: Seq<char>) -> nat
    decreases nodes.len(),
{
    if nodes.len() == 0 {
        0
    } else {
        count_found(nodes.drop_last(), env, ty) + if nodes.last().ty == ty && env.contains_key(
            nodes.last().id,
        ) && reaches(env[nodes.last().id], ObjectiveState::Unlocked) {
            1nat
        } else {
            0nat
        }
    }
}

/// The state each check-box parameter asks for: unlocked when ticked, else disabled.
pub open spec fn param_updates(params: Seq<ModuleParam>) -> Seq<(Seq<char>, ObjectiveState)>
    decreases params.len(),
{
    if params.len() == 0 {
        Seq::empty()
    } else {
        param_updates(params.drop_last()) + match params.last().value {
            ModuleParamValue::CheckBox(v) => seq![
                (
                    v.id@,
                    if v.value {
                        ObjectiveState::Unlocked
                    } else {
                        ObjectiveState::Disabled
                    },
                ),
            ],
            _ => Seq::empty(),
        }
    }
}

/// A check-box parameter ticked exactly when its node is not disabled; other
/// parameters, and check boxes of unknown nodes, as they were.
pub open spec fn refreshed(p: ModuleParam, env: StateModel) -> ModuleParam {
    match p.value {
        ModuleParamValue::CheckBox(v) => if env.contains_key(v.id@) {
            ModuleParam {
                name: p.name,
                value: ModuleParamValue::CheckBox(
                    CheckBoxParamValue { id: v.id, value: env[v.id@] != ObjectiveState::Disabled },
                ),
            }
        } else {
            p
        },
        _ => p,
    }
}

/// Holds a loaded module, the state of each of its nodes and the order in
/// which a pass visits them.
pub struct Engine {
    module: Module,
    states: StateMap,
    eval_order: Vec<usize>,
    checks: Vec<String>,
}

impl Engine {
    /// The module's nodes.
    pub closed spec fn nodes(&self) -> Seq<NodeView> {
        node_views(self.module.nodes@)
    }

    /// The order of a pass.
    pub closed spec fn order(&self) -> Seq<usize> {
        self.eval_order@
    }

    /// The ids of the checks the popup shows.
    pub closed spec fn popup(&self) -> Seq<Seq<char>> {
        text_views(self.checks@)
    }

    /// The state of each node, by id.
    pub closed spec fn states(&self) -> StateModel {
        self.states@
    }

    pub closed spec fn wf(&self) -> bool {
        &&& self.module.wf()
        &&& self.states.wf()
        &&& self.states.ids.len() == self.module.nodes.len()
        &&& forall|i: int|
            0 <= i < self.states.ids.len() ==> #[trigger] self.states.ids[i]@
                == self.module.nodes[i].id@
        &&& is_eval_order(self.nodes(), self.order())
    }

    /// A well-formed engine holds exactly one state per node id, and its
    /// evaluation order lists every node once, after the nodes it reads.
    pub proof fn lemma_one_state_per_node(&self)
        requires
            self.wf(),
        ensures
            distinct(ids_of(self.nodes())),
            is_eval_order(self.nodes(), self.order()),
            forall|k: Seq<char>| #[trigger]
                self.states().contains_key(k) <==> ids_of(self.nodes()).contains(k),
    {
        assert forall|k: Seq<char>| #[trigger]
            self.states().contains_key(k) <==> ids_of(self.nodes()).contains(k) by {
            if self.states().contains_key(k) {
                let i = self.states.slot(k);
                assert(self.states.has(k));
                assert(ids_of(self.nodes())[i] == k);
            }
            if ids_of(self.nodes()).contains(k) {
                let i = choose|i: int|
                    0 <= i < ids_of(self.nodes()).len() && ids_of(self.nodes())[i] == k;
                self.states.lemma_slot(i);
            }
        }
    }

    proof fn lemma_state_at(&self, i: int)
        requires
            self.wf(),
            0 <= i < self.module.nodes.len(),
        ensures
            self.states().contains_key(self.nodes()[i].id),
            self.states()[self.nodes()[i].id] == self.states.states[i],
    {
        self.states.lemma_slot(i);
    }

    /// Builds the engine for `module`: every node starts disabled, then one
    /// pass brings the states up to date.
    pub fn new(module: Module) -> (r: Result<Engine, EngineError>)
        requires
            module.wf(),
        ensures
            match r {
                Ok(e) => {
                    &&& e.wf()
                    &&& e.nodes() == node_views(module.nodes@)
                    &&& pass(e.nodes(), e.order(), uniform(e.nodes(), ObjectiveState::Disabled)) == (
                        e.states(),
                        None::<ErrorView>,
                    )
                },
                Err(x) => ({
                    let nodes = node_views(module.nodes@);
                    ||| (x@ == ErrorView::CycleDetected && dependency_cycle(nodes))
                    ||| exists|o: Seq<usize>|
                        is_eval_order(nodes, o) && pass(
                            nodes,
                            o,
                            uniform(nodes, ObjectiveState::Disabled),
                        ).1 == Some(x@)
                }),
            },
    {
        let ghost nodes = node_views(module.nodes@);
        let order = match dependency_order(&module) {
            Ok(o) => o,
            Err(e) => {
                return Err(e);
            },
        };
        let n = module.nodes.len();
        let mut ids: Vec<String> = Vec::new();
        let mut states: Vec<ObjectiveState> = Vec::new();
        let mut i: usize = 0;
        while i < n
            invariant
                n == module.nodes.len(),
                i <= n,
                ids.len() == i,
                states.len() == i,
                forall|j: int| 0 <= j < i ==> #[trigger] ids[j]@ == module.nodes[j].id@,
                forall|j: int| 0 <= j < i ==> #[trigger] states[j] == ObjectiveState::Disabled,
            decreases n - i,
        {
            ids.push(module.nodes[i].id.clone());
            states.push(ObjectiveState::Disabled);
            i = i + 1;
        }
        let map = StateMap { ids, states };
        proof {
            assert forall|a: int, b: int| 0 <= a < b < map.ids.len() implies #[trigger] map.ids[a]@
                != #[trigger] map.ids[b]@ by {
                assert(ids_of(nodes)[a] != ids_of(nodes)[b]);
            }
            assert forall|k: Seq<char>| #[trigger] map@.contains_key(k) <==> ids_of(nodes).contains(k) by {
                if map@.contains_key(k) {
                    let j = map.slot(k);
                    assert(map.has(k));
                    assert(ids_of(nodes)[j] == k);
                }
                if ids_of(nodes).contains(k) {
                    let j = choose|j: int| 0 <= j < ids_of(nodes).len() && ids_of(nodes)[j] == k;
                    map.lemma_slot(j);
                }
            }
            assert forall|k: Seq<char>| #[trigger] map@.contains_key(k) implies map@[k]
                == ObjectiveState::Disabled by {
                let j = map.slot(k);
                assert(map.has(k));
            }
            assert(map@ =~= uniform(nodes, ObjectiveState::Disabled));
        }
        let mut engine = Engine { module, states: map, eval_order: order, checks: Vec::new() };
        match engine.eval_objectives() {
            Ok(()) => Ok(engine),
            Err(e) => Err(e),
        }
    }

    /// The order in which a pass visits the nodes of `module`, by id.
    pub fn calc_eval_order(module: &Module) -> (r: Result<Vec<String>, EngineError>)
        requires
            module.wf(),
        ensures
            match r {
                Ok(v) => exists|o: Seq<usize>|
                    is_eval_order(node_views(module.nodes@), o) && text_views(v@)
                        == ids_in(node_views(module.nodes@), o),
                Err(e) => e@ == ErrorView::CycleDetected && dependency_cycle(
                    node_views(module.nodes@),
                ),
            },
    {
        match dependency_order(module) {
            Ok(order) => Ok(order_ids(module, &order)),
            Err(e) => Err(e),
        }
    }

    /// The evaluation order, by id.
    pub fn eval_order(&self) -> (r: Vec<String>)
        requires
            self.wf(),
        ensures
            text_views(r@) == ids_in(self.nodes(), self.order()),
    {
        order_ids(&self.module, &self.eval_order)
    }

    /// Moves node `id` one step along the manual cycle, then runs a pass.
    pub fn toggle_state(&mut self, id: &String) -> (r: Result<(), EngineError>)
        requires
            old(self).wf(),
        ensures
            final(self).wf(),
            final(self).nodes() == old(self).nodes(),
            final(self).order() == old(self).order(),
            ({
                let env = old(self).states();
                let p = pass(
                    old(self).nodes(),
                    old(self).order(),
                    env.insert(id@, toggled(env[id@])),
                );
                if !env.contains_key(id@) {
                    &&& r is Err
                    &&& r->Err_0@ == ErrorView::NotFound { id: id@ }
                    &&& final(self).states() == env
                } else {
                    &&& final(self).states() == p.0
                    &&& match r {
                        Ok(()) => p.1 is None,
                        Err(e) => p.1 == Some(e@),
                    }
                }
            }),
    {
        match self.states.find(id) {
            Some(i) => {
                proof {
                    self.states.lemma_slot(i as int);
                }
                let s = toggle(self.states.states[i]);
                self.states.set_at(i, s);
                self.eval_objectives()
            },
            None => Err(EngineError::NotFound { id: id.clone() }),
        }
    }

    /// Writes every update over the current states, then runs one pass. An
    /// update naming an unknown id changes nothing and is reported.
    pub fn update_state(&mut self, updates: &Vec<(String, ObjectiveState)>) -> (r: Result<
        (),
        EngineError,
    >)
        requires
            old(self).wf(),
        ensures
            final(self).wf(),
            final(self).nodes() == old(self).nodes(),
            final(self).order() == old(self).order(),
            ({
                let env = old(self).states();
                let u = update_views(updates@);
                let p = pass(old(self).nodes(), old(self).order(), overwritten(env, u));
                match first_unknown(env, u) {
                    Some(bad) => {
                        &&& r is Err
                        &&& r->Err_0@ == ErrorView::NotFound { id: bad }
                        &&& final(self).states() == env
                    },
                    None => {
                        &&& final(self).states() == p.0
                        &&& match r {
                            Ok(()) => p.1 is None,
                            Err(e) => p.1 == Some(e@),
                        }
                    },
                }
            }),
    {
        let ghost env = self.states();
        let ghost u = update_views(updates@);
        let mut t: usize = 0;
        assert(u.subrange(0, u.len() as int) =~= u);
        while t < updates.len()
            invariant
                self.wf(),
                self.states() == env,
                env == old(self).states(),
                u == update_views(updates@),
                t <= updates.len(),
                first_unknown(env, u) == first_unknown(env, u.subrange(t as int, u.len() as int)),
            decreases updates.len() - t,
        {
            assert(u.subrange(t as int, u.len() as int).drop_first() =~= u.subrange(t + 1, u.len() as int));
            match self.states.find(&updates[t].0) {
                Some(_) => {},
                None => {
                    return Err(EngineError::NotFound { id: updates[t].0.clone() });
                },
            }
            t = t + 1;
        }
        let mut t: usize = 0;
        while t < updates.len()
            invariant
                self.wf(),
                self.nodes() == old(self).nodes(),
                self.order() == old(self).order(),
                env == old(self).states(),
                u == update_views(updates@),
                t <= updates.len(),
                first_unknown(env, u) is None,
                self.states() == overwritten(env, u.take(t as int)),
            decreases updates.len() - t,
        {
            proof {
                assert(u.take(t + 1).drop_last() =~= u.take(t as int));
                lemma_overwrite_keeps_keys(env, u.take(t as int), u, t as int);
            }
            let i = match self.states.find(&updates[t].0) {
                Some(i) => i,
                None => {
                    return Err(EngineError::NotFound { id: updates[t].0.clone() });
                },
            };
            self.states.set_at(i, updates[t].1);
            t = t + 1;
        }
        proof {
            assert(u.take(u.len() as int) =~= u);
        }
        self.eval_objectives()
    }

    /// How many nodes of type `ty` there are, and how many are found.
    pub fn count_type(&self, ty: &String) -> (r: DisplayViewCount)
        requires
            self.wf(),
            self.nodes().len() <= u32::MAX,
        ensures
            r.total == count_typed(self.nodes(), ty@),
            r.found == count_found(self.nodes(), self.states(), ty@),
    {
        let ghost nodes = self.nodes();
        let mut total: u32 = 0;
        let mut found: u32 = 0;
        let mut i: usize = 0;
        while i < self.module.nodes.len()
            invariant
                self.wf(),
                nodes == self.nodes(),
                nodes.len() <= u32::MAX,
                i <= nodes.len(),
                total as nat == count_typed(nodes.take(i as int), ty@),
                found as nat == count_found(nodes.take(i as int), self.states(), ty@),
                found <= total <= i,
            decreases nodes.len() - i,
        {
            proof {
                assert(nodes.take(i + 1).drop_last() =~= nodes.take(i as int));
                assert(nodes[i as int] == self.module.nodes[i as int]@);
                self.lemma_state_at(i as int);
            }
            if self.module.nodes[i].ty == *ty {
                total = total + 1;
                if self.states.states[i].at_least(&ObjectiveState::Unlocked) {
                    found = found + 1;
                }
            }
            i = i + 1;
        }
        proof {
            assert(nodes.take(i as int) =~= nodes);
        }
        DisplayViewCount { found, total }
    }

    /// Makes the checks of node `id` the ones the popup shows.
    pub fn build_popup(&mut self, id: &String) -> (r: Result<(), EngineError>)
        requires
            old(self).wf(),
        ensures
            final(self).wf(),
            final(self).nodes() == old(self).nodes(),
            final(self).order() == old(self).order(),
            final(self).states() == old(self).states(),
            match r {
                Ok(()) => exists|i: int|
                    0 <= i < old(self).nodes().len() && old(self).nodes()[i].id == id@
                        && final(self).popup() == old(self).nodes()[i].checks.map_values(
                        |c: crate::module::NodeCheckView| c.id,
                    ),
                Err(e) => {
                    &&& e@ == ErrorView::NotFound { id: id@ }
                    &&& forall|i: int|
                        0 <= i < old(self).nodes().len() ==> old(self).nodes()[i].id != id@
                    &&& final(self).popup() == old(self).popup()
                },
            },
    {
        match self.module.find(id) {
            Some(i) => {
                let mut v: Vec<String> = Vec::new();
                let mut k: usize = 0;
                while k < self.module.nodes[i].checks.len()
                    invariant
                        i < self.module.nodes.len(),
                        k <= self.module.nodes[i as int].checks.len(),
                        v.len() == k,
                        forall|q: int|
                            0 <= q < k ==> #[trigger] v@[q]@ == self.module.nodes[i as int].checks@[q].id@,
                    decreases self.module.nodes[i as int].checks.len() - k,
                {
                    v.push(self.module.nodes[i].checks[k].id.clone());
                    k = k + 1;
                }
                proof {
                    let info = self.module.nodes[i as int];
                    assert(self.nodes()[i as int] == info@);
                    assert(text_views(v@) =~= info@.checks.map_values(
                        |c: crate::module::NodeCheckView| c.id,
                    ));
                }
                self.checks = v;
                Ok(())
            },
            None => Err(EngineError::NotFound { id: id.clone() }),
        }
    }

    /// The ids of the checks the popup shows.
    pub fn checks(&self) -> (r: &Vec<String>)
        ensures
            text_views(r@) == self.popup(),
    {
        &self.checks
    }

    /// Ticks each check-box parameter whose node is not disabled.
    pub fn update_param_state(&self, params: &mut Vec<ModuleParam>)
        requires
            self.wf(),
        ensures
            final(params)@.len() == old(params)@.len(),
            forall|k: int|
                0 <= k < old(params)@.len() ==> #[trigger] final(params)@[k] == refreshed(
                    old(params)@[k],
                    self.states(),
                ),
    {
        let ghost start = params@;
        let mut k: usize = 0;
        while k < params.len()
            invariant
                self.wf(),
                params@.len() == start.len(),
                k <= start.len(),
                forall|q: int| 0 <= q < k ==> #[trigger] params@[q] == refreshed(start[q], self.states()),
                forall|q: int| k <= q < start.len() ==> #[trigger] params@[q] == start[q],
            decreases start.len() - k,
        {
            let next = match &params[k].value {
                ModuleParamValue::CheckBox(v) => match self.state(&v.id) {
                    Some(s) => Some(
                        ModuleParam {
                            name: params[k].name.clone(),
                            value: ModuleParamValue::CheckBox(
                                CheckBoxParamValue {
                                    id: v.id.clone(),
                                    value: s != ObjectiveState::Disabled,
                                },
                            ),
                        },
                    ),
                    None => None,
                },
                _ => None,
            };
            match next {
                Some(p) => {
                    params.set(k, p);
                },
                None => {},
            }
            k = k + 1;
        }
    }

    /// Sets each check-box parameter's node to unlocked or disabled, then runs
    /// one pass; as [`Engine::update_state`] with those updates.
    pub fn save_param_state(&mut self, params: &Vec<ModuleParam>) -> (r: Result<(), EngineError>)
        requires
            old(self).wf(),
        ensures
            final(self).wf(),
            final(self).nodes() == old(self).nodes(),
            final(self).order() == old(self).order(),
            ({
                let env = old(self).states();
                let u = param_updates(params@);
                let p = pass(old(self).nodes(), old(self).order(), overwritten(env, u));
                match first_unknown(env, u) {
                    Some(bad) => {
                        &&& r is Err
                        &&& r->Err_0@ == ErrorView::NotFound { id: bad }
                        &&& final(self).states() == env
                    },
                    None => {
                        &&& final(self).states() == p.0
                        &&& match r {
                            Ok(()) => p.1 is None,
                            Err(e) => p.1 == Some(e@),
                        }
                    },
                }
            }),
    {
        let mut updates: Vec<(String, ObjectiveState)> = Vec::new();
        let mut k: usize = 0;
        while k < params.len()
            invariant
                k <= params.len(),
                update_views(updates@) == param_updates(params@.take(k as int)),
            decreases params.len() - k,
        {
            proof {
                assert(params@.take(k + 1).drop_last() =~= params@.take(k as int));
            }
            let ghost before = updates@;
            match &params[k].value {
                ModuleParamValue::CheckBox(v) => {
                    let s = if v.value {
                        ObjectiveState::Unlocked
                    } else {
                        ObjectiveState::Disabled
                    };
                    updates.push((v.id.clone(), s));
                    proof {
                        assert(update_views(updates@) =~= update_views(before) + seq![(v.id@, s)]);
                    }
                },
                _ => {
                    proof {
                        assert(update_views(updates@) =~= update_views(before) + Seq::empty());
                    }
                },
            }
            k = k + 1;
        }
        proof {
            assert(params@.take(params.len() as int) =~= params@);
        }
        self.update_state(&updates)
    }

    /// The state of node `id`.
    pub fn state(&self, id: &String) -> (r: Option<ObjectiveState>)
        requires
            self.wf(),
        ensures
            r == (if self.states().contains_key(id@) {
                Some(self.states()[id@])
            } else {
                None::<ObjectiveState>
            }),
    {
        self.states.get(id)
    }

    /// The module the engine runs.
    pub fn module(&self) -> (r: &Module)
        ensures
            node_views(r.nodes@) == self.nodes(),
    {
        &self.module
    }

    /// One node's transition under the current states.
    fn node_step(info: &NodeInfo, x: ObjectiveState, states: &StateMap) -> (r: Result<
        ObjectiveState,
        EngineError,
    >)
        requires
            states.wf(),
        ensures
            agrees(r, next_state(info@, x, states@)),
    {
        let mut state = x;
        if !info.enabled_by.is_manual() {
            let enabled = info.enabled_by.evaluate_enabled(states)?;
            if state == ObjectiveState::Disabled && enabled {
                state = ObjectiveState::Locked;
            } else if state == ObjectiveState::Locked && !enabled {
                state = ObjectiveState::Disabled;
            }
        }
        if !info.unlocked_by.is_manual() {
            let unlocked = info.unlocked_by.evaluate_unlocked(states)?;
            if state == ObjectiveState::Locked && unlocked {
                state = ObjectiveState::Unlocked;
            } else if state == ObjectiveState::Unlocked && !unlocked {
                state = ObjectiveState::Locked;
            }
        }
        if !info.completed_by.is_manual() {
            let completed = info.completed_by.evaluate_unlocked(states)?;
            if completed {
                state = ObjectiveState::Complete;
            } else if state == ObjectiveState::Complete {
                state = ObjectiveState::Unlocked;
            }
        }
        Ok(state)
    }

    /// Runs one full pass over the evaluation order.
    pub fn eval_objectives(&mut self) -> (r: Result<(), EngineError>)
        requires
            old(self).wf(),
        ensures
            final(self).wf(),
            final(self).nodes() == old(self).nodes(),
            final(self).order() == old(self).order(),
            final(self).states() == pass(old(self).nodes(), old(self).order(), old(self).states()).0,
            match r {
                Ok(()) => pass(old(self).nodes(), old(self).order(), old(self).states()).1 is None,
                Err(e) => pass(old(self).nodes(), old(self).order(), old(self).states()).1 == Some(
                    e@,
                ),
            },
    {
        let ghost nodes = self.nodes();
        let ghost order = self.order();
        let ghost start = self.states();
        let mut k: usize = 0;
        while k < self.eval_order.len()
            invariant
                self.wf(),
                self.nodes() == nodes,
                self.order() == order,
                nodes == old(self).nodes(),
                order == old(self).order(),
                start == old(self).states(),
                k <= order.len(),
                pass_prefix(nodes, order, start, k as int) == (self.states(), None::<ErrorView>),
            decreases order.len() - k,
        {
            let idx = self.eval_order[k];
            proof {
                self.lemma_state_at(idx as int);
            }
            let step = Self::node_step(&self.module.nodes[idx], self.states.states[idx], &self.states);
            match step {
                Ok(s) => {
                    self.states.set_at(idx, s);
                },
                Err(e) => {
                    proof {
                        lemma_pass_stops(nodes, order, start, k + 1, order.len() as int);
                    }
                    return Err(e);
                },
            }
            k = k + 1;
        }
        Ok(())
    }
}

} // verus!
