use vstd::prelude::*;

use crate::error::{agrees, EngineError, ErrorView};
use crate::state::{reaches, ObjectiveState, StateMap};

verus! {

/// A condition over node states, as written in a module.
#[derive(Debug, PartialEq, Eq)]
pub enum Expression {
    /// Not given; replaced by a contextual default when the module is built.
    Default,
    /// Never evaluated; only direct action moves the node in this dimension.
    Manual,
    True,
    False,
    /// The node is at least as far as the evaluation threshold.
    Node(String),
    NodeComplete(String),
    NodeDisabled(String),
    NodeUnlocked(String),
    And(Box<Expression>, Box<Expression>),
    Or(Box<Expression>, Box<Expression>),
    Not(Box<Expression>),
}

/// The mathematical value of an [`Expression`]: ids are character sequences.
pub enum ExprView {
    Default,
    Manual,
    True,
    False,
    Node(Seq<char>),
    NodeComplete(Seq<char>),
    NodeDisabled(Seq<char>),
    NodeUnlocked(Seq<char>),
    And(Box<ExprView>, Box<ExprView>),
    Or(Box<ExprView>, Box<ExprView>),
    Not(Box<ExprView>),
}

/// The value of `e`, with each id taken as its characters.
pub open spec fn expr_view(e: &Expression) -> ExprView
    decreases e,
{
    match e {
        Expression::Default => ExprView::Default,
        Expression::Manual => ExprView::Manual,
        Expression::True => ExprView::True,
        Expression::False => ExprView::False,
        Expression::Node(id) => ExprView::Node(id@),
        Expression::NodeComplete(id) => ExprView::NodeComplete(id@),
        Expression::NodeDisabled(id) => ExprView::NodeDisabled(id@),
        Expression::NodeUnlocked(id) => ExprView::NodeUnlocked(id@),
        Expression::And(a, b) => ExprView::And(Box::new(expr_view(a)), Box::new(expr_view(b))),
        Expression::Or(a, b) => ExprView::Or(Box::new(expr_view(a)), Box::new(expr_view(b))),
        Expression::Not(a) => ExprView::Not(Box::new(expr_view(a))),
    }
}

impl View for Expression {
    type V = ExprView;

    open spec fn view(&self) -> ExprView {
        expr_view(self)
    }
}

/// Disjunction with the constants folded away.
pub open spec fn disjoin(a: ExprView, b: ExprView) -> ExprView {
    if a == ExprView::False {
        b
    } else if b == ExprView::False {
        a
    } else if a == ExprView::True || b == ExprView::True {
        ExprView::True
    } else {
        ExprView::Or(Box::new(a), Box::new(b))
    }
}

/// Conjunction with the constants folded away.
pub open spec fn conjoin(a: ExprView, b: ExprView) -> ExprView {
    if a == ExprView::True {
        b
    } else if b == ExprView::True {
        a
    } else if a == ExprView::False || b == ExprView::False {
        ExprView::False
    } else {
        ExprView::And(Box::new(a), Box::new(b))
    }
}

/// The ids an expression reads, left to right, repeats kept.
pub open spec fn deps_of(e: ExprView) -> Seq<Seq<char>>
    decreases e,
{
    match e {
        ExprView::Node(id) => seq![id],
        ExprView::NodeComplete(id) => seq![id],
        ExprView::NodeDisabled(id) => seq![id],
        ExprView::NodeUnlocked(id) => seq![id],
        ExprView::Not(a) => deps_of(*a),
        ExprView::And(a, b) => deps_of(*a) + deps_of(*b),
        ExprView::Or(a, b) => deps_of(*a) + deps_of(*b),
        _ => Seq::empty(),
    }
}

/// The state recorded for `id`, or the lookup failure.
pub open spec fn state_of(env: Map<Seq<char>, ObjectiveState>, id: Seq<char>) -> Result<
    ObjectiveState,
    ErrorView,
> {
    if env.contains_key(id) {
        Ok(env[id])
    } else {
        Err(ErrorView::NotFound { id })
    }
}

/// Value of an expression over the states in `env`; `Node(id)` asks whether the
/// node has reached `th`. `&&` and `||` stop at their left operand when it decides.
pub open spec fn eval(e: ExprView, env: Map<Seq<char>, ObjectiveState>, th: ObjectiveState) -> Result<
    bool,
    ErrorView,
>
    decreases e,
{
    match e {
        ExprView::Default => Err(ErrorView::Unresolved),
        ExprView::Manual => Err(ErrorView::Unresolved),
        ExprView::True => Ok(true),
        ExprView::False => Ok(false),
        ExprView::Node(id) => match state_of(env, id) {
            Ok(s) => Ok(reaches(s, th)),
            Err(f) => Err(f),
        },
        ExprView::NodeComplete(id) => match state_of(env, id) {
            Ok(s) => Ok(s == ObjectiveState::Complete),
            Err(f) => Err(f),
        },
        ExprView::NodeDisabled(id) => match state_of(env, id) {
            Ok(s) => Ok(s == ObjectiveState::Disabled),
            Err(f) => Err(f),
        },
        ExprView::NodeUnlocked(id) => match state_of(env, id) {
            Ok(s) => Ok(s == ObjectiveState::Unlocked),
            Err(f) => Err(f),
        },
        ExprView::Not(a) => match eval(*a, env, th) {
            Ok(v) => Ok(!v),
            Err(f) => Err(f),
        },
        ExprView::And(a, b) => match eval(*a, env, th) {
            Ok(true) => eval(*b, env, th),
            other => other,
        },
        ExprView::Or(a, b) => match eval(*a, env, th) {
            Ok(false) => eval(*b, env, th),
            other => other,
        },
    }
}

impl Expression {
    /// An expression that is the same value as `self`.
    pub fn duplicate(&self) -> (r: Expression)
        ensures
            r@ == self@,
        decreases self,
    {
        match self {
            Expression::Default => Expression::Default,
            Expression::Manual => Expression::Manual,
            Expression::True => Expression::True,
            Expression::False => Expression::False,
            Expression::Node(id) => Expression::Node(id.clone()),
            Expression::NodeComplete(id) => Expression::NodeComplete(id.clone()),
            Expression::NodeDisabled(id) => Expression::NodeDisabled(id.clone()),
            Expression::NodeUnlocked(id) => Expression::NodeUnlocked(id.clone()),
            Expression::And(a, b) => Expression::And(
                Box::new(a.duplicate()),
                Box::new(b.duplicate()),
            ),
            Expression::Or(a, b) => Expression::Or(Box::new(a.duplicate()), Box::new(b.duplicate())),
            Expression::Not(a) => Expression::Not(Box::new(a.duplicate())),
        }
    }

    pub fn is_default(&self) -> (r: bool)
        ensures
            r == (self@ == ExprView::Default),
    {
        match self {
            Expression::Default => true,
            _ => false,
        }
    }

    pub fn is_manual(&self) -> (r: bool)
        ensures
            r == (self@ == ExprView::Manual),
    {
        match self {
            Expression::Manual => true,
            _ => false,
        }
    }

    fn is_true(&self) -> (r: bool)
        ensures
            r == (self@ == ExprView::True),
    {
        match self {
            Expression::True => true,
            _ => false,
        }
    }

    fn is_false(&self) -> (r: bool)
        ensures
            r == (self@ == ExprView::False),
    {
        match self {
            Expression::False => true,
            _ => false,
        }
    }

    /// `default_value` if `self` is `Default`, else `self` unchanged.
    pub fn eval_default(self, default_value: Expression) -> (r: Expression)
        ensures
            r@ == (if self@ == ExprView::Default {
                default_value@
            } else {
                self@
            }),
    {
        if self.is_default() {
            default_value
        } else {
            self
        }
    }

    pub fn or(self, other: Self) -> (r: Expression)
        ensures
            r@ == disjoin(self@, other@),
    {
        if self.is_false() {
            other
        } else if other.is_false() {
            self
        } else if other.is_true() || self.is_true() {
            Expression::True
        } else {
            Expression::Or(Box::new(self), Box::new(other))
        }
    }

    pub fn and(self, other: Self) -> (r: Expression)
        ensures
            r@ == conjoin(self@, other@),
    {
        if self.is_true() {
            other
        } else if other.is_true() {
            self
        } else if other.is_false() || self.is_false() {
            Expression::False
        } else {
            Expression::And(Box::new(self), Box::new(other))
        }
    }

    /// The ids this expression reads.
    pub fn deps(&self) -> (r: Vec<String>)
        ensures
            r@.map_values(|s: String| s@) == deps_of(self@),
        decreases self,
    {
        match self {
            Expression::Default | Expression::Manual | Expression::False | Expression::True => {
                let r: Vec<String> = Vec::new();
                assert(r@.map_values(|s: String| s@) =~= deps_of(self@));
                r
            },
            Expression::Node(id)
            | Expression::NodeComplete(id)
            | Expression::NodeDisabled(id)
            | Expression::NodeUnlocked(id) => {
                let mut r: Vec<String> = Vec::new();
                r.push(id.clone());
                assert(r@.map_values(|s: String| s@) =~= deps_of(self@));
                r
            },
            Expression::Not(a) => a.deps(),
            Expression::And(a, b) | Expression::Or(a, b) => {
                let mut d = a.deps();
                let mut e = b.deps();
                let ghost da = d@;
                let ghost db = e@;
                d.append(&mut e);
                assert(d@ == da + db);
                assert(d@.map_values(|s: String| s@) =~= da.map_values(|s: String| s@)
                    + db.map_values(|s: String| s@));
                d
            },
        }
    }

    /// Evaluates against the states in `state`, with `Node(id)` true when the node
    /// has reached `threshold`.
    pub fn evaluate_by(&self, state: &StateMap, threshold: &ObjectiveState) -> (r: Result<
        bool,
        EngineError,
    >)
        requires
            state.wf(),
        ensures
            agrees(r, eval(self@, state@, *threshold)),
        decreases self,
    {
        match self {
            Expression::Default => Err(EngineError::Unresolved),
            Expression::Manual => Err(EngineError::Unresolved),
            Expression::False => Ok(false),
            Expression::True => Ok(true),
            Expression::Node(id) => match state.get(id) {
                Some(s) => Ok(s.at_least(threshold)),
                None => Err(EngineError::NotFound { id: id.clone() }),
            },
            Expression::NodeComplete(id) => match state.get(id) {
                Some(s) => Ok(s.is(&ObjectiveState::Complete)),
                None => Err(EngineError::NotFound { id: id.clone() }),
            },
            Expression::NodeDisabled(id) => match state.get(id) {
                Some(s) => Ok(s.is(&ObjectiveState::Disabled)),
                None => Err(EngineError::NotFound { id: id.clone() }),
            },
            Expression::NodeUnlocked(id) => match state.get(id) {
                Some(s) => Ok(s.is(&ObjectiveState::Unlocked)),
                None => Err(EngineError::NotFound { id: id.clone() }),
            },
            Expression::Not(a) => match a.evaluate_by(state, threshold) {
                Ok(v) => Ok(!v),
                Err(e) => Err(e),
            },
            Expression::And(a, b) => match a.evaluate_by(state, threshold) {
                Ok(true) => b.evaluate_by(state, threshold),
                other => other,
            },
            Expression::Or(a, b) => match a.evaluate_by(state, threshold) {
                Ok(false) => b.evaluate_by(state, threshold),
                other => other,
            },
        }
    }

    /// Evaluates with threshold `Unlocked`.
    pub fn evaluate_unlocked(&self, state: &StateMap) -> (r: Result<bool, EngineError>)
        requires
            state.wf(),
        ensures
            agrees(r, eval(self@, state@, ObjectiveState::Unlocked)),
    {
        self.evaluate_by(state, &ObjectiveState::Unlocked)
    }

    /// Evaluates with threshold `Locked`.
    pub fn evaluate_enabled(&self, state: &StateMap) -> (r: Result<bool, EngineError>)
        requires
            state.wf(),
        ensures
            agrees(r, eval(self@, state@, ObjectiveState::Locked)),
    {
        self.evaluate_by(state, &ObjectiveState::Locked)
    }
}

impl Clone for Expression {
    fn clone(&self) -> (r: Expression)
        ensures
            r@ == self@,
    {
        self.duplicate()
    }
}

impl Default for Expression {
    fn default() -> (r: Expression)
        ensures
            r@ == ExprView::Default,
    {
        Expression::Default
    }
}

} // verus!
