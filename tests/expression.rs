use tracker::error::EngineError;
use tracker::expression::Expression;
use tracker::state::StateMap;
use tracker::state::ObjectiveState;

fn node(id: &str) -> Expression {
    Expression::Node(id.to_string())
}

fn complete(id: &str) -> Expression {
    Expression::NodeComplete(id.to_string())
}

fn not(e: Expression) -> Expression {
    Expression::Not(Box::new(e))
}

fn and(a: Expression, b: Expression) -> Expression {
    Expression::And(Box::new(a), Box::new(b))
}

fn or(a: Expression, b: Expression) -> Expression {
    Expression::Or(Box::new(a), Box::new(b))
}

fn test_expression(s: &str, e: Expression) {
    assert_eq!(Expression::parse(s), Ok(e));
}

fn test_expressions(exprs: &Vec<&str>, e: Expression) {
    for s in exprs {
        assert_eq!(Expression::parse(s), Ok(e.clone()));
    }
}

fn rest(s: &str) -> Result<Expression, EngineError> {
    Err(EngineError::Parse { rest: s.to_string() })
}

#[test]
fn node_names() {
    test_expression("a", node("a"));
    test_expression("aa", node("aa"));
    test_expression("a0", node("a0"));
    test_expression("a0-b1-2", node("a0-b1-2"));
    test_expression("a0-b1-c2", node("a0-b1-c2"));
    test_expression(" a0-b1-c2", node("a0-b1-c2"));

    assert_eq!(Expression::parse("0"), rest("0"));
    assert_eq!(Expression::parse("-"), rest("-"));
    assert_eq!(Expression::parse("0a"), rest("0a"));
    assert_eq!(Expression::parse("-a"), rest("-a"));
}

#[test]
fn expressions() {
    test_expressions(&vec!["param"], Expression::Manual);

    test_expressions(
        &vec!["complete(tower-key)", " complete ( tower-key )"],
        complete("tower-key"),
    );
    test_expressions(
        &vec![
            "!tower-key",
            " !tower-key",
            "! tower-key",
            " ! tower-key",
            "( ! tower-key)",
            "!(tower-key)",
        ],
        not(node("tower-key")),
    );

    test_expressions(
        &vec![
            "tower-key && luca-key",
            "(tower-key && luca-key)",
            "(tower-key) && (luca-key)",
        ],
        and(node("tower-key"), node("luca-key")),
    );

    test_expressions(
        &vec![
            "tower-key && !luca-key",
            "(tower-key && !luca-key)",
            "(tower-key) && !(luca-key)",
        ],
        and(node("tower-key"), not(node("luca-key"))),
    );

    test_expressions(
        &vec![
            "tower-key || luca-key",
            "(tower-key || luca-key)",
            "(tower-key) || (luca-key)",
        ],
        or(node("tower-key"), node("luca-key")),
    );

    test_expressions(
        &vec!["tower-key && magma-key && luca-key"],
        and(node("tower-key"), and(node("magma-key"), node("luca-key"))),
    );

    test_expressions(
        &vec!["tower-key && magma-key || luca-key"],
        or(and(node("tower-key"), node("magma-key")), node("luca-key")),
    );

    test_expressions(
        &vec!["complete(hook) || complete(magma-key)"],
        or(complete("hook"), complete("magma-key")),
    );
}

#[test]
fn deps() {
    assert_eq!(
        Expression::parse("complete(hook) || complete(magma-key)")
            .unwrap()
            .deps(),
        vec!["hook".to_string(), "magma-key".to_string()]
    );

    assert_eq!(
        Expression::parse("complete(hook) || !complete(magma-key)")
            .unwrap()
            .deps(),
        vec!["hook".to_string(), "magma-key".to_string()]
    );

    assert_eq!(
        Expression::parse("tower-key && complete(magma-key) || !luca-key")
            .unwrap()
            .deps(),
        vec![
            "tower-key".to_string(),
            "magma-key".to_string(),
            "luca-key".to_string()
        ]
    );
}

#[test]
fn parse_documented_shapes() {
    assert_eq!(Expression::parse("a && b"), Ok(and(node("a"), node("b"))));
    assert_eq!(
        Expression::parse("complete(x) || !complete(y)"),
        Ok(or(complete("x"), not(complete("y"))))
    );
}

#[test]
fn parse_rejects_bad_text() {
    assert_eq!(Expression::parse("(a"), rest(""));
    assert_eq!(Expression::parse("a)"), rest(")"));
    assert_eq!(Expression::parse("a-"), rest("-"));
    assert_eq!(Expression::parse("a && "), rest(""));
    assert_eq!(Expression::parse("a & b"), rest("& b"));
    assert_eq!(Expression::parse(""), rest(""));
    assert_eq!(Expression::parse("complete(x"), rest(""));
}

#[test]
fn parse_keywords_as_ids() {
    assert_eq!(Expression::parse("params"), Ok(node("params")));
    assert_eq!(Expression::parse("complete"), Ok(node("complete")));
    assert_eq!(Expression::parse("completed-x"), Ok(node("completed-x")));
    assert_eq!(Expression::parse(" param "), Ok(Expression::Manual));
}

#[test]
fn folds_drop_constants() {
    assert_eq!(Expression::False.or(node("a")), node("a"));
    assert_eq!(node("a").or(Expression::False), node("a"));
    assert_eq!(node("a").or(Expression::True), Expression::True);
    assert_eq!(node("a").or(node("b")), or(node("a"), node("b")));
    assert_eq!(Expression::True.and(node("a")), node("a"));
    assert_eq!(node("a").and(Expression::True), node("a"));
    assert_eq!(node("a").and(Expression::False), Expression::False);
    assert_eq!(node("a").and(node("b")), and(node("a"), node("b")));
}

#[test]
fn eval_default_replaces_only_default() {
    assert_eq!(Expression::Default.eval_default(Expression::True), Expression::True);
    assert_eq!(node("a").eval_default(Expression::True), node("a"));
    assert_eq!(Expression::default(), Expression::Default);
}

fn states(entries: &[(&str, ObjectiveState)]) -> StateMap {
    let mut m = StateMap::new();
    for (id, s) in entries {
        m.insert(id.to_string(), *s);
    }
    m
}

#[test]
fn evaluation_thresholds() {
    let m = states(&[
        ("a", ObjectiveState::Locked),
        ("b", ObjectiveState::Unlocked),
        ("c", ObjectiveState::Complete),
        ("d", ObjectiveState::Disabled),
    ]);
    assert_eq!(node("a").evaluate_enabled(&m), Ok(true));
    assert_eq!(node("a").evaluate_unlocked(&m), Ok(false));
    assert_eq!(node("b").evaluate_unlocked(&m), Ok(true));
    assert_eq!(node("d").evaluate_enabled(&m), Ok(false));
    assert_eq!(complete("c").evaluate_unlocked(&m), Ok(true));
    assert_eq!(complete("b").evaluate_unlocked(&m), Ok(false));
    assert_eq!(Expression::NodeDisabled("d".to_string()).evaluate_unlocked(&m), Ok(true));
    assert_eq!(Expression::NodeUnlocked("c".to_string()).evaluate_unlocked(&m), Ok(false));
    assert_eq!(not(node("a")).evaluate_unlocked(&m), Ok(true));
    assert_eq!(and(node("b"), node("c")).evaluate_unlocked(&m), Ok(true));
    assert_eq!(or(node("a"), node("d")).evaluate_unlocked(&m), Ok(false));
}

#[test]
fn evaluation_errors() {
    let m = states(&[("a", ObjectiveState::Locked)]);
    assert_eq!(
        node("zz").evaluate_unlocked(&m),
        Err(EngineError::NotFound { id: "zz".to_string() })
    );
    assert_eq!(Expression::Manual.evaluate_unlocked(&m), Err(EngineError::Unresolved));
    assert_eq!(Expression::Default.evaluate_enabled(&m), Err(EngineError::Unresolved));
    // The left operand decides before the missing id is looked up.
    assert_eq!(and(node("a"), node("zz")).evaluate_unlocked(&m), Ok(false));
    assert_eq!(or(node("a"), node("zz")).evaluate_enabled(&m), Ok(true));
}

#[test]
fn state_map_insert_and_get() {
    let mut m = states(&[("a", ObjectiveState::Locked)]);
    m.insert("a".to_string(), ObjectiveState::Complete);
    assert_eq!(m.get(&"a".to_string()), Some(ObjectiveState::Complete));
    assert_eq!(m.get(&"b".to_string()), None);
    assert_eq!(m.ids.len(), 1);
}
