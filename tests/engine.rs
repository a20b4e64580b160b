use tracker::display::{CheckBoxParamValue, ModuleParam, ModuleParamValue};
use tracker::engine::Engine;
use tracker::error::EngineError;
use tracker::expression::Expression;
use tracker::module::{expand_node, Module, NodeCheck, NodeFile, NodeInfo};
use tracker::state::ObjectiveState;

fn expr(s: &str) -> Expression {
    if s.is_empty() {
        Expression::Default
    } else {
        Expression::parse(s).unwrap()
    }
}

fn info(id: &str, enabled_by: &str, unlocked_by: &str, checks: Vec<NodeCheck>) -> NodeInfo {
    NodeInfo {
        id: id.to_string(),
        ty: String::new(),
        name: id.to_string(),
        completed_by: Expression::Default,
        enabled_by: expr(enabled_by),
        unlocked_by: expr(unlocked_by),
        checks,
    }
}

fn check(id: &str, enabled_by: &str, unlocked_by: &str) -> NodeCheck {
    NodeCheck {
        ty: "key-item".to_string(),
        id: id.to_string(),
        name: String::new(),
        enabled_by: expr(enabled_by),
        unlocked_by: expr(unlocked_by),
    }
}

fn file(path: &str, nodes: Vec<NodeInfo>) -> NodeFile {
    NodeFile { ty: "location".to_string(), path: path.to_string(), nodes }
}

fn engine(nodes: Vec<NodeInfo>) -> Engine {
    let module = Module::from_files(&vec![file("nodes.json", nodes)]).unwrap();
    Engine::new(module).unwrap()
}

fn state(e: &Engine, id: &str) -> ObjectiveState {
    e.state(&id.to_string()).unwrap()
}

fn update(e: &mut Engine, updates: &[(&str, ObjectiveState)]) -> Result<(), EngineError> {
    let u: Vec<(String, ObjectiveState)> = updates.iter().map(|x| (x.0.to_string(), x.1)).collect();
    e.update_state(&u)
}

#[test]
fn gating_chain() {
    let mut e = engine(vec![
        info("magma-key", "", "", vec![]),
        info("d-castle", "", "complete(magma-key)", vec![]),
    ]);
    update(&mut e, &[("magma-key", ObjectiveState::Unlocked)]).unwrap();
    assert_eq!(state(&e, "magma-key"), ObjectiveState::Unlocked);
    assert_eq!(state(&e, "d-castle"), ObjectiveState::Locked);
    update(&mut e, &[("magma-key", ObjectiveState::Complete)]).unwrap();
    assert_eq!(state(&e, "d-castle"), ObjectiveState::Unlocked);
    update(&mut e, &[("magma-key", ObjectiveState::Unlocked)]).unwrap();
    assert_eq!(state(&e, "d-castle"), ObjectiveState::Locked);
}

#[test]
fn manual_toggle_cycle() {
    let mut e = engine(vec![info("pan", "", "", vec![])]);
    let id = "pan".to_string();
    assert_eq!(state(&e, "pan"), ObjectiveState::Locked);
    e.toggle_state(&id).unwrap();
    assert_eq!(state(&e, "pan"), ObjectiveState::Unlocked);
    e.toggle_state(&id).unwrap();
    assert_eq!(state(&e, "pan"), ObjectiveState::Complete);
    e.toggle_state(&id).unwrap();
    assert_eq!(state(&e, "pan"), ObjectiveState::Locked);
}

#[test]
fn toggle_leaves_disabled_and_glitch_locked() {
    let mut e = engine(vec![info("flag", "param", "param", vec![]), info("pan", "", "", vec![])]);
    assert_eq!(state(&e, "flag"), ObjectiveState::Disabled);
    e.toggle_state(&"flag".to_string()).unwrap();
    assert_eq!(state(&e, "flag"), ObjectiveState::Disabled);
    update(&mut e, &[("pan", ObjectiveState::GlitchLocked)]).unwrap();
    e.toggle_state(&"pan".to_string()).unwrap();
    assert_eq!(state(&e, "pan"), ObjectiveState::Unlocked);
}

#[test]
fn toggle_unknown_id() {
    let mut e = engine(vec![info("pan", "", "", vec![])]);
    assert_eq!(
        e.toggle_state(&"nope".to_string()),
        Err(EngineError::NotFound { id: "nope".to_string() })
    );
    assert_eq!(state(&e, "pan"), ObjectiveState::Locked);
}

#[test]
fn update_unknown_id_changes_nothing() {
    let mut e = engine(vec![info("pan", "", "", vec![])]);
    assert_eq!(
        update(&mut e, &[("pan", ObjectiveState::Complete), ("nope", ObjectiveState::Locked)]),
        Err(EngineError::NotFound { id: "nope".to_string() })
    );
    assert_eq!(state(&e, "pan"), ObjectiveState::Locked);
}

#[test]
fn duplicate_id_rejected() {
    let files = vec![
        file("a/nodes.json", vec![info("pan", "", "", vec![])]),
        file("b/nodes.json", vec![info("pan", "", "", vec![])]),
    ];
    assert_eq!(
        Module::from_files(&files).err(),
        Some(EngineError::DuplicateId {
            id: "pan".to_string(),
            first: "a/nodes.json".to_string(),
            second: "b/nodes.json".to_string(),
        })
    );
}

#[test]
fn duplicate_check_id_rejected() {
    let files = vec![file(
        "nodes.json",
        vec![info("baron", "", "", vec![check("", "", ""), check("baron:0", "", "")])],
    )];
    assert_eq!(
        Module::from_files(&files).err(),
        Some(EngineError::DuplicateId {
            id: "baron:0".to_string(),
            first: "nodes.json".to_string(),
            second: "nodes.json".to_string(),
        })
    );
}

#[test]
fn mutual_unlock_is_a_cycle() {
    let module = Module::from_files(&vec![file(
        "nodes.json",
        vec![info("a", "", "b", vec![]), info("b", "", "a", vec![])],
    )])
    .unwrap();
    assert_eq!(Engine::calc_eval_order(&module), Err(EngineError::CycleDetected));
    assert_eq!(Engine::new(module).err(), Some(EngineError::CycleDetected));
}

#[test]
fn eval_order_puts_dependencies_first() {
    let module = Module::from_files(&vec![file(
        "nodes.json",
        vec![info("c", "", "b", vec![]), info("b", "", "a", vec![]), info("a", "", "", vec![])],
    )])
    .unwrap();
    let order = Engine::calc_eval_order(&module).unwrap();
    let pos = |id: &str| order.iter().position(|x| x == id).unwrap();
    assert_eq!(order.len(), 3);
    assert!(pos("a") < pos("b"));
    assert!(pos("b") < pos("c"));
}

#[test]
fn all_checks_disabled_completes_parent() {
    let mut e = engine(vec![
        info("flag", "param", "param", vec![]),
        info("cave", "", "", vec![check("", "flag", ""), check("", "flag", "")]),
    ]);
    assert_eq!(state(&e, "cave:0"), ObjectiveState::Disabled);
    assert_eq!(state(&e, "cave:1"), ObjectiveState::Disabled);
    assert_eq!(state(&e, "cave"), ObjectiveState::Complete);

    update(&mut e, &[("flag", ObjectiveState::Unlocked)]).unwrap();
    assert_eq!(state(&e, "cave:0"), ObjectiveState::Unlocked);
    assert_eq!(state(&e, "cave"), ObjectiveState::Unlocked);

    update(&mut e, &[("cave:0", ObjectiveState::Complete)]).unwrap();
    assert_eq!(state(&e, "cave"), ObjectiveState::Unlocked);
    update(&mut e, &[("cave:1", ObjectiveState::Complete)]).unwrap();
    assert_eq!(state(&e, "cave"), ObjectiveState::Complete);
}

#[test]
fn second_pass_changes_nothing() {
    let mut e = engine(vec![
        info("flag", "param", "param", vec![]),
        info("magma-key", "", "", vec![]),
        info("d-castle", "", "complete(magma-key)", vec![]),
        info("cave", "", "", vec![check("", "flag", ""), check("", "", "magma-key")]),
    ]);
    update(&mut e, &[("magma-key", ObjectiveState::Complete)]).unwrap();
    let ids = e.eval_order();
    let before: Vec<ObjectiveState> = ids.iter().map(|id| e.state(id).unwrap()).collect();
    e.eval_objectives().unwrap();
    let after: Vec<ObjectiveState> = ids.iter().map(|id| e.state(id).unwrap()).collect();
    assert_eq!(before, after);
}

#[test]
fn checks_become_nodes() {
    let parent = info("baron", "", "", vec![check("", "", ""), check("baron-key-check", "", "")]);
    let nodes = expand_node(&parent, &"location".to_string());
    let ids: Vec<String> = nodes.iter().map(|n| n.id.clone()).collect();
    assert_eq!(ids, vec!["baron", "baron:0", "baron-key-check"]);
    assert_eq!(nodes[0].ty, "location");
    assert_eq!(nodes[1].ty, "key-item");
    assert_eq!(nodes[1].enabled_by, Expression::True);
    assert_eq!(nodes[1].completed_by, Expression::Manual);
    assert_eq!(
        nodes[0].enabled_by,
        Expression::Node("baron:0".to_string()).or(Expression::Node("baron-key-check".to_string()))
    );
    assert_eq!(
        nodes[0].unlocked_by,
        Expression::Or(
            Box::new(Expression::NodeUnlocked("baron:0".to_string())),
            Box::new(Expression::NodeUnlocked("baron-key-check".to_string())),
        )
    );
    assert_eq!(nodes[0].checks[0].id, "baron:0");
}

#[test]
fn node_without_checks_gets_defaults() {
    let nodes = expand_node(&info("pan", "", "", vec![]), &"location".to_string());
    assert_eq!(nodes.len(), 1);
    assert_eq!(nodes[0].enabled_by, Expression::True);
    assert_eq!(nodes[0].unlocked_by, Expression::Manual);
    assert_eq!(nodes[0].completed_by, Expression::Manual);
}

#[test]
fn check_ids_count_past_nine() {
    let checks: Vec<NodeCheck> = (0..12).map(|_| check("", "", "")).collect();
    let nodes = expand_node(&info("mt", "", "", checks), &"location".to_string());
    assert_eq!(nodes[11].id, "mt:10");
    assert_eq!(nodes[12].id, "mt:11");
}

#[test]
fn count_and_params() {
    let mut e = engine(vec![
        info("flag", "param", "param", vec![]),
        info("a", "", "", vec![]),
        info("b", "", "", vec![]),
    ]);
    let c = e.count_type(&"location".to_string());
    assert_eq!((c.found, c.total), (0, 3));
    update(&mut e, &[("a", ObjectiveState::Unlocked)]).unwrap();
    let c = e.count_type(&"location".to_string());
    assert_eq!((c.found, c.total), (1, 3));

    let params = vec![ModuleParam {
        name: "Flag".to_string(),
        value: ModuleParamValue::CheckBox(CheckBoxParamValue { id: "flag".to_string(), value: true }),
    }];
    e.save_param_state(&params).unwrap();
    assert_eq!(state(&e, "flag"), ObjectiveState::Unlocked);

    let mut shown = vec![
        ModuleParam {
            name: "Flag".to_string(),
            value: ModuleParamValue::CheckBox(CheckBoxParamValue { id: "flag".to_string(), value: false }),
        },
        ModuleParam { name: "Seed".to_string(), value: ModuleParamValue::TextBox("x".to_string()) },
    ];
    e.update_param_state(&mut shown);
    assert_eq!(
        shown[0].value,
        ModuleParamValue::CheckBox(CheckBoxParamValue { id: "flag".to_string(), value: true })
    );
    assert_eq!(shown[1].value, ModuleParamValue::TextBox("x".to_string()));
}

#[test]
fn popup_shows_checks_of_node() {
    let mut e = engine(vec![info("baron", "", "", vec![check("", "", ""), check("", "", "")])]);
    assert!(e.checks().is_empty());
    assert_eq!(e.build_popup(&"baron".to_string()), Ok(()));
    assert_eq!(e.checks(), &vec!["baron:0".to_string(), "baron:1".to_string()]);
    assert_eq!(
        e.build_popup(&"nope".to_string()),
        Err(EngineError::NotFound { id: "nope".to_string() })
    );
    assert_eq!(e.checks().len(), 2);
}

#[test]
fn relock_takes_two_passes() {
    let mut e = engine(vec![
        info("a", "param", "param", vec![]),
        info("b", "param", "param", vec![]),
        info("n", "a", "b", vec![]),
    ]);
    assert_eq!(state(&e, "n"), ObjectiveState::Disabled);
    update(&mut e, &[("n", ObjectiveState::Unlocked)]).unwrap();
    assert_eq!(state(&e, "n"), ObjectiveState::Locked);
    e.eval_objectives().unwrap();
    assert_eq!(state(&e, "n"), ObjectiveState::Disabled);
}
