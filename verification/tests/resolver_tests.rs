use dependy::DepError;
use dependy::Dependy;
use dependy::InternalDependency;

fn new_dep(name: &str, requirements: Vec<String>, suggestions: Vec<String>, provides: Vec<String>) -> InternalDependency {
    InternalDependency::new(name.to_owned(), requirements, suggestions, provides)
}

#[test]
fn single_dep() {
    let mut depgraph = Dependy::new();
    let d1 = new_dep("single", vec![], vec![], vec![]);
    depgraph.add_dependency(&d1);

    let dep_chain = depgraph.resolve_dependencies(vec![d1]).unwrap();
    assert_eq!(dep_chain.len(), 1);
    assert_eq!(dep_chain[0], "single");
}

#[test]
fn two_deps() {
    let mut depgraph = Dependy::new();
    let d1 = new_dep("first", vec!["second".to_string()], vec![], vec![]);
    let d2 = new_dep("second", vec![], vec![], vec![]);
    depgraph.add_dependency(&d1);
    depgraph.add_dependency(&d2);

    let dep_chain = depgraph.resolve_dependencies(vec![d1]).unwrap();
    assert_eq!(dep_chain.len(), 2);
    assert_eq!(dep_chain[0], "second");
    assert_eq!(dep_chain[1], "first");
}

#[test]
fn three_deps() {
    let mut depgraph = Dependy::new();
    let d1 = new_dep("first", vec!["second".to_string()], vec![], vec![]);
    let d2 = new_dep("second", vec!["third".to_string()], vec![], vec![]);
    let d3 = new_dep("third", vec![], vec![], vec![]);
    depgraph.add_dependency(&d1);
    depgraph.add_dependency(&d2);
    depgraph.add_dependency(&d3);

    let dep_chain = depgraph.resolve_dependencies(vec![d1]).unwrap();
    assert_eq!(dep_chain.len(), 3);
    assert_eq!(dep_chain[0], "third");
    assert_eq!(dep_chain[1], "second");
    assert_eq!(dep_chain[2], "first");
}

#[test]
fn provides() {
    let mut depgraph = Dependy::new();
    let d1 = new_dep("first", vec!["deux".to_string()], vec![], vec![]);
    let d2 = new_dep("second", vec![], vec![], vec!["deux".to_string()]);
    depgraph.add_dependency(&d1);
    depgraph.add_dependency(&d2);

    let dep_chain = depgraph.resolve_dependencies(vec![d1]).unwrap();
    assert_eq!(dep_chain.len(), 2);
    assert_eq!(dep_chain[0], "second");
    assert_eq!(dep_chain[1], "first");
}

#[test]
fn follows() {
    let mut depgraph = Dependy::new();
    let d1 = new_dep("first", vec![], vec![], vec![]);
    let d2 = new_dep("second", vec![], vec![], vec!["deux".to_string()]);
    let d3 = new_dep("third", vec![], vec![], vec![]);
    depgraph.add_dependency(&d1);
    depgraph.add_dependency(&d2);
    depgraph.add_dependency(&d3);

    let dep_chain = depgraph.resolve_dependencies(vec![d1, d2, d3]).unwrap();
    assert_eq!(dep_chain.len(), 3);
    assert_eq!(dep_chain[0], "first");
    assert_eq!(dep_chain[1], "second");
    assert_eq!(dep_chain[2], "third");
}

#[test]
fn depends_and_follows() {
    let mut depgraph = Dependy::new();
    let d1 = new_dep("first", vec!["third".to_string()], vec![], vec![]);
    let d2 = new_dep("second", vec![], vec![], vec!["deux".to_string()]);
    let d3 = new_dep("third", vec![], vec![], vec![]);
    depgraph.add_dependency(&d1);
    depgraph.add_dependency(&d2);
    depgraph.add_dependency(&d3);

    let dep_chain = depgraph.resolve_dependencies(vec![d1, d3, d2]).unwrap();
    assert_eq!(dep_chain.len(), 3);
    assert_eq!(dep_chain[0], "third");
    assert_eq!(dep_chain[1], "first");
    assert_eq!(dep_chain[2], "second");
}

#[test]
fn circular_requirements_rejected() {
    let mut depgraph = Dependy::new();
    let d1 = new_dep("alpha", vec!["beta".to_string()], vec![], vec![]);
    let d2 = new_dep("beta", vec!["alpha".to_string()], vec![], vec![]);
    depgraph.add_dependency(&d1);
    depgraph.add_dependency(&d2);

    let result = depgraph.resolve_named_dependencies(&vec!["alpha".to_string()]);
    assert!(matches!(result, Err(DepError::CircularDependency(_, _))));
}

#[test]
fn resolving_twice_gives_same_order() {
    let mut depgraph = Dependy::new();
    let d1 = new_dep("first", vec!["second".to_string()], vec!["third".to_string()], vec![]);
    let d2 = new_dep("second", vec![], vec![], vec![]);
    let d3 = new_dep("third", vec![], vec![], vec![]);
    depgraph.add_dependency(&d1);
    depgraph.add_dependency(&d2);
    depgraph.add_dependency(&d3);

    let roots = vec!["first".to_string()];
    let first_chain = depgraph.resolve_named_dependencies(&roots).unwrap();
    let second_chain = depgraph.resolve_named_dependencies(&roots).unwrap();
    assert_eq!(first_chain, second_chain);
}

#[test]
fn required_parents_exclude_suggestions() {
    let mut depgraph = Dependy::new();
    let child = new_dep(
        "child",
        vec!["wanted".to_string()],
        vec!["advised".to_string()],
        vec![],
    );
    let wanted = new_dep("wanted", vec![], vec![], vec![]);
    let advised = new_dep("advised", vec![], vec![], vec![]);
    depgraph.add_dependency(&child);
    depgraph.add_dependency(&wanted);
    depgraph.add_dependency(&advised);

    depgraph
        .resolve_named_dependencies(&vec!["child".to_string()])
        .unwrap();
    let parents = depgraph.required_parents_of_named(&"child".to_string());
    assert_eq!(parents.len(), 1);
    assert_eq!(*parents[0], "wanted");
}

#[test]
fn unknown_root_is_reported() {
    let mut depgraph = Dependy::new();
    let d1 = new_dep("known", vec![], vec![], vec![]);
    depgraph.add_dependency(&d1);

    let result = depgraph.resolve_named_dependencies(&vec!["missing".to_string()]);
    match result {
        Err(DepError::DependencyNotFound(k)) => assert_eq!(k, "missing"),
        _ => panic!("expected DependencyNotFound"),
    }
}

#[test]
fn unknown_requirement_is_reported() {
    let mut depgraph = Dependy::new();
    let d1 = new_dep("needy", vec!["absent".to_string()], vec![], vec![]);
    depgraph.add_dependency(&d1);

    let result = depgraph.resolve_named_dependencies(&vec!["needy".to_string()]);
    match result {
        Err(DepError::RequirementNotFound(who, what)) => {
            assert_eq!(who, "needy");
            assert_eq!(what, "absent");
        },
        _ => panic!("expected RequirementNotFound"),
    }
}

#[test]
fn unknown_suggestion_is_reported() {
    let mut depgraph = Dependy::new();
    let d1 = new_dep("hopeful", vec![], vec!["absent".to_string()], vec![]);
    depgraph.add_dependency(&d1);

    let result = depgraph.resolve_named_dependencies(&vec!["hopeful".to_string()]);
    match result {
        Err(DepError::SuggestionNotFound(who, what)) => {
            assert_eq!(who, "hopeful");
            assert_eq!(what, "absent");
        },
        _ => panic!("expected SuggestionNotFound"),
    }
}

#[test]
fn results_can_be_marked_and_reset() {
    let mut depgraph = Dependy::new();
    let d1 = new_dep("job", vec![], vec![], vec![]);
    depgraph.add_dependency(&d1);
    depgraph.mark_successful(&"job".to_string());
    depgraph.mark_failure(&"job".to_string());
    depgraph.reset_results();
    let dep_chain = depgraph
        .resolve_named_dependencies(&vec!["job".to_string()])
        .unwrap();
    assert_eq!(dep_chain, vec!["job".to_string()]);
}

fn index_of(vector: &Vec<String>, x: &String) -> Option<usize> {
    for (idx, val) in vector.iter().enumerate() {
        if val == x {
            return Some(idx);
        }
    }
    return None;
}

fn validate_parents_present(
    registered: &Vec<(String, Vec<String>, Vec<String>)>,
    dep_chain: &Vec<String>,
    depname: &String,
) -> bool {
    let item = registered
        .iter()
        .find(|entry| &entry.0 == depname)
        .unwrap();
    let my_index = index_of(dep_chain, depname).unwrap();
    for req in &item.1 {
        assert!(dep_chain.contains(req));

        let their_index = index_of(dep_chain, req).unwrap();
        assert!(their_index < my_index);

        validate_parents_present(registered, dep_chain, req);
    }

    for req in &item.2 {
        assert!(dep_chain.contains(req));

        validate_parents_present(registered, dep_chain, req);
    }
    true
}

#[test]
fn complex_sequence() {
    let mut depgraph = Dependy::new();
    let mut registered: Vec<(String, Vec<String>, Vec<String>)> = vec![];
    let declarations: Vec<(&str, Vec<&str>)> = vec![
        ("build-ltc-os", vec!["checkout-ltc-os"]),
        ("checkout-ltc-os", vec![]),
        ("connectivity-test", vec!["serial-test"]),
        (
            "finish-ltc-tests",
            vec![
                "serial-test",
                "connectivity-test",
                "led-test",
                "rgb-test",
                "status-leds",
            ],
        ),
        ("led-test", vec!["serial-test"]),
        ("mass-erase", vec!["swd"]),
        ("measure-reset-pulse", vec!["pi-blaster"]),
        ("pi-blaster", vec![]),
        ("program-app", vec!["finish-ltc-tests"]),
        ("program-os-pvt1c", vec!["swd", "mass-erase"]),
        ("rgb-test", vec!["serial-test"]),
        ("serial-test", vec!["upload-program"]),
        ("status-leds", vec!["serial-test"]),
        ("swd", vec!["measure-reset-pulse"]),
        ("test-setup", vec!["program-os-pvt1c"]),
        ("upload-program", vec!["program-os-pvt1c", "test-setup"]),
        ("wait-forever", vec![]),
    ];
    for (name, reqs) in &declarations {
        let reqs: Vec<String> = reqs.iter().map(|s| s.to_string()).collect();
        let dep = new_dep(name, reqs.clone(), vec![], vec![]);
        registered.push((name.to_string(), reqs, vec![]));
        depgraph.add_dependency(&dep);
    }

    let roots: Vec<String> = vec![
        "mass-erase",
        "program-os-pvt1c",
        "upload-program",
        "finish-ltc-tests",
        "program-app",
    ]
    .iter()
    .map(|s| s.to_string())
    .collect();
    let dep_chain = depgraph.resolve_named_dependencies(&roots).unwrap();

    for depname in &dep_chain {
        validate_parents_present(&registered, &dep_chain, &depname);
    }
}

#[test]
fn export_lists_nodes_and_labelled_edges() {
    let mut depgraph = Dependy::new();
    let d1 = new_dep("first", vec!["second".to_string()], vec![], vec![]);
    let d2 = new_dep("second", vec![], vec![], vec![]);
    depgraph.add_dependency(&d1);
    depgraph.add_dependency(&d2);
    depgraph
        .resolve_named_dependencies(&vec!["first".to_string()])
        .unwrap();

    let text = depgraph.export_dot();
    let expected = "digraph {\n    \"first\"\n    \"second\"\n    \"second\" -> \"first\" [label=\"Requires\"]\n}\n";
    assert_eq!(text, expected);
}

#[test]
fn reresolving_commits_no_new_edges() {
    let mut depgraph = Dependy::new();
    let d1 = new_dep("first", vec!["second".to_string()], vec![], vec![]);
    let d2 = new_dep("second", vec![], vec![], vec![]);
    depgraph.add_dependency(&d1);
    depgraph.add_dependency(&d2);

    let roots = vec!["first".to_string(), "second".to_string()];
    depgraph.resolve_named_dependencies(&roots).unwrap();
    let first_export = depgraph.export_dot();
    depgraph.resolve_named_dependencies(&roots).unwrap();
    let second_export = depgraph.export_dot();
    assert_eq!(first_export, second_export);
}
