use hm::config::{get_mo, LinuxDistro, ManagedObject, Store, OS};
use hm::hmerror::{ErrorKind, HMError};
use hm::task::resolve;

fn object(name: &str, deps: &[&str], solution: &str, os: Option<OS>) -> ManagedObject {
    let mut mo = ManagedObject::default();
    mo.name = String::from(name);
    mo.solution = String::from(solution);
    mo.dependencies = deps.iter().map(|d| String::from(*d)).collect();
    mo.os = os;
    mo
}

fn store_of(objects: Vec<ManagedObject>) -> Store {
    Store::from_objects(objects)
}

fn flat_names(batches: &Vec<Vec<ManagedObject>>) -> Vec<String> {
    let mut names = Vec::new();
    for batch in batches {
        for mo in batch {
            names.push(mo.name.clone());
        }
    }
    names
}

#[test]
fn simple_chain_orders_dependency_first() {
    let store = store_of(vec![
        object("a", &[], "true", None),
        object("b", &["a"], "true", None),
    ]);
    let batches = resolve(store, OS::Unknown, None).unwrap();
    let names = flat_names(&batches);
    assert_eq!(names.len(), 2);
    let pos_a = names.iter().position(|n| n == "a").unwrap();
    let pos_b = names.iter().position(|n| n == "b").unwrap();
    assert!(pos_a < pos_b);
    for batch in &batches {
        for mo in batch {
            assert!(mo.satisfied);
        }
    }
}

#[test]
fn diamond_orders_all_dependencies_first() {
    let store = store_of(vec![
        object("top", &["left", "right"], "true", None),
        object("left", &["base"], "true", None),
        object("right", &["base"], "true", None),
        object("base", &[], "true", None),
    ]);
    let batches = resolve(store, OS::Unknown, None).unwrap();
    let names = flat_names(&batches);
    assert_eq!(names.len(), 4);
    let pos = |n: &str| names.iter().position(|x| x == n).unwrap();
    assert!(pos("base") < pos("left"));
    assert!(pos("base") < pos("right"));
    assert!(pos("left") < pos("top"));
    assert!(pos("right") < pos("top"));
}

#[test]
fn cycle_is_reported_with_the_graph() {
    let store = store_of(vec![
        object("a", &["b"], "true", None),
        object("b", &["a"], "true", None),
    ]);
    match resolve(store, OS::Unknown, None) {
        Err(HMError::Regular(ErrorKind::CyclicalDependencyError { dependency_graph })) => {
            assert!(dependency_graph.contains("a"));
            assert!(dependency_graph.contains("b"));
            assert!(dependency_graph.contains("->"));
        }
        other => panic!("expected a cyclical dependency error, got {:?}", other),
    }
}

#[test]
fn self_cycle_is_reported() {
    let store = store_of(vec![object("a", &["a"], "true", None)]);
    match resolve(store, OS::Unknown, None) {
        Err(HMError::Regular(ErrorKind::CyclicalDependencyError { .. })) => {}
        other => panic!("expected a cyclical dependency error, got {:?}", other),
    }
}

#[test]
fn missing_dependency_is_named() {
    let store = store_of(vec![object("a", &["missing"], "true", None)]);
    match resolve(store, OS::Unknown, None) {
        Err(HMError::Regular(ErrorKind::DependencyUndefinedError { dependency })) => {
            assert_eq!(dependency, "missing");
        }
        other => panic!("expected a dependency-undefined error, got {:?}", other),
    }
}

#[test]
fn wrong_platform_dependency_is_not_reported_as_undefined() {
    let current = OS::Linux(LinuxDistro::Fedora);
    let store = store_of(vec![
        object("a", &[], "true", Some(OS::Windows)),
        object("b", &["a"], "true", None),
    ]);
    match resolve(store, current, None) {
        Err(HMError::Regular(ErrorKind::IncorrectPlatformError {
            dependency,
            platform,
            target_platform,
        })) => {
            assert_eq!(dependency, "a");
            assert_eq!(platform, current);
            assert_eq!(target_platform, OS::Windows);
        }
        other => panic!("expected an incorrect-platform error, got {:?}", other),
    }
}

#[test]
fn matching_platform_objects_are_scheduled() {
    let current = OS::Linux(LinuxDistro::Debian);
    let store = store_of(vec![
        object("a", &[], "true", Some(OS::Linux(LinuxDistro::Debian))),
        object("b", &["a"], "true", None),
    ]);
    let batches = resolve(store, current, None).unwrap();
    let names = flat_names(&batches);
    assert_eq!(names.len(), 2);
}

#[test]
fn resolving_twice_schedules_the_same_names() {
    let build = || {
        store_of(vec![
            object("a", &[], "true", None),
            object("b", &["a"], "true", None),
            object("c", &[], "true", None),
            object("d", &["b", "c"], "true", None),
        ])
    };
    let mut first = flat_names(&resolve(build(), OS::Unknown, None).unwrap());
    let mut second = flat_names(&resolve(build(), OS::Unknown, None).unwrap());
    first.sort();
    second.sort();
    assert_eq!(first, second);
    assert_eq!(first, vec!["a", "b", "c", "d"]);
}

#[test]
fn target_task_limits_the_run_to_its_closure() {
    let store = store_of(vec![
        object("a", &[], "true", None),
        object("b", &["a"], "true", None),
        object("unrelated", &[], "true", None),
    ]);
    let batches = resolve(store, OS::Unknown, Some(String::from("b"))).unwrap();
    assert_eq!(batches.len(), 1);
    let names = flat_names(&batches);
    assert_eq!(names, vec!["a", "b"]);
}

#[test]
fn unknown_target_task_is_an_undefined_dependency() {
    let store = store_of(vec![object("a", &[], "true", None)]);
    match resolve(store, OS::Unknown, Some(String::from("nope"))) {
        Err(HMError::Regular(ErrorKind::DependencyUndefinedError { dependency })) => {
            assert_eq!(dependency, "nope");
        }
        other => panic!("expected a dependency-undefined error, got {:?}", other),
    }
}

#[test]
fn wrong_platform_target_mentioned_as_dependency_is_flagged() {
    let current = OS::Linux(LinuxDistro::Ubuntu);
    let store = store_of(vec![
        object("a", &[], "true", Some(OS::Windows)),
        object("b", &["a"], "true", None),
    ]);
    match resolve(store, current, Some(String::from("a"))) {
        Err(HMError::Regular(ErrorKind::IncorrectPlatformError {
            dependency,
            target_platform,
            ..
        })) => {
            assert_eq!(dependency, "a");
            assert_eq!(target_platform, OS::Windows);
        }
        other => panic!("expected an incorrect-platform error, got {:?}", other),
    }
}

#[test]
fn empty_store_resolves_to_no_batches() {
    let store = store_of(Vec::new());
    let batches = resolve(store, OS::Unknown, None).unwrap();
    assert_eq!(flat_names(&batches).len(), 0);
}

#[test]
fn store_keeps_the_last_declaration_of_a_name() {
    let first = object("x", &[], "echo one", None);
    let second = object("x", &[], "echo two", None);
    let store = store_of(vec![first, second]);
    let got = get_mo(&store, &String::from("x")).unwrap();
    assert_eq!(got.solution, "echo two");
}

#[test]
fn get_mo_misses_absent_names() {
    let store = store_of(vec![object("a", &[], "true", None)]);
    assert!(get_mo(&store, &String::from("a")).is_some());
    assert!(get_mo(&store, &String::from("z")).is_none());
}
