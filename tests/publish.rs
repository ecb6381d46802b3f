use xtask::publish::{plan_publish_order, PackageInfo, PlanError};

fn package(name: &str, dependencies: Vec<usize>) -> PackageInfo {
    PackageInfo { name: name.to_string(), path: format!("crates/{name}"), dependencies }
}

fn sorted(mut ids: Vec<usize>) -> Vec<usize> {
    ids.sort();
    ids
}

#[test]
fn diamond_is_planned_in_three_levels() {
    let packages = vec![
        package("a", vec![]),
        package("b", vec![0]),
        package("c", vec![0]),
        package("d", vec![1, 2]),
    ];
    let plan = plan_publish_order(packages).unwrap();
    let levels: Vec<Vec<usize>> = plan.levels.iter().cloned().map(sorted).collect();
    assert_eq!(levels, vec![vec![0], vec![1, 2], vec![3]]);
    assert_eq!(plan.id_to_level, vec![0, 1, 1, 2]);
    assert_eq!(plan.id_to_package_info[3].name, "d");
}

#[test]
fn two_cycle_fails_with_both_packages() {
    let packages = vec![package("x", vec![1]), package("y", vec![0])];
    assert_eq!(plan_publish_order(packages).unwrap_err(), PlanError::DependencyCycle(vec![0, 1]));
}

#[test]
fn cycle_error_lists_dependents_of_the_cycle_only() {
    let packages = vec![
        package("free", vec![]),
        package("x", vec![2]),
        package("y", vec![1]),
        package("after", vec![2, 0]),
    ];
    assert_eq!(plan_publish_order(packages).unwrap_err(), PlanError::DependencyCycle(vec![1, 2, 3]));
}

#[test]
fn self_dependency_is_a_cycle() {
    let packages = vec![package("solo", vec![0])];
    assert_eq!(plan_publish_order(packages).unwrap_err(), PlanError::DependencyCycle(vec![0]));
}

#[test]
fn external_dependencies_do_not_hold_back() {
    let packages = vec![package("a", vec![7, 100]), package("b", vec![0, 42])];
    let plan = plan_publish_order(packages).unwrap();
    assert_eq!(plan.levels, vec![vec![0], vec![1]]);
    assert_eq!(plan.id_to_level, vec![0, 1]);
}

#[test]
fn empty_workspace_has_no_levels() {
    let plan = plan_publish_order(vec![]).unwrap();
    assert!(plan.levels.is_empty());
    assert!(plan.id_to_level.is_empty());
}

#[test]
fn level_is_one_past_the_deepest_dependency() {
    let packages = vec![
        package("base", vec![]),
        package("mid", vec![0]),
        package("top", vec![1, 0, 0]),
        package("side", vec![0]),
    ];
    let plan = plan_publish_order(packages).unwrap();
    assert_eq!(plan.id_to_level, vec![0, 1, 2, 1]);
    assert_eq!(plan.levels, vec![vec![0], vec![1, 3], vec![2]]);
}
