use api_gc::api::Api;
use api_gc::gc::{
    filter_apis_by_following_edges, filter_apis_by_following_edges_from_allowlist, on_allowlist,
};
use autocxx_parser::{IncludeCppConfig, TypeConfig};
use std::collections::BTreeSet;

/// name, allowlist name, dependencies
type Plan = Vec<(String, String, Vec<String>)>;

fn build(plan: &Plan) -> Vec<Api<usize>> {
    plan.iter()
        .enumerate()
        .map(|(i, (name, listed_as, deps))| Api::new(name.clone(), listed_as.clone(), deps.clone(), i))
        .collect()
}

fn allowing(names: &[&str]) -> TypeConfig {
    let mut text = String::from("exclude_utilities!");
    for name in names {
        text.push_str(&format!(" generate!(\"{}\")", name));
    }
    let config: IncludeCppConfig = syn::parse_str(&text).unwrap();
    config.type_config
}

fn plan_of(rows: &[(&str, &str, &[&str])]) -> Plan {
    rows.iter()
        .map(|(n, l, d)| (n.to_string(), l.to_string(), d.iter().map(|s| s.to_string()).collect()))
        .collect()
}

/// A few graphs by hand, and some made by a fixed rule.
fn plans() -> Vec<Plan> {
    let mut all = vec![
        plan_of(&[]),
        plan_of(&[("A", "cpp::A", &["B"]), ("B", "cpp::B", &[]), ("C", "cpp::C", &[])]),
        plan_of(&[("F", "cpp::F", &["X"]), ("X", "cpp::X", &["X"])]),
        plan_of(&[("X", "cpp::A", &["Unknown"])]),
        plan_of(&[("Z", "cpp::Z", &["W"]), ("Z", "cpp::other", &[]), ("W", "cpp::W", &["Z"])]),
        plan_of(&[
            ("D", "cpp::D", &["A"]),
            ("C", "cpp::C", &["D", "B"]),
            ("B", "cpp::B", &["C"]),
            ("A", "cpp::A", &["B", "C", "E"]),
            ("B", "cpp::A", &["F"]),
            ("F", "cpp::F", &[]),
            ("G", "cpp::G", &["A"]),
        ]),
    ];
    let mut state: u64 = 12345;
    let mut next = |bound: u64| {
        state = state.wrapping_mul(6364136223846793005).wrapping_add(1442695040888963407);
        (state >> 33) % bound
    };
    for _ in 0..40 {
        let size = next(9) as usize;
        let mut plan = Plan::new();
        for _ in 0..size {
            let name = format!("N{}", next(6));
            let listed_as = format!("cpp::{}", ["A", "B", "C", "D", "E"][next(5) as usize]);
            let deps = (0..next(4)).map(|_| format!("N{}", next(8))).collect();
            plan.push((name, listed_as, deps));
        }
        all.push(plan);
    }
    all
}

fn allowlists() -> Vec<Vec<&'static str>> {
    vec![
        vec![],
        vec!["cpp::A"],
        vec!["cpp::B", "cpp::A"],
        vec!["cpp::C", "cpp::Z", "cpp::F"],
        vec!["cpp::A", "cpp::B", "cpp::C", "cpp::D", "cpp::E", "cpp::F", "cpp::G"],
        vec!["A", "N1"],
    ]
}

fn names_of(apis: &[Api<usize>]) -> BTreeSet<String> {
    apis.iter().map(|a| a.name.clone()).collect()
}

fn tags(apis: &[Api<usize>]) -> Vec<usize> {
    apis.iter().map(|a| a.analysis).collect()
}

#[test]
fn kept_declarations_need_nothing_that_was_dropped() {
    for plan in plans() {
        for allow in allowlists() {
            let out = filter_apis_by_following_edges_from_allowlist(build(&plan), &allowing(&allow));
            let known = names_of(&build(&plan));
            let kept = names_of(&out);
            for api in &out {
                for dep in &api.deps {
                    assert!(kept.contains(dep) || !known.contains(dep));
                }
            }
        }
    }
}

#[test]
fn kept_names_are_the_reachable_names() {
    for plan in plans() {
        for allow in allowlists() {
            let out = filter_apis_by_following_edges_from_allowlist(build(&plan), &allowing(&allow));
            let known: BTreeSet<String> = plan.iter().map(|row| row.0.clone()).collect();
            let mut reached: BTreeSet<String> = plan
                .iter()
                .filter(|row| allow.contains(&row.1.as_str()))
                .map(|row| row.0.clone())
                .collect();
            loop {
                let before = reached.len();
                for row in &plan {
                    if reached.contains(&row.0) {
                        for dep in &row.2 {
                            if known.contains(dep) {
                                reached.insert(dep.clone());
                            }
                        }
                    }
                }
                if reached.len() == before {
                    break;
                }
            }
            assert_eq!(names_of(&out), reached);
        }
    }
}

#[test]
fn groups_are_kept_whole_and_unchanged() {
    for plan in plans() {
        for allow in allowlists() {
            let out = filter_apis_by_following_edges_from_allowlist(build(&plan), &allowing(&allow));
            assert!(out.len() <= plan.len());
            for name in names_of(&out) {
                let kept: Vec<usize> =
                    out.iter().filter(|a| a.name == name).map(|a| a.analysis).collect();
                let given: Vec<usize> =
                    (0..plan.len()).filter(|i| plan[*i].0 == name).collect();
                assert_eq!(kept, given);
            }
            for api in &out {
                let row = &plan[api.analysis];
                assert_eq!(api.name, row.0);
                assert_eq!(api.allowlist_name, row.1);
                assert_eq!(api.deps, row.2);
            }
        }
    }
}

#[test]
fn running_again_on_the_result_changes_nothing() {
    for plan in plans() {
        for allow in allowlists() {
            let config = allowing(&allow);
            let once = filter_apis_by_following_edges_from_allowlist(build(&plan), &config);
            let order = tags(&once);
            let twice = filter_apis_by_following_edges_from_allowlist(once, &config);
            assert_eq!(tags(&twice), order);
        }
    }
}

#[test]
fn equal_inputs_give_equal_results() {
    for plan in plans() {
        for allow in allowlists() {
            let one = filter_apis_by_following_edges_from_allowlist(build(&plan), &allowing(&allow));
            let other = filter_apis_by_following_edges_from_allowlist(build(&plan), &allowing(&allow));
            assert_eq!(tags(&one), tags(&other));
        }
    }
}

#[test]
fn allowlists_that_answer_alike_keep_the_same() {
    let plan = plan_of(&[
        ("A", "cpp::A", &["B"]),
        ("B", "cpp::B", &[]),
        ("C", "cpp::C", &["A"]),
    ]);
    let one = allowing(&["cpp::A", "cpp::elsewhere"]);
    let other = allowing(&["cpp::unused", "cpp::A", "cpp::A"]);
    assert_eq!(on_allowlist(&build(&plan), &one), on_allowlist(&build(&plan), &other));
    let out_one = filter_apis_by_following_edges_from_allowlist(build(&plan), &one);
    let out_other = filter_apis_by_following_edges_from_allowlist(build(&plan), &other);
    assert_eq!(tags(&out_one), vec![0, 1]);
    assert_eq!(tags(&out_other), vec![0, 1]);
}

#[test]
fn the_allowlist_pass_is_the_traversal_from_its_answers() {
    for plan in plans() {
        for allow in allowlists() {
            let config = allowing(&allow);
            let answers = on_allowlist(&build(&plan), &config);
            let expected: Vec<bool> =
                plan.iter().map(|row| allow.contains(&row.1.as_str())).collect();
            assert_eq!(answers, expected);
            let direct = filter_apis_by_following_edges(build(&plan), &answers);
            let whole = filter_apis_by_following_edges_from_allowlist(build(&plan), &config);
            assert_eq!(tags(&direct), tags(&whole));
        }
    }
}

#[test]
fn every_kept_name_has_a_path_from_the_allowlist() {
    let plan = plan_of(&[
        ("Leaf", "cpp::Leaf", &[]),
        ("Mid", "cpp::Mid", &["Leaf", "Missing"]),
        ("Top", "cpp::Top", &["Mid"]),
        ("Side", "cpp::Side", &["Leaf"]),
    ]);
    let out = filter_apis_by_following_edges_from_allowlist(build(&plan), &allowing(&["cpp::Top"]));
    assert_eq!(tags(&out), vec![2, 1, 0]);
    // Top -> Mid -> Leaf, each step an edge of a kept declaration
    assert!(out[0].deps.contains(&out[1].name));
    assert!(out[1].deps.contains(&out[2].name));
}
