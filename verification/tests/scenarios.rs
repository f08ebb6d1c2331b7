use api_gc::api::Api;
use api_gc::gc::{
    filter_apis_by_following_edges, filter_apis_by_following_edges_from_allowlist, on_allowlist,
};
use autocxx_parser::{IncludeCppConfig, TypeConfig};

fn api(name: &str, deps: &[&str], tag: u32) -> Api<u32> {
    Api::new(
        name.to_string(),
        name.to_string(),
        deps.iter().map(|d| d.to_string()).collect(),
        tag,
    )
}

fn api_listed_as(name: &str, allowlist_name: &str, deps: &[&str], tag: u32) -> Api<u32> {
    Api::new(
        name.to_string(),
        allowlist_name.to_string(),
        deps.iter().map(|d| d.to_string()).collect(),
        tag,
    )
}

fn allowing(names: &[&str]) -> TypeConfig {
    let mut text = String::from("exclude_utilities!");
    for name in names {
        text.push_str(&format!(" generate!(\"{}\")", name));
    }
    let config: IncludeCppConfig = syn::parse_str(&text).unwrap();
    config.type_config
}

fn tags(apis: &[Api<u32>]) -> Vec<u32> {
    apis.iter().map(|a| a.analysis).collect()
}

fn names(apis: &[Api<u32>]) -> Vec<String> {
    apis.iter().map(|a| a.name.clone()).collect()
}

#[test]
fn unreachable_type_is_dropped() {
    let apis = vec![api("TypeA", &["TypeB"], 1), api("TypeB", &[], 2), api("TypeC", &[], 3)];
    let out = filter_apis_by_following_edges_from_allowlist(apis, &allowing(&["TypeA"]));
    assert_eq!(names(&out), vec!["TypeA", "TypeB"]);
    assert_eq!(tags(&out), vec![1, 2]);
}

#[test]
fn self_reference_terminates() {
    let apis = vec![api("Fn", &["StructX"], 1), api("StructX", &["StructX"], 2)];
    let out = filter_apis_by_following_edges_from_allowlist(apis, &allowing(&["Fn"]));
    assert_eq!(names(&out), vec!["Fn", "StructX"]);
    assert_eq!(tags(&out), vec![1, 2]);
}

#[test]
fn unknown_dependency_is_passed_over() {
    let apis = vec![api("X", &["Unknown"], 7)];
    let out = filter_apis_by_following_edges_from_allowlist(apis, &allowing(&["X"]));
    assert_eq!(names(&out), vec!["X"]);
    assert_eq!(out[0].deps, vec!["Unknown".to_string()]);
    assert_eq!(out[0].analysis, 7);
}

#[test]
fn empty_allowlist_keeps_nothing() {
    let apis = vec![api("Y", &[], 1)];
    let out = filter_apis_by_following_edges_from_allowlist(apis, &allowing(&[]));
    assert!(out.is_empty());
}

#[test]
fn declarations_of_one_name_stay_together() {
    let apis = vec![api("Z", &["W"], 1), api("Z", &[], 2), api("W", &[], 3), api("V", &[], 4)];
    let out = filter_apis_by_following_edges_from_allowlist(apis, &allowing(&["Z"]));
    assert_eq!(names(&out), vec!["Z", "Z", "W"]);
    assert_eq!(tags(&out), vec![1, 2, 3]);
}

#[test]
fn group_leaves_whole_when_one_member_is_listed() {
    let apis = vec![
        api_listed_as("Z", "ns::other", &[], 1),
        api("Q", &[], 2),
        api_listed_as("Z", "ns::Z", &["Q"], 3),
    ];
    let out = filter_apis_by_following_edges_from_allowlist(apis, &allowing(&["ns::Z"]));
    assert_eq!(tags(&out), vec![1, 3, 2]);
}

#[test]
fn allowlist_is_asked_by_allowlist_name() {
    let apis = vec![api_listed_as("inner", "outer::inner", &[], 1), api("outer::inner", &[], 2)];
    let config = allowing(&["outer::inner"]);
    assert_eq!(on_allowlist(&apis, &config), vec![true, true]);
    let apis = vec![api_listed_as("outer::inner", "inner", &[], 1)];
    assert_eq!(on_allowlist(&apis, &config), vec![false]);
    let out = filter_apis_by_following_edges_from_allowlist(apis, &config);
    assert!(out.is_empty());
}

#[test]
fn on_allowlist_answers_in_order() {
    let apis = vec![api("A", &[], 1), api("B", &[], 2), api("C", &[], 3), api("A", &[], 4)];
    let config = allowing(&["C", "A"]);
    assert_eq!(on_allowlist(&apis, &config), vec![true, false, true, true]);
    assert_eq!(on_allowlist(&Vec::<Api<u32>>::new(), &config), Vec::<bool>::new());
}

#[test]
fn utilities_are_on_the_allowlist_unless_excluded() {
    let with: IncludeCppConfig = syn::parse_str("generate!(\"A\")").unwrap();
    let apis = vec![api("make_string", &[], 1), api("A", &[], 2), api("B", &[], 3)];
    let out = filter_apis_by_following_edges_from_allowlist(apis, &with.type_config);
    assert_eq!(tags(&out), vec![1, 2]);
}

#[test]
fn breadth_first_order() {
    // A -> B, C ; B -> D ; C -> E ; roots A
    let apis = vec![
        api("E", &[], 5),
        api("D", &[], 4),
        api("C", &["E"], 3),
        api("B", &["D"], 2),
        api("A", &["B", "C"], 1),
    ];
    let out = filter_apis_by_following_edges(apis, &vec![false, false, false, false, true]);
    assert_eq!(tags(&out), vec![1, 2, 3, 4, 5]);
}

#[test]
fn roots_leave_before_what_they_depend_on() {
    let apis = vec![api("R1", &["D1"], 1), api("D1", &[], 2), api("R2", &["D1"], 3)];
    let out = filter_apis_by_following_edges(apis, &vec![true, false, true]);
    assert_eq!(tags(&out), vec![1, 3, 2]);
}

#[test]
fn repeated_names_in_the_worklist_are_harmless() {
    let apis = vec![
        api("A", &["B", "B", "A"], 1),
        api("A", &["B"], 2),
        api("B", &["A", "B"], 3),
    ];
    let out = filter_apis_by_following_edges(apis, &vec![true, true, false]);
    assert_eq!(tags(&out), vec![1, 2, 3]);
}

#[test]
fn cycle_is_kept_once() {
    let apis = vec![api("A", &["B"], 1), api("B", &["C"], 2), api("C", &["A"], 3), api("D", &["A"], 4)];
    let out = filter_apis_by_following_edges(apis, &vec![false, true, false, false]);
    assert_eq!(tags(&out), vec![2, 3, 1]);
}

#[test]
fn short_choice_leaves_the_tail_unchosen() {
    let apis = vec![api("A", &[], 1), api("B", &[], 2), api("C", &[], 3)];
    let out = filter_apis_by_following_edges(apis, &vec![false, true]);
    assert_eq!(tags(&out), vec![2]);
    let apis = vec![api("A", &[], 1), api("B", &[], 2)];
    let out = filter_apis_by_following_edges(apis, &vec![]);
    assert!(out.is_empty());
    let apis = vec![api("A", &[], 1)];
    let out = filter_apis_by_following_edges(apis, &vec![true, true, true]);
    assert_eq!(tags(&out), vec![1]);
}

#[test]
fn empty_input_gives_empty_output() {
    let out = filter_apis_by_following_edges_from_allowlist(Vec::<Api<u32>>::new(), &allowing(&["A"]));
    assert!(out.is_empty());
    let out = filter_apis_by_following_edges(Vec::<Api<u32>>::new(), &vec![true]);
    assert!(out.is_empty());
}

#[test]
fn everything_listed_keeps_everything_in_order() {
    let apis = vec![api("A", &["C"], 1), api("B", &[], 2), api("C", &["B"], 3)];
    let out = filter_apis_by_following_edges_from_allowlist(apis, &allowing(&["A", "B", "C"]));
    assert_eq!(tags(&out), vec![1, 2, 3]);
}

#[test]
fn payload_is_carried_through_untouched() {
    let apis = vec![
        Api::new("A".to_string(), "A".to_string(), vec!["B".to_string()], vec![1u8, 2, 3]),
        Api::new("B".to_string(), "x::B".to_string(), vec!["Gone".to_string()], vec![]),
    ];
    let out = filter_apis_by_following_edges_from_allowlist(apis, &allowing(&["A"]));
    assert_eq!(out.len(), 2);
    assert_eq!(out[0].analysis, vec![1u8, 2, 3]);
    assert_eq!(out[0].allowlist_name, "A");
    assert_eq!(out[1].name, "B");
    assert_eq!(out[1].allowlist_name, "x::B");
    assert_eq!(out[1].deps, vec!["Gone".to_string()]);
    assert!(out[1].analysis.is_empty());
}
