use api_gc::api::Api;
use api_gc::index::Index;

fn api(name: &str, tag: u32) -> Api<u32> {
    Api::new(name.to_string(), name.to_string(), Vec::new(), tag)
}

fn tags(apis: &[Api<u32>]) -> Vec<u32> {
    apis.iter().map(|a| a.analysis).collect()
}

#[test]
fn empty_index_gives_nothing() {
    let mut index: Index<u32> = Index::new();
    assert!(index.take("A").is_none());
    assert!(index.take("").is_none());
}

#[test]
fn take_gives_the_group_in_order_of_adding() {
    let mut index = Index::new();
    index.add(api("A", 1));
    index.add(api("B", 2));
    index.add(api("A", 3));
    index.add(api("C", 4));
    index.add(api("A", 5));
    assert_eq!(tags(&index.take("A").unwrap()), vec![1, 3, 5]);
    assert_eq!(tags(&index.take("C").unwrap()), vec![4]);
    assert_eq!(tags(&index.take("B").unwrap()), vec![2]);
}

#[test]
fn a_group_is_taken_once() {
    let mut index = Index::new();
    index.add(api("A", 1));
    index.add(api("B", 2));
    assert!(index.take("A").is_some());
    assert!(index.take("A").is_none());
    assert!(index.take("Z").is_none());
    assert_eq!(tags(&index.take("B").unwrap()), vec![2]);
    assert!(index.take("B").is_none());
}

#[test]
fn a_name_can_come_back_after_its_group_left() {
    let mut index = Index::new();
    index.add(api("A", 1));
    index.add(api("B", 2));
    assert_eq!(tags(&index.take("A").unwrap()), vec![1]);
    index.add(api("A", 3));
    index.add(api("B", 4));
    index.add(api("A", 5));
    assert_eq!(tags(&index.take("A").unwrap()), vec![3, 5]);
    assert_eq!(tags(&index.take("B").unwrap()), vec![2, 4]);
    assert!(index.take("A").is_none());
}

#[test]
fn names_are_compared_whole() {
    let mut index = Index::new();
    index.add(api("ns::A", 1));
    index.add(api("A", 2));
    index.add(api("a", 3));
    assert!(index.take("ns").is_none());
    assert_eq!(tags(&index.take("A").unwrap()), vec![2]);
    assert_eq!(tags(&index.take("a").unwrap()), vec![3]);
    assert_eq!(tags(&index.take("ns::A").unwrap()), vec![1]);
}
