use kvlog::linked_list::LinkedList;

type TestList = LinkedList<&'static str>;

fn make_list() -> TestList {
    let mut list = TestList::new();
    list.insert_end("a");
    list.insert_end("b");
    list.insert_end("c");
    list.insert_end("d");
    list
}

#[test]
fn new_list_is_empty() {
    let list = TestList::new();
    assert_eq!(list.size(), 0);
    assert!(list.find("x").is_none());
    assert!(list.node_at(0).is_none());
}

#[test]
fn insert_start_single() {
    let mut list = TestList::new();
    list.insert_start("a");
    assert_eq!(list.size(), 1);
    assert_eq!(list.node_at(0).unwrap().value, "a");
}

#[test]
fn insert_end_single() {
    let mut list = TestList::new();
    list.insert_end("a");
    assert_eq!(list.size(), 1);
    assert_eq!(list.node_at(0).unwrap().value, "a");
}

#[test]
fn insert_end_multiple() {
    let list = make_list();
    assert_eq!(list.size(), 4);
    assert_eq!(list.node_at(0).unwrap().value, "a");
    assert_eq!(list.node_at(1).unwrap().value, "b");
    assert_eq!(list.node_at(2).unwrap().value, "c");
    assert_eq!(list.node_at(3).unwrap().value, "d");
}

#[test]
fn insert_at_middle() {
    let mut list = make_list();
    list.insert_at("x", 1);
    assert_eq!(list.node_at(1).unwrap().value, "x");
    assert_eq!(list.node_at(2).unwrap().value, "b");
    assert_eq!(list.node_at(3).unwrap().value, "c");
}

#[test]
fn insert_at_start() {
    let mut list = make_list();
    list.insert_at("z", 0);
    assert_eq!(list.node_at(0).unwrap().value, "z");
    assert_eq!(list.node_at(1).unwrap().value, "a");
}

#[test]
fn insert_at_end() {
    let mut list = make_list();
    list.insert_at("x", 4);
    assert_eq!(list.node_at(4).unwrap().value, "x");
}

#[test]
fn find_existing_element() {
    let list = make_list();
    let node = list.find("c");
    assert!(node.is_some());
    assert_eq!(node.unwrap().value, "c");
}

#[test]
fn find_missing_element() {
    let list = make_list();
    assert!(list.find("z").is_none());
}

#[test]
fn update_middle() {
    let mut list = make_list();
    list.update_at("x", 1);
    assert_eq!(list.node_at(1).unwrap().value, "x");
}

#[test]
fn update_start() {
    let mut list = make_list();
    list.update_at("x", 0);
    assert_eq!(list.node_at(0).unwrap().value, "x");
}

#[test]
fn update_out_of_bounds() {
    let mut list = make_list();
    assert!(list.update_at("x", 10).is_none());
}

#[test]
fn pop_start_basic() {
    let mut list = make_list();
    let removed = list.pop_start().unwrap();
    assert_eq!(removed.value, "a");
    assert_eq!(list.size(), 3);
    assert_eq!(list.node_at(0).unwrap().value, "b");
}

#[test]
fn pop_end_basic() {
    let mut list = make_list();
    let removed = list.pop_end().unwrap();
    assert_eq!(removed.value, "d");
    assert_eq!(list.size(), 3);
}

#[test]
fn pop_at_middle() {
    let mut list = make_list();
    let removed = list.pop_at(1).unwrap();
    assert_eq!(removed.value, "b");
    assert_eq!(list.size(), 3);
    assert_eq!(list.node_at(1).unwrap().value, "c");
}

#[test]
fn pop_at_start() {
    let mut list = make_list();
    list.pop_at(0);
    assert_eq!(list.node_at(0).unwrap().value, "b");
}

#[test]
fn pop_at_end() {
    let mut list = make_list();
    list.pop_at(3);
    assert_eq!(list.size(), 3);
    assert_eq!(list.node_at(2).unwrap().value, "c");
}

#[test]
fn pop_from_single_element_list() {
    let mut list = TestList::new();
    list.insert_end("a");
    list.pop_end();
    assert_eq!(list.size(), 0);
    assert!(list.node_at(0).is_none());
}

#[test]
fn pop_out_of_bounds() {
    let mut list = make_list();
    assert!(list.pop_at(10).is_none());
}

#[test]
fn iterate_list_in_order() {
    let list = make_list();
    let mut collected: Vec<&'static str> = Vec::new();
    let mut it = list.iter();
    while let Some(v) = it.next() {
        collected.push(v);
    }
    assert_eq!(collected, vec!["a", "b", "c", "d"]);
}

#[test]
fn iterate_empty_list() {
    let list = TestList::new();
    let mut collected: Vec<&'static str> = Vec::new();
    let mut it = list.iter();
    while let Some(v) = it.next() {
        collected.push(v);
    }
    assert!(collected.is_empty());
}

#[test]
fn verify_bidirectional_links_after_insertions() {
    let list = make_list();
    let b = list.node_at(1).unwrap();
    let c = list.node_at(2).unwrap();

    assert_eq!(b.next.unwrap(), "c");
    assert_eq!(c.prev.unwrap(), "b");
}

#[test]
fn verify_bidirectional_links_after_removal() {
    let mut list = make_list();
    list.pop_at(1);

    let a = list.node_at(0).unwrap();
    let c = list.node_at(1).unwrap();

    assert_eq!(a.next.unwrap(), "c");
    assert_eq!(c.prev.unwrap(), "a");
}

#[test]
fn removing_all_elements_one_by_one() {
    let mut list = make_list();
    while list.size() > 0 {
        list.pop_end();
    }
    assert_eq!(list.size(), 0);
    assert!(list.node_at(0).is_none());
}

#[test]
fn large_list_insert_and_pop() {
    let mut list = LinkedList::new();

    for i in 0..1000 {
        list.insert_end(i.to_string());
    }

    assert_eq!(list.size(), 1000);

    for _ in 0..500 {
        list.pop_start();
    }

    assert_eq!(list.size(), 500);

    for _ in 0..250 {
        list.pop_end();
    }

    assert_eq!(list.size(), 250);
}
