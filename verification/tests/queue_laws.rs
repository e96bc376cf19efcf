use nostd_async::linked_list::LinkedList;

fn order(list: &LinkedList<u32>) -> Vec<usize> {
    let mut out = Vec::new();
    let mut current = list.get_first().map(|d| d.node());
    while let Some(node) = current {
        out.push(node);
        current = list.links(node).next();
    }
    out
}

fn list_of(n: usize) -> LinkedList<u32> {
    let mut list = LinkedList::new();
    for i in 0..n {
        let node = list.add(100 + i as u32);
        assert_eq!(node, i);
    }
    list
}

#[test]
fn insert_back_twice_is_insert_back_once() {
    let mut list = list_of(3);
    list.insert_back(0);
    list.insert_back(1);
    list.insert_back(0);
    assert_eq!(order(&list), vec![0, 1]);
}

#[test]
fn insert_front_twice_is_insert_front_once() {
    let mut list = list_of(3);
    list.insert_front(0);
    list.insert_front(1);
    list.insert_front(1);
    list.insert_front(0);
    assert_eq!(order(&list), vec![1, 0]);
}

#[test]
fn insert_front_of_a_queued_node_keeps_its_place() {
    let mut list = list_of(3);
    list.insert_back(0);
    list.insert_back(1);
    list.insert_back(2);
    list.insert_front(2);
    assert_eq!(order(&list), vec![0, 1, 2]);
}

#[test]
fn remove_undoes_insert_back() {
    let mut list = list_of(4);
    list.insert_back(2);
    list.insert_front(0);
    list.insert_back(1);
    let before = order(&list);
    list.insert_back(3);
    assert_eq!(order(&list), vec![0, 2, 1, 3]);
    list.remove(3);
    assert_eq!(order(&list), before);
    assert!(!list.is_in_queue(3));
    assert_eq!(list.links(3).previous(), None);
    assert_eq!(list.links(3).next(), None);
}

#[test]
fn remove_undoes_insert_front() {
    let mut list = list_of(3);
    list.insert_back(1);
    list.insert_back(2);
    list.insert_front(0);
    assert_eq!(order(&list), vec![0, 1, 2]);
    list.remove(0);
    assert_eq!(order(&list), vec![1, 2]);
}

#[test]
fn remove_of_a_node_not_queued_changes_nothing() {
    let mut list = list_of(3);
    list.insert_back(0);
    list.insert_back(2);
    list.remove(1);
    assert_eq!(order(&list), vec![0, 2]);
    list.remove(0);
    list.remove(0);
    assert_eq!(order(&list), vec![2]);
}

#[test]
fn remove_last_and_only_nodes() {
    let mut list = list_of(2);
    list.insert_back(0);
    list.insert_back(1);
    list.remove(1);
    assert_eq!(order(&list), vec![0]);
    assert_eq!(list.links(0).next(), None);
    list.remove(0);
    assert!(list.get_first().is_none());
    list.insert_front(1);
    assert_eq!(order(&list), vec![1]);
}

#[test]
fn links_name_the_neighbours() {
    let mut list = list_of(3);
    list.insert_back(1);
    list.insert_back(0);
    list.insert_back(2);
    assert_eq!(list.links(1).previous(), None);
    assert_eq!(list.links(1).next(), Some(0));
    assert_eq!(list.links(0).previous(), Some(1));
    assert_eq!(list.links(0).next(), Some(2));
    assert_eq!(list.links(2).previous(), Some(0));
    assert_eq!(list.links(2).next(), None);
}

#[test]
fn with_first_sees_the_first_item() {
    let mut list = list_of(3);
    assert_eq!(list.with_first(|item| *item + 1), None);
    list.insert_back(2);
    list.insert_back(1);
    assert_eq!(list.with_first(|item| *item + 1), Some(103));
    let first = list.get_first().unwrap();
    assert_eq!(first.node(), 2);
    assert_eq!(first.with(&list, |item| *item * 2), 204);
}

#[test]
fn replace_item_swaps_the_item() {
    let mut list = list_of(2);
    list.insert_back(1);
    assert_eq!(list.replace_item(1, 7), 101);
    assert_eq!(*list.item(1), 7);
    assert_eq!(*list.item(0), 100);
    assert_eq!(order(&list), vec![1]);
    assert_eq!(list.len(), 2);
}

#[test]
fn front_order_is_the_reverse_of_back_order() {
    let mut back = list_of(4);
    let mut front = list_of(4);
    for node in [2, 0, 3, 1] {
        back.insert_back(node);
        front.insert_front(node);
    }
    assert_eq!(order(&back), vec![2, 0, 3, 1]);
    assert_eq!(order(&front), vec![1, 3, 0, 2]);
}
