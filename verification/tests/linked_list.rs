use nostd_async::linked_list::LinkedList;

/// Walks the queue from its first node and checks that every link agrees
/// with its neighbour's, and that the ends have no outer neighbour.
fn assert_is_valid(list: &LinkedList<()>) {
    if let Some(first) = list.get_first() {
        let first = first.node();
        assert!(list.links(first).previous().is_none());

        let mut current_node = first;
        let mut steps = 0;
        loop {
            assert!(steps <= list.len(), "the queue loops");
            steps += 1;

            if let Some(previous) = list.links(current_node).previous() {
                let previous_next = list.links(previous).next().expect("Node has next node");
                assert_eq!(previous_next, current_node);
            }

            if let Some(next) = list.links(current_node).next() {
                let next_previous = list.links(next).previous().expect("Node has previous node");
                assert_eq!(next_previous, current_node);
                current_node = next;
                continue;
            }

            break;
        }
    }
}

fn is_empty(list: &LinkedList<()>) -> bool {
    list.get_first().is_none()
}

fn contains(list: &LinkedList<()>, node: usize) -> bool {
    if let Some(first) = list.get_first() {
        let mut current_node = first.node();
        loop {
            if current_node == node {
                return true;
            }
            if let Some(next_node) = list.links(current_node).next() {
                current_node = next_node;
            } else {
                return false;
            }
        }
    } else {
        false
    }
}

#[test]
fn empty_list_is_valid() {
    let list: LinkedList<()> = LinkedList::default();
    assert_is_valid(&list);
    assert!(is_empty(&list));
}

#[test]
fn singleton_insert_front_is_valid() {
    let mut list: LinkedList<()> = LinkedList::default();

    let node = list.add(());
    list.insert_front(node);

    assert_is_valid(&list);
    assert!(contains(&list, node));
}

#[test]
fn singleton_insert_back_is_valid() {
    let mut list: LinkedList<()> = LinkedList::default();

    let node = list.add(());
    list.insert_back(node);

    assert_is_valid(&list);
    assert!(contains(&list, node));
}

#[test]
fn list_a_b_is_valid() {
    let mut list: LinkedList<()> = LinkedList::default();

    let node_a = list.add(());
    let node_b = list.add(());

    list.insert_back(node_a);
    list.insert_back(node_b);

    assert_is_valid(&list);
    assert!(contains(&list, node_a));
    assert!(contains(&list, node_b));

    assert!(list.links(node_a).next().is_some());
    assert_eq!(list.links(node_a).next().unwrap(), node_b);
}

#[test]
fn list_b_a_is_valid() {
    let mut list: LinkedList<()> = LinkedList::default();

    let node_a = list.add(());
    let node_b = list.add(());

    list.insert_front(node_a);
    list.insert_front(node_b);

    assert_is_valid(&list);
    assert!(contains(&list, node_a));
    assert!(contains(&list, node_b));

    assert!(list.links(node_b).next().is_some());
    assert_eq!(list.links(node_b).next().unwrap(), node_a);
}

fn run_triple_test(remove_order: [usize; 3]) {
    let mut list: LinkedList<()> = LinkedList::default();

    let nodes = [list.add(()), list.add(()), list.add(())];

    for node in nodes.iter() {
        list.insert_back(*node);
    }

    for node in nodes.iter() {
        assert!(contains(&list, *node));
    }

    list.remove(nodes[remove_order[0]]);
    assert_is_valid(&list);

    assert!(!contains(&list, nodes[remove_order[0]]));
    assert!(contains(&list, nodes[remove_order[1]]));
    assert!(contains(&list, nodes[remove_order[2]]));

    assert!(!list.is_in_queue(nodes[remove_order[0]]));
    assert!(list.is_in_queue(nodes[remove_order[1]]));
    assert!(list.is_in_queue(nodes[remove_order[2]]));

    list.remove(nodes[remove_order[1]]);
    assert_is_valid(&list);

    assert!(!contains(&list, nodes[remove_order[0]]));
    assert!(!contains(&list, nodes[remove_order[1]]));
    assert!(contains(&list, nodes[remove_order[2]]));

    assert!(!list.is_in_queue(nodes[remove_order[0]]));
    assert!(!list.is_in_queue(nodes[remove_order[1]]));
    assert!(list.is_in_queue(nodes[remove_order[2]]));

    list.remove(nodes[remove_order[2]]);
    assert_is_valid(&list);

    assert!(!contains(&list, nodes[remove_order[0]]));
    assert!(!contains(&list, nodes[remove_order[1]]));
    assert!(!contains(&list, nodes[remove_order[2]]));

    assert!(!list.is_in_queue(nodes[remove_order[0]]));
    assert!(!list.is_in_queue(nodes[remove_order[1]]));
    assert!(!list.is_in_queue(nodes[remove_order[2]]));
}

#[test]
fn triple_list_is_valid_012() {
    run_triple_test([0, 1, 2]);
}

#[test]
fn triple_list_is_valid_021() {
    run_triple_test([0, 2, 1]);
}

#[test]
fn triple_list_is_valid_102() {
    run_triple_test([1, 0, 2]);
}

#[test]
fn triple_list_is_valid_120() {
    run_triple_test([1, 2, 0]);
}

#[test]
fn triple_list_is_valid_201() {
    run_triple_test([2, 0, 1]);
}

#[test]
fn triple_list_is_valid_210() {
    run_triple_test([2, 1, 0]);
}
