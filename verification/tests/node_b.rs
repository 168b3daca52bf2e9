use circular_list::{HandleB, ListB, NodeB};

fn data_() -> Vec<i32> {
    (0..20).collect()
}

/// Walks the cycle once from `node` and checks the links and identifiers on the way.
fn check_links(list: &ListB<i32>, node: &HandleB) {
    let n = NodeB::len(list, node);
    let mut ids = Vec::new();
    let mut at = *node;
    for _ in 0..n {
        let here = list.get(&at).unwrap();
        let next = here.next;
        let prev = here.prev;
        assert_eq!(list.get(&next).unwrap().prev, at);
        assert_eq!(list.get(&prev).unwrap().next, at);
        assert!(!ids.contains(&here.i));
        ids.push(here.i);
        at = next;
    }
    assert_eq!(at, *node);
}

#[test]
fn test_node_b() {
    let (mut list, node) = NodeB::init(data_()).unwrap();

    let node = NodeB::step(&list, &node, 10);
    assert_eq!(list.get(&node).unwrap().data, 10);

    let (data, node) = NodeB::cut(&mut list, &node).unwrap();
    assert_eq!(data, 10);
    assert_eq!(list.get(&node).unwrap().data, 11);

    let node = NodeB::add(&mut list, &node, 0, None);
    let tour = NodeB::tour(&list, &node);
    let tour_ = vec![vec![0], (12..20).collect::<Vec<_>>(), (0..10).collect::<Vec<_>>(), vec![11]].concat();
    assert_eq!(tour, tour_);

    NodeB::clean(&mut list, &node);
}

#[test]
fn b_init_of_nothing_is_none() {
    assert!(NodeB::<i32>::init(vec![]).is_none());
}

#[test]
fn b_len_and_tour_of_init() {
    for n in 1..40usize {
        let data: Vec<u64> = (0..n as u64).map(|x| x * 7 + 3).collect();
        let (list, head) = NodeB::init(data.clone()).unwrap();
        assert_eq!(NodeB::len(&list, &head), n);
        assert_eq!(NodeB::tour(&list, &head), data);
    }
}

#[test]
fn b_init_numbers_from_zero() {
    let (list, head) = NodeB::init(vec!['a', 'b', 'c']).unwrap();
    let mut at = head;
    for k in 0..3 {
        assert_eq!(list.get(&at).unwrap().i, k);
        at = list.get(&at).unwrap().next;
    }
    assert_eq!(at, head);
}

#[test]
fn b_single_node_links_to_itself() {
    let (list, head) = NodeB::init(vec![42]).unwrap();
    let node = list.get(&head).unwrap();
    assert_eq!(node.i, 0);
    assert_eq!(node.next, head);
    assert_eq!(node.prev, head);
    assert_eq!(NodeB::len(&list, &head), 1);
    assert_eq!(NodeB::tour(&list, &head), vec![42]);
    assert_eq!(NodeB::step(&list, &head, 5), head);
    assert_eq!(NodeB::new_id(&list, &head), 1);
}

#[test]
fn b_tour_twice_is_the_same() {
    let (list, head) = NodeB::init(data_()).unwrap();
    let node = NodeB::step(&list, &head, 7);
    let first = NodeB::tour(&list, &node);
    let second = NodeB::tour(&list, &node);
    assert_eq!(first, second);
    assert_eq!(first, vec![7, 8, 9, 10, 11, 12, 13, 14, 15, 16, 17, 18, 19, 0, 1, 2, 3, 4, 5, 6]);
}

#[test]
fn b_tour_starts_at_the_node() {
    let (list, head) = NodeB::init(vec![5, 6, 7]).unwrap();
    let second = NodeB::step(&list, &head, 1);
    assert_eq!(NodeB::tour(&list, &second), vec![6, 7, 5]);
    let third = NodeB::step(&list, &head, 2);
    assert_eq!(NodeB::tour(&list, &third), vec![7, 5, 6]);
}

#[test]
fn b_step_wraps_round() {
    let (list, head) = NodeB::init(vec![10, 11, 12]).unwrap();
    assert_eq!(NodeB::step(&list, &head, 0), head);
    assert_eq!(list.get(&NodeB::step(&list, &head, 1)).unwrap().data, 11);
    assert_eq!(list.get(&NodeB::step(&list, &head, 2)).unwrap().data, 12);
    assert_eq!(NodeB::step(&list, &head, 3), head);
    assert_eq!(list.get(&NodeB::step(&list, &head, 7)).unwrap().data, 11);
    assert_eq!(list.get(&NodeB::step(&list, &head, 3002)).unwrap().data, 12);
}

#[test]
fn b_new_id_is_the_smallest_unused() {
    // identifiers {0, 1, 2, 4}
    let (mut list, head) = NodeB::init(vec![0, 1, 2, 3, 4]).unwrap();
    let third = NodeB::step(&list, &head, 3);
    let (_, after) = NodeB::cut(&mut list, &third).unwrap();
    assert_eq!(NodeB::new_id(&list, &after), 3);
    assert_eq!(NodeB::new_id(&list, &head), 3);

    // identifiers {1, 2, 3}
    let (mut list, head) = NodeB::init(vec![0, 1, 2, 3]).unwrap();
    let (_, after) = NodeB::cut(&mut list, &head).unwrap();
    assert_eq!(NodeB::new_id(&list, &after), 0);

    // identifiers {0, .., 19}
    let (list, head) = NodeB::init(data_()).unwrap();
    assert_eq!(NodeB::new_id(&list, &head), 20);
}

#[test]
fn b_scenario_assigns_the_smallest_unused_identifier() {
    let (mut list, head) = NodeB::init(data_()).unwrap();
    let node = NodeB::step(&list, &head, 10);
    let (data, node) = NodeB::cut(&mut list, &node).unwrap();
    assert_eq!(data, 10);
    assert_eq!(list.get(&node).unwrap().i, 11);
    let added = NodeB::add(&mut list, &node, 0, None);
    // the identifiers left are 0..=9 and 11..=19
    assert_eq!(list.get(&added).unwrap().i, 10);
    assert_eq!(list.get(&added).unwrap().data, 0);
    assert_eq!(NodeB::new_id(&list, &added), 20);
    assert_eq!(NodeB::len(&list, &added), 20);
    assert_eq!(list.get(&added).unwrap().prev, node);
    assert_eq!(list.get(&node).unwrap().next, added);
    check_links(&list, &added);
}

#[test]
fn b_cut_joins_the_neighbours() {
    let (mut list, head) = NodeB::init(vec![1, 2, 3, 4]).unwrap();
    let second = NodeB::step(&list, &head, 1);
    let third = NodeB::step(&list, &head, 2);
    let (data, after) = NodeB::cut(&mut list, &second).unwrap();
    assert_eq!(data, 2);
    assert_eq!(after, third);
    assert_eq!(list.get(&head).unwrap().next, third);
    assert_eq!(list.get(&third).unwrap().prev, head);
    assert!(list.get(&second).is_none());
    assert_eq!(NodeB::tour(&list, &head), vec![1, 3, 4]);
    assert_eq!(NodeB::len(&list, &head), 3);
    check_links(&list, &head);
}

#[test]
fn b_cut_of_a_stale_handle_is_none() {
    let (mut list, head) = NodeB::init(vec![1, 2, 3]).unwrap();
    let second = NodeB::step(&list, &head, 1);
    assert!(NodeB::cut(&mut list, &second).is_some());
    assert!(NodeB::cut(&mut list, &second).is_none());
    assert_eq!(NodeB::tour(&list, &head), vec![1, 3]);
}

#[test]
fn b_cut_down_to_two_and_one() {
    let (mut list, head) = NodeB::init(vec![1, 2, 3]).unwrap();
    let (data, after) = NodeB::cut(&mut list, &head).unwrap();
    assert_eq!((data, NodeB::tour(&list, &after)), (1, vec![2, 3]));
    let (data, last) = NodeB::cut(&mut list, &after).unwrap();
    assert_eq!((data, NodeB::tour(&list, &last)), (2, vec![3]));
    assert_eq!(list.get(&last).unwrap().next, last);
    assert_eq!(list.get(&last).unwrap().prev, last);
    // the only node of a cycle comes after itself and stays
    let (data, same) = NodeB::cut(&mut list, &last).unwrap();
    assert_eq!(data, 3);
    assert_eq!(same, last);
    assert_eq!(NodeB::tour(&list, &last), vec![3]);
    assert_eq!(NodeB::len(&list, &last), 1);
}

#[test]
fn b_add_with_a_given_identifier() {
    let (mut list, head) = NodeB::init(vec![1, 2]).unwrap();
    let added = NodeB::add(&mut list, &head, 9, Some(77));
    assert_eq!(list.get(&added).unwrap().i, 77);
    assert_eq!(NodeB::tour(&list, &head), vec![1, 9, 2]);
    assert_eq!(NodeB::new_id(&list, &head), 2);
    let more = NodeB::add(&mut list, &added, 8, None);
    assert_eq!(list.get(&more).unwrap().i, 2);
    assert_eq!(NodeB::tour(&list, &head), vec![1, 9, 8, 2]);
    check_links(&list, &head);
}

#[test]
fn b_add_to_a_single_node() {
    let (mut list, head) = NodeB::init(vec![1]).unwrap();
    let added = NodeB::add(&mut list, &head, 2, None);
    assert_eq!(list.get(&added).unwrap().i, 1);
    assert_eq!(NodeB::tour(&list, &head), vec![1, 2]);
    assert_eq!(NodeB::tour(&list, &added), vec![2, 1]);
    assert_eq!(list.get(&head).unwrap().next, added);
    assert_eq!(list.get(&head).unwrap().prev, added);
    assert_eq!(list.get(&added).unwrap().next, head);
    assert_eq!(list.get(&added).unwrap().prev, head);
}

#[test]
fn b_links_hold_after_many_changes() {
    let (mut list, head) = NodeB::init(data_()).unwrap();
    let mut node = head;
    for round in 0..100usize {
        node = NodeB::step(&list, &node, round % 7 + 1);
        if round % 3 == 0 {
            let (_, after) = NodeB::cut(&mut list, &node).unwrap();
            node = after;
        } else {
            node = NodeB::add(&mut list, &node, round as i32, None);
        }
        check_links(&list, &node);
        assert_eq!(NodeB::tour(&list, &node).len(), NodeB::len(&list, &node));
    }
    assert_eq!(NodeB::len(&list, &node), 52);
}

#[test]
fn b_data_that_is_not_copied_bitwise() {
    let data: Vec<String> = vec!["x".to_string(), "yy".to_string(), "zzz".to_string()];
    let (mut list, head) = NodeB::init(data.clone()).unwrap();
    assert_eq!(NodeB::tour(&list, &head), data);
    let (gone, after) = NodeB::cut(&mut list, &head).unwrap();
    assert_eq!(gone, "x");
    let added = NodeB::add(&mut list, &after, "w".to_string(), None);
    assert_eq!(list.get(&added).unwrap().i, 0);
    assert_eq!(NodeB::tour(&list, &after), vec!["yy", "w", "zzz"]);
}

#[test]
fn b_clean_releases_every_node() {
    let (mut list, head) = NodeB::init(data_()).unwrap();
    let handles: Vec<HandleB> = (0..20).map(|k| NodeB::step(&list, &head, k)).collect();
    let middle = handles[10];
    NodeB::clean(&mut list, &middle);
    for handle in &handles {
        assert!(list.get(handle).is_none());
    }
    assert!(NodeB::cut(&mut list, &head).is_none());
}

#[test]
fn b_clean_of_a_single_node() {
    let (mut list, head) = NodeB::init(vec![1]).unwrap();
    NodeB::clean(&mut list, &head);
    assert!(list.get(&head).is_none());
}

#[test]
fn b_a_released_handle_stays_dead_when_its_slot_is_used_again() {
    let (mut list, head) = NodeB::init(vec![1, 2, 3]).unwrap();
    let second = NodeB::step(&list, &head, 1);
    let (_, third) = NodeB::cut(&mut list, &second).unwrap();
    assert!(list.get(&second).is_none());
    let mut added = Vec::new();
    for k in 0..5 {
        added.push(NodeB::add(&mut list, &third, 10 + k, None));
    }
    assert!(list.get(&second).is_none());
    assert!(NodeB::cut(&mut list, &second).is_none());
    for handle in &added {
        assert_ne!(*handle, second);
        assert!(list.get(handle).is_some());
    }
    assert_eq!(NodeB::tour(&list, &head), vec![1, 3, 14, 13, 12, 11, 10]);
}
