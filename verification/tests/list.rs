use intrusive_list::IntrusiveList;
use intrusive_list::IntrusiveListNode;
use intrusive_list::IntrusiveListNodeImpl;
use intrusive_list::Splice;
use intrusive_list::NULL;

type Node = IntrusiveListNodeImpl<usize>;

fn store(len: usize) -> Vec<Node> {
    (0..len).map(IntrusiveListNodeImpl::new).collect()
}

fn filled(nodes: &mut [Node]) -> IntrusiveList<Node> {
    let mut list = IntrusiveList::new();
    for node in 0..nodes.len() {
        list.push_back(nodes, node);
    }
    list
}

fn elems(list: &IntrusiveList<Node>, nodes: &[Node]) -> Vec<usize> {
    list.iter(nodes).elems().into_iter().copied().collect()
}

fn splice_elems(splice: &Splice<Node>, nodes: &[Node]) -> Vec<usize> {
    splice.iter(nodes).elems().into_iter().copied().collect()
}

/// Checks the links of every node of the list against its neighbours.
fn assert_linked(list: &IntrusiveList<Node>, nodes: &[Node]) {
    let run = list.iter(nodes).collect();
    assert_eq!(list.is_empty(), run.is_empty());
    for (k, &node) in run.iter().enumerate() {
        let before = if k == 0 { NULL } else { run[k - 1] };
        let after = if k + 1 == run.len() { NULL } else { run[k + 1] };
        assert_eq!(nodes[node].get_prev_ptr().load(), before);
        assert_eq!(nodes[node].get_next_ptr().load(), after);
    }
    let backwards = list.iter(nodes).rev().collect();
    let reversed: Vec<usize> = run.iter().rev().copied().collect();
    assert_eq!(backwards, reversed);
}

#[test]
fn new_list_is_empty() {
    let nodes = store(3);
    let list: IntrusiveList<Node> = IntrusiveList::new();
    assert!(list.is_empty());
    assert_eq!(elems(&list, &nodes), Vec::<usize>::new());
    assert_eq!(list.iter(&nodes).next(), None);
    assert_eq!(list.iter(&nodes).last(), None);
}

#[test]
fn default_list_is_empty() {
    let nodes = store(1);
    let list: IntrusiveList<Node> = IntrusiveList::default();
    assert!(list.is_empty());
    assert_eq!(list.iter(&nodes).collect(), Vec::<usize>::new());
}

#[test]
fn push_back_hundred_in_order() {
    let mut nodes = store(100);
    let list = filled(&mut nodes);
    let expected: Vec<usize> = (0..100).collect();
    assert_eq!(elems(&list, &nodes), expected);
    assert!(!list.is_empty());
    assert_linked(&list, &nodes);
}

#[test]
fn push_back_puts_node_last() {
    let mut nodes = store(4);
    let mut list = IntrusiveList::new();
    list.push_back(&mut nodes, 2);
    assert_eq!(list.iter(&nodes).collect(), vec![2]);
    list.push_back(&mut nodes, 0);
    assert_eq!(list.iter(&nodes).collect(), vec![2, 0]);
    list.push_back(&mut nodes, 3);
    assert_eq!(list.iter(&nodes).collect(), vec![2, 0, 3]);
    assert_eq!(list.iter(&nodes).last(), Some(3));
    assert_linked(&list, &nodes);
}

#[test]
fn push_front_puts_node_first() {
    let mut nodes = store(4);
    let mut list = IntrusiveList::new();
    list.push_front(&mut nodes, 2);
    assert_eq!(list.iter(&nodes).collect(), vec![2]);
    list.push_front(&mut nodes, 0);
    assert_eq!(list.iter(&nodes).collect(), vec![0, 2]);
    list.push_front(&mut nodes, 3);
    assert_eq!(list.iter(&nodes).collect(), vec![3, 0, 2]);
    assert_eq!(list.iter(&nodes).next(), Some(3));
    assert_linked(&list, &nodes);
}

#[test]
fn pushes_at_both_ends_mix() {
    let mut nodes = store(5);
    let mut list = IntrusiveList::new();
    list.push_back(&mut nodes, 2);
    list.push_front(&mut nodes, 1);
    list.push_back(&mut nodes, 3);
    list.push_front(&mut nodes, 0);
    list.push_back(&mut nodes, 4);
    assert_eq!(elems(&list, &nodes), vec![0, 1, 2, 3, 4]);
    assert_linked(&list, &nodes);
}

#[test]
fn split_even_odd_and_join() {
    let mut nodes = store(100);
    let mut evens: Splice<Node> = Splice::new_empty();
    let mut odds: Splice<Node> = Splice::new_empty();
    for node in 0..100 {
        if *nodes[node].get_elem() % 2 == 0 {
            evens.push_back(&mut nodes, node);
        } else {
            odds.push_front(&mut nodes, node);
        }
    }
    let mut list = IntrusiveList::new();
    list.push_back_splice(&mut nodes, evens);
    list.push_front_splice(&mut nodes, odds);

    let mut expected: Vec<usize> = (0..50).map(|k| 99 - 2 * k).collect();
    expected.extend((0..50).map(|k| 2 * k));
    assert_eq!(expected[0], 99);
    assert_eq!(expected[49], 1);
    assert_eq!(expected[50], 0);
    assert_eq!(expected[99], 98);
    assert_eq!(elems(&list, &nodes), expected);
    assert_linked(&list, &nodes);
}

#[test]
fn splice_second_half() {
    let mut nodes = store(100);
    let mut list = filled(&mut nodes);
    let taken = list.splice(&mut nodes, 50, 99).unwrap();
    let upper: Vec<usize> = (50..100).collect();
    let lower: Vec<usize> = (0..50).collect();
    assert_eq!(splice_elems(&taken, &nodes), upper);
    assert_eq!(elems(&list, &nodes), lower);
    assert_linked(&list, &nodes);
}

#[test]
fn splice_middle_closes_the_gap() {
    let mut nodes = store(6);
    let mut list = filled(&mut nodes);
    let taken = list.splice(&mut nodes, 2, 3).unwrap();
    assert_eq!(taken.iter(&nodes).collect(), vec![2, 3]);
    assert_eq!(list.iter(&nodes).collect(), vec![0, 1, 4, 5]);
    assert_eq!(nodes[1].get_next_ptr().load(), 4);
    assert_eq!(nodes[4].get_prev_ptr().load(), 1);
    assert_linked(&list, &nodes);
}

#[test]
fn splice_first_half_moves_first_anchor() {
    let mut nodes = store(5);
    let mut list = filled(&mut nodes);
    let taken = list.splice(&mut nodes, 0, 2).unwrap();
    assert_eq!(taken.iter(&nodes).collect(), vec![0, 1, 2]);
    assert_eq!(list.iter(&nodes).collect(), vec![3, 4]);
    assert_eq!(nodes[3].get_prev_ptr().load(), NULL);
    assert_linked(&list, &nodes);
}

#[test]
fn splice_everything_empties_the_list() {
    let mut nodes = store(4);
    let mut list = filled(&mut nodes);
    let taken = list.splice(&mut nodes, 0, 3).unwrap();
    assert_eq!(taken.iter(&nodes).collect(), vec![0, 1, 2, 3]);
    assert!(list.is_empty());
    assert_eq!(list.iter(&nodes).collect(), Vec::<usize>::new());
}

#[test]
fn splice_single_node() {
    let mut nodes = store(3);
    let mut list = filled(&mut nodes);
    let taken = list.splice(&mut nodes, 1, 1).unwrap();
    assert_eq!(taken.iter(&nodes).collect(), vec![1]);
    assert_eq!(list.iter(&nodes).collect(), vec![0, 2]);
    assert_linked(&list, &nodes);
}

#[test]
fn splice_on_empty_list_fails() {
    let mut nodes = store(2);
    let mut list: IntrusiveList<Node> = IntrusiveList::new();
    assert!(list.splice(&mut nodes, 0, 1).is_none());
    assert!(list.splice(&mut nodes, 0, 0).is_none());
    assert!(list.is_empty());
}

#[test]
fn splice_with_last_outside_fails() {
    let mut nodes = store(4);
    let mut list = IntrusiveList::new();
    list.push_back(&mut nodes, 0);
    list.push_back(&mut nodes, 1);
    list.push_back(&mut nodes, 2);
    assert!(list.splice(&mut nodes, 1, 3).is_none());
    assert_eq!(list.iter(&nodes).collect(), vec![0, 1, 2]);
    assert_linked(&list, &nodes);
}

#[test]
fn splice_with_first_outside_puts_right_side_back() {
    let mut nodes = store(4);
    let mut list = IntrusiveList::new();
    list.push_back(&mut nodes, 0);
    list.push_back(&mut nodes, 1);
    list.push_back(&mut nodes, 2);
    // The right side is reserved on node 2 and must be restored.
    assert!(list.splice(&mut nodes, 3, 1).is_none());
    assert_eq!(list.iter(&nodes).collect(), vec![0, 1, 2]);
    assert_linked(&list, &nodes);
    // The same with the last node, where the anchor is the word reserved.
    assert!(list.splice(&mut nodes, 3, 2).is_none());
    assert_eq!(list.iter(&nodes).collect(), vec![0, 1, 2]);
    assert_linked(&list, &nodes);
}

#[test]
fn splice_taken_out_can_be_pushed_back() {
    let mut nodes = store(6);
    let mut list = filled(&mut nodes);
    let taken = list.splice(&mut nodes, 1, 3).unwrap();
    list.push_back_splice(&mut nodes, taken);
    assert_eq!(list.iter(&nodes).collect(), vec![0, 4, 5, 1, 2, 3]);
    assert_linked(&list, &nodes);
    let taken = list.splice(&mut nodes, 5, 2).unwrap();
    list.push_front_splice(&mut nodes, taken);
    assert_eq!(list.iter(&nodes).collect(), vec![5, 1, 2, 0, 4, 3]);
    assert_linked(&list, &nodes);
}

#[test]
fn remove_node_in_the_middle() {
    let mut nodes = store(3);
    let mut list = filled(&mut nodes);
    assert!(list.remove_node(&mut nodes, 1));
    assert_eq!(list.iter(&nodes).collect(), vec![0, 2]);
    assert_linked(&list, &nodes);
}

#[test]
fn remove_node_at_the_ends() {
    let mut nodes = store(4);
    let mut list = filled(&mut nodes);
    assert!(list.remove_node(&mut nodes, 0));
    assert_eq!(list.iter(&nodes).collect(), vec![1, 2, 3]);
    assert!(list.remove_node(&mut nodes, 3));
    assert_eq!(list.iter(&nodes).collect(), vec![1, 2]);
    assert_linked(&list, &nodes);
}

#[test]
fn remove_only_node() {
    let mut nodes = store(1);
    let mut list = filled(&mut nodes);
    assert!(list.remove_node(&mut nodes, 0));
    assert!(list.is_empty());
    assert_eq!(list.iter(&nodes).collect(), Vec::<usize>::new());
}

#[test]
fn remove_node_twice_succeeds_once() {
    let mut nodes = store(3);
    let mut list = filled(&mut nodes);
    assert!(list.remove_node(&mut nodes, 1));
    assert!(!list.remove_node(&mut nodes, 1));
    assert_eq!(list.iter(&nodes).collect(), vec![0, 2]);
    assert_linked(&list, &nodes);
}

#[test]
fn remove_node_never_linked() {
    let mut nodes = store(3);
    let mut list = IntrusiveList::new();
    list.push_back(&mut nodes, 0);
    list.push_back(&mut nodes, 1);
    assert!(!list.remove_node(&mut nodes, 2));
    assert_eq!(list.iter(&nodes).collect(), vec![0, 1]);
    assert_linked(&list, &nodes);
}

#[test]
fn remove_node_from_empty_list() {
    let mut nodes = store(1);
    let mut list: IntrusiveList<Node> = IntrusiveList::new();
    assert!(!list.remove_node(&mut nodes, 0));
    assert!(list.is_empty());
}

#[test]
fn removed_node_can_be_pushed_again() {
    let mut nodes = store(3);
    let mut list = filled(&mut nodes);
    assert!(list.remove_node(&mut nodes, 0));
    list.push_back(&mut nodes, 0);
    assert_eq!(list.iter(&nodes).collect(), vec![1, 2, 0]);
    assert!(list.remove_node(&mut nodes, 2));
    list.push_front(&mut nodes, 2);
    assert_eq!(list.iter(&nodes).collect(), vec![2, 1, 0]);
    assert_linked(&list, &nodes);
}

#[test]
fn remove_if_odd() {
    let mut nodes = store(100);
    let mut list = filled(&mut nodes);
    let counts = list.remove_if(&mut nodes, |node: &Node| *node.get_elem() % 2 == 1);
    assert_eq!(counts, (50, 50));
    let expected: Vec<usize> = (0..50).map(|k| 2 * k).collect();
    assert_eq!(elems(&list, &nodes), expected);
    assert_linked(&list, &nodes);
}

#[test]
fn remove_if_even() {
    let mut nodes = store(7);
    let mut list = filled(&mut nodes);
    let counts = list.remove_if(&mut nodes, |node: &Node| *node.get_elem() % 2 == 0);
    assert_eq!(counts, (3, 4));
    assert_eq!(elems(&list, &nodes), vec![1, 3, 5]);
    assert_linked(&list, &nodes);
}

#[test]
fn remove_if_takes_runs_together() {
    let mut nodes = store(10);
    let mut list = filled(&mut nodes);
    let counts = list.remove_if(&mut nodes, |node: &Node| {
        let elem = *node.get_elem();
        elem <= 1 || (4..=6).contains(&elem) || elem >= 8
    });
    assert_eq!(counts, (3, 7));
    assert_eq!(elems(&list, &nodes), vec![2, 3, 7]);
    assert_linked(&list, &nodes);
}

#[test]
fn remove_if_all() {
    let mut nodes = store(5);
    let mut list = filled(&mut nodes);
    let counts = list.remove_if(&mut nodes, |_: &Node| true);
    assert_eq!(counts, (0, 5));
    assert!(list.is_empty());
    assert_eq!(elems(&list, &nodes), Vec::<usize>::new());
}

#[test]
fn remove_if_none() {
    let mut nodes = store(5);
    let mut list = filled(&mut nodes);
    let counts = list.remove_if(&mut nodes, |_: &Node| false);
    assert_eq!(counts, (5, 0));
    assert_eq!(elems(&list, &nodes), vec![0, 1, 2, 3, 4]);
    assert_linked(&list, &nodes);
}

#[test]
fn remove_if_on_empty_list() {
    let mut nodes = store(2);
    let mut list: IntrusiveList<Node> = IntrusiveList::new();
    let counts = list.remove_if(&mut nodes, |_: &Node| true);
    assert_eq!(counts, (0, 0));
    assert!(list.is_empty());
}

#[test]
fn remove_if_asks_once_per_node_from_the_left() {
    let mut nodes = store(6);
    let mut list = IntrusiveList::new();
    for node in [3, 1, 4, 0, 5, 2] {
        list.push_back(&mut nodes, node);
    }
    let mut asked = Vec::new();
    let counts = list.remove_if(&mut nodes, |node: &Node| {
        asked.push(*node.get_elem());
        *node.get_elem() >= 3
    });
    assert_eq!(asked, vec![3, 1, 4, 0, 5, 2]);
    assert_eq!(counts, (3, 3));
    assert_eq!(elems(&list, &nodes), vec![1, 0, 2]);
    assert_linked(&list, &nodes);
}

#[test]
fn clear_leaves_empty() {
    let mut nodes = store(50);
    let mut list = filled(&mut nodes);
    assert!(!list.is_empty());
    list.clear();
    assert!(list.is_empty());
    assert_eq!(format!("{:?}", elems(&list, &nodes)), "[]");
    assert_eq!(list.iter(&nodes).collect(), Vec::<usize>::new());
    // The nodes keep the links they had.
    assert_eq!(nodes[0].get_next_ptr().load(), 1);
    assert_eq!(nodes[49].get_prev_ptr().load(), 48);
}

#[test]
fn cleared_nodes_can_be_linked_again() {
    let mut nodes = store(3);
    let mut list = filled(&mut nodes);
    list.clear();
    list.push_back(&mut nodes, 2);
    list.push_back(&mut nodes, 1);
    list.push_front(&mut nodes, 0);
    assert_eq!(list.iter(&nodes).collect(), vec![0, 2, 1]);
    assert_linked(&list, &nodes);
}

#[test]
fn debug_text_of_elems() {
    let mut nodes = store(3);
    let list = filled(&mut nodes);
    assert_eq!(format!("{:?}", elems(&list, &nodes)), "[0, 1, 2]");
}

#[test]
fn push_back_splice_appends_in_order() {
    let mut nodes = store(6);
    let mut list = IntrusiveList::new();
    list.push_back(&mut nodes, 0);
    list.push_back(&mut nodes, 1);
    let mut splice = Splice::new_empty();
    splice.push_back(&mut nodes, 4);
    splice.push_back(&mut nodes, 5);
    splice.push_back(&mut nodes, 3);
    list.push_back_splice(&mut nodes, splice);
    assert_eq!(list.iter(&nodes).collect(), vec![0, 1, 4, 5, 3]);
    assert_linked(&list, &nodes);
}

#[test]
fn push_front_splice_prepends_in_order() {
    let mut nodes = store(6);
    let mut list = IntrusiveList::new();
    list.push_back(&mut nodes, 0);
    list.push_back(&mut nodes, 1);
    let mut splice = Splice::new_empty();
    splice.push_back(&mut nodes, 4);
    splice.push_back(&mut nodes, 5);
    splice.push_back(&mut nodes, 3);
    list.push_front_splice(&mut nodes, splice);
    assert_eq!(list.iter(&nodes).collect(), vec![4, 5, 3, 0, 1]);
    assert_linked(&list, &nodes);
}

#[test]
fn push_splice_into_empty_list() {
    let mut nodes = store(4);
    let mut list = IntrusiveList::new();
    let mut splice = Splice::new_empty();
    splice.push_back(&mut nodes, 1);
    splice.push_back(&mut nodes, 2);
    list.push_back_splice(&mut nodes, splice);
    assert_eq!(list.iter(&nodes).collect(), vec![1, 2]);
    assert_linked(&list, &nodes);

    let mut other = IntrusiveList::new();
    let mut splice = Splice::new_empty();
    splice.push_back(&mut nodes, 0);
    splice.push_back(&mut nodes, 3);
    other.push_front_splice(&mut nodes, splice);
    assert_eq!(other.iter(&nodes).collect(), vec![0, 3]);
    assert_linked(&other, &nodes);
    assert_linked(&list, &nodes);
}

#[test]
fn push_empty_splice_changes_nothing() {
    let mut nodes = store(2);
    let mut list = filled(&mut nodes);
    list.push_back_splice(&mut nodes, Splice::new_empty());
    list.push_front_splice(&mut nodes, Splice::new_empty());
    assert_eq!(list.iter(&nodes).collect(), vec![0, 1]);
    assert_linked(&list, &nodes);

    let mut empty: IntrusiveList<Node> = IntrusiveList::new();
    empty.push_back_splice(&mut nodes, Splice::new_empty());
    assert!(empty.is_empty());
}

#[test]
fn two_splices_of_fifty_keep_their_segments() {
    let mut nodes = store(100);
    let mut left = Splice::new_empty();
    let mut right = Splice::new_empty();
    for node in 0..50 {
        left.push_back(&mut nodes, node);
    }
    for node in 50..100 {
        right.push_back(&mut nodes, node);
    }
    let mut list = IntrusiveList::new();
    list.push_back_splice(&mut nodes, right);
    list.push_back_splice(&mut nodes, left);
    let mut expected: Vec<usize> = (50..100).collect();
    expected.extend(0..50);
    assert_eq!(elems(&list, &nodes), expected);
    assert_linked(&list, &nodes);
}

#[test]
fn two_lists_share_one_store() {
    let mut nodes = store(6);
    let mut evens = IntrusiveList::new();
    let mut odds = IntrusiveList::new();
    for node in 0..6 {
        if node % 2 == 0 {
            evens.push_back(&mut nodes, node);
        } else {
            odds.push_front(&mut nodes, node);
        }
    }
    assert_eq!(evens.iter(&nodes).collect(), vec![0, 2, 4]);
    assert_eq!(odds.iter(&nodes).collect(), vec![5, 3, 1]);
    assert!(odds.remove_node(&mut nodes, 3));
    assert!(!evens.remove_node(&mut nodes, 3));
    evens.push_back(&mut nodes, 3);
    assert_eq!(evens.iter(&nodes).collect(), vec![0, 2, 4, 3]);
    assert_eq!(odds.iter(&nodes).collect(), vec![5, 1]);
    assert_linked(&evens, &nodes);
    assert_linked(&odds, &nodes);
}

#[test]
fn anchors_are_both_set_or_both_null() {
    let mut nodes = store(3);
    let mut list: IntrusiveList<Node> = IntrusiveList::new();
    assert_eq!(list.iter(&nodes).next(), None);
    assert_eq!(list.iter(&nodes).next_back(), None);
    list.push_back(&mut nodes, 1);
    assert_eq!(list.iter(&nodes).next(), Some(1));
    assert_eq!(list.iter(&nodes).next_back(), Some(1));
    list.push_front(&mut nodes, 0);
    assert_eq!(list.iter(&nodes).next(), Some(0));
    assert_eq!(list.iter(&nodes).next_back(), Some(1));
    assert!(list.remove_node(&mut nodes, 0));
    assert!(list.remove_node(&mut nodes, 1));
    assert_eq!(list.iter(&nodes).next(), None);
    assert_eq!(list.iter(&nodes).next_back(), None);
}

#[test]
fn inner_nodes_are_named_by_both_neighbours() {
    let mut nodes = store(5);
    let list = filled(&mut nodes);
    for node in 1..4 {
        let before = nodes[node].get_prev_ptr().load();
        let after = nodes[node].get_next_ptr().load();
        assert_eq!(nodes[before].get_next_ptr().load(), node);
        assert_eq!(nodes[after].get_prev_ptr().load(), node);
    }
    assert_eq!(nodes[0].get_prev_ptr().load(), NULL);
    assert_eq!(nodes[4].get_next_ptr().load(), NULL);
    assert_eq!(list.iter(&nodes).next(), Some(0));
    assert_eq!(list.iter(&nodes).last(), Some(4));
}

#[test]
fn into_iter_walks_the_list() {
    let mut nodes = store(3);
    let list = filled(&mut nodes);
    assert_eq!(list.into_iter(&nodes).collect(), vec![0, 1, 2]);
}

#[test]
fn remove_if_leaves_the_links_of_what_goes() {
    let mut nodes = store(4);
    let mut list = filled(&mut nodes);
    let counts = list.remove_if(&mut nodes, |node: &Node| (1..=2).contains(node.get_elem()));
    assert_eq!(counts, (2, 2));
    assert_eq!(list.iter(&nodes).collect(), vec![0, 3]);
    assert_linked(&list, &nodes);
    // The run that went is still linked in itself, and still knows where it
    // stood.
    assert_eq!(nodes[1].get_prev_ptr().load(), 0);
    assert_eq!(nodes[1].get_next_ptr().load(), 2);
    assert_eq!(nodes[2].get_prev_ptr().load(), 1);
    assert_eq!(nodes[2].get_next_ptr().load(), 3);
    let gone: Splice<Node> = Splice::new_unchecked(&nodes, 1, 2);
    list.push_back_splice(&mut nodes, gone);
    assert_eq!(list.iter(&nodes).collect(), vec![0, 3, 1, 2]);
    assert_linked(&list, &nodes);
}
