use intrusive_list::IntrusiveList;
use intrusive_list::IntrusiveListNode;
use intrusive_list::IntrusiveListNodeImpl;
use intrusive_list::Splice;
use intrusive_list::NULL;

type Node = IntrusiveListNodeImpl<u64>;

/// A small generator of numbers, the same on every run.
struct Draw(u64);

impl Draw {
    fn next(&mut self) -> u64 {
        self.0 = self.0.wrapping_mul(6364136223846793005).wrapping_add(1442695040888963407);
        self.0 >> 33
    }

    fn below(&mut self, bound: usize) -> usize {
        (self.next() % bound as u64) as usize
    }
}

/// Holds the list against the sequence it should stand for, link by link.
fn assert_stands_for(list: &IntrusiveList<Node>, nodes: &[Node], model: &[usize]) {
    assert_eq!(list.iter(nodes).collect(), model);
    let mut backwards: Vec<usize> = model.to_vec();
    backwards.reverse();
    assert_eq!(list.iter(nodes).rev().collect(), backwards);
    assert_eq!(list.is_empty(), model.is_empty());
    for (k, &node) in model.iter().enumerate() {
        let before = if k == 0 { NULL } else { model[k - 1] };
        let after = if k + 1 == model.len() { NULL } else { model[k + 1] };
        assert_eq!(nodes[node].get_prev_ptr().load(), before);
        assert_eq!(nodes[node].get_next_ptr().load(), after);
    }
    let payloads: Vec<u64> = list.iter(nodes).elems().into_iter().copied().collect();
    let expected: Vec<u64> = model.iter().map(|&node| 7 * node as u64).collect();
    assert_eq!(payloads, expected);
}

/// Whether the node after `node` names `node` as the one before it.
fn successor_points_back(nodes: &[Node], node: usize) -> bool {
    let after = nodes[node].get_next_ptr().load();
    after != NULL && nodes[after].get_prev_ptr().load() == node
}

/// Whether the node before `node` names `node` as the one after it.
fn predecessor_points_back(nodes: &[Node], node: usize) -> bool {
    let before = nodes[node].get_prev_ptr().load();
    before != NULL && nodes[before].get_next_ptr().load() == node
}

fn run_against_model(seed: u64, len: usize, steps: usize) {
    let mut draw = Draw(seed);
    let mut nodes: Vec<Node> = (0..len).map(|node| IntrusiveListNodeImpl::new(7 * node as u64)).collect();
    let mut list = IntrusiveList::new();
    let mut model: Vec<usize> = Vec::new();

    for _ in 0..steps {
        match draw.below(8) {
            0 | 1 => {
                let node = draw.below(len);
                if !model.contains(&node) {
                    list.push_back(&mut nodes, node);
                    model.push(node);
                }
            }
            2 => {
                let node = draw.below(len);
                if !model.contains(&node) {
                    list.push_front(&mut nodes, node);
                    model.insert(0, node);
                }
            }
            3 => {
                let node = draw.below(len);
                let held = model.contains(&node);
                // A node that left the list in one run with its successor is
                // still named by it, and may not be asked for.
                if held || !successor_points_back(&nodes, node) {
                    assert_eq!(list.remove_node(&mut nodes, node), held);
                    model.retain(|&other| other != node);
                }
            }
            4 => {
                if !model.is_empty() {
                    let from = draw.below(model.len());
                    let to = from + draw.below(model.len() - from);
                    let taken = list.splice(&mut nodes, model[from], model[to]).unwrap();
                    let part: Vec<usize> = model.drain(from..=to).collect();
                    assert_eq!(taken.iter(&nodes).collect(), part);
                    assert_stands_for(&list, &nodes, &model);
                    if draw.below(2) == 0 {
                        list.push_back_splice(&mut nodes, taken);
                        model.extend(part);
                    } else {
                        list.push_front_splice(&mut nodes, taken);
                        model.splice(0..0, part);
                    }
                }
            }
            5 => {
                let first = draw.below(len);
                let last = draw.below(len);
                let both = model.iter().position(|&node| node == first).zip(
                    model.iter().position(|&node| node == last),
                );
                match both {
                    Some((from, to)) if from <= to => {
                        let taken = list.splice(&mut nodes, first, last).unwrap();
                        let part: Vec<usize> = model.drain(from..=to).collect();
                        assert_eq!(taken.iter(&nodes).collect(), part);
                        let mut merged = Splice::new_empty();
                        merged.push_back_splice(&mut nodes, taken);
                        list.push_back_splice(&mut nodes, merged);
                        model.extend(part);
                    }
                    Some(_) => {}
                    None => {
                        let last_held = model.contains(&last);
                        let allowed = if last_held {
                            !predecessor_points_back(&nodes, first)
                        } else {
                            !successor_points_back(&nodes, last)
                        };
                        if allowed {
                            assert!(list.splice(&mut nodes, first, last).is_none());
                        }
                    }
                }
            }
            6 => {
                let modulus = 2 + draw.below(3) as u64;
                let rest = draw.below(modulus as usize) as u64;
                let counts = list.remove_if(&mut nodes, |node: &Node| *node.get_elem() % modulus == rest);
                let before = model.len();
                model.retain(|&node| (7 * node as u64) % modulus != rest);
                assert_eq!(counts, (model.len(), before - model.len()));
            }
            _ => {
                if draw.below(16) == 0 {
                    let held = list.iter(&nodes).collect();
                    list.clear();
                    for node in held {
                        nodes[node].get_next_ptr_mut().store(NULL);
                        nodes[node].get_prev_ptr_mut().store(NULL);
                    }
                    model.clear();
                }
            }
        }
        assert_stands_for(&list, &nodes, &model);
    }
}

#[test]
fn random_operations_small_store() {
    run_against_model(1, 5, 4000);
}

#[test]
fn random_operations_medium_store() {
    run_against_model(2, 24, 4000);
}

#[test]
fn random_operations_other_seeds() {
    for seed in 3..40 {
        run_against_model(seed, 9, 300);
    }
}
