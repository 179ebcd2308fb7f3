use csp_solver::game::{alpha_beta, alpha_beta_value, minimax, minimax_value, MinimaxGame};

#[derive(Clone)]
struct Tree {
    links: Vec<Node>,
    root: usize,
}

#[derive(Clone)]
enum Node {
    Leaf(i64),
    Node(usize, usize),
}

impl MinimaxGame for Tree {
    fn evaluate(&self, _: usize) -> i64 {
        match self.links[self.root] {
            Node::Leaf(val) => val,
            Node::Node(_, _) => panic!("shouldn't get here"),
        }
    }

    fn has_finished(&self) -> bool {
        match self.links[self.root] {
            Node::Leaf(_) => true,
            Node::Node(_, _) => false,
        }
    }

    fn get_moves(self) -> Vec<(usize, Tree)> {
        match self.links[self.root] {
            Node::Leaf(_) => panic!("shouldn't get here"),
            Node::Node(left, right) => {
                let mut first = self.clone();
                first.root = left;
                let mut second = self;
                second.root = right;
                vec![(0, first), (1, second)]
            }
        }
    }
}

struct TestData {
    tree: Tree,
    minimax_value: i64,
    next_move: usize,
}

fn get_test_data() -> Vec<TestData> {
    vec![
        TestData {
            tree: Tree {
                links: vec![
                    Node::Node(1, 2),
                    Node::Node(3, 4),
                    Node::Node(5, 6),
                    Node::Node(7, 8),
                    Node::Node(9, 10),
                    Node::Node(11, 12),
                    Node::Node(13, 14),
                    Node::Leaf(-2),
                    Node::Leaf(-2),
                    Node::Leaf(0),
                    Node::Leaf(-4),
                    Node::Leaf(-6),
                    Node::Leaf(-8),
                    Node::Leaf(-4),
                    Node::Leaf(-6),
                ],
                root: 0,
            },
            minimax_value: 6,
            next_move: 1,
        },
        TestData {
            tree: Tree {
                links: vec![
                    Node::Node(1, 2),
                    Node::Node(3, 4),
                    Node::Node(5, 6),
                    Node::Node(7, 8),
                    Node::Node(9, 10),
                    Node::Node(11, 12),
                    Node::Node(13, 14),
                    Node::Leaf(-6),
                    Node::Leaf(-4),
                    Node::Leaf(-8),
                    Node::Leaf(-6),
                    Node::Leaf(-4),
                    Node::Leaf(0),
                    Node::Leaf(-2),
                    Node::Leaf(-2),
                ],
                root: 0,
            },
            minimax_value: 6,
            next_move: 0,
        },
        TestData {
            tree: Tree {
                links: vec![
                    Node::Node(1, 2),
                    Node::Node(3, 4),
                    Node::Node(5, 6),
                    Node::Node(7, 8),
                    Node::Leaf(7),
                    Node::Node(9, 10),
                    Node::Node(11, 12),
                    Node::Leaf(-8),
                    Node::Leaf(-2),
                    Node::Node(13, 14),
                    Node::Leaf(-3),
                    Node::Leaf(-9),
                    Node::Node(15, 16),
                    Node::Leaf(4),
                    Node::Leaf(5),
                    Node::Leaf(10),
                    Node::Leaf(8),
                ],
                root: 0,
            },
            minimax_value: 7,
            next_move: 0,
        },
    ]
}

#[test]
pub fn tree_minimax_value() {
    for data in get_test_data() {
        let value = minimax_value(data.tree, 10);

        assert_eq!(value, data.minimax_value);
    }
}

#[test]
pub fn tree_minimax() {
    for data in get_test_data() {
        let next_move = minimax(data.tree, 10);

        assert_eq!(next_move, data.next_move);
    }
}

#[test]
pub fn tree_alphabeta_value() {
    for data in get_test_data() {
        let value = alpha_beta_value(data.tree, 10, i64::min_value() + 1, i64::max_value());

        assert_eq!(value, data.minimax_value);
    }
}

#[test]
pub fn tree_alphabeta() {
    for data in get_test_data() {
        let next_move = alpha_beta(data.tree, 10);

        assert_eq!(next_move, data.next_move);
    }
}

/// A game whose score is its depth and which never ends by itself.
struct Countdown;

impl MinimaxGame for Countdown {
    fn evaluate(&self, depth: usize) -> i64 {
        depth as i64 + 5
    }

    fn has_finished(&self) -> bool {
        false
    }

    fn get_moves(self) -> Vec<(usize, Countdown)> {
        vec![(3, Countdown)]
    }
}

#[test]
fn minimax_stops_at_depth_zero_and_negates_each_level() {
    assert_eq!(minimax_value(Countdown, 0), 5);
    assert_eq!(minimax_value(Countdown, 1), -5);
    assert_eq!(minimax_value(Countdown, 2), 5);
    assert_eq!(minimax(Countdown, 1), 3);
    assert_eq!(alpha_beta_value(Countdown, 0, -100, 100), 5);
}

#[test]
fn alpha_beta_stops_when_the_window_closes() {
    for data in get_test_data() {
        // With the floor above every value the floor itself comes back.
        assert_eq!(alpha_beta_value(data.tree, 10, 50, 100), 50);
    }
    // As soon as a reply exceeds the ceiling, the raised floor is the value.
    let tree = Tree {
        links: vec![Node::Node(1, 2), Node::Leaf(-9), Node::Leaf(-20)],
        root: 0,
    };
    assert_eq!(alpha_beta_value(tree, 10, 0, 5), 9);
}
