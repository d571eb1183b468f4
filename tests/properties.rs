use chappie::search::{DepthFirstSearch, SearchGoal, SearchSpace, Visited};
use std::cell::{Cell, RefCell};
use std::vec::IntoIter;

/// A space given by its adjacency lists; each expansion is counted.
struct Graph {
    edges: Vec<Vec<(char, u32)>>,
    expansions: Cell<usize>,
}

impl Graph {
    fn new(edges: Vec<Vec<(char, u32)>>) -> Graph {
        Graph { edges: edges, expansions: Cell::new(0) }
    }
}

impl SearchSpace for Graph {
    type State = u32;
    type Action = char;
    type Iterator = IntoIter<(char, u32)>;

    fn expand(&self, state: &u32) -> Self::Iterator {
        self.expansions.set(self.expansions.get() + 1);
        let i = *state as usize;
        if i < self.edges.len() {
            self.edges[i].clone()
        } else {
            vec![]
        }
        .into_iter()
    }

    fn advance(&self, iter: &mut Self::Iterator) -> Option<(char, u32)> {
        iter.next()
    }
}

/// A goal that records every state it is asked about.
struct Recorder {
    goal: u32,
    asked: RefCell<Vec<u32>>,
}

impl SearchGoal<u32> for Recorder {
    fn is_goal(&self, state: &u32) -> bool {
        self.asked.borrow_mut().push(*state);
        self.goal == *state
    }
}

fn recorder(goal: u32) -> Recorder {
    Recorder { goal: goal, asked: RefCell::new(vec![]) }
}

fn binary_tree() -> Graph {
    Graph::new(vec![vec![('L', 1), ('R', 2)], vec![('L', 3), ('R', 4)], vec![('L', 2)]])
}

#[test]
fn start_at_goal_expands_nothing() {
    let g = binary_tree();
    assert_eq!(g.dfs(&1, &1), Some(vec![]));
    assert_eq!(g.expansions.get(), 0);
    let h = Graph::new(vec![vec![('a', 0)]]);
    assert_eq!(h.dfs(&0, &0), Some(vec![]));
    assert_eq!(h.expansions.get(), 0);
}

#[test]
fn unreachable_goal_gives_no_path() {
    let g = Graph::new(vec![vec![('a', 1)], vec![('b', 0)], vec![('c', 3)], vec![]]);
    assert_eq!(g.dfs(&0, &3), None);
    assert_eq!(g.dfs(&2, &3), Some(vec!['c']));
    assert_eq!(g.dfs(&9, &0), None);
    assert_eq!(g.dfs(&3, &2), None);
}

#[test]
fn goal_order_is_depth_first_preorder() {
    let g = binary_tree();
    let r = recorder(9);
    assert_eq!(g.dfs(&0, &r), None);
    assert_eq!(*r.asked.borrow(), vec![0, 1, 3, 4, 2]);
    assert_eq!(g.expansions.get(), 5);
}

#[test]
fn exhausted_search_observes_a_closed_set() {
    let g = Graph::new(vec![
        vec![('a', 1), ('b', 2)],
        vec![('a', 2), ('b', 0)],
        vec![('a', 1), ('b', 3)],
        vec![('a', 3)],
        vec![('a', 0)],
    ]);
    let r = recorder(4);
    assert_eq!(g.dfs(&0, &r), None);
    let asked = r.asked.borrow().clone();
    for s in asked.iter() {
        assert_ne!(*s, 4);
        for (_, t) in g.edges[*s as usize].iter() {
            assert!(asked.contains(t));
        }
    }
}

#[test]
fn first_branch_wins_over_shorter_path() {
    let g = Graph::new(vec![vec![('a', 1), ('b', 2)], vec![('c', 2)], vec![('d', 3)], vec![]]);
    assert_eq!(g.dfs(&0, &3), Some(vec!['a', 'c', 'd']));
    let h = Graph::new(vec![vec![('a', 1), ('b', 2)], vec![('c', 3)], vec![('d', 3)], vec![]]);
    assert_eq!(h.dfs(&0, &3), Some(vec!['a', 'c']));
}

#[test]
fn dead_end_branch_is_skipped() {
    let g = Graph::new(vec![vec![('a', 1), ('b', 2)], vec![('c', 4)], vec![('d', 3)], vec![], vec![]]);
    assert_eq!(g.dfs(&0, &3), Some(vec!['b', 'd']));
}

#[test]
fn self_loop_terminates() {
    let g = Graph::new(vec![vec![('x', 0)]]);
    assert_eq!(g.dfs(&0, &1), None);
    assert_eq!(g.expansions.get(), 2);
}

#[test]
fn cycle_through_start_terminates() {
    let g = Graph::new(vec![vec![('a', 1)], vec![('b', 0)]]);
    let r = recorder(7);
    assert_eq!(g.dfs(&0, &r), None);
    assert_eq!(*r.asked.borrow(), vec![0, 1, 0]);
}

#[test]
fn replayed_path_reaches_goal() {
    let g = Graph::new(vec![
        vec![('a', 3), ('b', 1)],
        vec![('c', 2), ('d', 4)],
        vec![('e', 5)],
        vec![('f', 0)],
        vec![],
        vec![('g', 1)],
    ]);
    for goal in 0..6u32 {
        let path = g.dfs(&0, &goal).unwrap();
        let mut state = 0u32;
        for action in path {
            let next = g.edges[state as usize].iter().find(|(a, _)| *a == action).unwrap();
            state = next.1;
        }
        assert_eq!(state, goal);
    }
}

#[test]
fn equality_goal() {
    assert!(5u32.is_goal(&5));
    assert!(!5u32.is_goal(&6));
    assert!((-3i32).is_goal(&-3));
}

#[test]
fn visited_records_each_state_once() {
    let mut v: Visited<u64> = Visited::new();
    assert!(!v.contains(&4));
    assert!(v.insert(4));
    assert!(v.contains(&4));
    assert!(!v.insert(4));
    assert!(v.insert(5));
    assert!(!v.contains(&6));
}
