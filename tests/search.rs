use chappie::search::{DepthFirstSearch, SearchGoal, SearchSpace};
use rand::chacha::ChaChaRng;
use rand::Rng;
use std::cell::RefCell;
use std::collections::HashSet;
use std::iter::Enumerate;
use std::vec::IntoIter;

struct RandomGraph {
    nodes: Vec<Vec<usize>>,
}

impl RandomGraph {
    fn new(n_nodes: usize, max_edges: usize) -> RandomGraph {
        let mut rng_e = ChaChaRng::new_unseeded();
        let mut rng_n = ChaChaRng::new_unseeded();

        RandomGraph {
            nodes: rng_e
                .gen_iter::<usize>()
                .take(n_nodes)
                .map(|e| {
                    rng_n
                        .gen_iter::<usize>()
                        .take(e % max_edges)
                        .map(|n| n % n_nodes)
                        .collect()
                })
                .collect(),
        }
    }
}

impl SearchSpace for RandomGraph {
    type State = usize;
    type Action = usize;
    type Iterator = Enumerate<IntoIter<usize>>;

    fn expand(&self, state: &usize) -> Self::Iterator {
        if *state < self.nodes.len() {
            self.nodes[*state].clone()
        } else {
            vec![]
        }
        .into_iter()
        .enumerate()
    }

    fn advance(&self, iter: &mut Self::Iterator) -> Option<(usize, usize)> {
        iter.next()
    }
}

struct Observer<T> {
    goal: T,
    visited: RefCell<Vec<T>>,
}

impl<T> Observer<T>
where
    T: Clone,
{
    fn new(goal: T) -> Observer<T> {
        Observer { goal: goal, visited: RefCell::new(vec![]) }
    }

    fn visited(&self) -> Vec<T> {
        self.visited.borrow().clone()
    }
}

impl<T> SearchGoal<T> for Observer<T>
where
    T: PartialEq + Clone,
{
    fn is_goal(&self, state: &T) -> bool {
        self.visited.borrow_mut().push(state.clone());
        self.goal == *state
    }
}

struct TestSearch;

#[derive(Debug, PartialEq)]
enum Dir {
    Left,
    Right,
}

impl SearchSpace for TestSearch {
    type State = i32;
    type Action = Dir;
    type Iterator = IntoIter<(Self::Action, Self::State)>;

    fn expand(&self, state: &Self::State) -> Self::Iterator {
        match *state {
            0 => vec![(Dir::Left, 1), (Dir::Right, 2)],
            1 => vec![(Dir::Left, 3), (Dir::Right, 4)],
            2 => vec![(Dir::Left, 2)],
            _ => vec![],
        }
        .into_iter()
    }

    fn advance(&self, iter: &mut Self::Iterator) -> Option<(Dir, i32)> {
        iter.next()
    }
}

#[test]
fn test_dfs_simple() {
    let ts = TestSearch;

    assert_eq!(ts.dfs(&0, &0).unwrap(), vec![]);
    assert_eq!(ts.dfs(&0, &1).unwrap(), vec![Dir::Left]);
    assert_eq!(ts.dfs(&0, &2).unwrap(), vec![Dir::Right]);
    assert_eq!(ts.dfs(&0, &3).unwrap(), vec![Dir::Left, Dir::Left]);
    assert_eq!(ts.dfs(&0, &4).unwrap(), vec![Dir::Left, Dir::Right]);
    assert_eq!(ts.dfs(&2, &2).unwrap(), vec![]);
    assert!(ts.dfs(&2, &0).is_none());
    assert!(ts.dfs(&5, &0).is_none());
}

#[test]
fn test_dfs_random() {
    const N_NODES: usize = 48;
    const MAX_EDGES: usize = 6;

    let g = RandomGraph::new(N_NODES, MAX_EDGES);

    assert!(g.dfs(&N_NODES, &0).is_none());
    assert!(g.dfs(&0, &N_NODES).is_none());

    for start in 0..N_NODES {
        for goal in 0..N_NODES {
            let observer = Observer::new(goal);
            if let Some(path) = g.dfs(&start, &observer) {
                let mut state = start;
                for action in path {
                    state = g.expand(&state).skip(action).next().unwrap().1;
                }
                assert_eq!(state, goal);
            } else {
                let visited: HashSet<_> = observer.visited().iter().cloned().collect();
                for state in observer.visited() {
                    assert!(!observer.is_goal(&state));
                    for (_, next_state) in g.expand(&state) {
                        assert!(visited.contains(&next_state));
                    }
                }
            }
        }
    }
}
