//! Depth-first search over lazily expanded state spaces.
//!
//! A space hands out the transitions of a state one at a time through a cursor. The search
//! keeps a stack of cursors, one for each state on the current path, together with the
//! actions of that path, and never expands a state that it has already discovered.
use std::collections::HashSet;
use std::hash::Hash;
use vstd::prelude::*;
use vstd::std_specs::cmp::PartialEqSpec;
use vstd::std_specs::hash::obeys_key_model;

verus! {

broadcast use vstd::std_specs::hash::group_hash_axioms;

/// The set of states already discovered during one traversal.
pub struct Visited<T> {
    hash_set: HashSet<T>,
}

impl<T> View for Visited<T> {
    type V = Set<T>;

    closed spec fn view(&self) -> Set<T> {
        self.hash_set@
    }
}

impl<T: Hash + Eq> Visited<T> {
    /// An empty record.
    pub fn new() -> (r: Visited<T>)
        ensures
            r@ == Set::<T>::empty(),
    {
        Visited { hash_set: HashSet::new() }
    }

    /// Whether `value` has been discovered already.
    pub fn contains(&self, value: &T) -> (r: bool)
        requires
            obeys_key_model::<T>(),
        ensures
            r == self@.contains(*value),
    {
        self.hash_set.contains(value)
    }

    /// Records `value`; true when it had not been recorded before.
    pub fn insert(&mut self, value: T) -> (r: bool)
        requires
            obeys_key_model::<T>(),
        ensures
            final(self)@ == old(self)@.insert(value),
            r == !old(self)@.contains(value),
    {
        self.hash_set.insert(value)
    }
}

/// A test telling whether a state is an acceptable end of the search.
pub trait SearchGoal<T> {
    /// Whether `is_goal` answers as `accepts` says. A goal that states no model keeps the
    /// default and promises nothing.
    open spec fn obeys_goal_spec(&self) -> bool {
        false
    }

    /// The states that satisfy this goal.
    open spec fn accepts(&self, state: T) -> bool {
        false
    }

    fn is_goal(&self, state: &T) -> (r: bool)
        ensures
            self.obeys_goal_spec() ==> r == self.accepts(*state),
    ;
}

/// Every comparable value is the goal of reaching a state equal to it.
impl<T: PartialEq> SearchGoal<T> for T {
    open spec fn obeys_goal_spec(&self) -> bool {
        T::obeys_eq_spec()
    }

    open spec fn accepts(&self, state: T) -> bool {
        self.eq_spec(&state)
    }

    fn is_goal(&self, state: &T) -> (r: bool) {
        self == state
    }
}

/// A space of states in which each state offers an ordered sequence of transitions.
pub trait SearchSpace {
    type State: Hash + Clone + Eq;

    type Action;

    /// A cursor over the transitions of one state, handed out one at a time.
    type Iterator;

    /// Whether `expand` and `advance` behave as `successors` and `pending` say. A space
    /// that states no model keeps the default and promises nothing.
    open spec fn obeys_space_spec(&self) -> bool {
        false
    }

    /// The transitions out of `state`, in the order in which the space offers them.
    open spec fn successors(&self, state: Self::State) -> Seq<(Self::Action, Self::State)> {
        Seq::empty()
    }

    /// The transitions that `iter` has yet to hand out.
    open spec fn pending(&self, iter: Self::Iterator) -> Seq<(Self::Action, Self::State)> {
        Seq::empty()
    }

    /// A cursor positioned at the first transition out of `state`.
    fn expand(&self, state: &Self::State) -> (r: Self::Iterator)
        ensures
            self.obeys_space_spec() ==> self.pending(r) == self.successors(*state),
    ;

    /// Hands out the next transition of `iter`, or `None` once it is exhausted.
    fn advance(&self, iter: &mut Self::Iterator) -> (r: Option<(Self::Action, Self::State)>)
        ensures
            self.obeys_space_spec() && self.pending(*old(iter)).len() == 0 ==> {
                &&& r is None
                &&& self.pending(*final(iter)) == self.pending(*old(iter))
            },
            self.obeys_space_spec() && self.pending(*old(iter)).len() > 0 ==> {
                &&& r == Some(self.pending(*old(iter))[0])
                &&& self.pending(*final(iter)) == self.pending(*old(iter)).drop_first()
            },
    ;
}

/// Depth-first search, which every search space offers.
pub trait DepthFirstSearch: SearchSpace {
    /// Searches depth first from `start` for a state that `goal` accepts, and returns the
    /// actions that lead there.
    ///
    /// A start that is already a goal gives the empty path. Otherwise the transitions of
    /// each state are tried in the order of the space, each one with all that lies behind
    /// it before the next, and a state already discovered is not entered again. The result
    /// is `None` exactly when no accepted state is reachable. A path that is returned is a
    /// walk to an accepted state that repeats no state after the start, and every
    /// transition passed over on the way leads nowhere the goal can be reached without
    /// coming back to the walk.
    ///
    /// The search terminates when the states reachable from `start` are finitely many.
    fn dfs<G: SearchGoal<Self::State>>(&self, start: &Self::State, goal: &G) -> (r: Option<
        Vec<Self::Action>,
    >)
        requires
            self.obeys_space_spec(),
            obeys_key_model::<Self::State>(),
            goal.obeys_goal_spec(),
            finitely_reachable(self, *start),
        ensures
            goal.accepts(*start) ==> (r matches Some(p) && p@.len() == 0),
            r matches Some(p) ==> solves(self, goal, *start, p@),
            r matches Some(p) ==> exists|states: Seq<Self::State>|
                {
                    &&& is_run(self, *start, p@, states)
                    &&& goal.accepts(states.last())
                    &&& no_repeats_after_start(states)
                    &&& takes_first_branches(self, goal, p@, states)
                },
            r is None <==> !goal_reachable(self, goal, *start),
    ;
}

impl<S: SearchSpace + ?Sized> DepthFirstSearch for S {
    #[verifier::rlimit(60)]
    fn dfs<G: SearchGoal<Self::State>>(&self, start: &Self::State, goal: &G) -> (r: Option<
        Vec<Self::Action>,
    >)
    {
        if goal.is_goal(start) {
            proof {
                lemma_empty_run(self, *start);
                assert(seq![*start].last() == *start);
                assert(no_repeats_after_start(seq![*start]));
            }
            return Some(Vec::new());
        }
        let mut visited: Visited<Self::State> = Visited::new();
        let mut stack: Vec<Self::Iterator> = Vec::new();
        stack.push(self.expand(start));
        let mut path: Vec<Self::Action> = Vec::new();
        assert(exists|b: Set<Self::State>|
            b.finite() && b.contains(*start) && closed_under(self, b));
        let ghost bound: Set<Self::State> = choose|b: Set<Self::State>|
            b.finite() && b.contains(*start) && closed_under(self, b);
        let ghost mut nodes: Seq<Self::State> = seq![*start];
        let ghost mut pos: Seq<int> = seq![0int];
        let ghost mut done: Set<Self::State> = Set::empty();
        proof {
            lemma_empty_run(self, *start);
            assert(nodes[0] == *start);
            assert(self.pending(stack@[0]) =~= self.successors(*start).subrange(
                0,
                self.successors(*start).len() as int,
            ));
            reveal(choices_match);
            reveal(all_branches_fail);
            assert(tried_upto(pos, 0) == 0);
        }
        loop
            invariant
                self.obeys_space_spec(),
                obeys_key_model::<Self::State>(),
                goal.obeys_goal_spec(),
                bound.finite(),
                bound.contains(*start),
                closed_under(self, bound),
                visited@.subset_of(bound),
                nodes.len() == stack@.len(),
                pos.len() == stack@.len(),
                stack@.len() == path@.len() + 1 || (stack@.len() == 0 && path@.len() == 0),
                stack@.len() > 0 ==> is_run(self, *start, path@, nodes),
                no_repeats_after_start(nodes),
                choices_match(self, nodes, pos, path@),
                all_branches_fail(self, goal, nodes, pos),
                forall|i: int| 1 <= i < nodes.len() ==> visited@.contains(#[trigger] nodes[i]),
                forall|i: int|
                    0 <= i < stack@.len() ==> frame_ok(
                        self,
                        bound,
                        visited@,
                        *start,
                        #[trigger] nodes[i],
                        pos[i],
                        stack@[i],
                    ),
                !goal.accepts(*start),
                forall|v: Self::State| #[trigger]
                    visited@.contains(v) ==> !goal.accepts(v) && (done.contains(v)
                        || nodes.contains(v)),
                done.contains(*start) || nodes.contains(*start),
                forall|d: Self::State| #[trigger]
                    done.contains(d) ==> (d == *start || visited@.contains(d)),
                forall|d: Self::State, j: int|
                    done.contains(d) && 0 <= j < self.successors(d).len() ==> visited@.contains(
                        #[trigger] self.successors(d)[j].1,
                    ),
            decreases bound.len() - visited@.len(), frontier_weight(self, stack@),
        {
            let ghost old_stack = stack@;
            let ghost old_nodes = nodes;
            let ghost old_pos = pos;
            let ghost old_visited = visited@;
            // Pull the next transition from the cursor on top of the stack.
            match stack.pop() {
                None => {
                    proof {
                        lemma_exhausted(self, goal, *start, done, visited@);
                    }
                    return None;
                },
                Some(mut iter) => {
                    let ghost top = stack@.len() as int;
                    let ghost node = nodes[top];
                    let ghost before = self.pending(iter);
                    proof {
                        vstd::set_lib::lemma_len_subset(visited@, bound);
                        assert(old_stack.drop_last() =~= stack@);
                        assert(frontier_weight(self, old_stack) == frontier_weight(self, stack@)
                            + before.len() + 1);
                    }
                    assert(frame_ok(self, bound, visited@, *start, node, pos[top], iter));
                    let ghost old_path = path@;
                    match self.advance(&mut iter) {
                        None => {
                            // The cursor is exhausted: back up one step.
                            path.pop();
                            proof {
                                done = done.insert(node);
                                nodes = nodes.drop_last();
                                pos = pos.drop_last();
                                assert forall|i: int| 0 <= i < stack@.len() implies frame_ok(
                                    self,
                                    bound,
                                    visited@,
                                    *start,
                                    #[trigger] nodes[i],
                                    pos[i],
                                    stack@[i],
                                ) by {
                                    assert(old_nodes[i] == nodes[i]);
                                    assert(old_stack[i] == stack@[i]);
                                }
                                assert forall|v: Self::State| #[trigger]
                                    visited@.contains(v) implies !goal.accepts(v) && (
                                    done.contains(v) || nodes.contains(v)) by {
                                    if !done.contains(v) {
                                        let k = choose|k: int|
                                            0 <= k < old_nodes.len() && old_nodes[k] == v;
                                        assert(nodes[k] == v);
                                    }
                                }
                                if !done.contains(*start) {
                                    let k = choose|k: int|
                                        0 <= k < old_nodes.len() && old_nodes[k] == *start;
                                    assert(nodes[k] == *start);
                                }
                                assert(before.len() == 0);
                                assert(old_pos[top] == self.successors(node).len());
                                assert forall|d: Self::State, j: int|
                                    done.contains(d) && 0 <= j < self.successors(d).len()
                                        implies visited@.contains(
                                    #[trigger] self.successors(d)[j].1,
                                ) by {
                                    if d == node {
                                        assert(frame_ok(self, bound, visited@, *start, node, old_pos[top], iter));
                                    }
                                }
                                reveal(choices_match);
                                if stack@.len() > 0 {
                                    lemma_run_shorten(self, *start, old_path, old_nodes);
                                    lemma_no_escape(
                                        self,
                                        goal,
                                        *start,
                                        node,
                                        nodes.to_set(),
                                        done,
                                        visited@,
                                    );
                                    assert(old_nodes.drop_last() == nodes);
                                    assert(old_nodes.last() == node);
                                    assert(old_path.len() == top);
                                    assert(choice_at(self, old_nodes, old_pos, old_path, top - 1));
                                    assert(1 <= old_pos[top - 1] && self.successors(
                                        old_nodes[top - 1],
                                    )[old_pos[top - 1] - 1] == (old_path[top - 1], old_nodes[top]));
                                    lemma_fail_backtrack(self, goal, old_nodes, old_pos);
                                    assert forall|i: int| 0 <= i < path@.len() implies #[trigger] choice_at(
                                        self,
                                        nodes,
                                        pos,
                                        path@,
                                        i,
                                    ) by {
                                        assert(old_nodes[i] == nodes[i]);
                                        assert(old_nodes[i + 1] == nodes[i + 1]);
                                        assert(old_path[i] == path@[i]);
                                        assert(old_pos[i] == pos[i]);
                                        assert(choice_at(self, old_nodes, old_pos, old_path, i));
                                    }
                                } else {
                                    reveal(all_branches_fail);
                                }
                            }
                        },
                        Some((action, state)) => {
                            let ghost popped = stack@;
                            stack.push(iter);
                            proof {
                                assert(stack@.drop_last() =~= popped);
                                assert(frontier_weight(self, stack@) == frontier_weight(
                                    self,
                                    popped,
                                ) + self.pending(iter).len() + 1);
                                pos = pos.update(top, pos[top] + 1);
                                assert(before[0] == self.successors(node)[old_pos[top]]);
                                assert(self.pending(iter) =~= self.successors(node).subrange(
                                    pos[top],
                                    self.successors(node).len() as int,
                                ));
                            }
                            if !visited.contains(&state) {
                                // A fresh state: step into it.
                                path.push(action);
                                proof {
                                    assert(self.successors(node).contains((action, state)));
                                    lemma_run_extend(self, *start, old_path, nodes, action, state);
                                    assert(path@ == old_path.push(action));
                                }
                                let ghost grown = nodes.push(state);
                                let ghost pos2 = pos.push(0);
                                proof {
                                    assert(pos2 =~= old_pos.update(top, old_pos[top] + 1).push(0));
                                    lemma_fail_descend(self, goal, old_nodes, old_pos, state);
                                    assert(nodes.last() == node);
                                    lemma_choices_descend(self, nodes, old_pos, old_path, action, state);
                                    assert forall|i: int| 0 <= i < path@.len() implies pos2[i]
                                        <= self.successors(#[trigger] grown[i]).len() by {
                                        if i < top {
                                            assert(grown[i] == nodes[i]);
                                            assert(frame_ok(self, bound, visited@, *start, old_nodes[i], old_pos[i], old_stack[i]));
                                        }
                                    }
                                    assert(grown.last() == state);
                                    assert forall|i: int, k: int|
                                        1 <= i < k < grown.len() implies grown[i] != grown[k] by {
                                        if k == nodes.len() {
                                            assert(visited@.contains(nodes[i]));
                                        } else {
                                            assert(grown[k] == nodes[k]);
                                        }
                                    }
                                }
                                if goal.is_goal(&state) {
                                    proof {
                                        lemma_first_branches(self, goal, grown, pos2, path@);
                                    }
                                    assert(is_run(self, *start, path@, grown));
                                    assert(goal.accepts(grown.last()));
                                    assert(no_repeats_after_start(grown));
                                    return Some(path);
                                }
                                let next = self.expand(&state);
                                stack.push(next);
                                visited.insert(state);
                                proof {
                                    nodes = nodes.push(state);
                                    pos = pos.push(0);
                                    assert(bound.contains(state));
                                    vstd::set_lib::lemma_len_subset(visited@, bound);
                                    assert forall|i: int| 0 <= i < stack@.len() implies frame_ok(
                                        self,
                                        bound,
                                        visited@,
                                        *start,
                                        #[trigger] nodes[i],
                                        pos[i],
                                        stack@[i],
                                    ) by {
                                        if i < top {
                                            assert(old_nodes[i] == nodes[i]);
                                            assert(old_stack[i] == stack@[i]);
                                            assert(frame_ok(self, bound, old_visited, *start, old_nodes[i], old_pos[i], old_stack[i]));
                                        } else if i == top {
                                        } else {
                                            assert(self.pending(next) =~= self.successors(state).subrange(0, self.successors(state).len() as int));
                                        }
                                    }
                                    assert forall|v: Self::State| #[trigger]
                                        visited@.contains(v) implies !goal.accepts(v) && (
                                        done.contains(v) || nodes.contains(v)) by {
                                        if v == state {
                                            assert(nodes[nodes.len() - 1] == v);
                                        } else if !done.contains(v) {
                                            let k = choose|k: int|
                                                0 <= k < old_nodes.len() && old_nodes[k] == v;
                                            assert(nodes[k] == v);
                                        }
                                    }
                                    if !done.contains(*start) {
                                        let k = choose|k: int|
                                            0 <= k < old_nodes.len() && old_nodes[k] == *start;
                                        assert(nodes[k] == *start);
                                    }
                                }
                            } else {
                                proof {
                                    reveal(choices_match);
                                    lemma_no_escape(
                                        self,
                                        goal,
                                        *start,
                                        state,
                                        nodes.to_set(),
                                        done,
                                        visited@,
                                    );
                                    assert(nodes.last() == node);
                                    lemma_fail_skip(self, goal, nodes, old_pos);
                                    assert(pos == old_pos.update(top, old_pos.last() + 1));
                                    assert forall|i: int| 0 <= i < path@.len() implies #[trigger] choice_at(
                                        self,
                                        nodes,
                                        pos,
                                        path@,
                                        i,
                                    ) by {
                                        assert(choice_at(self, nodes, old_pos, path@, i));
                                    }
                                    assert forall|i: int| 0 <= i < stack@.len() implies frame_ok(
                                        self,
                                        bound,
                                        visited@,
                                        *start,
                                        #[trigger] nodes[i],
                                        pos[i],
                                        stack@[i],
                                    ) by {
                                        if i < top {
                                            assert(old_stack[i] == stack@[i]);
                                        }
                                    }
                                }
                            }
                        },
                    }
                },
            }
        }
    }
}

/// How many transitions of the `i`th cursor have been tried and given up: all that it
/// has handed out, but for the one that the next cursor explores.
spec fn tried_upto(pos: Seq<int>, i: int) -> int {
    if i + 1 < pos.len() {
        pos[i] - 1
    } else {
        pos[i]
    }
}

/// The `i`th action was handed out last by the `i`th cursor and led to the next node.
#[verifier::opaque]
spec fn choices_match<S: SearchSpace + ?Sized>(
    space: &S,
    nodes: Seq<S::State>,
    pos: Seq<int>,
    actions: Seq<S::Action>,
) -> bool {
    forall|i: int| 0 <= i < actions.len() ==> #[trigger] choice_at(space, nodes, pos, actions, i)
}

/// The `i`th cursor handed out the `i`th action last, and it led to the next node.
spec fn choice_at<S: SearchSpace + ?Sized>(
    space: &S,
    nodes: Seq<S::State>,
    pos: Seq<int>,
    actions: Seq<S::Action>,
    i: int,
) -> bool {
    1 <= pos[i] <= space.successors(nodes[i]).len() && space.successors(nodes[i])[pos[i] - 1]
        == (actions[i], nodes[i + 1])
}

/// Every transition that a cursor of the frontier has tried and given up leads nowhere
/// that the goal can be reached without coming back to the frontier's nodes up to it.
#[verifier::opaque]
spec fn all_branches_fail<S: SearchSpace + ?Sized, G: SearchGoal<S::State>>(
    space: &S,
    goal: &G,
    nodes: Seq<S::State>,
    pos: Seq<int>,
) -> bool {
    forall|i: int|
        0 <= i < nodes.len() ==> #[trigger] branches_fail(
            space,
            goal,
            nodes.subrange(0, i + 1),
            tried_upto(pos, i),
        )
}

/// Descending into a fresh state keeps the given-up transitions of every cursor.
proof fn lemma_fail_descend<S: SearchSpace + ?Sized, G: SearchGoal<S::State>>(
    space: &S,
    goal: &G,
    nodes: Seq<S::State>,
    pos: Seq<int>,
    state: S::State,
)
    requires
        all_branches_fail(space, goal, nodes, pos),
        nodes.len() == pos.len(),
        nodes.len() > 0,
    ensures
        all_branches_fail(
            space,
            goal,
            nodes.push(state),
            pos.update(nodes.len() - 1, pos[nodes.len() - 1] + 1).push(0),
        ),
{
    reveal(all_branches_fail);
    let t = nodes.len() - 1;
    let nodes2 = nodes.push(state);
    let pos2 = pos.update(t, pos[t] + 1).push(0);
    assert forall|i: int| 0 <= i < nodes2.len() implies #[trigger] branches_fail(
        space,
        goal,
        nodes2.subrange(0, i + 1),
        tried_upto(pos2, i),
    ) by {
        if i < nodes.len() {
            assert(nodes2.subrange(0, i + 1) =~= nodes.subrange(0, i + 1));
            assert(branches_fail(space, goal, nodes.subrange(0, i + 1), tried_upto(pos, i)));
            assert(tried_upto(pos2, i) == tried_upto(pos, i));
        }
    }
}

/// Skipping a transition that leads nowhere useful gives it up.
proof fn lemma_fail_skip<S: SearchSpace + ?Sized, G: SearchGoal<S::State>>(
    space: &S,
    goal: &G,
    nodes: Seq<S::State>,
    pos: Seq<int>,
)
    requires
        all_branches_fail(space, goal, nodes, pos),
        nodes.len() == pos.len(),
        nodes.len() > 0,
        !goal_reachable_avoiding(
            space,
            goal,
            space.successors(nodes.last())[pos.last()].1,
            nodes.to_set(),
        ),
    ensures
        all_branches_fail(space, goal, nodes, pos.update(nodes.len() - 1, pos.last() + 1)),
{
    reveal(all_branches_fail);
    let t = nodes.len() - 1;
    let pos2 = pos.update(t, pos[t] + 1);
    assert forall|i: int| 0 <= i < nodes.len() implies #[trigger] branches_fail(
        space,
        goal,
        nodes.subrange(0, i + 1),
        tried_upto(pos2, i),
    ) by {
        assert(branches_fail(space, goal, nodes.subrange(0, i + 1), tried_upto(pos, i)));
        if i == t {
            assert(nodes.subrange(0, i + 1) =~= nodes);
        }
    }
}

/// Leaving an exhausted node gives up the transition that led to it.
proof fn lemma_fail_backtrack<S: SearchSpace + ?Sized, G: SearchGoal<S::State>>(
    space: &S,
    goal: &G,
    nodes: Seq<S::State>,
    pos: Seq<int>,
)
    requires
        all_branches_fail(space, goal, nodes, pos),
        nodes.len() == pos.len(),
        nodes.len() > 1,
        pos[nodes.len() - 2] >= 1,
        space.successors(nodes[nodes.len() - 2])[pos[nodes.len() - 2] - 1].1 == nodes.last(),
        !goal_reachable_avoiding(space, goal, nodes.last(), nodes.drop_last().to_set()),
    ensures
        all_branches_fail(space, goal, nodes.drop_last(), pos.drop_last()),
{
    reveal(all_branches_fail);
    let nodes2 = nodes.drop_last();
    let pos2 = pos.drop_last();
    assert forall|i: int| 0 <= i < nodes2.len() implies #[trigger] branches_fail(
        space,
        goal,
        nodes2.subrange(0, i + 1),
        tried_upto(pos2, i),
    ) by {
        assert(nodes2.subrange(0, i + 1) =~= nodes.subrange(0, i + 1));
        assert(branches_fail(space, goal, nodes.subrange(0, i + 1), tried_upto(pos, i)));
        if i == nodes2.len() - 1 {
            assert(nodes.subrange(0, i + 1) =~= nodes2);
            assert(nodes.subrange(0, i + 1).last() == nodes[i]);
        }
    }
}

/// Descending by the transition that the last cursor has just handed out records it.
proof fn lemma_choices_descend<S: SearchSpace + ?Sized>(
    space: &S,
    nodes: Seq<S::State>,
    pos: Seq<int>,
    actions: Seq<S::Action>,
    action: S::Action,
    state: S::State,
)
    requires
        choices_match(space, nodes, pos, actions),
        nodes.len() == pos.len(),
        nodes.len() == actions.len() + 1,
        0 <= pos.last() < space.successors(nodes.last()).len(),
        space.successors(nodes.last())[pos.last()] == (action, state),
    ensures
        choices_match(
            space,
            nodes.push(state),
            pos.update(nodes.len() - 1, pos.last() + 1).push(0),
            actions.push(action),
        ),
{
    reveal(choices_match);
    let t = nodes.len() - 1;
    let nodes2 = nodes.push(state);
    let pos2 = pos.update(t, pos[t] + 1).push(0);
    let actions2 = actions.push(action);
    assert forall|i: int| 0 <= i < actions2.len() implies #[trigger] choice_at(
        space,
        nodes2,
        pos2,
        actions2,
        i,
    ) by {
        if i < t {
            assert(nodes2[i] == nodes[i]);
            assert(nodes2[i + 1] == nodes[i + 1]);
            assert(actions2[i] == actions[i]);
            assert(choice_at(space, nodes, pos, actions, i));
        } else {
            assert(nodes2[i] == nodes.last());
        }
    }
    assert(choices_match(space, nodes2, pos2, actions2));
}

/// The ways in which the walk takes, at its `i`th step, the transition at index `c`, every
/// transition before it leading nowhere useful.
pub open spec fn first_branch_at<S: SearchSpace + ?Sized, G: SearchGoal<S::State>>(
    space: &S,
    goal: &G,
    actions: Seq<S::Action>,
    states: Seq<S::State>,
    i: int,
    c: int,
) -> bool {
    &&& 0 <= c < space.successors(states[i]).len()
    &&& space.successors(states[i])[c] == (actions[i], states[i + 1])
    &&& branches_fail(space, goal, states.subrange(0, i + 1), c)
}

/// The nodes of a frontier that has just descended into its goal take first branches.
proof fn lemma_first_branches<S: SearchSpace + ?Sized, G: SearchGoal<S::State>>(
    space: &S,
    goal: &G,
    nodes: Seq<S::State>,
    pos: Seq<int>,
    actions: Seq<S::Action>,
)
    requires
        all_branches_fail(space, goal, nodes, pos),
        choices_match(space, nodes, pos, actions),
        nodes.len() == pos.len(),
        nodes.len() == actions.len() + 1,
        forall|i: int|
            0 <= i < actions.len() ==> pos[i] <= space.successors(#[trigger] nodes[i]).len(),
    ensures
        takes_first_branches(space, goal, actions, nodes),
{
    reveal(all_branches_fail);
    reveal(choices_match);
    assert forall|i: int| 0 <= i < actions.len() implies #[trigger] has_first_branch(
        space,
        goal,
        actions,
        nodes,
        i,
    ) by {
        assert(choice_at(space, nodes, pos, actions, i));
        let c = pos[i] - 1;
        assert(tried_upto(pos, i) == c);
        assert(branches_fail(space, goal, nodes.subrange(0, i + 1), c));
        assert(pos[i] <= space.successors(nodes[i]).len());
        assert(space.successors(nodes[i])[c] == (actions[i], nodes[i + 1]));
        assert(first_branch_at(space, goal, actions, nodes, i, c));
    }
    assert(takes_first_branches(space, goal, actions, nodes));
}

/// One cursor of the frontier: it walks the transitions of `node` and stands at `pos`, and
/// every state that it has handed out is discovered.
spec fn frame_ok<S: SearchSpace + ?Sized>(
    space: &S,
    bound: Set<S::State>,
    visited: Set<S::State>,
    start: S::State,
    node: S::State,
    pos: int,
    iter: S::Iterator,
) -> bool {
    &&& bound.contains(node)
    &&& 0 <= pos <= space.successors(node).len()
    &&& space.pending(iter) == space.successors(node).subrange(
        pos,
        space.successors(node).len() as int,
    )
    &&& forall|j: int|
        0 <= j < pos ==> visited.contains(#[trigger] space.successors(node)[j].1)
    &&& (node == start || visited.contains(node))
}

/// Whether `states` is a walk from `start` in which each step takes the matching action.
pub open spec fn is_run<S: SearchSpace + ?Sized>(
    space: &S,
    start: S::State,
    actions: Seq<S::Action>,
    states: Seq<S::State>,
) -> bool {
    &&& states.len() == actions.len() + 1
    &&& states[0] == start
    &&& forall|i: int|
        0 <= i < actions.len() ==> #[trigger] space.successors(states[i]).contains(
            (actions[i], states[i + 1]),
        )
}

/// Taking `actions` in turn from `start` can end in `end`.
pub open spec fn leads_to<S: SearchSpace + ?Sized>(
    space: &S,
    start: S::State,
    actions: Seq<S::Action>,
    end: S::State,
) -> bool {
    exists|states: Seq<S::State>| is_run(space, start, actions, states) && states.last() == end
}

/// Some sequence of actions leads from `start` to `end`.
pub open spec fn reachable<S: SearchSpace + ?Sized>(space: &S, start: S::State, end: S::State) -> bool {
    exists|actions: Seq<S::Action>| leads_to(space, start, actions, end)
}

/// No state of `states` after the first occurs twice.
pub open spec fn no_repeats_after_start<T>(states: Seq<T>) -> bool {
    forall|i: int, k: int| 1 <= i < k < states.len() ==> states[i] != states[k]
}

/// Some walk from `from` whose states all lie outside `avoid` ends in a state that `goal`
/// accepts.
pub open spec fn goal_reachable_avoiding<S: SearchSpace + ?Sized, G: SearchGoal<S::State>>(
    space: &S,
    goal: &G,
    from: S::State,
    avoid: Set<S::State>,
) -> bool {
    exists|actions: Seq<S::Action>, states: Seq<S::State>|
        {
            &&& is_run(space, from, actions, states)
            &&& goal.accepts(states.last())
            &&& forall|k: int| 0 <= k < states.len() ==> !avoid.contains(#[trigger] states[k])
        }
}

/// Each of the first `upto` transitions out of the last state of `prefix` leads where no
/// accepted state can be reached without coming back to a state of `prefix`.
pub open spec fn branches_fail<S: SearchSpace + ?Sized, G: SearchGoal<S::State>>(
    space: &S,
    goal: &G,
    prefix: Seq<S::State>,
    upto: int,
) -> bool {
    forall|j: int|
        0 <= j < upto ==> !goal_reachable_avoiding(
            space,
            goal,
            #[trigger] space.successors(prefix.last())[j].1,
            prefix.to_set(),
        )
}

/// At each step of the walk, every transition that comes before the one taken leads where
/// no accepted state can be reached without coming back to a state of the walk so far.
pub open spec fn takes_first_branches<S: SearchSpace + ?Sized, G: SearchGoal<S::State>>(
    space: &S,
    goal: &G,
    actions: Seq<S::Action>,
    states: Seq<S::State>,
) -> bool {
    forall|i: int|
        0 <= i < actions.len() ==> #[trigger] has_first_branch(space, goal, actions, states, i)
}

/// Some index fits `first_branch_at` at the `i`th step.
pub open spec fn has_first_branch<S: SearchSpace + ?Sized, G: SearchGoal<S::State>>(
    space: &S,
    goal: &G,
    actions: Seq<S::Action>,
    states: Seq<S::State>,
    i: int,
) -> bool {
    exists|c: int| first_branch_at(space, goal, actions, states, i, c)
}

/// Taking `actions` in turn from `start` can end in a state that `goal` accepts.
pub open spec fn solves<S: SearchSpace + ?Sized, G: SearchGoal<S::State>>(
    space: &S,
    goal: &G,
    start: S::State,
    actions: Seq<S::Action>,
) -> bool {
    exists|end: S::State| leads_to(space, start, actions, end) && goal.accepts(end)
}

/// Some state that `goal` accepts is reachable from `start`.
pub open spec fn goal_reachable<S: SearchSpace + ?Sized, G: SearchGoal<S::State>>(
    space: &S,
    goal: &G,
    start: S::State,
) -> bool {
    exists|end: S::State| reachable(space, start, end) && goal.accepts(end)
}

/// Every transition out of a state of `set` leads back into `set`.
pub open spec fn closed_under<S: SearchSpace + ?Sized>(space: &S, set: Set<S::State>) -> bool {
    forall|s: S::State, i: int|
        set.contains(s) && 0 <= i < space.successors(s).len() ==> set.contains(
            #[trigger] space.successors(s)[i].1,
        )
}

/// Only finitely many states are reachable from `start`.
pub open spec fn finitely_reachable<S: SearchSpace + ?Sized>(space: &S, start: S::State) -> bool {
    exists|b: Set<S::State>| b.finite() && b.contains(start) && closed_under(space, b)
}

/// The transitions that the cursors of a frontier have yet to hand out, with one more for
/// each cursor.
spec fn frontier_weight<S: SearchSpace + ?Sized>(space: &S, stack: Seq<S::Iterator>) -> nat
    decreases stack.len(),
{
    if stack.len() == 0 {
        0
    } else {
        frontier_weight(space, stack.drop_last()) + space.pending(stack.last()).len() + 1
    }
}

/// The walk that takes no action stays at its start.
proof fn lemma_empty_run<S: SearchSpace + ?Sized>(space: &S, start: S::State)
    ensures
        is_run(space, start, Seq::empty(), seq![start]),
        leads_to(space, start, Seq::empty(), start),
        reachable(space, start, start),
{
    let none = Seq::<S::Action>::empty();
    assert(is_run(space, start, none, seq![start]));
    assert(seq![start].last() == start);
    assert(leads_to(space, start, none, start));
}

/// A walk goes on by any transition out of its last state.
proof fn lemma_run_extend<S: SearchSpace + ?Sized>(
    space: &S,
    start: S::State,
    actions: Seq<S::Action>,
    states: Seq<S::State>,
    action: S::Action,
    state: S::State,
)
    requires
        is_run(space, start, actions, states),
        space.successors(states.last()).contains((action, state)),
    ensures
        is_run(space, start, actions.push(action), states.push(state)),
        leads_to(space, start, actions.push(action), state),
{
    let a2 = actions.push(action);
    let s2 = states.push(state);
    assert forall|i: int| 0 <= i < a2.len() implies #[trigger] space.successors(s2[i]).contains(
        (a2[i], s2[i + 1]),
    ) by {
        if i < actions.len() {
            assert(a2[i] == actions[i]);
            assert(s2[i] == states[i]);
            assert(s2[i + 1] == states[i + 1]);
        } else {
            assert(s2[i] == states.last());
        }
    }
    assert(s2.last() == state);
}

/// Dropping the last step of a walk leaves a walk.
proof fn lemma_run_shorten<S: SearchSpace + ?Sized>(
    space: &S,
    start: S::State,
    actions: Seq<S::Action>,
    states: Seq<S::State>,
)
    requires
        is_run(space, start, actions, states),
        actions.len() > 0,
    ensures
        is_run(space, start, actions.drop_last(), states.drop_last()),
{
    let a2 = actions.drop_last();
    let s2 = states.drop_last();
    assert forall|i: int| 0 <= i < a2.len() implies #[trigger] space.successors(s2[i]).contains(
        (a2[i], s2[i + 1]),
    ) by {
        assert(space.successors(states[i]).contains((actions[i], states[i + 1])));
    }
}

/// A walk that starts at a finished state and keeps out of `avoid` stays among finished
/// states, when every discovered state is finished or in `avoid`.
proof fn lemma_avoiding_run_stays<S: SearchSpace + ?Sized>(
    space: &S,
    done: Set<S::State>,
    visited: Set<S::State>,
    avoid: Set<S::State>,
    from: S::State,
    actions: Seq<S::Action>,
    states: Seq<S::State>,
)
    requires
        is_run(space, from, actions, states),
        done.contains(from),
        forall|k: int| 0 <= k < states.len() ==> !avoid.contains(#[trigger] states[k]),
        forall|v: S::State| #[trigger] visited.contains(v) ==> done.contains(v) || avoid.contains(v),
        forall|d: S::State, j: int|
            done.contains(d) && 0 <= j < space.successors(d).len() ==> visited.contains(
                #[trigger] space.successors(d)[j].1,
            ),
    ensures
        forall|k: int| 0 <= k < states.len() ==> done.contains(#[trigger] states[k]),
    decreases actions.len(),
{
    if actions.len() > 0 {
        let n = actions.len() - 1;
        let pre = actions.subrange(0, n);
        let pre_states = states.subrange(0, n + 1);
        assert forall|i: int| 0 <= i < pre.len() implies #[trigger] space.successors(
            pre_states[i],
        ).contains((pre[i], pre_states[i + 1])) by {
            assert(space.successors(states[i]).contains((actions[i], states[i + 1])));
        }
        assert forall|k: int| 0 <= k < pre_states.len() implies !avoid.contains(
            #[trigger] pre_states[k],
        ) by {
            assert(pre_states[k] == states[k]);
        }
        lemma_avoiding_run_stays(space, done, visited, avoid, from, pre, pre_states);
        assert(pre_states[n] == states[n]);
        assert(done.contains(states[n]));
        assert(space.successors(states[n]).contains((actions[n], states[n + 1])));
        let j = choose|j: int|
            0 <= j < space.successors(states[n]).len() && space.successors(states[n])[j] == (
                actions[n],
                states[n + 1],
            );
        assert(visited.contains(space.successors(states[n])[j].1));
        assert(!avoid.contains(states[n + 1]));
        assert forall|k: int| 0 <= k < states.len() implies done.contains(#[trigger] states[k]) by {
            if k <= n {
                assert(pre_states[k] == states[k]);
            }
        }
    }
}

/// From a finished state, or one in `avoid`, no accepted state can be reached without
/// entering `avoid`.
proof fn lemma_no_escape<S: SearchSpace + ?Sized, G: SearchGoal<S::State>>(
    space: &S,
    goal: &G,
    start: S::State,
    from: S::State,
    avoid: Set<S::State>,
    done: Set<S::State>,
    visited: Set<S::State>,
)
    requires
        done.contains(from) || avoid.contains(from),
        !goal.accepts(start),
        forall|v: S::State| #[trigger]
            visited.contains(v) ==> !goal.accepts(v) && (done.contains(v) || avoid.contains(v)),
        forall|d: S::State| #[trigger] done.contains(d) ==> (d == start || visited.contains(d)),
        forall|d: S::State, j: int|
            done.contains(d) && 0 <= j < space.successors(d).len() ==> visited.contains(
                #[trigger] space.successors(d)[j].1,
            ),
    ensures
        !goal_reachable_avoiding(space, goal, from, avoid),
{
    assert forall|actions: Seq<S::Action>, states: Seq<S::State>|
        is_run(space, from, actions, states) && (forall|k: int|
            0 <= k < states.len() ==> !avoid.contains(#[trigger] states[k])) implies !goal.accepts(
        states.last(),
    ) by {
        assert(!avoid.contains(states[0]));
        lemma_avoiding_run_stays(space, done, visited, avoid, from, actions, states);
        assert(done.contains(states[states.len() - 1]));
    }
}

/// Every state of a walk from a member of a closed set stays in the set.
proof fn lemma_run_stays_in<S: SearchSpace + ?Sized>(
    space: &S,
    set: Set<S::State>,
    start: S::State,
    actions: Seq<S::Action>,
    states: Seq<S::State>,
)
    requires
        closed_under(space, set),
        set.contains(start),
        is_run(space, start, actions, states),
    ensures
        forall|i: int| 0 <= i < states.len() ==> set.contains(#[trigger] states[i]),
    decreases actions.len(),
{
    if actions.len() > 0 {
        let n = actions.len() - 1;
        let pre = actions.subrange(0, n);
        let pre_states = states.subrange(0, n + 1);
        assert forall|i: int| 0 <= i < pre.len() implies #[trigger] space.successors(
            pre_states[i],
        ).contains((pre[i], pre_states[i + 1])) by {
            assert(space.successors(states[i]).contains((actions[i], states[i + 1])));
        }
        lemma_run_stays_in(space, set, start, pre, pre_states);
        assert(pre_states[n] == states[n]);
        assert(set.contains(states[n]));
        assert(space.successors(states[n]).contains((actions[n], states[n + 1])));
        let j = choose|j: int|
            0 <= j < space.successors(states[n]).len() && space.successors(states[n])[j] == (
                actions[n],
                states[n + 1],
            );
        assert(set.contains(space.successors(states[n])[j].1));
        assert forall|i: int| 0 <= i < states.len() implies set.contains(#[trigger] states[i]) by {
            if i <= n {
                assert(pre_states[i] == states[i]);
            }
        }
    }
}

/// A closed set holding `start` and no accepted state shows that no accepted state is
/// reachable from `start`.
proof fn lemma_exhausted<S: SearchSpace + ?Sized, G: SearchGoal<S::State>>(
    space: &S,
    goal: &G,
    start: S::State,
    done: Set<S::State>,
    visited: Set<S::State>,
)
    requires
        done.contains(start),
        !goal.accepts(start),
        forall|v: S::State| #[trigger] visited.contains(v) ==> !goal.accepts(v) && done.contains(v),
        forall|d: S::State| #[trigger] done.contains(d) ==> (d == start || visited.contains(d)),
        forall|d: S::State, j: int|
            done.contains(d) && 0 <= j < space.successors(d).len() ==> visited.contains(
                #[trigger] space.successors(d)[j].1,
            ),
    ensures
        !goal_reachable(space, goal, start),
{
    assert(closed_under(space, done));
    assert forall|end: S::State| reachable(space, start, end) implies !goal.accepts(end) by {
        let actions = choose|actions: Seq<S::Action>| leads_to(space, start, actions, end);
        let states = choose|states: Seq<S::State>|
            is_run(space, start, actions, states) && states.last() == end;
        lemma_run_stays_in(space, done, start, actions, states);
        assert(done.contains(states[states.len() - 1]));
    }
}

} // verus!
