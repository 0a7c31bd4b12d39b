//! The order of the visits, said directly: a node before those below it, the last child first.
use vstd::prelude::*;
use vstd::set_lib::lemma_int_range;
use vstd::set_lib::lemma_len_subset;
use vstd::set_lib::set_int_range;

use crate::context::RdcControlFlow;
use crate::graph::Graph;
use crate::resource::Handle;
use crate::traversal::end_at;
use crate::traversal::lemma_prefix_ends_at;
use crate::traversal::lemma_waiting_are_sound;
use crate::traversal::next_visit;
use crate::traversal::stack_after_visit;
use crate::traversal::traversable_graphs_miss_no_node;
use crate::traversal::NodeVisit;
use crate::visit_laws::is_reached;
use crate::visit_laws::lemma_prefix_is_visit_order;
use crate::visit_laws::lemma_waiting_nodes_are_reached;
use crate::visit_laws::visited_nodes_are_visible_and_reached;

verus! {

/// What the visited nodes answered.
pub open spec fn answers(visits: Seq<NodeVisit>) -> Seq<RdcControlFlow> {
    visits.map_values(|visit: NodeVisit| visit.flow)
}

impl<T> Graph<T> {
    /// The visits to a node and to those below it, down to a depth, where the visited nodes give
    /// the given answers one after another: a hidden node is not visited; a visible node comes
    /// first, and where it lets the collection continue, the nodes right below it follow.
    pub open spec fn walk(
        &self,
        handle: Handle,
        depth: nat,
        answers: Seq<RdcControlFlow>,
    ) -> Seq<NodeVisit>
        decreases depth, 0nat,
    {
        if depth == 0 || !self.is_visible(handle.index as int) {
            Seq::empty()
        } else {
            seq![NodeVisit { handle, flow: answers[0] }] + (match answers[0] {
                RdcControlFlow::Continue => self.walk_all(
                    self.children_of(handle),
                    (depth - 1) as nat,
                    answers.skip(1),
                ),
                RdcControlFlow::Break => Seq::empty(),
            })
        }
    }

    /// The visits to several nodes and to those below them: to the last node and all below it
    /// first, and then to the nodes before it.
    pub open spec fn walk_all(
        &self,
        handles: Seq<Handle>,
        depth: nat,
        answers: Seq<RdcControlFlow>,
    ) -> Seq<NodeVisit>
        decreases depth, handles.len(),
    {
        if handles.len() == 0 {
            Seq::empty()
        } else {
            let first = self.walk(handles.last(), depth, answers);
            first + self.walk_all(handles.drop_last(), depth, answers.skip(first.len() as int))
        }
    }

    /// The visits to some nodes come after those to the nodes behind them.
    proof fn lemma_walk_concatenation(
        &self,
        a: Seq<Handle>,
        b: Seq<Handle>,
        depth: nat,
        answers: Seq<RdcControlFlow>,
    )
        requires
            self.walk_all(a + b, depth, answers).len() <= answers.len(),
        ensures
            self.walk_all(a + b, depth, answers) == self.walk_all(b, depth, answers)
                + self.walk_all(
                a,
                depth,
                answers.skip(self.walk_all(b, depth, answers).len() as int),
            ),
        decreases b.len(),
    {
        if b.len() == 0 {
            assert(a + b == a);
            assert(answers.skip(0) == answers);
        } else {
            let first = self.walk(b.last(), depth, answers);
            let rest = answers.skip(first.len() as int);
            assert((a + b).drop_last() == a + b.drop_last());
            assert((a + b).last() == b.last());
            self.lemma_walk_concatenation(a, b.drop_last(), depth, rest);
            let second = self.walk_all(b.drop_last(), depth, rest);
            assert(rest.skip(second.len() as int) == answers.skip(
                (first + second).len() as int,
            ));
        }
    }

    /// Below sound nodes, going deeper gives no more visits.
    proof fn lemma_deeper_walk(
        &self,
        handle: Handle,
        depth: nat,
        stops: Set<Handle>,
        answers: Seq<RdcControlFlow>,
    )
        requires
            self.is_sound_below(handle, depth, stops),
            end_at(self.walk(handle, depth + 1, answers), stops),
        ensures
            self.walk(handle, depth + 1, answers) == self.walk(handle, depth, answers),
        decreases depth, 0nat,
    {
        if self.is_visible(handle.index as int) {
            let visits = self.walk(handle, depth + 1, answers);
            assert(visits[0] == (NodeVisit { handle, flow: answers[0] }));
            if answers[0] == RdcControlFlow::Continue {
                let children = self.children_of(handle);
                let under = self.walk_all(children, depth, answers.skip(1));
                assert(end_at(under, stops)) by {
                    assert forall|k: int|
                        0 <= k < under.len() && stops.contains(
                            (#[trigger] under[k]).handle,
                        ) implies under[k].flow == RdcControlFlow::Break by {
                        assert(visits[k + 1] == under[k]);
                    }
                }
                assert forall|i: int| 0 <= i < children.len() implies self.is_sound_below(
                    #[trigger] children[i],
                    (depth - 1) as nat,
                    stops,
                ) by {
                    assert(self.is_sound_below(
                        self.children_of(handle)[i],
                        (depth - 1) as nat,
                        stops,
                    ));
                }
                self.lemma_deeper_walk_all(children, (depth - 1) as nat, stops, answers.skip(1));
            }
        }
    }

    proof fn lemma_deeper_walk_all(
        &self,
        handles: Seq<Handle>,
        depth: nat,
        stops: Set<Handle>,
        answers: Seq<RdcControlFlow>,
    )
        requires
            self.all_sound_below(handles, depth, stops),
            end_at(self.walk_all(handles, depth + 1, answers), stops),
        ensures
            self.walk_all(handles, depth + 1, answers) == self.walk_all(handles, depth, answers),
        decreases depth, handles.len(),
    {
        if handles.len() != 0 {
            let before = handles.drop_last();
            let visits = self.walk_all(handles, depth + 1, answers);
            let first = self.walk(handles.last(), depth + 1, answers);
            let n = first.len() as int;
            let rest = self.walk_all(before, depth + 1, answers.skip(n));
            assert(visits == first + rest);
            assert(end_at(first, stops)) by {
                assert(visits.take(n) == first);
                lemma_prefix_ends_at(visits, n, stops);
            }
            assert(end_at(rest, stops)) by {
                assert forall|k: int|
                    0 <= k < rest.len() && stops.contains(
                        (#[trigger] rest[k]).handle,
                    ) implies rest[k].flow == RdcControlFlow::Break by {
                    assert(visits[n + k] == rest[k]);
                }
            }
            assert(self.is_sound_below(handles[handles.len() - 1], depth, stops));
            self.lemma_deeper_walk(handles.last(), depth, stops, answers);
            assert forall|i: int| 0 <= i < before.len() implies self.is_sound_below(
                #[trigger] before[i],
                depth,
                stops,
            ) by {
                assert(before[i] == handles[i]);
            }
            self.lemma_deeper_walk_all(before, depth, stops, answers.skip(n));
        }
    }
}

impl<T> Graph<T> {
    /// A walk over a stack of nodes starts with the visible node on top of it, and goes on over the
    /// nodes that wait after this visit.
    #[verifier::rlimit(40)]
    proof fn lemma_walk_step(
        &self,
        stack: Seq<Handle>,
        depth: nat,
        stops: Set<Handle>,
        answers: Seq<RdcControlFlow>,
        later_visits: Seq<NodeVisit>,
    )
        requires
            self.all_sound_below(stack, depth, stops),
            stack.len() != 0,
            self.is_visible(stack.last().index as int),
            answers.len() != 0,
            stops.contains(stack.last()) ==> answers[0] == RdcControlFlow::Break,
            later_visits == self.walk_all(
                stack_after_visit(
                    stack.drop_last(),
                    answers[0],
                    self.children_of(stack.last()),
                ),
                depth,
                answers.skip(1),
            ),
            later_visits.len() <= answers.len() - 1,
            end_at(later_visits, stops),
        ensures
            self.walk_all(stack, depth, answers) == seq![
                NodeVisit { handle: stack.last(), flow: answers[0] },
            ] + later_visits,
    {
        let (top, below) = (stack.last(), stack.drop_last());
        let children = self.children_of(top);
        let later = answers.skip(1);
        let visit = seq![NodeVisit { handle: top, flow: answers[0] }];
        let first = self.walk(top, depth, answers);
        assert(self.is_sound_below(stack[stack.len() - 1], depth, stops));
        match answers[0] {
            RdcControlFlow::Continue => {
                let d = (depth - 1) as nat;
                assert forall|i: int| 0 <= i < children.len() implies self.is_sound_below(
                    #[trigger] children[i],
                    d,
                    stops,
                ) by {
                    assert(self.is_sound_below(self.children_of(top)[i], d, stops));
                }
                self.lemma_walk_concatenation(below, children, depth, later);
                let under = self.walk_all(children, depth, later);
                assert(later_visits.take(under.len() as int) == under);
                lemma_prefix_ends_at(later_visits, under.len() as int, stops);
                self.lemma_deeper_walk_all(children, d, stops, later);
                assert(first == visit + under);
                assert(answers.skip(first.len() as int) == later.skip(under.len() as int));
                let rest = self.walk_all(below, depth, later.skip(under.len() as int));
                assert((visit + under) + rest == visit + (under + rest));
            },
            RdcControlFlow::Break => {
                assert(first == visit);
            },
        }
    }
}

/// A walk over a stack of nodes skips a hidden node on top of it.
proof fn lemma_walk_skips_hidden<T>(
    graph: &Graph<T>,
    stack: Seq<Handle>,
    depth: nat,
    answers: Seq<RdcControlFlow>,
)
    requires
        stack.len() != 0,
        !graph.is_visible(stack.last().index as int),
    ensures
        graph.walk_all(stack, depth, answers) == graph.walk_all(
            stack.drop_last(),
            depth,
            answers,
        ),
{
    let first = graph.walk(stack.last(), depth, answers);
    assert(first.len() == 0);
    assert(answers.skip(0) == answers);
}

/// After the last visit no node is left to visit, and before it the next one is known.
pub(crate) proof fn lemma_next_of_traversal<T>(graph: &Graph<T>, visits: Seq<NodeVisit>, n: int)
    requires
        graph.is_traversal(visits),
        0 <= n <= visits.len(),
    ensures
        match next_visit(graph.visibility(), graph.waiting_after(visits.take(n))) {
            Some((handle, rest)) => {
                &&& n < visits.len()
                &&& visits[n].handle == handle
                &&& graph.is_visit_order(visits.take(n + 1))
                &&& graph.waiting_after(visits.take(n + 1)) == stack_after_visit(
                    rest,
                    visits[n].flow,
                    graph.children_of(handle),
                )
            },
            None => n == visits.len(),
        },
{
    if n == visits.len() {
        assert(visits.take(n) == visits);
    } else {
        assert(graph.next_after(visits.take(n)) == Some(visits[n].handle));
        assert(visits.take(n + 1).drop_last() == visits.take(n));
        lemma_prefix_is_visit_order(*graph, visits, n + 1);
    }
}

/// The visits that are left, while a stack of nodes waits, are those to the waiting nodes and to
/// what is below them.
#[verifier::rlimit(40)]
proof fn lemma_rest_is_a_walk<T>(
    graph: &Graph<T>,
    visits: Seq<NodeVisit>,
    n: int,
    stack: Seq<Handle>,
    depth: nat,
    stops: Set<Handle>,
)
    requires
        graph.is_sound_below(graph.root, depth, stops),
        graph.is_traversal(visits),
        end_at(visits, stops),
        0 <= n <= visits.len(),
        graph.all_sound_below(stack, depth, stops),
        next_visit(graph.visibility(), stack) == next_visit(
            graph.visibility(),
            graph.waiting_after(visits.take(n)),
        ),
    ensures
        graph.walk_all(stack, depth, answers(visits).skip(n)) == visits.skip(n),
    decreases visits.len() - n, stack.len(),
{
    let flows = answers(visits).skip(n);
    lemma_next_of_traversal(graph, visits, n);
    if stack.len() == 0 {
        assert(visits.skip(n).len() == 0);
    } else if !graph.is_visible(stack.last().index as int) {
        let below = stack.drop_last();
        assert(graph.is_sound_below(stack[stack.len() - 1], depth, stops));
        assert forall|i: int| 0 <= i < below.len() implies graph.is_sound_below(
            #[trigger] below[i],
            depth,
            stops,
        ) by {
            assert(below[i] == stack[i]);
        }
        lemma_rest_is_a_walk(graph, visits, n, below, depth, stops);
        lemma_walk_skips_hidden(graph, stack, depth, flows);
    } else {
        let (top, below) = (stack.last(), stack.drop_last());
        assert(graph.is_sound_below(stack[stack.len() - 1], depth, stops));
        assert(next_visit(graph.visibility(), stack) == Some((top, below)));
        let next = graph.waiting_after(visits.take(n + 1));
        lemma_prefix_ends_at(visits, n + 1, stops);
        lemma_waiting_are_sound(graph, visits.take(n + 1), depth, stops);
        lemma_rest_is_a_walk(graph, visits, n + 1, next, depth, stops);
        let later = visits.skip(n + 1);
        assert(end_at(later, stops)) by {
            assert forall|k: int|
                0 <= k < later.len() && stops.contains(
                    (#[trigger] later[k]).handle,
                ) implies later[k].flow == RdcControlFlow::Break by {
                assert(visits[n + 1 + k] == later[k]);
            }
        }
        assert(flows[0] == visits[n].flow);
        assert(flows.skip(1) == answers(visits).skip(n + 1));
        graph.lemma_walk_step(stack, depth, stops, flows, later);
        assert(visits.skip(n) == seq![visits[n]] + later);
    }
}

/// The visits of a collection are those of a walk from the root: each node comes before the nodes
/// below it, all nodes below a node come before the nodes that wait next to it, and of the nodes
/// right below a node, the last comes first.
pub proof fn visits_are_a_walk<T>(
    graph: &Graph<T>,
    visits: Seq<NodeVisit>,
    depth: nat,
    stops: Set<Handle>,
)
    requires
        graph.is_sound_below(graph.root, depth, stops),
        graph.is_traversal(visits),
        end_at(visits, stops),
    ensures
        visits == graph.walk(graph.root, depth, answers(visits)),
{
    assert(visits.take(0) == Seq::<NodeVisit>::empty());
    assert(visits.skip(0) == visits);
    assert(answers(visits).skip(0) == answers(visits));
    let stack = seq![graph.root];
    lemma_rest_is_a_walk(graph, visits, 0, stack, depth, stops);
    let first = graph.walk(graph.root, depth, answers(visits));
    assert(graph.walk_all(
        stack.drop_last(),
        depth,
        answers(visits).skip(first.len() as int),
    ).len() == 0);
    assert(graph.walk_all(stack, depth, answers(visits)) == first);
}

impl<T> Graph<T> {
    /// Whether each node is right below one node at most, and there once, and the root is below
    /// none.
    pub open spec fn is_tree(&self) -> bool {
        &&& forall|a: Handle, i: int, b: Handle, j: int|
            #![trigger self.children_of(a)[i], self.children_of(b)[j]]
            {
                &&& self.contains(a)
                &&& self.contains(b)
                &&& 0 <= i < self.children_of(a).len()
                &&& 0 <= j < self.children_of(b).len()
                &&& self.children_of(a)[i] == self.children_of(b)[j]
            } ==> a == b && i == j
        &&& forall|a: Handle, i: int|
            self.contains(a) && 0 <= i < self.children_of(a).len()
                ==> #[trigger] self.children_of(a)[i] != self.root
    }
}

/// The nodes that were visited, and those that wait.
spec fn seen<T>(graph: &Graph<T>, visits: Seq<NodeVisit>) -> Seq<Handle> {
    visits.map_values(|visit: NodeVisit| visit.handle) + graph.waiting_after(visits)
}

/// What `next_visit` leaves are the nodes below the one that it takes.
proof fn lemma_next_visit_splits(visibility: Seq<bool>, stack: Seq<Handle>)
    ensures
        next_visit(visibility, stack) matches Some((handle, rest)) ==> {
            &&& rest.len() < stack.len()
            &&& rest == stack.take(rest.len() as int)
            &&& handle == stack[rest.len() as int]
        },
    decreases stack.len(),
{
    if stack.len() != 0 {
        let below = stack.drop_last();
        lemma_next_visit_splits(visibility, below);
        if let Some((handle, rest)) = next_visit(visibility, below) {
            assert(below.take(rest.len() as int) == stack.take(rest.len() as int));
        }
        assert(below == stack.take(below.len() as int));
    }
}

/// Whatever was seen is the root, or right below a node that was visited.
proof fn lemma_seen_is_reached<T>(graph: &Graph<T>, visits: Seq<NodeVisit>, at: int)
    requires
        graph.is_visit_order(visits),
        0 <= at < seen(graph, visits).len(),
    ensures
        is_reached(*graph, visits, seen(graph, visits)[at]),
{
    if at < visits.len() {
        visited_nodes_are_visible_and_reached(*graph, visits, at);
        let handle = visits[at].handle;
        if handle != graph.root {
            let before = visits.take(at);
            let j = choose|j: int|
                {
                    &&& 0 <= j < before.len()
                    &&& (#[trigger] before[j]).flow == RdcControlFlow::Continue
                    &&& graph.children_of(before[j].handle).contains(handle)
                };
            assert(visits[j] == before[j]);
        }
    } else {
        let waiting = graph.waiting_after(visits);
        assert(waiting[at - visits.len()] == seen(graph, visits)[at]);
        lemma_waiting_nodes_are_reached(*graph, visits, seen(graph, visits)[at]);
    }
}

/// A node that is below a waiting node of a tree was not seen.
proof fn lemma_children_are_new<T>(
    graph: &Graph<T>,
    visits: Seq<NodeVisit>,
    at: int,
    i: int,
    other: int,
)
    requires
        graph.is_tree(),
        graph.is_visit_order(visits),
        forall|k: int| 0 <= k < visits.len() ==> graph.contains((#[trigger] visits[k]).handle),
        seen(graph, visits).no_duplicates(),
        visits.len() <= at < seen(graph, visits).len(),
        graph.contains(seen(graph, visits)[at]),
        0 <= i < graph.children_of(seen(graph, visits)[at]).len(),
        0 <= other < seen(graph, visits).len(),
    ensures
        graph.children_of(seen(graph, visits)[at])[i] != seen(graph, visits)[other],
{
    let all = seen(graph, visits);
    let handle = all[at];
    let child = graph.children_of(handle)[i];
    if child == all[other] {
        lemma_seen_is_reached(graph, visits, other);
        let j = choose|j: int|
            {
                &&& 0 <= j < visits.len()
                &&& (#[trigger] visits[j]).flow == RdcControlFlow::Continue
                &&& graph.children_of(visits[j].handle).contains(child)
            };
        let above = visits[j].handle;
        let k = graph.children_of(above).index_of(child);
        assert(graph.children_of(above)[k] == graph.children_of(handle)[i]);
        assert(all[j] == above);
    }
}

/// Handles stay different if one of them is moved forward, those behind it are dropped, and new
/// ones are put at the end.
proof fn lemma_still_different(done: Seq<Handle>, stack: Seq<Handle>, m: int, added: Seq<Handle>)
    requires
        (done + stack).no_duplicates(),
        0 <= m < stack.len(),
        added.no_duplicates(),
        forall|i: int, j: int|
            0 <= i < added.len() && 0 <= j < (done + stack).len() ==> (#[trigger] added[i]) != (
            #[trigger] (done + stack)[j]),
    ensures
        (done.push(stack[m]) + (stack.take(m) + added)).no_duplicates(),
{
    let n = done.len() as int;
    let a = done + stack;
    let b = done.push(stack[m]) + (stack.take(m) + added);
    // Where the node at a place before the added ones was before.
    let origin = |x: int|
        if x < n {
            x
        } else if x == n {
            n + m
        } else {
            x - 1
        };
    assert forall|x: int| 0 <= x < n + 1 + m implies #[trigger] b[x] == a[origin(x)] by {}
    assert forall|i: int, j: int|
        0 <= i < b.len() && 0 <= j < b.len() && i != j implies b[i] != b[j] by {
        let (x, y) = if i < j {
            (i, j)
        } else {
            (j, i)
        };
        if y < n + 1 + m {
            assert(b[x] == a[origin(x)] && b[y] == a[origin(y)]);
            assert(a[origin(x)] != a[origin(y)]);
        } else if x < n + 1 + m {
            assert(b[x] == a[origin(x)]);
            assert(b[y] == added[y - (n + 1 + m)]);
            assert(added[y - (n + 1 + m)] != a[origin(x)]);
        } else {
            assert(added[x - (n + 1 + m)] != added[y - (n + 1 + m)]);
        }
    }
}

/// The nodes right below a waiting node of a tree are different from each other, and from all that
/// was seen.
proof fn lemma_all_children_are_new<T>(graph: &Graph<T>, visits: Seq<NodeVisit>, at: int)
    requires
        graph.is_tree(),
        graph.is_visit_order(visits),
        forall|k: int| 0 <= k < visits.len() ==> graph.contains((#[trigger] visits[k]).handle),
        seen(graph, visits).no_duplicates(),
        visits.len() <= at < seen(graph, visits).len(),
        graph.contains(seen(graph, visits)[at]),
    ensures
        ({
            let children = graph.children_of(seen(graph, visits)[at]);
            &&& children.no_duplicates()
            &&& forall|i: int, j: int|
                0 <= i < children.len() && 0 <= j < seen(graph, visits).len() ==> (
                #[trigger] children[i]) != (#[trigger] seen(graph, visits)[j])
        }),
{
    let handle = seen(graph, visits)[at];
    let children = graph.children_of(handle);
    assert forall|i: int, j: int|
        0 <= i < children.len() && 0 <= j < children.len() && i != j implies children[i]
        != children[j] by {
        assert(graph.children_of(handle)[i] == children[i]);
        assert(graph.children_of(handle)[j] == children[j]);
    }
    assert forall|i: int, j: int|
        0 <= i < children.len() && 0 <= j < seen(graph, visits).len() implies (
    #[trigger] children[i]) != (#[trigger] seen(graph, visits)[j]) by {
        lemma_children_are_new(graph, visits, at, i, j);
    }
}

/// One visit more in a tree: still no node was seen twice.
proof fn lemma_seen_once_after<T>(graph: &Graph<T>, before: Seq<NodeVisit>, visit: NodeVisit)
    requires
        graph.is_tree(),
        graph.is_visit_order(before),
        forall|k: int| 0 <= k < before.len() ==> graph.contains((#[trigger] before[k]).handle),
        graph.contains(visit.handle),
        graph.next_after(before) == Some(visit.handle),
        seen(graph, before).no_duplicates(),
    ensures
        seen(graph, before.push(visit)).no_duplicates(),
{
    let handles = |visits: Seq<NodeVisit>| visits.map_values(|visit: NodeVisit| visit.handle);
    let waiting = graph.waiting_after(before);
    lemma_next_visit_splits(graph.visibility(), waiting);
    let (handle, rest) = next_visit(graph.visibility(), waiting)->0;
    let (n, m) = (before.len() as int, rest.len() as int);
    assert(seen(graph, before)[n + m] == handle);
    lemma_all_children_are_new(graph, before, n + m);
    let added = match visit.flow {
        RdcControlFlow::Continue => graph.children_of(handle),
        RdcControlFlow::Break => Seq::empty(),
    };
    lemma_still_different(handles(before), waiting, m, added);
    assert(before.push(visit).drop_last() == before);
    assert(graph.waiting_after(before.push(visit)) == waiting.take(m) + added);
    assert(handles(before.push(visit)) == handles(before).push(handle));
}

/// In a tree, no node is seen twice.
proof fn lemma_seen_once<T>(graph: &Graph<T>, visits: Seq<NodeVisit>, stops: Set<Handle>)
    requires
        graph.is_tree(),
        graph.is_traversable(stops),
        graph.is_visit_order(visits),
        end_at(visits, stops),
    ensures
        seen(graph, visits).no_duplicates(),
    decreases visits.len(),
{
    if visits.len() != 0 {
        let n = visits.len() - 1;
        let before = visits.take(n);
        lemma_prefix_is_visit_order(*graph, visits, n);
        lemma_prefix_ends_at(visits, n, stops);
        lemma_seen_once(graph, before, stops);
        traversable_graphs_miss_no_node(graph, before, stops);
        traversable_graphs_miss_no_node(graph, visits, stops);
        assert(graph.next_after(before) == Some(visits[n].handle));
        lemma_seen_once_after(graph, before, visits[n]);
        assert(before.push(visits[n]) == visits);
    }
}

/// In a tree, no two visits are to the same node.
proof fn lemma_visited_once<T>(graph: &Graph<T>, visits: Seq<NodeVisit>, stops: Set<Handle>)
    requires
        graph.is_tree(),
        graph.is_traversable(stops),
        graph.is_visit_order(visits),
        end_at(visits, stops),
    ensures
        forall|j: int, k: int|
            0 <= j < k < visits.len() ==> (#[trigger] visits[j]).handle != (
            #[trigger] visits[k]).handle,
{
    lemma_seen_once(graph, visits, stops);
    let all = seen(graph, visits);
    assert forall|j: int, k: int| 0 <= j < k < visits.len() implies (
    #[trigger] visits[j]).handle != (#[trigger] visits[k]).handle by {
        assert(all[j] == visits[j].handle && all[k] == visits[k].handle);
    }
}

/// No node of a tree is asked for render data twice.
pub proof fn nodes_of_a_tree_are_visited_once<T>(
    graph: &Graph<T>,
    visits: Seq<NodeVisit>,
    stops: Set<Handle>,
    j: int,
    k: int,
)
    requires
        graph.is_tree(),
        graph.is_traversable(stops),
        graph.is_visit_order(visits),
        end_at(visits, stops),
        0 <= j < k < visits.len(),
    ensures
        visits[j].handle != visits[k].handle,
{
    lemma_visited_once(graph, visits, stops);
}

/// There are no more different numbers below a bound than the bound says.
proof fn lemma_different_numbers_below(numbers: Seq<int>, bound: nat)
    requires
        numbers.no_duplicates(),
        forall|i: int| 0 <= i < numbers.len() ==> 0 <= #[trigger] numbers[i] < bound,
    ensures
        numbers.len() <= bound,
{
    numbers.unique_seq_to_set();
    lemma_int_range(0, bound as int);
    assert forall|x: int| #[trigger] numbers.to_set().contains(x) implies set_int_range(
        0,
        bound as int,
    ).contains(x) by {
        assert(numbers[numbers.index_of(x)] == x);
    }
    lemma_len_subset(numbers.to_set(), set_int_range(0, bound as int));
}

/// There are no more visits to different nodes than places for nodes.
proof fn lemma_visits_to_different_nodes<T>(graph: &Graph<T>, visits: Seq<NodeVisit>)
    requires
        forall|k: int| 0 <= k < visits.len() ==> graph.contains((#[trigger] visits[k]).handle),
        forall|j: int, k: int|
            0 <= j < k < visits.len() ==> (#[trigger] visits[j]).handle != (
            #[trigger] visits[k]).handle,
    ensures
        visits.len() <= graph.records@.len(),
{
    let places = visits.map_values(|visit: NodeVisit| visit.handle.index as int);
    assert forall|i: int| 0 <= i < places.len() implies 0 <= #[trigger] places[i]
        < graph.records@.len() by {
        assert(graph.contains(visits[i].handle));
    }
    assert forall|i: int, j: int|
        0 <= i < places.len() && 0 <= j < places.len() && i != j implies places[i]
        != places[j] by {
        assert(graph.contains(visits[i].handle) && graph.contains(visits[j].handle));
    }
    lemma_different_numbers_below(places, graph.records@.len());
}

/// A collection from a tree makes no more visits than there are places for nodes.
pub proof fn trees_need_no_more_visits_than_places<T>(
    graph: &Graph<T>,
    visits: Seq<NodeVisit>,
    stops: Set<Handle>,
)
    requires
        graph.is_tree(),
        graph.is_traversable(stops),
        graph.is_visit_order(visits),
        end_at(visits, stops),
    ensures
        visits.len() <= graph.records@.len(),
{
    traversable_graphs_miss_no_node(graph, visits, stops);
    lemma_visited_once(graph, visits, stops);
    lemma_visits_to_different_nodes(graph, visits);
}

/// A walk from a node, said of the records: a hidden node gives no visit. A visible one comes first,
/// with the first answer; where it stops the collection, it is the only one; else the walk over its
/// children, as its record has them, follows with the other answers.
pub proof fn walks_start_with_their_node<T>(
    graph: &Graph<T>,
    handle: Handle,
    depth: nat,
    flows: Seq<RdcControlFlow>,
)
    requires
        handle.index < graph.records@.len(),
    ensures
        !graph.visibility()[handle.index as int] ==> graph.walk(handle, depth + 1, flows).len()
            == 0,
        graph.visibility()[handle.index as int] ==> graph.walk(handle, depth + 1, flows).len() >= 1
            && graph.walk(handle, depth + 1, flows)[0].handle == handle && graph.walk(
            handle,
            depth + 1,
            flows,
        )[0].flow == flows[0],
        graph.visibility()[handle.index as int] && flows[0] == RdcControlFlow::Break ==> graph.walk(
            handle,
            depth + 1,
            flows,
        ).len() == 1,
        graph.visibility()[handle.index as int] && flows[0] == RdcControlFlow::Continue
            ==> graph.walk(handle, depth + 1, flows).skip(1) == graph.walk_all(
            graph.records@[handle.index as int].node->0.children@,
            depth,
            flows.skip(1),
        ),
{
}

/// A walk over several nodes: none gives no visits; else the walk from the last node comes first,
/// and the walk over the nodes before it follows with the answers that are left.
pub proof fn walks_take_the_last_node_first<T>(
    graph: &Graph<T>,
    handles: Seq<Handle>,
    last: Handle,
    depth: nat,
    flows: Seq<RdcControlFlow>,
)
    ensures
        graph.walk_all(Seq::empty(), depth, flows).len() == 0,
        graph.walk_all(handles.push(last), depth, flows) == graph.walk(last, depth, flows)
            + graph.walk_all(
            handles,
            depth,
            flows.skip(graph.walk(last, depth, flows).len() as int),
        ),
        answers(Seq::empty()).len() == 0,
{
    assert(handles.push(last).drop_last() == handles);
}

/// The answers of visits are those that the visited nodes gave, one after another.
pub proof fn answers_are_those_of_the_visits(visits: Seq<NodeVisit>, k: int)
    requires
        0 <= k < visits.len(),
    ensures
        answers(visits).len() == visits.len(),
        answers(visits)[k] == visits[k].flow,
{
}

/// A graph can be traversed if each visible node is there, and has visible children of a lower rank
/// only. Of hidden children, no more is asked than that their places exist; of what is below a node
/// of `stops`, nothing.
pub proof fn ranked_graphs_are_traversable<T>(
    graph: &Graph<T>,
    stops: Set<Handle>,
    rank: spec_fn(Handle) -> nat,
)
    requires
        graph.root.index < graph.records@.len(),
        graph.visibility()[graph.root.index as int] ==> graph.contains(graph.root),
        forall|h: Handle, i: int|
            #![trigger graph.records@[h.index as int].node->0.children@[i]]
            graph.contains(h) && graph.visibility()[h.index as int] && !stops.contains(h) && 0 <= i
                < graph.records@[h.index as int].node->0.children@.len() ==> {
                let child = graph.records@[h.index as int].node->0.children@[i];
                &&& child.index < graph.records@.len()
                &&& graph.visibility()[child.index as int] ==> graph.contains(child) && rank(child)
                    < rank(h)
            },
    ensures
        graph.is_traversable(stops),
{
    let depth = rank(graph.root) + 2;
    lemma_ranked_is_sound_below(graph, stops, rank, graph.root, depth);
    assert(graph.is_sound_below(graph.root, depth, stops));
}

proof fn lemma_ranked_is_sound_below<T>(
    graph: &Graph<T>,
    stops: Set<Handle>,
    rank: spec_fn(Handle) -> nat,
    handle: Handle,
    depth: nat,
)
    requires
        handle.index < graph.records@.len(),
        depth > 0,
        graph.visibility()[handle.index as int] ==> graph.contains(handle) && rank(handle) + 2
            <= depth,
        forall|h: Handle, i: int|
            #![trigger graph.records@[h.index as int].node->0.children@[i]]
            graph.contains(h) && graph.visibility()[h.index as int] && !stops.contains(h) && 0 <= i
                < graph.records@[h.index as int].node->0.children@.len() ==> {
                let child = graph.records@[h.index as int].node->0.children@[i];
                &&& child.index < graph.records@.len()
                &&& graph.visibility()[child.index as int] ==> graph.contains(child) && rank(child)
                    < rank(h)
            },
    ensures
        graph.is_sound_below(handle, depth, stops),
    decreases depth,
{
    let d = (depth - 1) as nat;
    if graph.visibility()[handle.index as int] && !stops.contains(handle) {
        assert forall|i: int| 0 <= i < graph.children_of(handle).len() implies graph.is_sound_below(
            #[trigger] graph.children_of(handle)[i],
            d,
            stops,
        ) by {
            let child = graph.records@[handle.index as int].node->0.children@[i];
            assert(child.index < graph.records@.len());
            lemma_ranked_is_sound_below(graph, stops, rank, child, d);
        }
    }
}

} // verus!
