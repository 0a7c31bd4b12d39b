//! What holds of the visits to the nodes of a graph, whatever the nodes answer.
use vstd::prelude::*;

use crate::context::RdcControlFlow;
use crate::graph::Graph;
use crate::graph::LodObject;
use crate::preorder::lemma_next_of_traversal;
use crate::pushes::Push;
use crate::resource::Handle;
use crate::storage::StorageView;
use crate::traversal::is_collection;
use crate::traversal::is_under_way;
use crate::traversal::is_usable_frustum;
use crate::traversal::next_visit;
use crate::traversal::stack_after_visit;
use crate::traversal::NodeVisit;

verus! {

/// Of the listings of a node in the levels of detail, the last one decides whether the node is
/// visible: where `objects[at]` is the last object that is a node of the graph in place `index`,
/// the verdict is whether it is in range.
pub proof fn last_listing_decides<T>(
    graph: Graph<T>,
    objects: Seq<LodObject>,
    index: int,
    at: int,
)
    requires
        0 <= at < objects.len(),
        graph.contains(objects[at].handle),
        objects[at].handle.index == index,
        forall|k: int|
            at < k < objects.len() && graph.contains((#[trigger] objects[k]).handle)
                ==> objects[k].handle.index != index,
    ensures
        graph.last_verdict(objects, index) == objects[at].in_range,
    decreases objects.len(),
{
    if at < objects.len() - 1 {
        assert(objects[objects.len() - 1] == objects.last());
        last_listing_decides(graph, objects.drop_last(), index, at);
    }
}

/// A node that no level of detail lists is visible.
pub proof fn unlisted_nodes_are_visible<T>(graph: Graph<T>, objects: Seq<LodObject>, index: int)
    requires
        forall|k: int|
            0 <= k < objects.len() && graph.contains((#[trigger] objects[k]).handle)
                ==> objects[k].handle.index != index,
    ensures
        graph.last_verdict(objects, index),
    decreases objects.len(),
{
    if objects.len() != 0 {
        assert(objects[objects.len() - 1] == objects.last());
        unlisted_nodes_are_visible(graph, objects.drop_last(), index);
    }
}

/// A listing of something that is no node of the graph changes the visibility of no place.
pub proof fn listings_of_no_node_count_for_nothing<T>(
    graph: Graph<T>,
    objects: Seq<LodObject>,
    index: int,
    at: int,
)
    requires
        0 <= at < objects.len(),
        !graph.contains(objects[at].handle),
    ensures
        graph.last_verdict(objects, index) == graph.last_verdict(objects.remove(at), index),
    decreases objects.len(),
{
    let others = objects.remove(at);
    if at == objects.len() - 1 {
        assert(others == objects.drop_last());
    } else {
        assert(others.last() == objects.last());
        assert(others.drop_last() == objects.drop_last().remove(at));
        listings_of_no_node_count_for_nothing(graph, objects.drop_last(), index, at);
    }
}

/// What `next_visit` takes is visible and waited, and what is left waited too.
proof fn lemma_next_visit_takes_waiting(visibility: Seq<bool>, stack: Seq<Handle>)
    ensures
        next_visit(visibility, stack) matches Some((handle, rest)) ==> {
            &&& visibility[handle.index as int]
            &&& stack.contains(handle)
            &&& forall|h: Handle| #[trigger] rest.contains(h) ==> stack.contains(h)
        },
    decreases stack.len(),
{
    if stack.len() != 0 {
        let below = stack.drop_last();
        assert(stack[stack.len() - 1] == stack.last());
        assert forall|h: Handle| #[trigger] below.contains(h) implies stack.contains(h) by {
            assert(stack[below.index_of(h)] == h);
        }
        lemma_next_visit_takes_waiting(visibility, below);
    }
}

/// A visible node that waits is the one that `next_visit` takes, or is left.
proof fn lemma_next_visit_keeps_visible(visibility: Seq<bool>, stack: Seq<Handle>, waiting: Handle)
    requires
        stack.contains(waiting),
        visibility[waiting.index as int],
    ensures
        next_visit(visibility, stack) matches Some((handle, rest)) && (waiting == handle
            || rest.contains(waiting)),
    decreases stack.len(),
{
    let below = stack.drop_last();
    let at = stack.index_of(waiting);
    if at < stack.len() - 1 {
        assert(below[at] == waiting);
        if !visibility[stack.last().index as int] {
            lemma_next_visit_keeps_visible(visibility, below, waiting);
        }
    }
}

/// Whether a node is the root, or right below a node that was visited and let the collection
/// continue.
pub open spec fn is_reached<T>(graph: Graph<T>, visits: Seq<NodeVisit>, handle: Handle) -> bool {
    ||| handle == graph.root
    ||| exists|j: int|
        {
            &&& 0 <= j < visits.len()
            &&& (#[trigger] visits[j]).flow == RdcControlFlow::Continue
            &&& graph.children_of(visits[j].handle).contains(handle)
        }
}

pub(crate) proof fn lemma_waiting_nodes_are_reached<T>(
    graph: Graph<T>,
    visits: Seq<NodeVisit>,
    handle: Handle,
)
    requires
        graph.is_visit_order(visits),
        graph.waiting_after(visits).contains(handle),
    ensures
        is_reached(graph, visits, handle),
    decreases visits.len(),
{
    if visits.len() != 0 {
        let before = visits.drop_last();
        let last = visits[visits.len() - 1];
        assert(visits.take(visits.len() - 1) == before);
        assert(graph.next_after(before) == Some(last.handle));
        lemma_prefix_is_visit_order(graph, visits, visits.len() - 1);
        let waiting = graph.waiting_after(before);
        lemma_next_visit_takes_waiting(graph.visibility(), waiting);
        let (visited, rest) = next_visit(graph.visibility(), waiting)->0;
        let children = graph.children_of(visited);
        let stack = stack_after_visit(rest, last.flow, children);
        let at = stack.index_of(handle);
        if at < rest.len() {
            assert(rest[at] == handle);
            assert(rest.contains(handle));
            lemma_waiting_nodes_are_reached(graph, before, handle);
            if handle != graph.root {
                let j = choose|j: int|
                    {
                        &&& 0 <= j < before.len()
                        &&& (#[trigger] before[j]).flow == RdcControlFlow::Continue
                        &&& graph.children_of(before[j].handle).contains(handle)
                    };
                assert(visits[j] == before[j]);
            }
        } else {
            assert(children[at - rest.len()] == handle);
            assert(last.handle == visited);
        }
    }
}

/// The first visits of a visit order are a visit order.
pub(crate) proof fn lemma_prefix_is_visit_order<T>(graph: Graph<T>, visits: Seq<NodeVisit>, n: int)
    requires
        graph.is_visit_order(visits),
        0 <= n <= visits.len(),
    ensures
        graph.is_visit_order(visits.take(n)),
{
    let prefix = visits.take(n);
    assert forall|k: int| 0 <= k < prefix.len() implies graph.next_after(prefix.take(k)) == Some(
        (#[trigger] prefix[k]).handle,
    ) by {
        assert(prefix.take(k) == visits.take(k));
        assert(visits[k] == prefix[k]);
    }
}

/// Only visible nodes are asked for render data, and each of them is the root or was reached from
/// a node right above it that was asked before and let the collection continue: what is below a
/// hidden node, or one that stops the collection, is not asked on its account.
pub proof fn visited_nodes_are_visible_and_reached<T>(
    graph: Graph<T>,
    visits: Seq<NodeVisit>,
    k: int,
)
    requires
        graph.is_visit_order(visits),
        0 <= k < visits.len(),
    ensures
        graph.visibility()[visits[k].handle.index as int],
        is_reached(graph, visits.take(k), visits[k].handle),
{
    let before = visits.take(k);
    assert(graph.next_after(before) == Some(visits[k].handle));
    lemma_next_visit_takes_waiting(graph.visibility(), graph.waiting_after(before));
    lemma_prefix_is_visit_order(graph, visits, k);
    lemma_waiting_nodes_are_reached(graph, before, visits[k].handle);
}

/// Whether a node is visited after the first `n` visits.
pub open spec fn is_visited_from(visits: Seq<NodeVisit>, n: int, handle: Handle) -> bool {
    exists|k: int| n <= k < visits.len() && (#[trigger] visits[k]).handle == handle
}

proof fn lemma_waiting_nodes_are_visited<T>(
    graph: Graph<T>,
    visits: Seq<NodeVisit>,
    n: int,
    handle: Handle,
)
    requires
        graph.is_traversal(visits),
        0 <= n <= visits.len(),
        graph.waiting_after(visits.take(n)).contains(handle),
        graph.visibility()[handle.index as int],
    ensures
        is_visited_from(visits, n, handle),
    decreases visits.len() - n,
{
    let waiting = graph.waiting_after(visits.take(n));
    lemma_next_visit_keeps_visible(graph.visibility(), waiting, handle);
    if n == visits.len() {
        assert(visits.take(n) == visits);
    } else {
        assert(graph.next_after(visits.take(n)) == Some(visits[n].handle));
        let (visited, rest) = next_visit(graph.visibility(), waiting)->0;
        if handle != visited {
            let longer = visits.take(n + 1);
            assert(longer.drop_last() == visits.take(n));
            let at = rest.index_of(handle);
            assert(graph.waiting_after(longer)[at] == handle);
            lemma_waiting_nodes_are_visited(graph, visits, n + 1, handle);
        }
    }
}

/// The root, if it is visible, is asked for render data.
pub proof fn visible_root_is_visited<T>(graph: Graph<T>, visits: Seq<NodeVisit>)
    requires
        graph.is_traversal(visits),
        graph.visibility()[graph.root.index as int],
    ensures
        is_visited_from(visits, 0, graph.root),
{
    assert(graph.waiting_after(visits.take(0))[0] == graph.root);
    lemma_waiting_nodes_are_visited(graph, visits, 0, graph.root);
}

/// Where a node lets the collection continue, each visible node right below it is asked later.
pub proof fn visible_children_are_visited<T>(
    graph: Graph<T>,
    visits: Seq<NodeVisit>,
    k: int,
    child: Handle,
)
    requires
        graph.is_traversal(visits),
        0 <= k < visits.len(),
        visits[k].flow == RdcControlFlow::Continue,
        graph.children_of(visits[k].handle).contains(child),
        graph.visibility()[child.index as int],
    ensures
        is_visited_from(visits, k + 1, child),
{
    let before = visits.take(k);
    let longer = visits.take(k + 1);
    assert(longer.drop_last() == before);
    assert(graph.next_after(before) == Some(visits[k].handle));
    let (visited, rest) = next_visit(graph.visibility(), graph.waiting_after(before))->0;
    let at = graph.children_of(visited).index_of(child);
    assert(graph.waiting_after(longer)[rest.len() + at] == child);
    lemma_waiting_nodes_are_visited(graph, visits, k + 1, child);
}

/// Whether a sequence of nodes leads from the root downwards, each right below the one before.
pub open spec fn is_path<T>(graph: Graph<T>, path: Seq<Handle>) -> bool {
    &&& path.len() != 0
    &&& path[0] == graph.root
    &&& forall|i: int|
        0 < i < path.len() ==> graph.children_of(path[i - 1]).contains(#[trigger] path[i])
}

/// Every node of the graph is asked for render data, if it and all nodes on a path down to it are
/// visible, and the nodes above it on the path let the collection continue.
pub proof fn every_visible_node_is_visited<T>(
    graph: Graph<T>,
    visits: Seq<NodeVisit>,
    path: Seq<Handle>,
)
    requires
        graph.is_traversal(visits),
        is_path(graph, path),
        forall|i: int|
            0 <= i < path.len() ==> graph.visibility()[(#[trigger] path[i]).index as int],
        forall|k: int|
            0 <= k < visits.len() && path.drop_last().contains((#[trigger] visits[k]).handle)
                ==> visits[k].flow == RdcControlFlow::Continue,
    ensures
        is_visited_from(visits, 0, path.last()),
    decreases path.len(),
{
    if path.len() == 1 {
        visible_root_is_visited(graph, visits);
    } else {
        let above = path.drop_last();
        let n = above.len() as int;
        assert forall|i: int| 0 < i < above.len() implies graph.children_of(above[i - 1]).contains(
            #[trigger] above[i],
        ) by {
            assert(path[i] == above[i]);
        }
        assert forall|i: int| 0 <= i < above.len() implies graph.visibility()[(
        #[trigger] above[i]).index as int] by {
            assert(path[i] == above[i]);
        }
        assert forall|k: int|
            0 <= k < visits.len() && above.drop_last().contains(
                (#[trigger] visits[k]).handle,
            ) implies visits[k].flow == RdcControlFlow::Continue by {
            assert(above[above.drop_last().index_of(visits[k].handle)] == visits[k].handle);
        }
        every_visible_node_is_visited(graph, visits, above);
        let k = choose|k: int|
            0 <= k < visits.len() && (#[trigger] visits[k]).handle == above.last();
        assert(above[n - 1] == visits[k].handle);
        assert(graph.children_of(path[n - 1]).contains(path[n]));
        visible_children_are_visited(graph, visits, k, path.last());
        let later = choose|j: int|
            k + 1 <= j < visits.len() && (#[trigger] visits[j]).handle == path.last();
        assert(visits[later].handle == path.last());
    }
}

/// The first visit is to the root, if it is visible; if it is hidden, there is none.
pub proof fn collections_start_at_the_root<T>(graph: Graph<T>, visits: Seq<NodeVisit>)
    requires
        graph.is_traversal(visits),
    ensures
        graph.visibility()[graph.root.index as int] ==> visits.len() > 0 && visits[0].handle
            == graph.root,
        !graph.visibility()[graph.root.index as int] ==> visits.len() == 0,
{
    let start = visits.take(0);
    assert(graph.waiting_after(start) == seq![graph.root]);
    assert(seq![graph.root].last() == graph.root);
    assert(next_visit(graph.visibility(), seq![graph.root].drop_last()) is None);
    if visits.len() == 0 {
        assert(visits == start);
    } else {
        assert(graph.next_after(start) == Some(visits[0].handle));
    }
}

/// Where a visited node lets the collection continue, each of its children, as its record has them,
/// is visited after it, if it is visible.
pub proof fn all_children_in_the_records_are_visited<T>(
    graph: Graph<T>,
    visits: Seq<NodeVisit>,
    k: int,
    i: int,
)
    requires
        graph.is_traversal(visits),
        0 <= k < visits.len(),
        visits[k].flow == RdcControlFlow::Continue,
        0 <= i < graph.records@[visits[k].handle.index as int].node->0.children@.len(),
        graph.visibility()[graph.records@[
            visits[k].handle.index as int].node->0.children@[i].index as int],
    ensures
        exists|m: int|
            k < m < visits.len() && (#[trigger] visits[m]).handle == graph.records@[
                visits[k].handle.index as int].node->0.children@[i],
{
    let child = graph.records@[visits[k].handle.index as int].node->0.children@[i];
    assert(graph.children_of(visits[k].handle)[i] == child);
    assert(graph.children_of(visits[k].handle).contains(child));
    visible_children_are_visited(graph, visits, k, child);
    let m = choose|m: int| k + 1 <= m < visits.len() && (#[trigger] visits[m]).handle == child;
    assert(visits[m].handle == child);
}

/// Each visited node is visible, and is the root or stands among the children, as its record has
/// them, of a node that was visited before and let the collection continue.
pub proof fn visited_nodes_stand_in_the_records<T>(graph: Graph<T>, visits: Seq<NodeVisit>, m: int)
    requires
        graph.is_visit_order(visits),
        0 <= m < visits.len(),
    ensures
        graph.visibility()[visits[m].handle.index as int],
        visits[m].handle == graph.root || exists|k: int, i: int|
            #![trigger graph.records@[visits[k].handle.index as int].node->0.children@[i]]
            {
                &&& 0 <= k < m
                &&& visits[k].flow == RdcControlFlow::Continue
                &&& 0 <= i < graph.records@[visits[k].handle.index as int].node->0.children@.len()
                &&& graph.records@[visits[k].handle.index as int].node->0.children@[i]
                    == visits[m].handle
            },
{
    visited_nodes_are_visible_and_reached(graph, visits, m);
    let (before, handle) = (visits.take(m), visits[m].handle);
    if handle != graph.root {
        let k = choose|k: int|
            {
                &&& 0 <= k < before.len()
                &&& (#[trigger] before[k]).flow == RdcControlFlow::Continue
                &&& graph.children_of(before[k].handle).contains(handle)
            };
        assert(visits[k] == before[k]);
        let i = graph.children_of(visits[k].handle).index_of(handle);
        assert(graph.records@[visits[k].handle.index as int].node->0.children@[i] == handle);
    }
}

/// The node that `next_visit` takes, where the nodes above it are hidden.
proof fn lemma_next_visit_is_topmost(visibility: Seq<bool>, stack: Seq<Handle>, at: int)
    requires
        0 <= at < stack.len(),
        visibility[stack[at].index as int],
        forall|j: int|
            at < j < stack.len() ==> !visibility[(#[trigger] stack[j]).index as int],
    ensures
        next_visit(visibility, stack) == Some((stack[at], stack.take(at))),
    decreases stack.len(),
{
    let below = stack.drop_last();
    if at == stack.len() - 1 {
        assert(below == stack.take(at));
    } else {
        assert(stack[stack.len() - 1] == stack.last());
        lemma_next_visit_is_topmost(visibility, below, at);
        assert(below.take(at) == stack.take(at));
    }
}

/// Right after a node that lets the collection continue, the last visible one of its children, as
/// its record has them, is visited.
pub proof fn last_visible_child_comes_next<T>(
    graph: Graph<T>,
    visits: Seq<NodeVisit>,
    k: int,
    i: int,
)
    requires
        graph.is_traversal(visits),
        0 <= k < visits.len(),
        visits[k].flow == RdcControlFlow::Continue,
        0 <= i < graph.records@[visits[k].handle.index as int].node->0.children@.len(),
        graph.visibility()[graph.records@[
            visits[k].handle.index as int].node->0.children@[i].index as int],
        forall|j: int|
            i < j < graph.records@[visits[k].handle.index as int].node->0.children@.len()
                ==> !graph.visibility()[(#[trigger] graph.records@[
                visits[k].handle.index as int].node->0.children@[j]).index as int],
    ensures
        k + 1 < visits.len(),
        visits[k + 1].handle == graph.records@[
            visits[k].handle.index as int].node->0.children@[i],
{
    let children = graph.records@[visits[k].handle.index as int].node->0.children@;
    let (rest, stack) = lemma_stack_of_continue(graph, visits, k);
    let at = rest.len() + i;
    assert(stack[at] == children[i]);
    assert forall|j: int| at < j < stack.len() implies !graph.visibility()[(
    #[trigger] stack[j]).index as int] by {
        assert(stack[j] == children[j - rest.len()]);
    }
    lemma_next_visit_is_topmost(graph.visibility(), stack, at);
    if k + 1 < visits.len() {
        assert(graph.next_after(visits.take(k + 1)) == Some(visits[k + 1].handle));
    } else {
        assert(visits.take(k + 1) == visits);
    }
}

/// After a node that lets the collection continue, its children wait on top of what waited before.
proof fn lemma_stack_of_continue<T>(graph: Graph<T>, visits: Seq<NodeVisit>, k: int) -> (stacks: (
    Seq<Handle>,
    Seq<Handle>,
))
    requires
        graph.is_visit_order(visits),
        0 <= k < visits.len(),
        visits[k].flow == RdcControlFlow::Continue,
    ensures
        stacks.1 == graph.waiting_after(visits.take(k + 1)),
        stacks.1 == stacks.0 + graph.records@[visits[k].handle.index as int].node->0.children@,
{
    let before = visits.take(k);
    let longer = visits.take(k + 1);
    assert(longer.drop_last() == before);
    assert(longer.last() == visits[k]);
    assert(graph.next_after(before) == Some(visits[k].handle));
    let (visited, rest) = next_visit(graph.visibility(), graph.waiting_after(before))->0;
    (rest, graph.waiting_after(longer))
}

/// Of two visible nodes that wait, the one nearer to the top is visited first, the other later.
#[verifier::rlimit(60)]
proof fn lemma_upper_is_visited_first<T>(
    graph: Graph<T>,
    visits: Seq<NodeVisit>,
    n: int,
    low: int,
    high: int,
) -> (found: (int, int))
    requires
        graph.is_traversal(visits),
        0 <= n <= visits.len(),
        0 <= low < high < graph.waiting_after(visits.take(n)).len(),
        graph.visibility()[graph.waiting_after(visits.take(n))[low].index as int],
        graph.visibility()[graph.waiting_after(visits.take(n))[high].index as int],
    ensures
        n <= found.0 < found.1 < visits.len(),
        visits[found.0].handle == graph.waiting_after(visits.take(n))[high],
        visits[found.1].handle == graph.waiting_after(visits.take(n))[low],
    decreases visits.len() - n,
{
    let stack = graph.waiting_after(visits.take(n));
    let top = lemma_topmost_visible(graph.visibility(), stack, high);
    lemma_next_visit_is_topmost(graph.visibility(), stack, top);
    lemma_next_of_traversal(&graph, visits, n);
    let next = graph.waiting_after(visits.take(n + 1));
    assert(next.len() >= top && next.take(top) == stack.take(top));
    assert(next[low] == next.take(top)[low]);
    assert(stack[low] == stack.take(top)[low]);
    if top == high {
        lemma_waiting_place_is_visited(graph, visits, n + 1, low)
    } else {
        assert(next[high] == next.take(top)[high]);
        assert(stack[high] == stack.take(top)[high]);
        lemma_upper_is_visited_first(graph, visits, n + 1, low, high)
    }
}

/// A visible node that waits after a visit is visited later.
proof fn lemma_waiting_place_is_visited<T>(
    graph: Graph<T>,
    visits: Seq<NodeVisit>,
    n: int,
    at: int,
) -> (found: (int, int))
    requires
        graph.is_traversal(visits),
        0 < n <= visits.len(),
        0 <= at < graph.waiting_after(visits.take(n)).len(),
        graph.visibility()[graph.waiting_after(visits.take(n))[at].index as int],
    ensures
        found.0 == n - 1,
        n <= found.1 < visits.len(),
        visits[found.1].handle == graph.waiting_after(visits.take(n))[at],
{
    let handle = graph.waiting_after(visits.take(n))[at];
    lemma_waiting_nodes_are_visited(graph, visits, n, handle);
    let later = choose|m: int|
        n <= m < visits.len() && (#[trigger] visits[m]).handle == handle;
    (n - 1, later)
}

/// The visible node nearest to the top, at or above a visible one.
proof fn lemma_topmost_visible(visibility: Seq<bool>, stack: Seq<Handle>, at: int) -> (top: int)
    requires
        0 <= at < stack.len(),
        visibility[stack[at].index as int],
    ensures
        at <= top < stack.len(),
        visibility[stack[top].index as int],
        forall|j: int|
            top < j < stack.len() ==> !visibility[(#[trigger] stack[j]).index as int],
    decreases stack.len() - at,
{
    if exists|j: int| at < j < stack.len() && visibility[(#[trigger] stack[j]).index as int] {
        let j = choose|j: int|
            at < j < stack.len() && visibility[(#[trigger] stack[j]).index as int];
        lemma_topmost_visible(visibility, stack, j)
    } else {
        at
    }
}

/// Of two visible children of a node that lets the collection continue, as its record has them, the
/// later one is visited, and the earlier one after it.
#[verifier::rlimit(60)]
pub proof fn later_children_are_visited_first<T>(
    graph: Graph<T>,
    visits: Seq<NodeVisit>,
    k: int,
    i: int,
    j: int,
)
    requires
        graph.is_traversal(visits),
        0 <= k < visits.len(),
        visits[k].flow == RdcControlFlow::Continue,
        0 <= i < j < graph.records@[visits[k].handle.index as int].node->0.children@.len(),
        graph.visibility()[graph.records@[
            visits[k].handle.index as int].node->0.children@[i].index as int],
        graph.visibility()[graph.records@[
            visits[k].handle.index as int].node->0.children@[j].index as int],
    ensures
        exists|m: int, n: int|
            k < m < n < visits.len() && (#[trigger] visits[m]).handle == graph.records@[
                visits[k].handle.index as int].node->0.children@[j] && (
            #[trigger] visits[n]).handle == graph.records@[
                visits[k].handle.index as int].node->0.children@[i],
{
    let children = graph.records@[visits[k].handle.index as int].node->0.children@;
    let (rest, stack) = lemma_stack_of_continue(graph, visits, k);
    let (low, high) = (rest.len() + i, rest.len() + j);
    assert(stack[low] == children[i] && stack[high] == children[j]);
    let found = lemma_upper_is_visited_first(graph, visits, k + 1, low, high);
    assert(visits[found.0].handle == children[j] && visits[found.1].handle == children[i]);
}

/// What `missing_next` gives waits, and is no node of the graph: its place does not exist, or is
/// visible and holds no node of its generation.
proof fn lemma_missing_next<T>(graph: Graph<T>, stack: Seq<Handle>)
    ensures
        graph.missing_next(stack) matches Some(handle) ==> {
            &&& stack.contains(handle)
            &&& handle.index >= graph.records@.len() || (graph.visibility()[handle.index as int] && (
            graph.records@[handle.index as int].generation != handle.generation || graph.records@[
                handle.index as int].node is None))
        },
    decreases stack.len(),
{
    if stack.len() != 0 {
        assert(stack[stack.len() - 1] == stack.last());
        let below = stack.drop_last();
        lemma_missing_next(graph, below);
        if let Some(handle) = graph.missing_next(below) {
            assert(stack.contains(handle)) by {
                if below.contains(handle) {
                    assert(stack[below.index_of(handle)] == handle);
                }
            }
        }
    }
}

/// Where a collection comes to a node that is not there, this is the root or stands among the
/// children, as its record has them, of a visited node that let the collection continue; and there
/// is no such node: its place does not exist, or is visible and holds no node of its generation.
pub proof fn missing_nodes_are_not_there<T>(
    graph: Graph<T>,
    visits: Seq<NodeVisit>,
    handle: Handle,
)
    requires
        graph.is_visit_order(visits),
        graph.missing_next(graph.waiting_after(visits)) == Some(handle),
    ensures
        handle.index >= graph.records@.len() || (graph.visibility()[handle.index as int] && (
        graph.records@[handle.index as int].generation != handle.generation || graph.records@[
            handle.index as int].node is None)),
        handle == graph.root || exists|k: int, i: int|
            #![trigger graph.records@[visits[k].handle.index as int].node->0.children@[i]]
            {
                &&& 0 <= k < visits.len()
                &&& visits[k].flow == RdcControlFlow::Continue
                &&& 0 <= i < graph.records@[visits[k].handle.index as int].node->0.children@.len()
                &&& graph.records@[visits[k].handle.index as int].node->0.children@[i] == handle
            },
{
    lemma_missing_next(graph, graph.waiting_after(visits));
    lemma_waiting_nodes_are_reached(graph, visits, handle);
    if handle != graph.root {
        let k = choose|k: int|
            {
                &&& 0 <= k < visits.len()
                &&& (#[trigger] visits[k]).flow == RdcControlFlow::Continue
                &&& graph.children_of(visits[k].handle).contains(handle)
            };
        let i = graph.children_of(visits[k].handle).index_of(handle);
        assert(graph.records@[visits[k].handle.index as int].node->0.children@[i] == handle);
    }
}

/// Where nothing is missing, the next node to visit is there, and visible.
proof fn lemma_next_is_there<T>(graph: Graph<T>, stack: Seq<Handle>)
    requires
        graph.missing_next(stack) is None,
    ensures
        next_visit(graph.visibility(), stack) matches Some((handle, rest)) ==> {
            &&& handle.index < graph.records@.len()
            &&& graph.visibility()[handle.index as int]
            &&& graph.records@[handle.index as int].generation == handle.generation
            &&& graph.records@[handle.index as int].node is Some
        },
    decreases stack.len(),
{
    if stack.len() != 0 && !graph.is_visible(stack.last().index as int) {
        lemma_next_is_there(graph, stack.drop_last());
    }
}

/// Every visited node of a collection is there: its place holds a node of its generation.
pub proof fn visited_nodes_are_there<T>(
    graph: Graph<T>,
    visits: Seq<NodeVisit>,
    stages: Seq<StorageView>,
    k: int,
)
    requires
        is_under_way(&graph, visits, stages),
        0 <= k < visits.len(),
    ensures
        visits[k].handle.index < graph.records@.len(),
        graph.records@[visits[k].handle.index as int].generation == visits[k].handle.generation,
        graph.records@[visits[k].handle.index as int].node is Some,
{
    assert(graph.missing_next(graph.waiting_after(visits.take(k))) is None);
    assert(graph.next_after(visits.take(k)) == Some(visits[k].handle));
    lemma_next_is_there(graph, graph.waiting_after(visits.take(k)));
}

/// A collection ends when no visible node waits: had it one more visit to make, the node would be
/// visible, and there.
pub proof fn unfinished_collections_have_a_next_node<T>(
    graph: Graph<T>,
    visits: Seq<NodeVisit>,
    handle: Handle,
)
    requires
        graph.is_visit_order(visits),
        graph.missing_next(graph.waiting_after(visits)) is None,
        graph.next_after(visits) == Some(handle),
    ensures
        !graph.is_traversal(visits),
        handle.index < graph.records@.len(),
        graph.visibility()[handle.index as int],
        graph.records@[handle.index as int].generation == handle.generation,
        graph.records@[handle.index as int].node is Some,
        is_reached(graph, visits, handle),
{
    lemma_next_is_there(graph, graph.waiting_after(visits));
    lemma_next_visit_takes_waiting(graph.visibility(), graph.waiting_after(visits));
    lemma_waiting_nodes_are_reached(graph, visits, handle);
}

/// A collection starts with no bundles, has one stage more than visits, and gives the bundles of
/// its last stage, each as often and each found under its key, with no smaller sort index behind a
/// greater one. Its last stage is what pushes into an empty storage make.
pub proof fn collections_give_their_last_stage_sorted<T>(
    graph: &Graph<T>,
    visits: Seq<NodeVisit>,
    stages: Seq<StorageView>,
    storage: StorageView,
)
    requires
        is_collection(graph, visits, stages, storage),
    ensures
        graph.is_traversal(visits),
        graph.missing_next(graph.waiting_after(visits)) is None,
        stages.len() == visits.len() + 1,
        stages[0].bundles.len() == 0,
        forall|key: u64| !#[trigger] stages[0].index.contains_key(key),
        storage.bundles.to_multiset() == stages.last().bundles.to_multiset(),
        forall|key: u64|
            stages.last().index.contains_key(key) == #[trigger] storage.index.contains_key(key),
        forall|key: u64| #[trigger]
            storage.index.contains_key(key) ==> storage.bundles[storage.index[key] as int]
                == stages.last().bundles[stages.last().index[key] as int],
        forall|i: int, j: int|
            0 <= i < j < storage.bundles.len() ==> (#[trigger] storage.bundles[i]).sort_index <= (
            #[trigger] storage.bundles[j]).sort_index,
        storage.is_built_by_pushes(),
        exists|pushes: Seq<Push>| stages.last() == #[trigger] StorageView::empty().replay(pushes),
{
    assert forall|key: u64|
        stages.last().index.contains_key(key) == #[trigger] storage.index.contains_key(key) by {
        assert(storage.index.dom().contains(key) == stages.last().index.dom().contains(key));
    }
}

/// A collection uses the frustum that was built, if one was; else one that the default gives.
pub proof fn built_frustums_are_used<F: Default>(built: F, frustum: F)
    ensures
        is_usable_frustum(Some(built), frustum) <==> frustum == built,
        is_usable_frustum(None, frustum) <==> call_ensures(F::default, (), frustum),
{
}

/// Where nothing is missing, a waiting node has a place, or is left below the one that comes next.
proof fn lemma_waiting_has_a_place<T>(graph: Graph<T>, stack: Seq<Handle>, waiting: Handle)
    requires
        graph.missing_next(stack) is None,
        stack.contains(waiting),
    ensures
        waiting.index < graph.records@.len() || (next_visit(graph.visibility(), stack) matches Some(
            (handle, rest),
        ) && rest.contains(waiting)),
    decreases stack.len(),
{
    let below = stack.drop_last();
    let at = stack.index_of(waiting);
    if at < stack.len() - 1 {
        assert(below[at] == waiting);
        if !graph.is_visible(stack.last().index as int) {
            lemma_waiting_has_a_place(graph, below, waiting);
        }
    } else {
        assert(stack.last() == waiting);
    }
}

proof fn lemma_waiting_have_places<T>(
    graph: Graph<T>,
    visits: Seq<NodeVisit>,
    stages: Seq<StorageView>,
    n: int,
    waiting: Handle,
)
    requires
        is_under_way(&graph, visits, stages),
        graph.is_traversal(visits),
        graph.missing_next(graph.waiting_after(visits)) is None,
        0 <= n <= visits.len(),
        graph.waiting_after(visits.take(n)).contains(waiting),
    ensures
        waiting.index < graph.records@.len(),
    decreases visits.len() - n,
{
    let stack = graph.waiting_after(visits.take(n));
    if n == visits.len() {
        assert(visits.take(n) == visits);
    }
    assert(graph.missing_next(stack) is None);
    lemma_waiting_has_a_place(graph, stack, waiting);
    lemma_next_of_traversal(&graph, visits, n);
    if waiting.index >= graph.records@.len() {
        let (handle, rest) = next_visit(graph.visibility(), stack)->0;
        let next = graph.waiting_after(visits.take(n + 1));
        assert(next[rest.index_of(waiting)] == waiting);
        lemma_waiting_have_places(graph, visits, stages, n + 1, waiting);
    }
}

/// A collection that is complete came to no handle without a place: neither the root, nor one among
/// the children, as its record has them, of a visited node that let the collection continue.
pub proof fn complete_collections_leave_no_handle_out<T>(
    graph: Graph<T>,
    visits: Seq<NodeVisit>,
    stages: Seq<StorageView>,
    storage: StorageView,
    k: int,
    i: int,
)
    requires
        is_collection(&graph, visits, stages, storage),
    ensures
        graph.root.index < graph.records@.len(),
        0 <= k < visits.len() && visits[k].flow == RdcControlFlow::Continue && 0 <= i
            < graph.records@[visits[k].handle.index as int].node->0.children@.len()
            ==> graph.records@[visits[k].handle.index as int].node->0.children@[i].index
            < graph.records@.len(),
{
    assert(graph.waiting_after(visits.take(0))[0] == graph.root);
    lemma_waiting_have_places(graph, visits, stages, 0, graph.root);
    if 0 <= k < visits.len() && visits[k].flow == RdcControlFlow::Continue && 0 <= i
        < graph.records@[visits[k].handle.index as int].node->0.children@.len() {
        let children = graph.records@[visits[k].handle.index as int].node->0.children@;
        let (rest, stack) = lemma_stack_of_continue(graph, visits, k);
        assert(stack[rest.len() + i] == children[i]);
        lemma_waiting_have_places(graph, visits, stages, k + 1, children[i]);
    }
}

/// A collection that is under way has made its visits in their order, from an empty storage on.
pub proof fn collections_under_way_keep_the_order<T>(
    graph: &Graph<T>,
    visits: Seq<NodeVisit>,
    stages: Seq<StorageView>,
)
    requires
        is_under_way(graph, visits, stages),
    ensures
        graph.is_visit_order(visits),
        stages.len() == visits.len() + 1,
        stages[0].bundles.len() == 0,
        forall|key: u64| !#[trigger] stages[0].index.contains_key(key),
{
}

} // verus!
