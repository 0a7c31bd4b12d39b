//! The order in which the nodes of a scene graph are asked for render data.
use vstd::prelude::*;

use crate::bundle::in_rendering_order;
use crate::context::ask_for_render_data;
use crate::context::NodeTrait;
use crate::context::ObserverInfo;
use crate::context::RdcControlFlow;
use crate::context::RenderContext;
use crate::graph::Graph;
use crate::pushed::PushedStorage;
use crate::pushes::Push;
use crate::resource::Handle;
use crate::storage::RenderDataBundleStorage;
use crate::storage::RenderDataBundleStorageTrait;
use crate::storage::StorageView;
use crate::visit_laws::lemma_prefix_is_visit_order;

verus! {

/// A node that was asked for render data, and what it answered.
#[derive(Clone, Copy, Debug, PartialEq, Eq, Structural)]
pub struct NodeVisit {
    pub handle: Handle,
    pub flow: RdcControlFlow,
}

/// The visible node that is nearest to the top of a stack of nodes, and the nodes below it. Of
/// the given flags, the one in a node's place says whether the node is visible.
pub open spec fn next_visit(visibility: Seq<bool>, stack: Seq<Handle>) -> Option<
    (Handle, Seq<Handle>),
>
    decreases stack.len(),
{
    if stack.len() == 0 {
        None
    } else if visibility[stack.last().index as int] {
        Some((stack.last(), stack.drop_last()))
    } else {
        next_visit(visibility, stack.drop_last())
    }
}

/// The nodes that wait after a node was visited: those that waited before and, where the node
/// lets the collection continue, the nodes right below it on top of them.
pub open spec fn stack_after_visit(
    waiting: Seq<Handle>,
    flow: RdcControlFlow,
    children: Seq<Handle>,
) -> Seq<Handle> {
    match flow {
        RdcControlFlow::Continue => waiting + children,
        RdcControlFlow::Break => waiting,
    }
}

impl<T> Graph<T> {
    /// The nodes right below a node.
    pub open spec fn children_of(&self, handle: Handle) -> Seq<Handle> {
        self.node_at(handle).children@
    }

    /// Whether each path downwards from a node, through visible nodes, leads to nodes of the graph
    /// only, and ends after less than `depth` steps. A hidden node ends a path: of it, no more is
    /// asked than that its place exists. The nodes in `stops`, which never let a collection
    /// continue, end a path as well.
    pub open spec fn is_sound_below(&self, handle: Handle, depth: nat, stops: Set<Handle>) -> bool
        decreases depth,
    {
        &&& depth > 0
        &&& handle.index < self.records@.len()
        &&& self.is_visible(handle.index as int) ==> {
            &&& self.contains(handle)
            &&& !stops.contains(handle) ==> forall|i: int|
                0 <= i < self.children_of(handle).len() ==> self.is_sound_below(
                    #[trigger] self.children_of(handle)[i],
                    (depth - 1) as nat,
                    stops,
                )
        }
    }

    /// Whether each path downwards from the root, through visible nodes, leads to nodes of the
    /// graph only, and ends, in `stops` at the latest.
    pub open spec fn is_traversable(&self, stops: Set<Handle>) -> bool {
        exists|depth: nat| self.is_sound_below(self.root, depth, stops)
    }

    /// The nodes that wait to be visited after the given visits, the next one last.
    pub open spec fn waiting_after(&self, visits: Seq<NodeVisit>) -> Seq<Handle>
        decreases visits.len(),
    {
        if visits.len() == 0 {
            seq![self.root]
        } else {
            let waiting = self.waiting_after(visits.drop_last());
            match next_visit(self.visibility(), waiting) {
                Some((handle, rest)) => stack_after_visit(
                    rest,
                    visits.last().flow,
                    self.children_of(handle),
                ),
                None => waiting,
            }
        }
    }

    /// The node to visit after the given visits.
    pub open spec fn next_after(&self, visits: Seq<NodeVisit>) -> Option<Handle> {
        match next_visit(self.visibility(), self.waiting_after(visits)) {
            Some((handle, rest)) => Some(handle),
            None => None,
        }
    }

    /// The first node, from the top of a stack of nodes down to the visible one that is nearest to
    /// the top, that is not there: whose place does not exist or, for the visible one, that is no
    /// node of the graph.
    pub open spec fn missing_next(&self, stack: Seq<Handle>) -> Option<Handle>
        decreases stack.len(),
    {
        if stack.len() == 0 {
            None
        } else if stack.last().index >= self.records@.len() {
            Some(stack.last())
        } else if !self.is_visible(stack.last().index as int) {
            self.missing_next(stack.drop_last())
        } else if self.contains(stack.last()) {
            None
        } else {
            Some(stack.last())
        }
    }

    /// Whether each visit is to the node that is next after the visits before it.
    pub open spec fn is_visit_order(&self, visits: Seq<NodeVisit>) -> bool {
        forall|k: int|
            0 <= k < visits.len() ==> self.next_after(visits.take(k)) == Some(
                (#[trigger] visits[k]).handle,
            )
    }

    /// Whether the visits are all visits of a traversal, in their order.
    pub open spec fn is_traversal(&self, visits: Seq<NodeVisit>) -> bool {
        &&& self.is_visit_order(visits)
        &&& self.next_after(visits) is None
    }

    /// How many paths downwards from a node, through visible nodes, there are, down to a depth.
    spec fn paths_below(&self, handle: Handle, depth: nat, stops: Set<Handle>) -> nat
        decreases depth, 0nat,
    {
        if depth == 0 {
            0
        } else if !self.is_visible(handle.index as int) || stops.contains(handle) {
            1
        } else {
            1 + self.paths_below_all(self.children_of(handle), (depth - 1) as nat, stops)
        }
    }

    /// How many such paths downwards from some nodes there are.
    spec fn paths_below_all(&self, handles: Seq<Handle>, depth: nat, stops: Set<Handle>) -> nat
        decreases depth, handles.len(),
    {
        if handles.len() == 0 {
            0
        } else {
            self.paths_below_all(handles.drop_last(), depth, stops) + self.paths_below(
                handles.last(),
                depth,
                stops,
            )
        }
    }

    /// Whether all given nodes are sound below.
    pub open spec fn all_sound_below(
        &self,
        handles: Seq<Handle>,
        depth: nat,
        stops: Set<Handle>,
    ) -> bool {
        forall|i: int|
            0 <= i < handles.len() ==> self.is_sound_below(#[trigger] handles[i], depth, stops)
    }

    proof fn lemma_deeper_is_sound(&self, handle: Handle, depth: nat, stops: Set<Handle>)
        requires
            self.is_sound_below(handle, depth, stops),
        ensures
            self.is_sound_below(handle, depth + 1, stops),
            self.paths_below(handle, depth + 1, stops) == self.paths_below(handle, depth, stops),
        decreases depth, 0nat,
    {
        if self.is_visible(handle.index as int) && !stops.contains(handle) {
            let children = self.children_of(handle);
            let d = (depth - 1) as nat;
            assert(self.all_sound_below(children, d, stops)) by {
                assert forall|i: int| 0 <= i < children.len() implies self.is_sound_below(
                    #[trigger] children[i],
                    d,
                    stops,
                ) by {
                    assert(self.is_sound_below(self.children_of(handle)[i], d, stops));
                }
            }
            self.lemma_deeper_are_sound(children, d, stops);
            assert forall|i: int|
                0 <= i < self.children_of(handle).len() implies self.is_sound_below(
                #[trigger] self.children_of(handle)[i],
                (depth + 1 - 1) as nat,
                stops,
            ) by {
                assert(self.is_sound_below(children[i], d + 1, stops));
            }
        }
    }

    proof fn lemma_deeper_are_sound(&self, handles: Seq<Handle>, depth: nat, stops: Set<Handle>)
        requires
            self.all_sound_below(handles, depth, stops),
        ensures
            self.all_sound_below(handles, depth + 1, stops),
            self.paths_below_all(handles, depth + 1, stops) == self.paths_below_all(
                handles,
                depth,
                stops,
            ),
        decreases depth, handles.len(),
    {
        if handles.len() != 0 {
            let before = handles.drop_last();
            assert(self.all_sound_below(before, depth, stops)) by {
                assert forall|i: int| 0 <= i < before.len() implies self.is_sound_below(
                    #[trigger] before[i],
                    depth,
                    stops,
                ) by {
                    assert(before[i] == handles[i]);
                }
            }
            self.lemma_deeper_are_sound(before, depth, stops);
            assert(self.is_sound_below(handles[handles.len() - 1], depth, stops));
            self.lemma_deeper_is_sound(handles.last(), depth, stops);
            assert forall|i: int| 0 <= i < handles.len() implies self.is_sound_below(
                #[trigger] handles[i],
                depth + 1,
                stops,
            ) by {
                if i < before.len() {
                    assert(self.is_sound_below(before[i], depth + 1, stops));
                }
            }
        }
    }

    proof fn lemma_paths_below_concatenation(
        &self,
        a: Seq<Handle>,
        b: Seq<Handle>,
        depth: nat,
        stops: Set<Handle>,
    )
        ensures
            self.paths_below_all(a + b, depth, stops) == self.paths_below_all(a, depth, stops)
                + self.paths_below_all(b, depth, stops),
        decreases b.len(),
    {
        if b.len() == 0 {
            assert(a + b == a);
        } else {
            assert((a + b).drop_last() == a + b.drop_last());
            self.lemma_paths_below_concatenation(a, b.drop_last(), depth, stops);
        }
    }
}

impl<T> Graph<T> {
    /// What `next_visit` takes from a stack of sound nodes is sound, and reduces the paths below
    /// the stack.
    proof fn lemma_next_visit(&self, stack: Seq<Handle>, depth: nat, stops: Set<Handle>)
        requires
            self.all_sound_below(stack, depth, stops),
        ensures
            next_visit(self.visibility(), stack) matches Some((handle, rest)) ==> {
                &&& self.is_sound_below(handle, depth, stops)
                &&& self.is_visible(handle.index as int)
                &&& self.contains(handle)
                &&& self.all_sound_below(rest, depth, stops)
                &&& self.paths_below_all(rest, depth, stops) + self.paths_below(
                    handle,
                    depth,
                    stops,
                ) <= self.paths_below_all(stack, depth, stops)
            },
            self.missing_next(stack) is None,
        decreases stack.len(),
    {
        if stack.len() != 0 {
            let before = stack.drop_last();
            assert(self.all_sound_below(before, depth, stops)) by {
                assert forall|i: int| 0 <= i < before.len() implies self.is_sound_below(
                    #[trigger] before[i],
                    depth,
                    stops,
                ) by {
                    assert(before[i] == stack[i]);
                }
            }
            assert(self.is_sound_below(stack[stack.len() - 1], depth, stops));
            self.lemma_next_visit(before, depth, stops);
        }
    }

    /// A visit to a sound node leaves a stack of sound nodes, with less paths below it.
    proof fn lemma_stack_after_visit(
        &self,
        rest: Seq<Handle>,
        visit: NodeVisit,
        depth: nat,
        stops: Set<Handle>,
    )
        requires
            self.all_sound_below(rest, depth, stops),
            self.is_sound_below(visit.handle, depth, stops),
            self.is_visible(visit.handle.index as int),
            stops.contains(visit.handle) ==> visit.flow == RdcControlFlow::Break,
        ensures
            ({
                let children = self.children_of(visit.handle);
                let stack = stack_after_visit(rest, visit.flow, children);
                &&& self.all_sound_below(stack, depth, stops)
                &&& self.paths_below_all(stack, depth, stops) < self.paths_below_all(
                    rest,
                    depth,
                    stops,
                ) + self.paths_below(visit.handle, depth, stops)
            }),
    {
        if visit.flow == RdcControlFlow::Continue {
            let children = self.children_of(visit.handle);
            let d = (depth - 1) as nat;
            assert(self.all_sound_below(children, d, stops)) by {
                assert forall|i: int| 0 <= i < children.len() implies self.is_sound_below(
                    #[trigger] children[i],
                    d,
                    stops,
                ) by {
                    assert(self.is_sound_below(self.children_of(visit.handle)[i], d, stops));
                }
            }
            self.lemma_deeper_are_sound(children, d, stops);
            self.lemma_paths_below_concatenation(rest, children, depth, stops);
            let stack = rest + children;
            assert forall|i: int| 0 <= i < stack.len() implies self.is_sound_below(
                #[trigger] stack[i],
                depth,
                stops,
            ) by {
                if i < rest.len() {
                    assert(self.is_sound_below(rest[i], depth, stops));
                } else {
                    assert(self.is_sound_below(children[i - rest.len()], d + 1, stops));
                }
            }
        }
    }
}

impl<T> Graph<T> {
    /// A visit to the next node continues the visits before it.
    proof fn lemma_longer_visit_order(
        &self,
        visits: Seq<NodeVisit>,
        handle: Handle,
        flow: RdcControlFlow,
    )
        requires
            self.is_visit_order(visits),
            self.next_after(visits) == Some(handle),
        ensures
            self.is_visit_order(visits.push(NodeVisit { handle, flow })),
            self.waiting_after(visits.push(NodeVisit { handle, flow })) == stack_after_visit(
                (next_visit(self.visibility(), self.waiting_after(visits))->0).1,
                flow,
                self.children_of(handle),
            ),
    {
        let longer = visits.push(NodeVisit { handle, flow });
        assert(longer.drop_last() == visits);
        assert forall|k: int| 0 <= k < longer.len() implies self.next_after(longer.take(k)) == Some(
            (#[trigger] longer[k]).handle,
        ) by {
            assert(longer.take(k) == visits.take(k));
            if k < visits.len() {
                assert(visits[k] == longer[k]);
            } else {
                assert(visits.take(k) == visits);
            }
        }
    }
}

/// Whether no visited node of `stops` let the collection continue.
pub open spec fn end_at(visits: Seq<NodeVisit>, stops: Set<Handle>) -> bool {
    forall|k: int|
        0 <= k < visits.len() && stops.contains((#[trigger] visits[k]).handle) ==> visits[k].flow
            == RdcControlFlow::Break
}

/// In a graph that can be traversed, all nodes that ever wait to be visited are sound below.
pub(crate) proof fn lemma_waiting_are_sound<T>(
    graph: &Graph<T>,
    visits: Seq<NodeVisit>,
    depth: nat,
    stops: Set<Handle>,
)
    requires
        graph.is_sound_below(graph.root, depth, stops),
        graph.is_visit_order(visits),
        end_at(visits, stops),
    ensures
        graph.all_sound_below(graph.waiting_after(visits), depth, stops),
    decreases visits.len(),
{
    if visits.len() != 0 {
        let before = visits.drop_last();
        let last = visits[visits.len() - 1];
        assert(visits.take(visits.len() - 1) == before);
        lemma_prefix_is_visit_order(*graph, visits, visits.len() - 1);
        lemma_prefix_ends_at(visits, visits.len() - 1, stops);
        lemma_waiting_are_sound(graph, before, depth, stops);
        graph.lemma_next_visit(graph.waiting_after(before), depth, stops);
        let (handle, rest) = next_visit(graph.visibility(), graph.waiting_after(before))->0;
        graph.lemma_stack_after_visit(rest, last, depth, stops);
    }
}

pub(crate) proof fn lemma_prefix_ends_at(visits: Seq<NodeVisit>, n: int, stops: Set<Handle>)
    requires
        end_at(visits, stops),
        0 <= n <= visits.len(),
    ensures
        end_at(visits.take(n), stops),
{
    let prefix = visits.take(n);
    assert forall|k: int|
        0 <= k < prefix.len() && stops.contains(
            (#[trigger] prefix[k]).handle,
        ) implies prefix[k].flow == RdcControlFlow::Break by {
        assert(visits[k] == prefix[k]);
    }
}

/// A collection from a graph that can be traversed never comes to a node that is not there.
pub proof fn traversable_graphs_miss_no_node<T>(
    graph: &Graph<T>,
    visits: Seq<NodeVisit>,
    stops: Set<Handle>,
)
    requires
        graph.is_traversable(stops),
        graph.is_visit_order(visits),
        end_at(visits, stops),
    ensures
        graph.missing_next(graph.waiting_after(visits)) is None,
        forall|k: int| 0 <= k < visits.len() ==> graph.contains((#[trigger] visits[k]).handle),
{
    let depth = choose|depth: nat| graph.is_sound_below(graph.root, depth, stops);
    lemma_waiting_are_sound(graph, visits, depth, stops);
    graph.lemma_next_visit(graph.waiting_after(visits), depth, stops);
    assert forall|k: int| 0 <= k < visits.len() implies graph.contains(
        (#[trigger] visits[k]).handle,
    ) by {
        let before = visits.take(k);
        lemma_prefix_is_visit_order(*graph, visits, k);
        lemma_prefix_ends_at(visits, k, stops);
        lemma_waiting_are_sound(graph, before, depth, stops);
        graph.lemma_next_visit(graph.waiting_after(before), depth, stops);
        assert(graph.next_after(before) == Some(visits[k].handle));
    }
}

/// A traversal of a scene graph that is under way.
pub struct RenderTraversal {
    /// The nodes that wait to be visited, the next one last.
    pub stack: Vec<Handle>,
    /// For each place in the pool of nodes, whether the node there is visible.
    pub lod_filter: Vec<bool>,
}

impl RenderTraversal {
    /// Starts at the root, with room for the given number of waiting nodes.
    pub fn start<T>(graph: &Graph<T>, capacity: usize) -> (traversal: Self)
        ensures
            traversal.stack@ == seq![graph.root],
            traversal.lod_filter@ == graph.visibility(),
    {
        let lod_filter = graph.lod_filter();
        let mut stack: Vec<Handle> = Vec::with_capacity(capacity);
        stack.push(graph.root);
        RenderTraversal { stack, lod_filter }
    }

    /// Takes the next visible node from the waiting ones; hidden nodes before it are dropped. If a
    /// node is not there, it is given back as the error.
    pub fn next<T>(&mut self, graph: &Graph<T>) -> (next: Result<Option<Handle>, Handle>)
        requires
            old(self).lod_filter@ == graph.visibility(),
        ensures
            final(self).lod_filter@ == old(self).lod_filter@,
            match graph.missing_next(old(self).stack@) {
                Some(handle) => {
                    let left = final(self).stack@.len() as int;
                    &&& next == Err::<Option<Handle>, Handle>(handle)
                    &&& left < old(self).stack@.len()
                    &&& final(self).stack@ == old(self).stack@.take(left)
                    &&& old(self).stack@[left] == handle
                },
                None => match next_visit(graph.visibility(), old(self).stack@) {
                    Some((handle, rest)) => {
                        &&& next == Ok::<Option<Handle>, Handle>(Some(handle))
                        &&& graph.contains(handle)
                        &&& final(self).stack@ == rest
                    },
                    None => {
                        &&& next == Ok::<Option<Handle>, Handle>(None)
                        &&& final(self).stack@.len() == 0
                    },
                },
            },
            ({
                let left = final(self).stack@.len() as int;
                let stack = old(self).stack@;
                let hidden_from = match next {
                    Ok(None) => 0,
                    _ => left + 1,
                };
                &&& forall|j: int|
                    hidden_from <= j < stack.len() ==> (#[trigger] stack[j]).index
                        < graph.records@.len() && !graph.visibility()[stack[j].index as int]
                &&& next matches Ok(Some(handle)) ==> {
                    &&& left < stack.len()
                    &&& handle == stack[left]
                    &&& final(self).stack@ == stack.take(left)
                    &&& handle.index < graph.records@.len()
                    &&& graph.visibility()[handle.index as int]
                    &&& graph.records@[handle.index as int].generation == handle.generation
                    &&& graph.records@[handle.index as int].node is Some
                }
                &&& next matches Err(handle) ==> {
                    ||| handle.index >= graph.records@.len()
                    ||| graph.visibility()[handle.index as int] && (graph.records@[
                        handle.index as int].generation != handle.generation || graph.records@[
                        handle.index as int].node is None)
                }
            }),
    {
        loop
            invariant
                self.lod_filter@ == graph.visibility(),
                self.lod_filter@ == old(self).lod_filter@,
                self.stack@.len() <= old(self).stack@.len(),
                self.stack@ == old(self).stack@.take(self.stack@.len() as int),
                forall|j: int|
                    self.stack@.len() <= j < old(self).stack@.len() ==> (
                    #[trigger] old(self).stack@[j]).index < graph.records@.len()
                        && !graph.visibility()[old(self).stack@[j].index as int],
                graph.missing_next(self.stack@) == graph.missing_next(old(self).stack@),
                next_visit(graph.visibility(), self.stack@) == next_visit(
                    graph.visibility(),
                    old(self).stack@,
                ),
            decreases self.stack@.len(),
        {
            match self.stack.pop() {
                Some(handle) => {
                    if handle.index as usize >= self.lod_filter.len() {
                        return Err(handle);
                    }
                    if self.lod_filter[handle.index as usize] {
                        return if graph.try_get(handle).is_some() {
                            Ok(Some(handle))
                        } else {
                            Err(handle)
                        };
                    }
                },
                None => {
                    return Ok(None);
                },
            }
        }
    }

    /// Takes note of what the visited node answered: where the collection continues, the nodes
    /// right below it wait as well.
    pub fn answer(&mut self, flow: RdcControlFlow, children: &[Handle])
        ensures
            final(self).lod_filter@ == old(self).lod_filter@,
            final(self).stack@ == stack_after_visit(old(self).stack@, flow, children@),
            flow == RdcControlFlow::Continue ==> final(self).stack@ == old(self).stack@ + children@,
            flow == RdcControlFlow::Break ==> final(self).stack@ == old(self).stack@,
    {
        if let RdcControlFlow::Continue = flow {
            self.stack.extend_from_slice(children);
            assert(self.stack@ == old(self).stack@ + children@);
        }
    }
}

/// Why a collection ended early.
#[derive(Clone, Copy, Debug, PartialEq, Eq, Structural)]
pub enum CollectionError {
    /// A node was to be asked for render data that is not there.
    MissingNode(Handle),
    /// There were more nodes to ask than was allowed.
    TooManyVisits,
}

/// Whether a collection may use a frustum: it is the one that was built or, where none could be
/// built, a default one.
pub open spec fn is_usable_frustum<F: Default>(built: Option<F>, frustum: F) -> bool {
    match built {
        Some(built) => frustum == built,
        None => call_ensures(F::default, (), frustum),
    }
}

/// Whether visits and stages are those of a collection that is under way: nothing was collected at
/// first, and only nodes that are there were visited, in their order. The stages are what was
/// collected at first and after each visit.
pub open spec fn is_under_way<T>(
    graph: &Graph<T>,
    visits: Seq<NodeVisit>,
    stages: Seq<StorageView>,
) -> bool {
    &&& graph.is_visit_order(visits)
    &&& forall|k: int|
        0 <= k < visits.len() ==> graph.missing_next(
            #[trigger] graph.waiting_after(visits.take(k)),
        ) is None
    &&& stages.len() == visits.len() + 1
    &&& stages[0] == StorageView::empty()
}

/// Whether a storage is what a traversal of a graph leaves: all visits were made, and what was
/// collected in the end was sorted.
pub open spec fn is_collection<T>(
    graph: &Graph<T>,
    visits: Seq<NodeVisit>,
    stages: Seq<StorageView>,
    storage: StorageView,
) -> bool {
    &&& is_under_way(graph, visits, stages)
    &&& graph.is_traversal(visits)
    &&& graph.missing_next(graph.waiting_after(visits)) is None
    &&& exists|pushes: Seq<Push>| stages.last() == #[trigger] StorageView::empty().replay(pushes)
    &&& storage.is_reordering_of(stages.last())
    &&& in_rendering_order(storage.bundles)
    &&& storage.is_built_by_pushes()
}

impl RenderDataBundleStorage {
    /// Collects the render data of a graph. Where `limit` is given, no more nodes are asked than
    /// that; else the graph must be sound.
    #[verifier::rlimit(40)]
    fn collect<T: NodeTrait<PushedStorage, F>, F: Default>(
        graph: &Graph<T>,
        observer_info: ObserverInfo,
        built_frustum: Option<F>,
        render_pass_name: &str,
        limit: Option<usize>,
        Ghost(depth): Ghost<nat>,
        Ghost(stops): Ghost<Set<Handle>>,
    ) -> (result: Result<Self, CollectionError>)
        requires
            limit is None ==> graph.is_sound_below(graph.root, depth, stops),
            limit is None ==> forall|
                handle: Handle,
                ctx: &mut RenderContext<'_, PushedStorage, T, F>,
                flow: RdcControlFlow,
            |
                stops.contains(handle) && #[trigger] call_ensures(
                    T::collect_render_data,
                    (&graph.node_at(handle).content, ctx),
                    flow,
                ) ==> flow == RdcControlFlow::Break,
        ensures
            limit is None ==> result is Ok,
            exists|frustum: F, visits: Seq<NodeVisit>, stages: Seq<StorageView>|
                {
                    &&& #[trigger] is_usable_frustum(built_frustum, frustum)
                    &&& #[trigger] is_under_way(graph, visits, stages)
                    &&& forall|k: int|
                        0 <= k < visits.len() ==> exists|
                            ctx: &mut RenderContext<'_, PushedStorage, T, F>,
                        |
                            {
                                &&& #[trigger] call_ensures(
                                    T::collect_render_data,
                                    (&graph.node_at((#[trigger] visits[k]).handle).content, ctx),
                                    visits[k].flow,
                                )
                                &&& ctx.collected() == stages[k]
                                &&& ctx.observer() == observer_info
                                &&& ctx.observer_frustum() == Some(frustum)
                                &&& ctx.rendered_graph() == *graph
                                &&& ctx.pass_name() == render_pass_name@
                                &&& *final((*final(ctx)).borrowed_storage())
                                    == *(*final(ctx)).borrowed_storage()
                                &&& (*final(ctx.borrowed_storage())).collected() == stages[k + 1]
                            }
                    &&& limit matches Some(n) ==> visits.len() <= n
                    &&& match result {
                        Ok(storage) => is_collection(graph, visits, stages, storage@),
                        Err(CollectionError::MissingNode(handle)) => graph.missing_next(
                            graph.waiting_after(visits),
                        ) == Some(handle),
                        Err(CollectionError::TooManyVisits) => {
                            &&& limit == Some(visits.len() as usize)
                            &&& graph.missing_next(graph.waiting_after(visits)) is None
                            &&& graph.next_after(visits) is Some
                        },
                    }
                },
    {
        // Aim for the worst-case scenario when every node has unique render data.
        let capacity = graph.node_count();
        let mut storage = PushedStorage::with_capacity(capacity);
        let mut traversal = RenderTraversal::start(graph, capacity / 4);
        let frustum = match built_frustum {
            Some(frustum) => frustum,
            None => F::default(),
        };
        assert(is_usable_frustum(built_frustum, frustum));

        let mut visit_count: usize = 0;
        let ghost mut visits: Seq<NodeVisit> = Seq::empty();
        let ghost mut stages: Seq<StorageView> = seq![storage.collected()];
        loop
            invariant_except_break
                limit is None ==> graph.all_sound_below(traversal.stack@, depth, stops),
                limit is None ==> forall|
                    handle: Handle,
                    ctx: &mut RenderContext<'_, PushedStorage, T, F>,
                    flow: RdcControlFlow,
                |
                    stops.contains(handle) && #[trigger] call_ensures(
                        T::collect_render_data,
                        (&graph.node_at(handle).content, ctx),
                        flow,
                    ) ==> flow == RdcControlFlow::Break,
                limit matches Some(n) ==> visit_count == visits.len() && visit_count <= n,
                traversal.lod_filter@ == graph.visibility(),
                traversal.stack@ == graph.waiting_after(visits),
            invariant
                limit matches Some(n) ==> visits.len() <= n,
                is_usable_frustum(built_frustum, frustum),
                is_under_way(graph, visits, stages),
                stages.last() == storage.collected(),
                forall|k: int|
                    0 <= k < visits.len() ==> exists|
                        ctx: &mut RenderContext<'_, PushedStorage, T, F>,
                    |
                        {
                            &&& #[trigger] call_ensures(
                                T::collect_render_data,
                                (&graph.node_at((#[trigger] visits[k]).handle).content, ctx),
                                visits[k].flow,
                            )
                            &&& ctx.collected() == stages[k]
                            &&& ctx.observer() == observer_info
                            &&& ctx.observer_frustum() == Some(frustum)
                            &&& ctx.rendered_graph() == *graph
                            &&& ctx.pass_name() == render_pass_name@
                            &&& *final((*final(ctx)).borrowed_storage())
                                == *(*final(ctx)).borrowed_storage()
                            &&& (*final(ctx.borrowed_storage())).collected() == stages[k + 1]
                        },
            ensures
                graph.is_traversal(visits),
                graph.missing_next(graph.waiting_after(visits)) is None,
            decreases
                (match limit {
                    Some(n) => (n - visits.len()) as int,
                    None => graph.paths_below_all(traversal.stack@, depth, stops) as int,
                }),
        {
            proof {
                if limit is None {
                    graph.lemma_next_visit(traversal.stack@, depth, stops);
                }
            }
            match traversal.next(graph) {
                Ok(Some(handle)) => {
                    if let Some(n) = limit {
                        if visit_count == n {
                            return Err(CollectionError::TooManyVisits);
                        }
                        visit_count = visit_count + 1;
                    }
                    let node = graph.node(handle);
                    let flow = ask_for_render_data(
                        &node.content,
                        &mut storage,
                        &observer_info,
                        &frustum,
                        graph,
                        render_pass_name,
                    );
                    proof {
                        if limit is None {
                            graph.lemma_stack_after_visit(
                                traversal.stack@,
                                NodeVisit { handle, flow },
                                depth,
                                stops,
                            );
                        }
                        graph.lemma_longer_visit_order(visits, handle, flow);
                        let stage = storage.collected();
                        lemma_longer_is_under_way(graph, visits, stages, handle, flow, stage);
                        visits = visits.push(NodeVisit { handle, flow });
                        stages = stages.push(stage);
                    }
                    traversal.answer(flow, node.children.as_slice());
                },
                Ok(None) => {
                    break;
                },
                Err(handle) => {
                    return Err(CollectionError::MissingNode(handle));
                },
            }
        }

        let mut sorted = storage.into_storage();
        sorted.sort();
        assert(is_collection(graph, visits, stages, sorted@));
        Ok(sorted)
    }
}

impl RenderDataBundleStorage {
    /// Creates a new render bundle storage from the given graph and observer info. It "asks" every
    /// node in the graph one-by-one to give render data which is then put in the storage, sorted
    /// and ready for rendering. Frustum culling is done on scene node side
    /// ([`NodeTrait::collect_render_data`]).
    ///
    /// Each node is handed a context over the same storage, which stays with the collection. After
    /// a visit it holds what it holds when the context that the node was given ends.
    ///
    /// `built_frustum` is the frustum that was built from the observer's view and projection
    /// matrices. Where none could be built, a default one takes its place.
    ///
    /// Each node that the collection can come to must be there, and no way down may be without end.
    /// Of what is below a node that never lets a collection continue, nothing is asked.
    pub fn from_graph<T: NodeTrait<PushedStorage, F>, F: Default>(
        graph: &Graph<T>,
        observer_info: ObserverInfo,
        built_frustum: Option<F>,
        render_pass_name: &str,
    ) -> (storage: Self)
        requires
            exists|stops: Set<Handle>|
                {
                    &&& #[trigger] graph.is_traversable(stops)
                    &&& forall|
                        handle: Handle,
                        ctx: &mut RenderContext<'_, PushedStorage, T, F>,
                        flow: RdcControlFlow,
                    |
                        stops.contains(handle) && #[trigger] call_ensures(
                            T::collect_render_data,
                            (&graph.node_at(handle).content, ctx),
                            flow,
                        ) ==> flow == RdcControlFlow::Break
                },
        ensures
            exists|frustum: F, visits: Seq<NodeVisit>, stages: Seq<StorageView>|
                {
                    &&& #[trigger] is_usable_frustum(built_frustum, frustum)
                    &&& #[trigger] is_collection(graph, visits, stages, storage@)
                    &&& forall|k: int|
                        0 <= k < visits.len() ==> exists|
                            ctx: &mut RenderContext<'_, PushedStorage, T, F>,
                        |
                            {
                                &&& #[trigger] call_ensures(
                                    T::collect_render_data,
                                    (&graph.node_at((#[trigger] visits[k]).handle).content, ctx),
                                    visits[k].flow,
                                )
                                &&& ctx.collected() == stages[k]
                                &&& ctx.observer() == observer_info
                                &&& ctx.observer_frustum() == Some(frustum)
                                &&& ctx.rendered_graph() == *graph
                                &&& ctx.pass_name() == render_pass_name@
                                &&& *final((*final(ctx)).borrowed_storage())
                                    == *(*final(ctx)).borrowed_storage()
                                &&& (*final(ctx.borrowed_storage())).collected() == stages[k + 1]
                            }
                },
            in_rendering_order(storage@.bundles),
            storage@.is_built_by_pushes(),
    {
        let ghost stops = choose|stops: Set<Handle>|
            {
                &&& #[trigger] graph.is_traversable(stops)
                &&& forall|
                    handle: Handle,
                    ctx: &mut RenderContext<'_, PushedStorage, T, F>,
                    flow: RdcControlFlow,
                |
                    stops.contains(handle) && #[trigger] call_ensures(
                        T::collect_render_data,
                        (&graph.node_at(handle).content, ctx),
                        flow,
                    ) ==> flow == RdcControlFlow::Break
            };
        let ghost depth = choose|depth: nat| graph.is_sound_below(graph.root, depth, stops);
        Self::collect(
            graph,
            observer_info,
            built_frustum,
            render_pass_name,
            None,
            Ghost(depth),
            Ghost(stops),
        ).unwrap()
    }

    /// Creates a new render bundle storage from a graph that may not be sound: the collection ends
    /// with an error if it comes to a node that is not there, and if more than `limit` nodes are
    /// to be asked for render data.
    pub fn try_from_graph<T: NodeTrait<PushedStorage, F>, F: Default>(
        graph: &Graph<T>,
        observer_info: ObserverInfo,
        built_frustum: Option<F>,
        render_pass_name: &str,
        limit: usize,
    ) -> (result: Result<Self, CollectionError>)
        ensures
            exists|frustum: F, visits: Seq<NodeVisit>, stages: Seq<StorageView>|
                {
                    &&& #[trigger] is_usable_frustum(built_frustum, frustum)
                    &&& #[trigger] is_under_way(graph, visits, stages)
                    &&& forall|k: int|
                        0 <= k < visits.len() ==> exists|
                            ctx: &mut RenderContext<'_, PushedStorage, T, F>,
                        |
                            {
                                &&& #[trigger] call_ensures(
                                    T::collect_render_data,
                                    (&graph.node_at((#[trigger] visits[k]).handle).content, ctx),
                                    visits[k].flow,
                                )
                                &&& ctx.collected() == stages[k]
                                &&& ctx.observer() == observer_info
                                &&& ctx.observer_frustum() == Some(frustum)
                                &&& ctx.rendered_graph() == *graph
                                &&& ctx.pass_name() == render_pass_name@
                                &&& *final((*final(ctx)).borrowed_storage())
                                    == *(*final(ctx)).borrowed_storage()
                                &&& (*final(ctx.borrowed_storage())).collected() == stages[k + 1]
                            }
                    &&& visits.len() <= limit
                    &&& match result {
                        Ok(storage) => is_collection(graph, visits, stages, storage@),
                        Err(CollectionError::MissingNode(handle)) => graph.missing_next(
                            graph.waiting_after(visits),
                        ) == Some(handle),
                        Err(CollectionError::TooManyVisits) => {
                            &&& visits.len() == limit
                            &&& graph.missing_next(graph.waiting_after(visits)) is None
                            &&& graph.next_after(visits) is Some
                        },
                    }
                },
    {
        Self::collect(
            graph,
            observer_info,
            built_frustum,
            render_pass_name,
            Some(limit),
            Ghost(0),
            Ghost(Set::empty()),
        )
    }
}

/// A visit to the next node continues a collection that is under way.
proof fn lemma_longer_is_under_way<T>(
    graph: &Graph<T>,
    visits: Seq<NodeVisit>,
    stages: Seq<StorageView>,
    handle: Handle,
    flow: RdcControlFlow,
    stage: StorageView,
)
    requires
        is_under_way(graph, visits, stages),
        graph.next_after(visits) == Some(handle),
        graph.missing_next(graph.waiting_after(visits)) is None,
    ensures
        is_under_way(graph, visits.push(NodeVisit { handle, flow }), stages.push(stage)),
{
    graph.lemma_longer_visit_order(visits, handle, flow);
    let longer = visits.push(NodeVisit { handle, flow });
    assert forall|k: int| 0 <= k < longer.len() implies graph.missing_next(
        #[trigger] graph.waiting_after(longer.take(k)),
    ) is None by {
        assert(longer.take(k) == visits.take(k));
        if k == visits.len() {
            assert(visits.take(k) == visits);
        }
    }
}

} // verus!
