//! The context that scene nodes hand their render data to.
use vstd::prelude::*;

use crate::graph::Graph;
use crate::instance::SurfaceInstanceData;
use crate::resource::Handle;
use crate::resource::MaterialResource;
use crate::resource::Matrix4;
use crate::resource::Real;
use crate::resource::RenderPath;
use crate::resource::SurfaceRequest;
use crate::resource::SurfaceResource;
use crate::resource::VertexAttributeDescriptor;
use crate::storage::RenderDataBundleStorageTrait;
use crate::storage::StorageView;

verus! {

/// Whether the nodes below a node are asked for render data.
#[derive(Clone, Copy, Debug, PartialEq, Eq, Structural)]
pub enum RdcControlFlow {
    /// They are.
    Continue,
    /// They are not.
    Break,
}

/// What scene nodes implement to be rendered into a storage `S`, with culling by a frustum `F`.
pub trait NodeTrait<S, F>: Sized {
    /// Writes the render data of the node to the context, and says whether the nodes below it are
    /// to be asked for theirs.
    fn collect_render_data(&self, ctx: &mut RenderContext<'_, S, Self, F>) -> RdcControlFlow;
}

/// Observer info contains all the data, that describes an observer. It could be a real camera,
/// light source's "virtual camera" that is used for shadow mapping, etc.
#[derive(Clone, Copy, Debug)]
pub struct ObserverInfo {
    /// World-space position of the observer.
    pub observer_position: [Real; 3],
    /// Location of the near clipping plane.
    pub z_near: Real,
    /// Location of the far clipping plane.
    pub z_far: Real,
    /// View matrix of the observer.
    pub view_matrix: Matrix4,
    /// Projection matrix of the observer.
    pub projection_matrix: Matrix4,
}

/// The sorting index of what lies at a depth, in thousandths: the deeper it lies, the smaller is
/// the index.
pub fn sorting_index(depth: u64) -> (index: u64)
    ensures
        index == u64::MAX - depth,
{
    u64::MAX - depth
}

/// Render context is used to collect render data from the scene nodes. It provides all required
/// information about the observer (camera, light source virtual camera, etc.), that could be used
/// for culling. Your scene node must write at least one surface instance to it for the node to be
/// rendered.
pub struct RenderContext<'a, S, T, F> {
    storage: &'a mut S,
    observer_info: &'a ObserverInfo,
    frustum: Option<&'a F>,
    graph: &'a Graph<T>,
    render_pass_name: &'a str,
}

impl<'a, S, T, F> RenderContext<'a, S, T, F> {
    /// The storage that the context writes to.
    pub closed spec fn borrowed_storage(&self) -> &'a mut S {
        self.storage
    }

    /// The observer for whom the graph is rendered.
    pub closed spec fn observer(&self) -> ObserverInfo {
        *self.observer_info
    }

    /// The frustum of the observer.
    pub closed spec fn observer_frustum(&self) -> Option<F> {
        match self.frustum {
            Some(frustum) => Some(*frustum),
            None => None,
        }
    }

    /// The graph that is being rendered.
    pub closed spec fn rendered_graph(&self) -> Graph<T> {
        *self.graph
    }

    /// The name of the render pass for which the context was created for.
    pub closed spec fn pass_name(&self) -> Seq<char> {
        self.render_pass_name@
    }

    /// Creates the context for a render pass over a graph, which writes to the given storage.
    pub fn new(
        storage: &'a mut S,
        observer_info: &'a ObserverInfo,
        frustum: Option<&'a F>,
        graph: &'a Graph<T>,
        render_pass_name: &'a str,
    ) -> (ctx: Self)
        ensures
            *ctx.borrowed_storage() == *old(storage),
            *final(ctx.borrowed_storage()) == *final(storage),
            ctx.observer() == *observer_info,
            ctx.observer_frustum() == (match frustum {
                Some(frustum) => Some(*frustum),
                None => None,
            }),
            ctx.rendered_graph() == *graph,
            ctx.pass_name() == render_pass_name@,
    {
        RenderContext { storage, observer_info, frustum, graph, render_pass_name }
    }

    /// The observer for whom the graph is rendered.
    pub fn observer_info(&self) -> (observer_info: &'a ObserverInfo)
        ensures
            *observer_info == self.observer(),
    {
        self.observer_info
    }

    /// Frustum of the observer, it is built using observer's view and projection matrix. Use the
    /// frustum to do frustum culling.
    pub fn frustum(&self) -> (frustum: Option<&'a F>)
        ensures
            self.observer_frustum() == (match frustum {
                Some(frustum) => Some(*frustum),
                None => None,
            }),
    {
        self.frustum
    }

    /// A reference to the graph that is being rendered. Allows you to get access to other scene
    /// nodes to do some useful job.
    pub fn graph(&self) -> (graph: &'a Graph<T>)
        ensures
            *graph == self.rendered_graph(),
    {
        self.graph
    }

    /// A name of the render pass for which the context was created for.
    pub fn render_pass_name(&self) -> (name: &'a str)
        ensures
            name@ == self.pass_name(),
    {
        self.render_pass_name
    }

    /// Calculates sorting index of a point from its depth: the Z coordinate of the point in the
    /// view space, in thousandths. This index could be used for back-to-front sorting to prevent
    /// blending issues.
    pub fn calculate_sorting_index(&self, depth: u64) -> (index: u64)
        ensures
            index == u64::MAX - depth,
    {
        sorting_index(depth)
    }
}

impl<'a, S: RenderDataBundleStorageTrait, T, F> RenderDataBundleStorageTrait for RenderContext<
    'a,
    S,
    T,
    F,
> {
    open spec fn collected(&self) -> StorageView {
        (*self.borrowed_storage()).collected()
    }

    open spec fn is_open_for(&self, key: u64) -> bool {
        (*self.borrowed_storage()).is_open_for(key)
    }

    fn push_triangles<N, W>(
        &mut self,
        layout: &[VertexAttributeDescriptor],
        material: &MaterialResource,
        render_path: RenderPath,
        decal_layer_index: u8,
        sort_index: u64,
        is_skinned: bool,
        node_handle: Handle,
        new_surface: N,
        func: W,
    ) where N: FnOnce(SurfaceRequest<'_>) -> SurfaceResource, W: FnOnce(SurfaceResource)
        ensures
            *final(final(self).borrowed_storage()) == *final(old(self).borrowed_storage()),
            final(self).observer() == old(self).observer(),
            final(self).observer_frustum() == old(self).observer_frustum(),
            final(self).rendered_graph() == old(self).rendered_graph(),
            final(self).pass_name() == old(self).pass_name(),
    {
        self.storage.push_triangles(
            layout,
            material,
            render_path,
            decal_layer_index,
            sort_index,
            is_skinned,
            node_handle,
            new_surface,
            func,
        );
    }

    fn push(
        &mut self,
        data: &SurfaceResource,
        material: &MaterialResource,
        render_path: RenderPath,
        decal_layer_index: u8,
        sort_index: u64,
        instance_data: SurfaceInstanceData,
    )
        ensures
            *final(final(self).borrowed_storage()) == *final(old(self).borrowed_storage()),
            final(self).observer() == old(self).observer(),
            final(self).observer_frustum() == old(self).observer_frustum(),
            final(self).rendered_graph() == old(self).rendered_graph(),
            final(self).pass_name() == old(self).pass_name(),
    {
        self.storage.push(
            data,
            material,
            render_path,
            decal_layer_index,
            sort_index,
            instance_data,
        );
    }
}

/// Asks a node for its render data, which it adds to what is in the storage.
pub(crate) fn ask_for_render_data<T: NodeTrait<S, F>, S, F>(
    node: &T,
    storage: &mut S,
    observer_info: &ObserverInfo,
    frustum: &F,
    graph: &Graph<T>,
    render_pass_name: &str,
) -> (flow: RdcControlFlow)
    ensures
        exists|ctx: &mut RenderContext<'_, S, T, F>|
            {
                &&& #[trigger] call_ensures(T::collect_render_data, (node, ctx), flow)
                &&& *ctx.borrowed_storage() == *old(storage)
                &&& ctx.observer() == *observer_info
                &&& ctx.observer_frustum() == Some(*frustum)
                &&& ctx.rendered_graph() == *graph
                &&& ctx.pass_name() == render_pass_name@
                &&& *final((*final(ctx)).borrowed_storage()) == *(*final(ctx)).borrowed_storage()
                &&& *final(ctx.borrowed_storage()) == *final(storage)
            },
{
    let mut ctx = RenderContext::new(
        storage,
        observer_info,
        Some(frustum),
        graph,
        render_pass_name,
    );
    let flow = node.collect_render_data(&mut ctx);
    flow
}

} // verus!
