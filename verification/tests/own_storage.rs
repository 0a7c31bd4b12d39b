use render_bundle::context::ObserverInfo;
use render_bundle::context::RenderContext;
use render_bundle::graph::Graph;
use render_bundle::identifier::PersistentIdentifier;
use render_bundle::instance::SurfaceInstanceData;
use render_bundle::resource::Handle;
use render_bundle::resource::MaterialResource;
use render_bundle::resource::Matrix4;
use render_bundle::resource::Real;
use render_bundle::resource::RenderPath;
use render_bundle::resource::SurfaceRequest;
use render_bundle::resource::SurfaceResource;
use render_bundle::resource::VertexAttributeDescriptor;
use render_bundle::storage::RenderDataBundleStorage;
use render_bundle::storage::RenderDataBundleStorageTrait;
use render_bundle::storage::StorageView;

/// A storage that counts what it is given, on top of the usual one.
struct Counting {
    storage: RenderDataBundleStorage,
    instances: usize,
    meshes: usize,
}

impl RenderDataBundleStorageTrait for Counting {
    fn collected(&self) -> StorageView {
        unreachable!("only contracts speak of it")
    }

    fn is_open_for(&self, _key: u64) -> bool {
        unreachable!("only contracts speak of it")
    }

    fn push_triangles<N, W>(
        &mut self,
        layout: &[VertexAttributeDescriptor],
        material: &MaterialResource,
        render_path: RenderPath,
        decal_layer_index: u8,
        sort_index: u64,
        is_skinned: bool,
        node_handle: Handle,
        new_surface: N,
        func: W,
    ) where
        N: FnOnce(SurfaceRequest<'_>) -> SurfaceResource,
        W: FnOnce(SurfaceResource),
    {
        self.meshes += 1;
        self.storage.push_triangles(
            layout,
            material,
            render_path,
            decal_layer_index,
            sort_index,
            is_skinned,
            node_handle,
            new_surface,
            func,
        );
    }

    fn push(
        &mut self,
        data: &SurfaceResource,
        material: &MaterialResource,
        render_path: RenderPath,
        decal_layer_index: u8,
        sort_index: u64,
        instance_data: SurfaceInstanceData,
    ) {
        self.instances += 1;
        self.storage.push(data, material, render_path, decal_layer_index, sort_index, instance_data);
    }
}

#[test]
fn context_collects_into_any_storage() {
    let zero = Real { bits: 0 };
    let observer = ObserverInfo {
        observer_position: [zero, zero, zero],
        z_near: zero,
        z_far: zero,
        view_matrix: Matrix4::identity(),
        projection_matrix: Matrix4::identity(),
    };
    let node = Handle { index: 0, generation: 1 };
    let graph: Graph<()> = Graph { root: node, records: Vec::new() };
    let frustum = 5u8;
    let mut counting =
        Counting { storage: RenderDataBundleStorage::default(), instances: 0, meshes: 0 };
    let mut ctx = RenderContext::new(&mut counting, &observer, Some(&frustum), &graph, "Pass");
    assert_eq!(ctx.frustum(), Some(&5u8));
    for id in 0..3 {
        ctx.push(
            &SurfaceResource { key: 1 },
            &MaterialResource { key: 2 },
            RenderPath::Forward,
            0,
            0,
            SurfaceInstanceData::plain(PersistentIdentifier(id), node),
        );
    }
    ctx.push_triangles(
        &[],
        &MaterialResource { key: 2 },
        RenderPath::Forward,
        0,
        0,
        false,
        node,
        |_| SurfaceResource { key: 9 },
        |data| assert_eq!(data.key, 9),
    );
    assert_eq!((counting.instances, counting.meshes), (3, 1));
    assert_eq!(counting.storage.bundles.len(), 2);
}
