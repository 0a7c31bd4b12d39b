//! The storage of a collection that is under way.
use vstd::prelude::*;

use crate::identifier::PersistentIdentifier;
use crate::instance::SurfaceInstanceData;
use crate::keys::triangles_key;
use crate::keys::InstanceParameters;
use crate::keys::TriangleParameters;
use crate::laws::empty_storage_is_built_by_pushes;
use crate::laws::pushing_keeps_built;
use crate::pushes::replaying_ends_with_the_last_push;
use crate::pushes::InstancePush;
use crate::pushes::Push;
use crate::pushes::TrianglesPush;
use crate::resource::Handle;
use crate::resource::MaterialResource;
use crate::resource::RenderPath;
use crate::resource::SurfaceRequest;
use crate::resource::SurfaceResource;
use crate::resource::VertexAttributeDescriptor;
use crate::storage::RenderDataBundleStorage;
use crate::storage::RenderDataBundleStorageTrait;
use crate::storage::StorageView;

verus! {

/// A bundle storage that nothing but pushes has changed since it was empty. A collection from a
/// graph hands it to the nodes. Nothing else makes one, so what a node has pushed stays.
pub struct PushedStorage {
    storage: RenderDataBundleStorage,
    pushes: Ghost<Seq<Push>>,
}

impl PushedStorage {
    /// The storage holds what the pushes made of an empty one.
    #[verifier::type_invariant]
    spec fn invariant_holds(self) -> bool {
        &&& self.storage@ == StorageView::empty().replay(self.pushes@)
        &&& self.storage@.is_built_by_pushes()
    }

    /// What was pushed.
    pub closed spec fn pushes(&self) -> Seq<Push> {
        self.pushes@
    }

    /// Creates an empty storage with room for the given number of bundles.
    pub(crate) fn with_capacity(capacity: usize) -> (created: Self)
        ensures
            created.collected() == StorageView::empty(),
            created.pushes() == Seq::<Push>::empty(),
    {
        proof {
            empty_storage_is_built_by_pushes();
        }
        PushedStorage {
            storage: RenderDataBundleStorage::with_capacity(capacity),
            pushes: Ghost(Seq::empty()),
        }
    }

    /// The bundles, once nothing more is to be pushed.
    pub(crate) fn into_storage(self) -> (storage: RenderDataBundleStorage)
        ensures
            storage@ == self.collected(),
            storage@ == StorageView::empty().replay(self.pushes()),
            storage@.is_built_by_pushes(),
    {
        proof {
            use_type_invariant(&self);
        }
        self.storage
    }
}

impl RenderDataBundleStorageTrait for PushedStorage {
    closed spec fn collected(&self) -> StorageView {
        self.storage@
    }

    open spec fn is_open_for(&self, key: u64) -> bool {
        true
    }

    #[verifier::rlimit(40)]
    fn push_triangles<N, W>(
        &mut self,
        layout: &[VertexAttributeDescriptor],
        material: &MaterialResource,
        render_path: RenderPath,
        decal_layer_index: u8,
        sort_index: u64,
        is_skinned: bool,
        node_handle: Handle,
        new_surface: N,
        func: W,
    ) where N: FnOnce(SurfaceRequest<'_>) -> SurfaceResource, W: FnOnce(SurfaceResource)
        ensures
            final(self).pushes().len() == old(self).pushes().len() + 1,
            final(self).pushes().drop_last() == old(self).pushes(),
            final(self).pushes().last() matches Push::Triangles(push) && push.parameters == (
            TriangleParameters {
                material: *material,
                layout: layout@,
                is_skinned,
                decal_layer_index,
                render_path,
            }) && push.sort_index == sort_index && push.node_handle == node_handle,
    {
        proof {
            use_type_invariant(&*self);
        }
        let ghost before = self.storage@;
        let ghost parameters = TriangleParameters {
            material: *material,
            layout: layout@,
            is_skinned,
            decal_layer_index,
            render_path,
        };
        let key = triangles_key(material, layout, is_skinned, decal_layer_index, render_path);
        let data = match self.storage.surface_under(key) {
            Some(data) => {
                let ghost push = Push::Triangles(
                    TrianglesPush {
                        parameters,
                        sort_index,
                        node_handle,
                        data,
                        identifier: arbitrary(),
                    },
                );
                proof {
                    replaying_ends_with_the_last_push(StorageView::empty(), self.pushes@, push);
                }
                self.pushes = Ghost(self.pushes@.push(push));
                data
            },
            None => {
                let data = new_surface(SurfaceRequest::empty(layout));
                let mut taken = Self::with_capacity(0);
                core::mem::swap(&mut taken, self);
                let PushedStorage { mut storage, pushes } = taken;
                proof {
                    storage.lemma_bundle_count_fits();
                }
                storage.open_triangles(
                    key,
                    layout,
                    material,
                    render_path,
                    decal_layer_index,
                    sort_index,
                    is_skinned,
                    node_handle,
                    data,
                );
                let ghost identifier = choose|identifier: PersistentIdentifier|
                    {
                        &&& #[trigger] identifier.identifies(data, node_handle, 0)
                        &&& storage@ == before.with_triangles(
                            parameters,
                            sort_index,
                            node_handle,
                            data,
                            identifier,
                        )
                    };
                let ghost push = Push::Triangles(
                    TrianglesPush { parameters, sort_index, node_handle, data, identifier },
                );
                proof {
                    pushing_keeps_built(before, push);
                    replaying_ends_with_the_last_push(StorageView::empty(), pushes@, push);
                }
                *self = PushedStorage { storage, pushes: Ghost(pushes@.push(push)) };
                data
            },
        };
        func(data);
        proof {
            self.storage.lemma_bundle_count_fits();
        }
    }

    fn push(
        &mut self,
        data: &SurfaceResource,
        material: &MaterialResource,
        render_path: RenderPath,
        decal_layer_index: u8,
        sort_index: u64,
        instance_data: SurfaceInstanceData,
    )
        ensures
            final(self).pushes() == old(self).pushes().push(
                Push::Instance(
                    InstancePush {
                        parameters: InstanceParameters {
                            material: *material,
                            data: *data,
                            is_skinned: instance_data@.is_skinned(),
                            decal_layer_index,
                            render_path,
                        },
                        sort_index,
                        instance: instance_data@,
                    },
                ),
            ),
    {
        proof {
            use_type_invariant(&*self);
        }
        let ghost before = self.storage@;
        let ghost push = Push::Instance(
            InstancePush {
                parameters: InstanceParameters {
                    material: *material,
                    data: *data,
                    is_skinned: instance_data@.is_skinned(),
                    decal_layer_index,
                    render_path,
                },
                sort_index,
                instance: instance_data@,
            },
        );
        let mut taken = Self::with_capacity(0);
        core::mem::swap(&mut taken, self);
        let PushedStorage { mut storage, pushes } = taken;
        proof {
            storage.lemma_bundle_count_fits();
        }
        storage.push(data, material, render_path, decal_layer_index, sort_index, instance_data);
        proof {
            pushing_keeps_built(before, push);
            replaying_ends_with_the_last_push(StorageView::empty(), pushes@, push);
        }
        *self = PushedStorage { storage, pushes: Ghost(pushes@.push(push)) };
    }
}

} // verus!
