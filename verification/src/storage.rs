//! The bundle storage: surface instances are pushed into it and grouped into bundles.
use fxhash::FxHashMap;
use vstd::prelude::*;

use crate::bundle::bundle_views;
use crate::bundle::in_rendering_order;
use crate::bundle::sort_by_index;
use crate::bundle::BundleTag;
use crate::bundle::BundleView;
use crate::bundle::RenderDataBundle;
use crate::fx::fx_map_get;
use crate::fx::fx_map_insert;
use crate::fx::fx_map_with_capacity;
use crate::fx::MAP_RESERVE_LIMIT;
use crate::identifier::PersistentIdentifier;
use crate::instance::plain_instance;
use crate::instance::InstanceView;
use crate::instance::SurfaceInstanceData;
use crate::keys::instance_key;
use crate::keys::triangles_key;
use crate::keys::InstanceParameters;
use crate::keys::TriangleParameters;
use crate::laws::lemma_key_index;
use crate::laws::lemma_sorted_index;
use crate::resource::Handle;
use crate::resource::MaterialResource;
use crate::resource::Real;
use crate::resource::RenderPath;
use crate::resource::SurfaceRequest;
use crate::resource::SurfaceResource;
use crate::resource::TimeToLive;
use crate::resource::VertexAttributeDescriptor;
use crate::resource::ZERO_BITS;

verus! {

impl BundleView {
    /// The bundle with one more instance at its end.
    pub open spec fn with_instance(self, instance: InstanceView) -> BundleView {
        BundleView { instances: self.instances.push(instance), ..self }
    }

    /// The parameters by which surface instances are put in the bundle.
    pub open spec fn instance_parameters(self) -> InstanceParameters {
        InstanceParameters {
            material: self.material,
            data: self.data,
            is_skinned: self.is_skinned,
            decal_layer_index: self.decal_layer_index,
            render_path: self.render_path,
        }
    }

    /// The parameters by which triangles with the given layout are put in the bundle.
    pub open spec fn triangle_parameters(
        self,
        layout: Seq<VertexAttributeDescriptor>,
    ) -> TriangleParameters {
        TriangleParameters {
            material: self.material,
            layout,
            is_skinned: self.is_skinned,
            decal_layer_index: self.decal_layer_index,
            render_path: self.render_path,
        }
    }

    /// Whether the bundle was opened under the given key.
    pub open spec fn has_key(self, key: u64) -> bool {
        key == self.key
    }

    /// Whether the key under which the bundle was opened is that of its own parameters.
    pub open spec fn is_keyed_by_parameters(self) -> bool {
        match self.layout {
            Some(layout) => self.has_key(self.triangle_parameters(layout).key()),
            None => self.has_key(self.instance_parameters().key()),
        }
    }
}

/// A bundle that is opened for a surface instance, with that instance in it.
pub open spec fn instance_bundle(
    parameters: InstanceParameters,
    sort_index: u64,
    instance: InstanceView,
) -> BundleView {
    BundleView {
        data: parameters.data,
        time_to_live: TimeToLive::Standard,
        instances: seq![instance],
        material: parameters.material,
        is_skinned: parameters.is_skinned,
        render_path: parameters.render_path,
        decal_layer_index: parameters.decal_layer_index,
        key: parameters.key(),
        sort_index,
        layout: None,
    }
}

/// A bundle that is opened for triangles. It lives for one frame, and its only instance draws all
/// of its surface data as they are.
pub open spec fn triangles_bundle(
    parameters: TriangleParameters,
    sort_index: u64,
    data: SurfaceResource,
    instance: InstanceView,
) -> BundleView {
    BundleView {
        data,
        time_to_live: TimeToLive::Seconds(Real { bits: ZERO_BITS }),
        instances: seq![instance],
        material: parameters.material,
        is_skinned: parameters.is_skinned,
        render_path: parameters.render_path,
        decal_layer_index: parameters.decal_layer_index,
        key: parameters.key(),
        sort_index,
        layout: Some(parameters.layout),
    }
}

/// The place that each key leads to, where the bundles stand in the given order.
pub open spec fn key_index(bundles: Seq<BundleView>) -> Map<u64, usize>
    decreases bundles.len(),
{
    if bundles.len() == 0 {
        Map::empty()
    } else {
        key_index(bundles.drop_last()).insert(bundles.last().key, (bundles.len() - 1) as usize)
    }
}

/// What a bundle storage holds: the bundles, and the place among them for each key.
#[verifier::ext_equal]
pub struct StorageView {
    pub index: Map<u64, usize>,
    pub bundles: Seq<BundleView>,
}

impl StorageView {
    /// The storage without bundles.
    pub open spec fn empty() -> StorageView {
        StorageView { index: Map::empty(), bundles: Seq::empty() }
    }

    /// Whether what is pushed under a key has a place to go to: the key leads to a bundle, or
    /// nowhere.
    pub open spec fn is_open_for(self, key: u64) -> bool {
        self.index.contains_key(key) ==> self.index[key] < self.bundles.len()
    }

    /// Whether the storage is one that pushes lead to, sorted or not: each key leads to the bundle
    /// that was opened under it; each bundle is where its key leads, its key is that of its
    /// parameters, and it has at least one instance.
    pub open spec fn is_built_by_pushes(self) -> bool {
        &&& forall|key: u64| #[trigger]
            self.index.contains_key(key) ==> self.index[key] < self.bundles.len()
                && self.bundles[self.index[key] as int].has_key(key)
        &&& forall|place: int| 0 <= place < self.bundles.len() ==> self.is_sound_at(place)
    }

    /// Whether the bundle in the given place is where its key leads, its key is that of its
    /// parameters, and it has at least one instance.
    pub open spec fn is_sound_at(self, place: int) -> bool {
        let bundle = self.bundles[place];
        &&& self.index.contains_key(bundle.key)
        &&& self.index[bundle.key] == place
        &&& bundle.is_keyed_by_parameters()
        &&& bundle.instances.len() != 0
    }

    /// Whether the storage holds the bundles of another one, each as often, in whatever order, and
    /// each key leads to the bundle that it leads to there.
    pub open spec fn is_reordering_of(self, other: StorageView) -> bool {
        &&& self.bundles.to_multiset() == other.bundles.to_multiset()
        &&& self.index.dom() == other.index.dom()
        &&& forall|key: u64| #[trigger]
            other.index.contains_key(key) ==> self.bundles[self.index[key] as int]
                == other.bundles[other.index[key] as int]
    }

    /// The storage with one more bundle, which `key` leads to.
    pub open spec fn with_bundle(self, key: u64, bundle: BundleView) -> StorageView {
        StorageView {
            index: self.index.insert(key, self.bundles.len() as usize),
            bundles: self.bundles.push(bundle),
        }
    }

    /// The storage after a surface instance was pushed: the bundle that its key leads to has it
    /// as its last instance; where the key leads nowhere, a bundle was opened for it.
    pub open spec fn with_instance(
        self,
        parameters: InstanceParameters,
        sort_index: u64,
        instance: InstanceView,
    ) -> StorageView {
        let key = parameters.key();
        if self.index.contains_key(key) {
            let place = self.index[key] as int;
            StorageView {
                bundles: self.bundles.update(place, self.bundles[place].with_instance(instance)),
                ..self
            }
        } else {
            self.with_bundle(key, instance_bundle(parameters, sort_index, instance))
        }
    }

    /// The storage after a bundle was opened for triangles, with the given new surface data.
    pub open spec fn with_triangles(
        self,
        parameters: TriangleParameters,
        sort_index: u64,
        node_handle: Handle,
        data: SurfaceResource,
        identifier: PersistentIdentifier,
    ) -> StorageView {
        self.with_bundle(
            parameters.key(),
            triangles_bundle(
                parameters,
                sort_index,
                data,
                plain_instance(identifier, node_handle),
            ),
        )
    }
}

/// A trait for an entity that can collect render data.
pub trait RenderDataBundleStorageTrait: Sized {
    /// What was collected so far.
    spec fn collected(&self) -> StorageView;

    /// Whether what is pushed under the given key can be collected.
    spec fn is_open_for(&self, key: u64) -> bool;

    /// Adds a new mesh to the bundle storage using the given set of vertices and triangles. This
    /// method automatically creates a render bundle according to a hash of the following
    /// parameters:
    ///
    /// - Material
    /// - Vertex Type
    /// - Render Path
    /// - Skinning
    /// - Decal Layer Index
    ///
    /// If one of these parameters is different, then a new bundle will be created and used to
    /// store the given vertices and indices. If an appropriate bundle exists, the the method will
    /// store the given vertices and the triangles in it.
    ///
    /// `new_surface` makes the surface data of a new bundle, as a resource that is not kept in a
    /// file: empty buffers for vertices with the given layout and for triangles. It is called only
    /// if there is no appropriate bundle.
    /// `func` writes the vertices and the triangles into the surface data that it is given.
    ///
    /// ## When to use
    ///
    /// This method is used to reduce amount of draw calls of underlying GAPI, by merging small
    /// portions of data into one big block that shares drawing parameters and can be rendered in
    /// a single draw call. The vertices in this case should be pre-processed by applying world
    /// transform to them. This is so-called dynamic batching.
    ///
    /// Do not use this method if you have a mesh with lots of vertices and triangles, because
    /// pre-processing them on CPU could take more time than rendering them directly on GPU
    /// one-by-one.
    fn push_triangles<N, W>(
        &mut self,
        layout: &[VertexAttributeDescriptor],
        material: &MaterialResource,
        render_path: RenderPath,
        decal_layer_index: u8,
        sort_index: u64,
        is_skinned: bool,
        node_handle: Handle,
        new_surface: N,
        func: W,
    ) where N: FnOnce(SurfaceRequest<'_>) -> SurfaceResource, W: FnOnce(SurfaceResource)
        requires
            old(self).is_open_for(
                (TriangleParameters {
                    material: *material,
                    layout: layout@,
                    is_skinned,
                    decal_layer_index,
                    render_path,
                }).key(),
            ),
            ({
                let parameters = TriangleParameters {
                    material: *material,
                    layout: layout@,
                    is_skinned,
                    decal_layer_index,
                    render_path,
                };
                let before = old(self).collected();
                let key = parameters.key();
                if before.index.contains_key(key) {
                    call_requires(func, (before.bundles[before.index[key] as int].data,))
                } else {
                    &&& call_requires(new_surface, (SurfaceRequest::empty_surface(layout),))
                    &&& forall|data: SurfaceResource|
                        call_ensures(
                            new_surface,
                            (SurfaceRequest::empty_surface(layout),),
                            data,
                        ) ==> #[trigger] call_requires(func, (data,))
                }
            }),
        ensures
            forall|key: u64| old(self).is_open_for(key) ==> #[trigger] final(self).is_open_for(key),
            final(self).collected().bundles.len() <= usize::MAX,
            ({
                let parameters = TriangleParameters {
                    material: *material,
                    layout: layout@,
                    is_skinned,
                    decal_layer_index,
                    render_path,
                };
                let before = old(self).collected();
                let after = final(self).collected();
                let key = parameters.key();
                if before.index.contains_key(key) {
                    &&& after == before
                    &&& call_ensures(
                        func,
                        (before.bundles[before.index[key] as int].data,),
                        (),
                    )
                } else {
                    exists|data: SurfaceResource, identifier: PersistentIdentifier|
                        {
                            &&& #[trigger] identifier.identifies(data, node_handle, 0)
                            &&& after == before.with_triangles(
                                parameters,
                                sort_index,
                                node_handle,
                                data,
                                identifier,
                            )
                            &&& call_ensures(
                                new_surface,
                                (SurfaceRequest::empty_surface(layout),),
                                data,
                            )
                            &&& call_ensures(func, (data,), ())
                        }
                }
            }),
    ;

    /// Adds a new surface instance to the storage. The method will automatically put the instance
    /// in the appropriate bundle. Bundle selection is done using the material, surface data,
    /// render path, decal layer index, skinning flag. If only one of these parameters is
    /// different, then the surface instance will be put in a separate bundle.
    fn push(
        &mut self,
        data: &SurfaceResource,
        material: &MaterialResource,
        render_path: RenderPath,
        decal_layer_index: u8,
        sort_index: u64,
        instance_data: SurfaceInstanceData,
    )
        requires
            old(self).is_open_for(
                (InstanceParameters {
                    material: *material,
                    data: *data,
                    is_skinned: instance_data@.is_skinned(),
                    decal_layer_index,
                    render_path,
                }).key(),
            ),
        ensures
            forall|key: u64| old(self).is_open_for(key) ==> #[trigger] final(self).is_open_for(key),
            final(self).collected().bundles.len() <= usize::MAX,
            final(self).collected() == old(self).collected().with_instance(
                InstanceParameters {
                    material: *material,
                    data: *data,
                    is_skinned: instance_data@.is_skinned(),
                    decal_layer_index,
                    render_path,
                },
                sort_index,
                instance_data@,
            ),
    ;
}

/// Bundle storage handles bundle generation for a scene before rendering. It is used to optimize
/// rendering by reducing amount of state changes of OpenGL context.
pub struct RenderDataBundleStorage {
    bundle_map: FxHashMap<u64, usize>,
    /// A sorted list of bundles.
    pub bundles: Vec<RenderDataBundle>,
}

impl View for RenderDataBundleStorage {
    type V = StorageView;

    closed spec fn view(&self) -> StorageView {
        StorageView { index: self.bundle_map@, bundles: bundle_views(self.bundles@) }
    }
}

impl Default for RenderDataBundleStorage {
    /// Creates an empty storage.
    fn default() -> (storage: Self)
        ensures
            storage@ == StorageView::empty(),
            storage@.bundles.len() == 0,
            forall|key: u64| !#[trigger] storage@.index.contains_key(key),
    {
        Self::with_capacity(0)
    }
}

impl RenderDataBundleStorage {
    /// Creates an empty storage with room for the given number of bundles.
    pub(crate) fn with_capacity(capacity: usize) -> (storage: Self)
        ensures
            storage@ == StorageView::empty(),
    {
        RenderDataBundleStorage {
            bundle_map: Self::map_with_capacity(capacity),
            bundles: Vec::with_capacity(capacity),
        }
    }

    /// Creates an empty map with room for the given number of keys, as far as room is made at all.
    fn map_with_capacity(capacity: usize) -> (bundle_map: FxHashMap<u64, usize>)
        ensures
            bundle_map@ == Map::<u64, usize>::empty(),
    {
        fx_map_with_capacity(
            if capacity <= MAP_RESERVE_LIMIT {
                capacity
            } else {
                MAP_RESERVE_LIMIT
            },
        )
    }

    /// There are no more bundles than a vector can hold.
    pub(crate) proof fn lemma_bundle_count_fits(&self)
        ensures
            self@.bundles.len() <= usize::MAX,
    {
        assert(self.bundles.len() == self.bundles@.len());
    }

    /// The bundles.
    pub fn bundles(&self) -> (bundles: &Vec<RenderDataBundle>)
        ensures
            bundle_views(bundles@) == self@.bundles,
            bundles@.len() == self@.bundles.len(),
            forall|i: int|
                0 <= i < bundles@.len() ==> (#[trigger] bundles@[i])@ == self@.bundles[i],
    {
        &self.bundles
    }

    /// The surface data of the bundle that a key leads to, if it leads to one.
    pub(crate) fn surface_under(&self, key: u64) -> (data: Option<SurfaceResource>)
        requires
            self@.is_open_for(key),
        ensures
            data == (if self@.index.contains_key(key) {
                Some(self@.bundles[self@.index[key] as int].data)
            } else {
                None
            }),
    {
        match fx_map_get(&self.bundle_map, key) {
            Some(bundle_index) => Some(self.bundles[bundle_index].data),
            None => None,
        }
    }

    /// Opens a bundle for triangles under their key, with the given new surface data.
    pub(crate) fn open_triangles(
        &mut self,
        key: u64,
        layout: &[VertexAttributeDescriptor],
        material: &MaterialResource,
        render_path: RenderPath,
        decal_layer_index: u8,
        sort_index: u64,
        is_skinned: bool,
        node_handle: Handle,
        data: SurfaceResource,
    )
        requires
            key == (TriangleParameters {
                material: *material,
                layout: layout@,
                is_skinned,
                decal_layer_index,
                render_path,
            }).key(),
        ensures
            exists|identifier: PersistentIdentifier|
                {
                    &&& #[trigger] identifier.identifies(data, node_handle, 0)
                    &&& final(self)@ == old(self)@.with_triangles(
                        TriangleParameters {
                            material: *material,
                            layout: layout@,
                            is_skinned,
                            decal_layer_index,
                            render_path,
                        },
                        sort_index,
                        node_handle,
                        data,
                        identifier,
                    )
                },
    {
        let ghost parameters = TriangleParameters {
            material: *material,
            layout: layout@,
            is_skinned,
            decal_layer_index,
            render_path,
        };
        fx_map_insert(&mut self.bundle_map, key, self.bundles.len());
        let persistent_identifier = PersistentIdentifier::new_combined(&data, node_handle, 0);
        // Each bundle must have at least one instance to be rendered.
        let mut instances: Vec<SurfaceInstanceData> = Vec::new();
        instances.push(SurfaceInstanceData::plain(persistent_identifier, node_handle));
        self.bundles.push(
            RenderDataBundle {
                data,
                tag: BundleTag::new(key, sort_index, Ghost(Some(layout@))),
                instances,
                material: *material,
                is_skinned,
                render_path,
                decal_layer_index,
                // Temporary buffer lives one frame.
                time_to_live: TimeToLive::Seconds(Real { bits: ZERO_BITS }),
            },
        );
        proof {
            let after = old(self)@.with_triangles(
                parameters,
                sort_index,
                node_handle,
                data,
                persistent_identifier,
            );
            assert(self.bundles@.last()@ =~= after.bundles.last());
            assert(self@.bundles =~= after.bundles);
            assert(self@ =~= after);
        }
    }

    /// Sorts the bundles by their respective sort index. Each key leads to its bundle afterwards.
    pub fn sort(&mut self)
        ensures
            final(self)@.bundles.to_multiset() == old(self)@.bundles.to_multiset(),
            final(self)@.bundles.len() == old(self)@.bundles.len(),
            in_rendering_order(final(self)@.bundles),
            forall|i: int, j: int|
                0 <= i < j < final(self)@.bundles.len() ==> (
                #[trigger] final(self)@.bundles[i]).sort_index <= (
                #[trigger] final(self)@.bundles[j]).sort_index,
            final(self)@.index == key_index(final(self)@.bundles),
            forall|key: u64| #[trigger] final(self)@.is_open_for(key),
            old(self)@.is_built_by_pushes() ==> final(self)@.is_built_by_pushes(),
            old(self)@.is_built_by_pushes() ==> final(self)@.index.dom() == old(self)@.index.dom(),
            old(self)@.is_built_by_pushes() ==> forall|key: u64| #[trigger]
                old(self)@.index.contains_key(key)
                    ==> final(self)@.bundles[final(self)@.index[key] as int]
                    == old(self)@.bundles[old(self)@.index[key] as int],
    {
        sort_by_index(&mut self.bundles);
        self.bundle_map = Self::find_places(&self.bundles);
        proof {
            self@.bundles.to_multiset_ensures();
            old(self)@.bundles.to_multiset_ensures();
            self.lemma_bundle_count_fits();
            lemma_key_index(self@.bundles);
            if old(self)@.is_built_by_pushes() {
                lemma_sorted_index(old(self)@, self@);
            }
        }
    }

    /// For each key, the place of the bundle that was opened under it.
    fn find_places(bundles: &Vec<RenderDataBundle>) -> (bundle_map: FxHashMap<u64, usize>)
        ensures
            bundle_map@ == key_index(bundle_views(bundles@)),
    {
        let ghost views = bundle_views(bundles@);
        let mut bundle_map = Self::map_with_capacity(bundles.len());
        let mut place: usize = 0;
        while place < bundles.len()
            invariant
                place <= bundles@.len(),
                views == bundle_views(bundles@),
                bundle_map@ == key_index(views.take(place as int)),
            decreases bundles@.len() - place,
        {
            fx_map_insert(&mut bundle_map, bundles[place].key(), place);
            assert(views.take(place + 1).drop_last() == views.take(place as int));
            place = place + 1;
        }
        assert(views.take(place as int) == views);
        bundle_map
    }
}

impl RenderDataBundleStorageTrait for RenderDataBundleStorage {
    open spec fn collected(&self) -> StorageView {
        self@
    }

    open spec fn is_open_for(&self, key: u64) -> bool {
        self@.is_open_for(key)
    }

    fn push_triangles<N, W>(
        &mut self,
        layout: &[VertexAttributeDescriptor],
        material: &MaterialResource,
        render_path: RenderPath,
        decal_layer_index: u8,
        sort_index: u64,
        is_skinned: bool,
        node_handle: Handle,
        new_surface: N,
        func: W,
    ) where N: FnOnce(SurfaceRequest<'_>) -> SurfaceResource, W: FnOnce(SurfaceResource) {
        let key = triangles_key(material, layout, is_skinned, decal_layer_index, render_path);
        let data = match self.surface_under(key) {
            Some(data) => data,
            None => {
                // Create temporary surface data (valid for one frame).
                let data = new_surface(SurfaceRequest::empty(layout));
                self.open_triangles(
                    key,
                    layout,
                    material,
                    render_path,
                    decal_layer_index,
                    sort_index,
                    is_skinned,
                    node_handle,
                    data,
                );
                data
            },
        };
        func(data);
        proof {
            self.lemma_bundle_count_fits();
        }
    }

    fn push(
        &mut self,
        data: &SurfaceResource,
        material: &MaterialResource,
        render_path: RenderPath,
        decal_layer_index: u8,
        sort_index: u64,
        instance_data: SurfaceInstanceData,
    ) {
        let ghost before = self@;
        let ghost parameters = InstanceParameters {
            material: *material,
            data: *data,
            is_skinned: instance_data@.is_skinned(),
            decal_layer_index,
            render_path,
        };
        let is_skinned = !instance_data.bone_matrices.is_empty();
        let key = instance_key(material, data, is_skinned, decal_layer_index, render_path);
        let bundle_index = match fx_map_get(&self.bundle_map, key) {
            Some(bundle_index) => {
                assert(before.index.contains_key(key));
                bundle_index
            },
            None => {
                let bundle_index = self.bundles.len();
                fx_map_insert(&mut self.bundle_map, key, bundle_index);
                self.bundles.push(
                    RenderDataBundle {
                        data: *data,
                        tag: BundleTag::new(key, sort_index, Ghost(None)),
                        instances: Vec::new(),
                        material: *material,
                        is_skinned,
                        render_path,
                        decal_layer_index,
                        time_to_live: TimeToLive::Standard,
                    },
                );
                bundle_index
            },
        };
        let ghost opened = bundle_views(self.bundles@);
        self.bundles[bundle_index].instances.push(instance_data);
        proof {
            let place = bundle_index as int;
            assert(self.bundles@[place]@ == opened[place].with_instance(instance_data@));
            assert(self@.bundles == opened.update(place, self.bundles@[place]@));
            let after = before.with_instance(parameters, sort_index, instance_data@);
            if !before.index.contains_key(key) {
                assert(opened.drop_last() == before.bundles);
                assert(self@.bundles[place] =~= after.bundles[place]);
            }
            assert(self@.bundles =~= after.bundles);
            assert(self@ =~= after);
            self.lemma_bundle_count_fits();
        }
    }
}

} // verus!
