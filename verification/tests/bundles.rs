use render_bundle::identifier::PersistentIdentifier;
use render_bundle::instance::SurfaceInstanceData;
use render_bundle::keys::instance_key;
use render_bundle::keys::triangles_key;
use render_bundle::resource::ElementRange;
use render_bundle::resource::Handle;
use render_bundle::resource::MaterialResource;
use render_bundle::resource::Matrix4;
use render_bundle::resource::Real;
use render_bundle::resource::RenderPath;
use render_bundle::resource::SurfaceResource;
use render_bundle::resource::TimeToLive;
use render_bundle::resource::VertexAttributeDescriptor;
use render_bundle::storage::RenderDataBundleStorage;
use render_bundle::storage::RenderDataBundleStorageTrait;

const NODE: Handle = Handle { index: 3, generation: 1 };

const POSITION: VertexAttributeDescriptor = VertexAttributeDescriptor {
    usage: 0,
    data_type: 0,
    size: 3,
    divisor: 0,
    shader_location: 0,
    normalized: false,
};

fn rigid(id: u64) -> SurfaceInstanceData {
    SurfaceInstanceData::plain(PersistentIdentifier(id), NODE)
}

fn skinned(id: u64) -> SurfaceInstanceData {
    let mut instance = rigid(id);
    instance.bone_matrices.push(Matrix4::identity());
    instance
}

fn ids(storage: &RenderDataBundleStorage, bundle: usize) -> Vec<u64> {
    storage.bundles[bundle].instances.iter().map(|i| i.persistent_identifier.0).collect()
}

fn push(storage: &mut RenderDataBundleStorage, data: u64, material: u64, instance: SurfaceInstanceData) {
    storage.push(
        &SurfaceResource { key: data },
        &MaterialResource { key: material },
        RenderPath::Deferred,
        0,
        0,
        instance,
    );
}

#[test]
fn default_storage_is_empty() {
    assert!(RenderDataBundleStorage::default().bundles.is_empty());
    assert!(RenderDataBundleStorage::default().bundles().is_empty());
}

#[test]
fn first_instance_opens_a_bundle() {
    let mut storage = RenderDataBundleStorage::default();
    storage.push(
        &SurfaceResource { key: 11 },
        &MaterialResource { key: 22 },
        RenderPath::Forward,
        5,
        77,
        skinned(1),
    );
    assert_eq!(storage.bundles.len(), 1);
    let bundle = &storage.bundles[0];
    assert_eq!(bundle.data.key, 11);
    assert_eq!(bundle.material.key, 22);
    assert!(bundle.is_skinned);
    assert_eq!(bundle.render_path, RenderPath::Forward);
    assert_eq!(bundle.decal_layer_index, 5);
    assert_eq!(bundle.sort_index(), 77);
    assert_eq!(bundle.time_to_live, TimeToLive::Standard);
    assert_eq!(ids(&storage, 0), vec![1]);
}

#[test]
fn equal_parameters_share_a_bundle() {
    let mut storage = RenderDataBundleStorage::default();
    push(&mut storage, 1, 2, rigid(10));
    push(&mut storage, 1, 2, rigid(11));
    push(&mut storage, 1, 2, rigid(12));
    assert_eq!(storage.bundles.len(), 1);
    assert_eq!(ids(&storage, 0), vec![10, 11, 12]);
}

#[test]
fn bundle_keeps_its_first_sort_index() {
    let mut storage = RenderDataBundleStorage::default();
    for sort_index in [8u64, 3, 9] {
        storage.push(
            &SurfaceResource { key: 1 },
            &MaterialResource { key: 2 },
            RenderPath::Deferred,
            0,
            sort_index,
            rigid(sort_index),
        );
    }
    assert_eq!(storage.bundles.len(), 1);
    assert_eq!(storage.bundles[0].sort_index(), 8);
}

#[test]
fn one_different_parameter_separates_instances() {
    let data = SurfaceResource { key: 100 };
    let material = MaterialResource { key: 200 };
    let path = RenderPath::Deferred;
    let mut storage = RenderDataBundleStorage::default();
    storage.push(&data, &material, path, 0, 0, rigid(0));
    storage.push(&SurfaceResource { key: 101 }, &material, path, 0, 0, rigid(1));
    storage.push(&data, &MaterialResource { key: 201 }, path, 0, 0, rigid(2));
    storage.push(&data, &material, RenderPath::Forward, 0, 0, rigid(3));
    storage.push(&data, &material, path, 1, 0, rigid(4));
    storage.push(&data, &material, path, 0, 0, skinned(5));
    assert_eq!(storage.bundles.len(), 6);
    for i in 0..6 {
        assert_eq!(ids(&storage, i), vec![i as u64]);
    }
    storage.push(&data, &material, path, 1, 0, rigid(6));
    assert_eq!(storage.bundles.len(), 6);
    assert_eq!(ids(&storage, 4), vec![4, 6]);
}

#[test]
fn interleaved_instances_go_to_their_bundles() {
    let mut storage = RenderDataBundleStorage::default();
    for i in 0..30u64 {
        push(&mut storage, i % 3, 7, rigid(i));
    }
    assert_eq!(storage.bundles.len(), 3);
    for b in 0..3 {
        let expected: Vec<u64> = (0..10).map(|k| 3 * k + b).collect();
        assert_eq!(ids(&storage, b as usize), expected);
    }
}

#[test]
fn colliding_keys_share_a_bundle() {
    if usize::BITS != 64 {
        return;
    }
    let seed: u64 = 0x517c_c1b7_2722_0a95;
    let (m, n, d) = (1u64, 2u64, 3u64);
    let e = d ^ m.wrapping_mul(seed).rotate_left(5) ^ n.wrapping_mul(seed).rotate_left(5);
    let mut storage = RenderDataBundleStorage::default();
    push(&mut storage, d, m, rigid(1));
    push(&mut storage, e, n, rigid(2));
    assert_eq!(storage.bundles.len(), 1);
    assert_eq!(ids(&storage, 0), vec![1, 2]);
    assert_eq!(storage.bundles[0].material.key, m);
}

#[test]
fn triangles_open_one_bundle_for_a_frame() {
    let mut storage = RenderDataBundleStorage::default();
    let mut written: Vec<u64> = Vec::new();
    storage.push_triangles(
        &[POSITION],
        &MaterialResource { key: 9 },
        RenderPath::Forward,
        2,
        40,
        true,
        NODE,
        |request| {
            assert_eq!(request.layout, &[POSITION]);
            assert_eq!(request.vertex_count, 0);
            assert_eq!(request.vertex_bytes_capacity, 4096);
            assert_eq!(request.triangle_capacity, 12288);
            SurfaceResource { key: 555 }
        },
        |data| written.push(data.key),
    );
    assert_eq!(written, vec![555]);
    assert_eq!(storage.bundles.len(), 1);
    let bundle = &storage.bundles[0];
    assert_eq!(bundle.data.key, 555);
    assert_eq!(bundle.material.key, 9);
    assert_eq!(bundle.sort_index(), 40);
    assert_eq!(bundle.decal_layer_index, 2);
    assert_eq!(bundle.render_path, RenderPath::Forward);
    assert!(bundle.is_skinned);
    assert_eq!(bundle.time_to_live, TimeToLive::Seconds(Real { bits: 0.0f32.to_bits() }));
    assert_eq!(bundle.instances.len(), 1);
    let instance = &bundle.instances[0];
    assert_eq!(instance.node_handle, NODE);
    assert_eq!(
        instance.persistent_identifier,
        PersistentIdentifier::new_combined(&SurfaceResource { key: 555 }, NODE, 0)
    );
    assert!(instance.bone_matrices.is_empty());
    assert!(instance.blend_shapes_weights.is_empty());
    assert_eq!(instance.element_range, ElementRange::Full);
    assert_eq!(instance.depth_offset, Real { bits: 0.0f32.to_bits() });
}

#[test]
fn equal_triangle_parameters_share_surface_data() {
    let mut storage = RenderDataBundleStorage::default();
    let mut written: Vec<u64> = Vec::new();
    let mut made: u64 = 0;
    for _ in 0..3 {
        storage.push_triangles(
            &[POSITION],
            &MaterialResource { key: 9 },
            RenderPath::Forward,
            0,
            0,
            false,
            NODE,
            |_| {
                made += 1;
                SurfaceResource { key: made }
            },
            |data| written.push(data.key),
        );
    }
    assert_eq!(made, 1);
    assert_eq!(written, vec![1, 1, 1]);
    assert_eq!(storage.bundles.len(), 1);
    assert_eq!(storage.bundles[0].instances.len(), 1);
}

#[test]
fn one_different_parameter_separates_triangles() {
    let normal = VertexAttributeDescriptor { usage: 1, shader_location: 1, ..POSITION };
    let wide = VertexAttributeDescriptor { size: 4, ..POSITION };
    let cases: [(&[VertexAttributeDescriptor], u64, RenderPath, u8, bool); 7] = [
        (&[POSITION], 1, RenderPath::Deferred, 0, false),
        (&[POSITION, normal], 1, RenderPath::Deferred, 0, false),
        (&[wide], 1, RenderPath::Deferred, 0, false),
        (&[POSITION], 2, RenderPath::Deferred, 0, false),
        (&[POSITION], 1, RenderPath::Forward, 0, false),
        (&[POSITION], 1, RenderPath::Deferred, 1, false),
        (&[POSITION], 1, RenderPath::Deferred, 0, true),
    ];
    let mut storage = RenderDataBundleStorage::default();
    for round in 0..2 {
        for (i, (layout, material, path, decal, skin)) in cases.iter().enumerate() {
            let mut written: Vec<u64> = Vec::new();
            storage.push_triangles(
                layout,
                &MaterialResource { key: *material },
                *path,
                *decal,
                0,
                *skin,
                NODE,
                |_| SurfaceResource { key: 1000 * (round + 1) + i as u64 },
                |data| written.push(data.key),
            );
            assert_eq!(written, vec![1000 + i as u64]);
        }
    }
    assert_eq!(storage.bundles.len(), 7);
}

#[test]
fn instances_and_triangles_have_separate_bundles() {
    let mut storage = RenderDataBundleStorage::default();
    push(&mut storage, 1, 9, rigid(1));
    assert_eq!(push_triangles(&mut storage, 9, 0, 2), 2);
    assert_eq!(storage.bundles.len(), 2);
    assert_eq!(storage.bundles[0].data.key, 1);
    assert_eq!(ids(&storage, 0), vec![1]);
    assert_eq!(storage.bundles[1].data.key, 2);
}

#[test]
fn sort_orders_by_sort_index() {
    let mut storage = RenderDataBundleStorage::default();
    for (key, sort_index) in [(1u64, 30u64), (2, 10), (3, 20), (4, 10), (5, u64::MAX), (6, 0)] {
        storage.push(
            &SurfaceResource { key },
            &MaterialResource { key: 1 },
            RenderPath::Deferred,
            0,
            sort_index,
            rigid(key),
        );
    }
    storage.sort();
    let indices: Vec<u64> = storage.bundles.iter().map(|b| b.sort_index()).collect();
    assert_eq!(indices, vec![0, 10, 10, 20, 30, u64::MAX]);
    let mut keys: Vec<u64> = storage.bundles.iter().map(|b| b.data.key).collect();
    assert_eq!((keys[0], keys[3], keys[4], keys[5]), (6, 3, 1, 5));
    keys.sort();
    assert_eq!(keys, vec![1, 2, 3, 4, 5, 6]);
    for bundle in storage.bundles.iter() {
        assert_eq!(bundle.instances.len(), 1);
        assert_eq!(bundle.instances[0].persistent_identifier.0, bundle.data.key);
    }
    storage.sort();
    let again: Vec<u64> = storage.bundles.iter().map(|b| b.sort_index()).collect();
    assert_eq!(indices, again);
}

#[test]
fn pushes_after_sorting_find_their_bundles() {
    let mut storage = RenderDataBundleStorage::default();
    for (key, sort_index) in [(1u64, 2u64), (2, 1)] {
        storage.push(
            &SurfaceResource { key },
            &MaterialResource { key: 1 },
            RenderPath::Deferred,
            0,
            sort_index,
            rigid(key),
        );
    }
    storage.sort();
    push(&mut storage, 1, 1, rigid(3));
    assert_eq!(storage.bundles.len(), 2);
    assert_eq!(storage.bundles[0].data.key, 2);
    assert_eq!(ids(&storage, 0), vec![2]);
    assert_eq!(storage.bundles[1].data.key, 1);
    assert_eq!(ids(&storage, 1), vec![1, 3]);
}

/// Pushes triangles with a material, and gives back the surface data that they go into.
fn push_triangles(
    storage: &mut RenderDataBundleStorage,
    material: u64,
    sort_index: u64,
    surface: u64,
) -> u64 {
    let mut written: Vec<u64> = Vec::new();
    storage.push_triangles(
        &[POSITION],
        &MaterialResource { key: material },
        RenderPath::Deferred,
        0,
        sort_index,
        false,
        NODE,
        |_| SurfaceResource { key: surface },
        |data| written.push(data.key),
    );
    assert_eq!(written.len(), 1);
    written[0]
}

#[test]
fn triangles_after_sorting_find_their_bundles() {
    let mut storage = RenderDataBundleStorage::default();
    assert_eq!(push_triangles(&mut storage, 1, 2, 100), 100);
    assert_eq!(push_triangles(&mut storage, 2, 1, 200), 200);
    storage.sort();
    assert_eq!(push_triangles(&mut storage, 1, 0, 300), 100);
    assert_eq!(push_triangles(&mut storage, 2, 0, 400), 200);
    let found: Vec<(u64, u64, usize)> = storage
        .bundles
        .iter()
        .map(|b| (b.material.key, b.data.key, b.instances.len()))
        .collect();
    assert_eq!(found, vec![(2, 200, 1), (1, 100, 1)]);
}

#[test]
fn many_keys_are_found_again_after_sorting() {
    let mut storage = RenderDataBundleStorage::default();
    for key in 0..300u64 {
        storage.push(
            &SurfaceResource { key },
            &MaterialResource { key: 1 },
            RenderPath::Deferred,
            0,
            (key * 7919) % 101,
            rigid(key),
        );
    }
    storage.sort();
    storage.sort();
    for key in 0..300u64 {
        push(&mut storage, key, 1, rigid(1000 + key));
    }
    assert_eq!(storage.bundles.len(), 300);
    for i in 0..300 {
        let key = storage.bundles[i].data.key;
        assert_eq!(ids(&storage, i), vec![key, 1000 + key]);
        assert_eq!(storage.bundles[i].sort_index(), (key * 7919) % 101);
    }
}

#[test]
fn bundles_know_their_keys() {
    let mut storage = RenderDataBundleStorage::default();
    push(&mut storage, 5, 6, skinned(1));
    push_triangles(&mut storage, 6, 0, 7);
    let (data, material) = (SurfaceResource { key: 5 }, MaterialResource { key: 6 });
    let path = RenderPath::Deferred;
    assert_eq!(storage.bundles[0].key(), instance_key(&material, &data, true, 0, path));
    assert_eq!(storage.bundles[1].key(), triangles_key(&material, &[POSITION], false, 0, path));
}

#[test]
fn different_triangles_have_their_own_bundles() {
    let mut storage = RenderDataBundleStorage::default();
    assert_eq!(push_triangles(&mut storage, 1, 8, 100), 100);
    assert_eq!(push_triangles(&mut storage, 2, 9, 200), 200);
    assert_eq!(storage.bundles.len(), 2);
    for (bundle, expected) in storage.bundles.iter().zip([(1, 100, 8), (2, 200, 9)]) {
        assert_eq!((bundle.material.key, bundle.data.key, bundle.sort_index()), expected);
        assert_eq!(bundle.instances.len(), 1);
    }
}

#[test]
fn fresh_surfaces_stay_apart() {
    let mut storage = RenderDataBundleStorage::default();
    push(&mut storage, 1, 1, rigid(1));
    push(&mut storage, 1, 2, rigid(2));
    for material in 1..4u64 {
        push_triangles(&mut storage, material, 10 - material, 100 + material);
        push_triangles(&mut storage, material, 0, 200 + material);
    }
    storage.sort();
    let mut surfaces: Vec<u64> = storage.bundles.iter().map(|b| b.data.key).collect();
    surfaces.sort();
    assert_eq!(surfaces, vec![1, 1, 101, 102, 103]);
}

#[test]
fn triangles_add_as_many_instances_as_bundles() {
    let mut storage = RenderDataBundleStorage::default();
    let count = |storage: &RenderDataBundleStorage| -> usize {
        storage.bundles.iter().map(|b| b.instances.len()).sum()
    };
    push(&mut storage, 1, 1, rigid(1));
    push(&mut storage, 1, 1, rigid(2));
    assert_eq!((storage.bundles.len(), count(&storage)), (1, 2));
    push_triangles(&mut storage, 1, 0, 50);
    assert_eq!((storage.bundles.len(), count(&storage)), (2, 3));
    push_triangles(&mut storage, 1, 0, 51);
    assert_eq!((storage.bundles.len(), count(&storage)), (2, 3));
}

#[test]
fn bundles_describe_themselves() {
    let mut storage = RenderDataBundleStorage::default();
    push(&mut storage, 1234567890, 1, rigid(1));
    assert_eq!(storage.bundles[0].describe(), "Bundle 1234567890: 1 instances");
    for i in 0..11 {
        push(&mut storage, 1234567890, 1, rigid(i));
    }
    assert_eq!(storage.bundles[0].describe(), "Bundle 1234567890: 12 instances");
    push(&mut storage, 0, 1, rigid(1));
    storage.bundles[1].instances.clear();
    assert_eq!(storage.bundles[1].describe(), "Bundle 0: 0 instances");
    push(&mut storage, u64::MAX, 1, rigid(1));
    assert_eq!(storage.bundles[2].describe(), "Bundle 18446744073709551615: 1 instances");
}

#[test]
fn identity_has_ones_on_its_diagonal() {
    let matrix = Matrix4::identity();
    for column in 0..4 {
        for row in 0..4 {
            let expected: f32 = if row == column { 1.0 } else { 0.0 };
            assert_eq!(matrix.elements[4 * column + row].bits, expected.to_bits());
        }
    }
}

#[test]
fn many_keys_are_found_again() {
    let mut storage = RenderDataBundleStorage::default();
    for round in 0..2u64 {
        for key in 0..500u64 {
            push(&mut storage, key * 4096, 77, rigid(round));
        }
    }
    assert_eq!(storage.bundles.len(), 500);
    for (i, bundle) in storage.bundles.iter().enumerate() {
        assert_eq!(bundle.data.key, i as u64 * 4096);
        assert_eq!(bundle.instances.len(), 2);
    }
    let key = instance_key(
        &MaterialResource { key: 77 },
        &SurfaceResource { key: 4096 },
        false,
        0,
        RenderPath::Deferred,
    );
    assert_ne!(key, 4096);
}
