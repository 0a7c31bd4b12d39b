use fxhash::FxHasher;
use render_bundle::identifier::native_order;
use render_bundle::identifier::ByteOrder;
use render_bundle::identifier::PersistentIdentifier;
use render_bundle::keys::instance_key;
use render_bundle::keys::triangles_key;
use render_bundle::resource::Handle;
use render_bundle::resource::MaterialResource;
use render_bundle::resource::RenderPath;
use render_bundle::resource::SurfaceResource;
use render_bundle::resource::VertexAttributeDescriptor;
use std::collections::hash_map::DefaultHasher;
use std::hash::Hash;
use std::hash::Hasher;

const LAYOUT: [VertexAttributeDescriptor; 2] = [
    VertexAttributeDescriptor {
        usage: 0,
        data_type: 0,
        size: 3,
        divisor: 0,
        shader_location: 0,
        normalized: false,
    },
    VertexAttributeDescriptor {
        usage: 13,
        data_type: 3,
        size: 4,
        divisor: 1,
        shader_location: 5,
        normalized: true,
    },
];

#[test]
fn instance_key_has_its_exact_value() {
    let key = instance_key(
        &MaterialResource { key: 0x1111 },
        &SurfaceResource { key: 0x2222 },
        true,
        7,
        RenderPath::Forward,
    );
    if usize::BITS == 64 {
        assert_eq!(key, 0x1b87_d258_82a8_49fc);
    }
    let mut hasher = FxHasher::default();
    hasher.write_u64(0x1111);
    hasher.write_u64(0x2222);
    hasher.write_u8(1);
    hasher.write_u8(7);
    hasher.write_u32(1);
    assert_eq!(key, hasher.finish());
}

#[test]
fn triangles_key_has_its_exact_value() {
    let key = triangles_key(
        &MaterialResource { key: 0x1111 },
        &LAYOUT,
        false,
        2,
        RenderPath::Deferred,
    );
    if usize::BITS == 64 {
        assert_eq!(key, 0x8700_0807_72be_573a);
    }
    let mut hasher = FxHasher::default();
    hasher.write_u64(0x1111);
    hasher.write_usize(2);
    for word in [0u32, 0, 3, 0, 0, 0, 13, 3, 4, 1, 5, 1] {
        hasher.write_u32(word);
    }
    hasher.write_u8(0);
    hasher.write_u8(2);
    hasher.write_u32(0);
    assert_eq!(key, hasher.finish());
}

#[test]
fn layout_hashes_as_its_derived_hash_does() {
    let mut hasher = FxHasher::default();
    hasher.write_u64(5);
    LAYOUT[..].hash(&mut hasher);
    hasher.write_u8(1);
    hasher.write_u8(0);
    hasher.write_u32(1);
    let key = triangles_key(&MaterialResource { key: 5 }, &LAYOUT, true, 0, RenderPath::Forward);
    assert_eq!(key, hasher.finish());
}

#[test]
fn one_different_field_changes_the_layout_key() {
    let material = MaterialResource { key: 5 };
    let key = |layout: &[VertexAttributeDescriptor]| {
        triangles_key(&material, layout, false, 0, RenderPath::Deferred)
    };
    let base = key(&LAYOUT);
    let a = LAYOUT[0];
    let changed = [
        VertexAttributeDescriptor { usage: 1, ..a },
        VertexAttributeDescriptor { data_type: 1, ..a },
        VertexAttributeDescriptor { size: 2, ..a },
        VertexAttributeDescriptor { divisor: 1, ..a },
        VertexAttributeDescriptor { shader_location: 9, ..a },
        VertexAttributeDescriptor { normalized: true, ..a },
    ];
    for attribute in changed {
        assert_ne!(key(&[attribute, LAYOUT[1]]), base);
    }
    assert_ne!(key(&[]), base);
    assert_ne!(key(&LAYOUT[..1]), base);
}

#[test]
fn resource_keys_count_in_both_halves() {
    let data = SurfaceResource { key: 1 };
    let key = |material: u64| {
        instance_key(&MaterialResource { key: material }, &data, false, 0, RenderPath::Deferred)
    };
    assert_ne!(key(1), key(1 + (1u64 << 32)));
    assert_ne!(key(1), key(1 + (1u64 << 63)));
    assert_ne!(key(1), key(2));
    assert_eq!(key(7), key(7));
}

#[test]
fn identifier_hashes_handle_key_and_index() {
    for (index, generation, surface, place) in
        [(0u32, 0u32, 0u64, 0usize), (3, 1, 77, 0), (0x0102_0304, 0xa0b0_c0d0, 0x1122_3344_5566_7788, 258)]
    {
        let mut hasher = DefaultHasher::new();
        hasher.write_u32(index);
        hasher.write_u32(generation);
        hasher.write_u64(surface);
        hasher.write_usize(place);
        let identifier = PersistentIdentifier::new_combined(
            &SurfaceResource { key: surface },
            Handle { index, generation },
            place,
        );
        assert_eq!(identifier, PersistentIdentifier(hasher.finish()));
    }
}

#[test]
fn identifier_follows_the_byte_order() {
    let expected = if 1u16.to_ne_bytes() == [1, 0] {
        ByteOrder::LittleEndian
    } else {
        ByteOrder::BigEndian
    };
    assert_eq!(native_order(), expected);
    let handle = Handle { index: 0x0102_0304, generation: 9 };
    let data = SurfaceResource { key: 0x1122 };
    assert_eq!(
        PersistentIdentifier::combined_in_order(native_order(), &data, handle, 5),
        PersistentIdentifier::new_combined(&data, handle, 5)
    );
}

#[test]
fn identifiers_are_persistent() {
    let handle = Handle { index: 3, generation: 1 };
    let data = SurfaceResource { key: 77 };
    let identifier = PersistentIdentifier::new_combined(&data, handle, 0);
    assert_eq!(identifier, PersistentIdentifier::new_combined(&data, handle, 0));
    assert_ne!(identifier, PersistentIdentifier::new_combined(&data, handle, 1));
    assert_ne!(
        identifier,
        PersistentIdentifier::new_combined(&SurfaceResource { key: 78 }, handle, 0)
    );
    assert_ne!(
        identifier,
        PersistentIdentifier::new_combined(&data, Handle { index: 3, generation: 2 }, 0)
    );
}
