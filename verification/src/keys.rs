//! Bundle keys: hashes of the drawing parameters that the instances of a bundle share.
use core::hash::Hasher;
use fxhash::FxHasher;
use vstd::prelude::*;

use crate::fx::fx_state;
use crate::fx::fx_u64;
use crate::fx::fx_u64_separates_numbers;
use crate::fx::fx_u64_separates_states;
use crate::fx::fx_word;
use crate::fx::fx_word_separates_states;
use crate::fx::fx_word_separates_words;
use crate::resource::MaterialResource;
use crate::resource::RenderPath;
use crate::resource::SurfaceResource;
use crate::resource::VertexAttributeDescriptor;

verus! {

/// The parameters by which a surface instance is put in a bundle.
pub struct InstanceParameters {
    pub material: MaterialResource,
    pub data: SurfaceResource,
    pub is_skinned: bool,
    pub decal_layer_index: u8,
    pub render_path: RenderPath,
}

/// The parameters by which triangles are put in a bundle.
pub struct TriangleParameters {
    pub material: MaterialResource,
    pub layout: Seq<VertexAttributeDescriptor>,
    pub is_skinned: bool,
    pub decal_layer_index: u8,
    pub render_path: RenderPath,
}

/// One for a set flag, zero for a clear one.
pub open spec fn flag_word(flag: bool) -> usize {
    if flag {
        1
    } else {
        0
    }
}

/// The hash after the parameters are mixed into it that both kinds of keys end with.
pub open spec fn tail_state(
    state: usize,
    is_skinned: bool,
    decal_layer_index: u8,
    render_path: RenderPath,
) -> usize {
    fx_word(
        fx_word(fx_word(state, flag_word(is_skinned)), decal_layer_index as usize),
        render_path.number() as usize,
    )
}

/// The hash after a vertex attribute is mixed into it.
pub open spec fn attribute_state(state: usize, attribute: VertexAttributeDescriptor) -> usize {
    let s = fx_word(state, attribute.usage as usize);
    let s = fx_word(s, attribute.data_type as usize);
    let s = fx_word(s, attribute.size as usize);
    let s = fx_word(s, attribute.divisor as usize);
    let s = fx_word(s, attribute.shader_location as usize);
    fx_word(s, flag_word(attribute.normalized))
}

/// The hash after vertex attributes are mixed into it, one after another.
pub open spec fn attributes_state(
    state: usize,
    attributes: Seq<VertexAttributeDescriptor>,
) -> usize
    decreases attributes.len(),
{
    if attributes.len() == 0 {
        state
    } else {
        attribute_state(attributes_state(state, attributes.drop_last()), attributes.last())
    }
}

/// The hash after a vertex layout is mixed into it: the number of its attributes, and then each.
pub open spec fn layout_state(state: usize, layout: Seq<VertexAttributeDescriptor>) -> usize {
    attributes_state(fx_word(state, layout.len() as usize), layout)
}

impl InstanceParameters {
    /// The key of the bundle that instances with these parameters belong to.
    pub open spec fn key(&self) -> u64 {
        tail_state(
            fx_u64(fx_u64(0, self.material.key), self.data.key),
            self.is_skinned,
            self.decal_layer_index,
            self.render_path,
        ) as u64
    }
}

impl TriangleParameters {
    /// The key of the bundle that triangles with these parameters belong to.
    pub open spec fn key(&self) -> u64 {
        tail_state(
            layout_state(fx_u64(0, self.material.key), self.layout),
            self.is_skinned,
            self.decal_layer_index,
            self.render_path,
        ) as u64
    }
}

/// Mixes in what both kinds of keys end with.
fn hash_tail(
    hasher: &mut FxHasher,
    is_skinned: bool,
    decal_layer_index: u8,
    render_path: RenderPath,
)
    ensures
        fx_state(*final(hasher)) == tail_state(
            fx_state(*old(hasher)),
            is_skinned,
            decal_layer_index,
            render_path,
        ),
{
    hasher.write_u8(
        if is_skinned {
            1
        } else {
            0
        },
    );
    hasher.write_u8(decal_layer_index);
    hasher.write_u32(render_path.as_u32());
}

/// Mixes in a vertex layout.
fn hash_layout(hasher: &mut FxHasher, layout: &[VertexAttributeDescriptor])
    ensures
        fx_state(*final(hasher)) == layout_state(fx_state(*old(hasher)), layout@),
{
    hasher.write_usize(layout.len());
    let ghost start = fx_state(*hasher);
    let mut i: usize = 0;
    while i < layout.len()
        invariant
            i <= layout@.len(),
            fx_state(*hasher) == attributes_state(start, layout@.take(i as int)),
        decreases layout@.len() - i,
    {
        let attribute = layout[i];
        hasher.write_u32(attribute.usage);
        hasher.write_u8(attribute.data_type);
        hasher.write_u8(attribute.size);
        hasher.write_u8(attribute.divisor);
        hasher.write_u8(attribute.shader_location);
        hasher.write_u8(
            if attribute.normalized {
                1
            } else {
                0
            },
        );
        assert(layout@.take(i + 1).drop_last() == layout@.take(i as int));
        i = i + 1;
    }
    assert(layout@.take(i as int) == layout@);
}

/// The key of the bundle that a surface instance is put in.
pub fn instance_key(
    material: &MaterialResource,
    data: &SurfaceResource,
    is_skinned: bool,
    decal_layer_index: u8,
    render_path: RenderPath,
) -> (key: u64)
    ensures
        key == (InstanceParameters {
            material: *material,
            data: *data,
            is_skinned,
            decal_layer_index,
            render_path,
        }).key(),
{
    let mut hasher = FxHasher::default();
    hasher.write_u64(material.key);
    hasher.write_u64(data.key);
    hash_tail(&mut hasher, is_skinned, decal_layer_index, render_path);
    hasher.finish()
}

/// The key of the bundle that triangles are put in.
pub fn triangles_key(
    material: &MaterialResource,
    layout: &[VertexAttributeDescriptor],
    is_skinned: bool,
    decal_layer_index: u8,
    render_path: RenderPath,
) -> (key: u64)
    ensures
        key == (TriangleParameters {
            material: *material,
            layout: layout@,
            is_skinned,
            decal_layer_index,
            render_path,
        }).key(),
{
    let mut hasher = FxHasher::default();
    hasher.write_u64(material.key);
    hash_layout(&mut hasher, layout);
    hash_tail(&mut hasher, is_skinned, decal_layer_index, render_path);
    hasher.finish()
}

/// One for a difference, zero for none.
pub open spec fn difference(differs: bool) -> int {
    if differs {
        1
    } else {
        0
    }
}

impl InstanceParameters {
    /// Whether exactly one of the parameters is different in `other`.
    pub open spec fn differs_in_one(&self, other: &Self) -> bool {
        difference(self.material != other.material) + difference(self.data != other.data)
            + difference(self.is_skinned != other.is_skinned) + difference(
            self.decal_layer_index != other.decal_layer_index,
        ) + difference(self.render_path != other.render_path) == 1
    }

    /// Whether resource keys that differ leave different hashes. With machine words of 64 bits
    /// they always do.
    pub open spec fn resources_mix_apart(&self, other: &Self) -> bool {
        let (m, n) = (fx_u64(0, self.material.key), fx_u64(0, other.material.key));
        &&& self.material != other.material ==> m != n
        &&& self.data != other.data ==> fx_u64(m, self.data.key) != fx_u64(m, other.data.key)
    }
}

impl TriangleParameters {
    /// Whether exactly one of the parameters is different in `other`.
    pub open spec fn differs_in_one(&self, other: &Self) -> bool {
        difference(self.material != other.material) + difference(self.layout != other.layout)
            + difference(self.is_skinned != other.is_skinned) + difference(
            self.decal_layer_index != other.decal_layer_index,
        ) + difference(self.render_path != other.render_path) == 1
    }

    /// Whether a material key or a layout that differs leaves a different hash.
    pub open spec fn resources_mix_apart(&self, other: &Self) -> bool {
        let (m, n) = (fx_u64(0, self.material.key), fx_u64(0, other.material.key));
        &&& self.material != other.material ==> m != n
        &&& self.layout != other.layout ==> layout_state(m, self.layout) != layout_state(
            m,
            other.layout,
        )
    }
}

/// Hashes that differ still differ after the same tail is mixed into both.
proof fn lemma_tail_separates_states(
    s: usize,
    t: usize,
    is_skinned: bool,
    decal_layer_index: u8,
    render_path: RenderPath,
)
    requires
        s != t,
    ensures
        tail_state(s, is_skinned, decal_layer_index, render_path) != tail_state(
            t,
            is_skinned,
            decal_layer_index,
            render_path,
        ),
{
    let (f, d) = (flag_word(is_skinned), decal_layer_index as usize);
    fx_word_separates_states(s, t, f);
    fx_word_separates_states(fx_word(s, f), fx_word(t, f), d);
    fx_word_separates_states(
        fx_word(fx_word(s, f), d),
        fx_word(fx_word(t, f), d),
        render_path.number() as usize,
    );
}

/// A hash differs after tails are mixed into it that differ in exactly one place.
proof fn lemma_tail_separates_parameters(
    s: usize,
    skinned: (bool, bool),
    decal: (u8, u8),
    path: (RenderPath, RenderPath),
)
    requires
        difference(skinned.0 != skinned.1) + difference(decal.0 != decal.1) + difference(
            path.0 != path.1,
        ) == 1,
    ensures
        tail_state(s, skinned.0, decal.0, path.0) != tail_state(s, skinned.1, decal.1, path.1),
{
    let (f, g) = (fx_word(s, flag_word(skinned.0)), fx_word(s, flag_word(skinned.1)));
    let (d, e) = (decal.0 as usize, decal.1 as usize);
    let (p, q) = (path.0.number() as usize, path.1.number() as usize);
    if skinned.0 != skinned.1 {
        fx_word_separates_words(s, flag_word(skinned.0), flag_word(skinned.1));
        fx_word_separates_states(f, g, d);
        fx_word_separates_states(fx_word(f, d), fx_word(g, d), p);
    } else if decal.0 != decal.1 {
        fx_word_separates_words(f, d, e);
        fx_word_separates_states(fx_word(f, d), fx_word(f, e), p);
    } else {
        fx_word_separates_words(fx_word(f, d), p, q);
    }
}

/// With machine words of 64 bits, resource keys that differ always leave different hashes.
pub proof fn wide_words_mix_instance_resources_apart(a: InstanceParameters, b: InstanceParameters)
    requires
        usize::BITS == 64,
    ensures
        a.resources_mix_apart(&b),
{
    if a.material != b.material {
        fx_u64_separates_numbers(0, a.material.key, b.material.key);
    }
    if a.data != b.data {
        fx_u64_separates_numbers(fx_u64(0, a.material.key), a.data.key, b.data.key);
    }
}

/// If only one of the parameters is different, a surface instance belongs to another bundle.
pub proof fn one_different_parameter_changes_instance_key(
    a: InstanceParameters,
    b: InstanceParameters,
)
    requires
        a.differs_in_one(&b),
        usize::BITS == 64 || a.resources_mix_apart(&b),
    ensures
        a.key() != b.key(),
{
    if usize::BITS == 64 {
        wide_words_mix_instance_resources_apart(a, b);
    }
    let (m, n) = (fx_u64(0, a.material.key), fx_u64(0, b.material.key));
    let (s, t) = (fx_u64(m, a.data.key), fx_u64(n, b.data.key));
    if a.material != b.material {
        fx_u64_separates_states(m, n, a.data.key);
    }
    if s != t {
        lemma_tail_separates_states(s, t, a.is_skinned, a.decal_layer_index, a.render_path);
    } else {
        lemma_tail_separates_parameters(
            s,
            (a.is_skinned, b.is_skinned),
            (a.decal_layer_index, b.decal_layer_index),
            (a.render_path, b.render_path),
        );
    }
}

/// If only one of the parameters is different, triangles belong to another bundle. A layout
/// counts as different if it leaves a different hash; a material always does with machine words of
/// 64 bits.
pub proof fn one_different_parameter_changes_triangles_key(
    a: TriangleParameters,
    b: TriangleParameters,
)
    requires
        a.differs_in_one(&b),
        (usize::BITS == 64 && a.layout == b.layout) || a.resources_mix_apart(&b),
    ensures
        a.key() != b.key(),
{
    if usize::BITS == 64 && a.layout == b.layout {
        wide_words_mix_triangle_materials_apart(a, b);
    }
    let (m, n) = (fx_u64(0, a.material.key), fx_u64(0, b.material.key));
    let (s, t) = (layout_state(m, a.layout), layout_state(n, b.layout));
    if a.material != b.material {
        lemma_layout_separates_states(m, n, a.layout);
    }
    if s != t {
        lemma_tail_separates_states(s, t, a.is_skinned, a.decal_layer_index, a.render_path);
    } else {
        lemma_tail_separates_parameters(
            s,
            (a.is_skinned, b.is_skinned),
            (a.decal_layer_index, b.decal_layer_index),
            (a.render_path, b.render_path),
        );
    }
}

/// Hashes that differ still differ after the same attribute is mixed into both.
proof fn lemma_attribute_separates_states(s: usize, t: usize, a: VertexAttributeDescriptor)
    requires
        s != t,
    ensures
        attribute_state(s, a) != attribute_state(t, a),
{
    let (s1, t1) = (fx_word(s, a.usage as usize), fx_word(t, a.usage as usize));
    fx_word_separates_states(s, t, a.usage as usize);
    let (s2, t2) = (fx_word(s1, a.data_type as usize), fx_word(t1, a.data_type as usize));
    fx_word_separates_states(s1, t1, a.data_type as usize);
    let (s3, t3) = (fx_word(s2, a.size as usize), fx_word(t2, a.size as usize));
    fx_word_separates_states(s2, t2, a.size as usize);
    let (s4, t4) = (fx_word(s3, a.divisor as usize), fx_word(t3, a.divisor as usize));
    fx_word_separates_states(s3, t3, a.divisor as usize);
    let (s5, t5) = (
        fx_word(s4, a.shader_location as usize),
        fx_word(t4, a.shader_location as usize),
    );
    fx_word_separates_states(s4, t4, a.shader_location as usize);
    fx_word_separates_states(s5, t5, flag_word(a.normalized));
}

/// Hashes that differ still differ after the same attributes are mixed into both.
proof fn lemma_attributes_separate_states(
    s: usize,
    t: usize,
    attributes: Seq<VertexAttributeDescriptor>,
)
    requires
        s != t,
    ensures
        attributes_state(s, attributes) != attributes_state(t, attributes),
    decreases attributes.len(),
{
    if attributes.len() != 0 {
        lemma_attributes_separate_states(s, t, attributes.drop_last());
        lemma_attribute_separates_states(
            attributes_state(s, attributes.drop_last()),
            attributes_state(t, attributes.drop_last()),
            attributes.last(),
        );
    }
}

/// Hashes that differ still differ after the same layout is mixed into both.
proof fn lemma_layout_separates_states(
    s: usize,
    t: usize,
    layout: Seq<VertexAttributeDescriptor>,
)
    requires
        s != t,
    ensures
        layout_state(s, layout) != layout_state(t, layout),
{
    let n = layout.len() as usize;
    fx_word_separates_states(s, t, n);
    lemma_attributes_separate_states(fx_word(s, n), fx_word(t, n), layout);
}

/// In how many fields two vertex attributes differ.
pub open spec fn attribute_differences(
    a: VertexAttributeDescriptor,
    b: VertexAttributeDescriptor,
) -> int {
    difference(a.usage != b.usage) + difference(a.data_type != b.data_type) + difference(
        a.size != b.size,
    ) + difference(a.divisor != b.divisor) + difference(a.shader_location != b.shader_location)
        + difference(a.normalized != b.normalized)
}

/// Whether two layouts are the same up to one field of the attribute at `place`.
pub open spec fn layouts_differ_in_one_field(
    a: Seq<VertexAttributeDescriptor>,
    b: Seq<VertexAttributeDescriptor>,
    place: int,
) -> bool {
    &&& a.len() == b.len()
    &&& 0 <= place < a.len()
    &&& attribute_differences(a[place], b[place]) == 1
    &&& forall|j: int| 0 <= j < a.len() && j != place ==> a[j] == b[j]
}

/// A hash differs after attributes are mixed into it that differ in exactly one field.
proof fn lemma_attribute_separates_fields(
    s: usize,
    a: VertexAttributeDescriptor,
    b: VertexAttributeDescriptor,
)
    requires
        attribute_differences(a, b) == 1,
    ensures
        attribute_state(s, a) != attribute_state(s, b),
{
    let (a1, b1) = (fx_word(s, a.usage as usize), fx_word(s, b.usage as usize));
    let (a2, b2) = (fx_word(a1, a.data_type as usize), fx_word(b1, b.data_type as usize));
    let (a3, b3) = (fx_word(a2, a.size as usize), fx_word(b2, b.size as usize));
    let (a4, b4) = (fx_word(a3, a.divisor as usize), fx_word(b3, b.divisor as usize));
    let (a5, b5) = (
        fx_word(a4, a.shader_location as usize),
        fx_word(b4, b.shader_location as usize),
    );
    if a.usage != b.usage {
        fx_word_separates_words(s, a.usage as usize, b.usage as usize);
    }
    if a1 != b1 {
        fx_word_separates_states(a1, b1, a.data_type as usize);
    } else if a.data_type != b.data_type {
        fx_word_separates_words(a1, a.data_type as usize, b.data_type as usize);
    }
    if a2 != b2 {
        fx_word_separates_states(a2, b2, a.size as usize);
    } else if a.size != b.size {
        fx_word_separates_words(a2, a.size as usize, b.size as usize);
    }
    if a3 != b3 {
        fx_word_separates_states(a3, b3, a.divisor as usize);
    } else if a.divisor != b.divisor {
        fx_word_separates_words(a3, a.divisor as usize, b.divisor as usize);
    }
    if a4 != b4 {
        fx_word_separates_states(a4, b4, a.shader_location as usize);
    } else if a.shader_location != b.shader_location {
        fx_word_separates_words(a4, a.shader_location as usize, b.shader_location as usize);
    }
    if a5 != b5 {
        fx_word_separates_states(a5, b5, flag_word(a.normalized));
    } else {
        fx_word_separates_words(a5, flag_word(a.normalized), flag_word(b.normalized));
    }
}

proof fn lemma_attributes_separate_fields(
    s: usize,
    a: Seq<VertexAttributeDescriptor>,
    b: Seq<VertexAttributeDescriptor>,
    place: int,
)
    requires
        layouts_differ_in_one_field(a, b, place),
    ensures
        attributes_state(s, a) != attributes_state(s, b),
    decreases a.len(),
{
    let (c, d) = (a.drop_last(), b.drop_last());
    if place == a.len() - 1 {
        assert(c == d);
        lemma_attribute_separates_fields(attributes_state(s, c), a.last(), b.last());
    } else {
        lemma_attributes_separate_fields(s, c, d, place);
        lemma_attribute_separates_states(
            attributes_state(s, c),
            attributes_state(s, d),
            a.last(),
        );
    }
}

/// Layouts that differ in a single field leave different hashes.
pub proof fn one_different_field_changes_layout_hash(
    s: usize,
    a: Seq<VertexAttributeDescriptor>,
    b: Seq<VertexAttributeDescriptor>,
    place: int,
)
    requires
        layouts_differ_in_one_field(a, b, place),
    ensures
        layout_state(s, a) != layout_state(s, b),
{
    lemma_attributes_separate_fields(fx_word(s, a.len() as usize), a, b, place);
}

/// With machine words of 64 bits, materials that differ always leave different hashes.
pub proof fn wide_words_mix_triangle_materials_apart(a: TriangleParameters, b: TriangleParameters)
    requires
        usize::BITS == 64,
        a.layout == b.layout,
    ensures
        a.resources_mix_apart(&b),
{
    if a.material != b.material {
        fx_u64_separates_numbers(0, a.material.key, b.material.key);
    }
}

/// The key of an instance is the hash of its five parameters, one after another: the material, the
/// surface data, whether it is skinned, the decal layer, and the number of the render path.
pub proof fn instance_keys_mix_all_parameters(p: InstanceParameters)
    ensures
        ({
            let s = fx_u64(fx_u64(0, p.material.key), p.data.key);
            let s = fx_word(
                s,
                if p.is_skinned {
                    1usize
                } else {
                    0usize
                },
            );
            let s = fx_word(s, p.decal_layer_index as usize);
            let s = fx_word(
                s,
                if p.render_path == RenderPath::Forward {
                    1usize
                } else {
                    0usize
                },
            );
            p.key() == s
        }),
{
}

/// The key of triangles is the hash of their five parameters, one after another: the material, the
/// vertex layout, whether they are skinned, the decal layer, and the number of the render path.
pub proof fn triangle_keys_mix_all_parameters(p: TriangleParameters)
    ensures
        ({
            let s = fx_word(fx_u64(0, p.material.key), p.layout.len() as usize);
            let s = attributes_state(s, p.layout);
            let s = fx_word(
                s,
                if p.is_skinned {
                    1usize
                } else {
                    0usize
                },
            );
            let s = fx_word(s, p.decal_layer_index as usize);
            let s = fx_word(
                s,
                if p.render_path == RenderPath::Forward {
                    1usize
                } else {
                    0usize
                },
            );
            p.key() == s
        }),
{
}

/// Each attribute of a vertex layout is mixed in after those before it, and with all its fields.
pub proof fn layouts_mix_each_attribute(
    state: usize,
    before: Seq<VertexAttributeDescriptor>,
    a: VertexAttributeDescriptor,
)
    ensures
        attributes_state(state, Seq::empty()) == state,
        ({
            let s = attributes_state(state, before);
            let s = fx_word(s, a.usage as usize);
            let s = fx_word(s, a.data_type as usize);
            let s = fx_word(s, a.size as usize);
            let s = fx_word(s, a.divisor as usize);
            let s = fx_word(s, a.shader_location as usize);
            let s = fx_word(
                s,
                if a.normalized {
                    1usize
                } else {
                    0usize
                },
            );
            attributes_state(state, before.push(a)) == s
        }),
{
    assert(before.push(a).drop_last() == before);
}

} // verus!
