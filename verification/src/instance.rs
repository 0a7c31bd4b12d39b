//! Surface instances: one drawing of a surface.
use vstd::prelude::*;

use crate::identifier::PersistentIdentifier;
use crate::resource::ElementRange;
use crate::resource::Handle;
use crate::resource::Matrix4;
use crate::resource::Real;
use crate::resource::identity_elements;
use crate::resource::ZERO_BITS;

verus! {

/// A set of data of a surface for rendering.
#[derive(Debug)]
pub struct SurfaceInstanceData {
    /// A world matrix.
    pub world_transform: Matrix4,
    /// A set of bone matrices.
    pub bone_matrices: Vec<Matrix4>,
    /// A depth-hack value.
    pub depth_offset: Real,
    /// A set of weights for each blend shape in the surface.
    pub blend_shapes_weights: Vec<Real>,
    /// A range of elements of the instance. Allows you to draw either the full range
    /// ([`ElementRange::Full`]) of the graphics primitives from the surface data or just a part
    /// of it ([`ElementRange::Specific`]).
    pub element_range: ElementRange,
    /// Persistent identifier of the instance. In most cases it can be generated by
    /// [`PersistentIdentifier::new_combined`] method.
    pub persistent_identifier: PersistentIdentifier,
    /// A handle of a node that emitted this surface data. Could be none, if there's no info about
    /// scene node.
    pub node_handle: Handle,
}

/// What a surface instance holds.
#[verifier::ext_equal]
pub struct InstanceView {
    pub world_transform: Seq<Real>,
    pub bone_matrices: Seq<Seq<Real>>,
    pub depth_offset: Real,
    pub blend_shapes_weights: Seq<Real>,
    pub element_range: ElementRange,
    pub persistent_identifier: PersistentIdentifier,
    pub node_handle: Handle,
}

impl InstanceView {
    /// Whether the instance is deformed by bones.
    pub open spec fn is_skinned(&self) -> bool {
        self.bone_matrices.len() != 0
    }
}

impl View for SurfaceInstanceData {
    type V = InstanceView;

    open spec fn view(&self) -> InstanceView {
        InstanceView {
            world_transform: self.world_transform@,
            bone_matrices: self.bone_matrices@.map_values(|m: Matrix4| m@),
            depth_offset: self.depth_offset,
            blend_shapes_weights: self.blend_shapes_weights@,
            element_range: self.element_range,
            persistent_identifier: self.persistent_identifier,
            node_handle: self.node_handle,
        }
    }
}

/// The instance that draws a whole surface as it is: no transform, no bones, no blend shapes.
pub open spec fn plain_instance(
    persistent_identifier: PersistentIdentifier,
    node_handle: Handle,
) -> InstanceView {
    InstanceView {
        world_transform: identity_elements(),
        bone_matrices: Seq::empty(),
        depth_offset: Real { bits: ZERO_BITS },
        blend_shapes_weights: Seq::empty(),
        element_range: ElementRange::Full,
        persistent_identifier,
        node_handle,
    }
}

impl SurfaceInstanceData {
    /// Creates the instance that draws a whole surface as it is.
    pub fn plain(persistent_identifier: PersistentIdentifier, node_handle: Handle) -> (instance:
        Self)
        ensures
            instance@ == plain_instance(persistent_identifier, node_handle),
            forall|i: int|
                0 <= i < 16 ==> (#[trigger] instance.world_transform.elements@[i]).bits == (if i / 4
                    == i % 4 {
                    0x3f80_0000u32
                } else {
                    0u32
                }),
            instance.bone_matrices@.len() == 0,
            instance.depth_offset.bits == 0,
            instance.blend_shapes_weights@.len() == 0,
            instance.element_range == ElementRange::Full,
            instance.persistent_identifier == persistent_identifier,
            instance.node_handle == node_handle,
    {
        SurfaceInstanceData {
            world_transform: Matrix4::identity(),
            bone_matrices: Vec::new(),
            depth_offset: Real { bits: ZERO_BITS },
            blend_shapes_weights: Vec::new(),
            element_range: ElementRange::Full,
            persistent_identifier,
            node_handle,
        }
    }
}

/// The model of an instance leaves nothing of the instance out: it has the same numbers in the same
/// places, as many bones, as many weights.
pub proof fn instances_hold_their_fields(instance: SurfaceInstanceData)
    ensures
        instance@.world_transform == instance.world_transform.elements@,
        instance@.bone_matrices.len() == instance.bone_matrices@.len(),
        forall|i: int|
            0 <= i < instance.bone_matrices@.len() ==> instance@.bone_matrices[i] == (
            #[trigger] instance.bone_matrices@[i]).elements@,
        instance@.depth_offset == instance.depth_offset,
        instance@.blend_shapes_weights == instance.blend_shapes_weights@,
        instance@.element_range == instance.element_range,
        instance@.persistent_identifier == instance.persistent_identifier,
        instance@.node_handle == instance.node_handle,
{
}

/// An instance is skinned exactly if it has a bone.
pub proof fn bones_make_an_instance_skinned(instance: SurfaceInstanceData)
    ensures
        instance@.is_skinned() <==> instance.bone_matrices@.len() > 0,
{
}

/// A plain instance draws its surface where and as it is: its transform leaves each point in place,
/// and nothing deforms, shifts or cuts what is drawn.
pub proof fn plain_instances_change_nothing(
    identifier: PersistentIdentifier,
    node_handle: Handle,
    column: int,
    row: int,
)
    requires
        0 <= column < 4,
        0 <= row < 4,
    ensures
        ({
            let instance = plain_instance(identifier, node_handle);
            &&& instance.world_transform.len() == 16
            &&& column == row ==> instance.world_transform[4 * column + row].bits == 0x3f80_0000
            &&& column != row ==> instance.world_transform[4 * column + row].bits == 0
            &&& instance.bone_matrices.len() == 0
            &&& instance.depth_offset.bits == 0
            &&& instance.blend_shapes_weights.len() == 0
            &&& instance.element_range == ElementRange::Full
            &&& instance.persistent_identifier == identifier
            &&& instance.node_handle == node_handle
        }),
{
}

} // verus!
