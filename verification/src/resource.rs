//! Plain descriptions of what bundles refer to: scene nodes, surfaces, materials, vertex layouts.
use vstd::prelude::*;

verus! {

/// A single-precision number, held by its bit pattern. The bundles carry such numbers from the
/// scene to the renderer and never compute with them.
#[derive(Clone, Copy, Debug, PartialEq, Eq, Hash, Structural)]
pub struct Real {
    pub bits: u32,
}

/// The bit pattern of the number zero.
pub const ZERO_BITS: u32 = 0;

/// The bit pattern of the number one.
pub const ONE_BITS: u32 = 0x3f80_0000;

/// A matrix of four columns with four numbers each, column after column.
#[derive(Clone, Copy, Debug)]
pub struct Matrix4 {
    pub elements: [Real; 16],
}

impl View for Matrix4 {
    type V = Seq<Real>;

    open spec fn view(&self) -> Seq<Real> {
        self.elements@
    }
}

/// The elements of the matrix that has ones on its diagonal and zeros elsewhere.
pub open spec fn identity_elements() -> Seq<Real> {
    Seq::new(
        16,
        |i: int|
            Real {
                bits: if i % 5 == 0 {
                    ONE_BITS
                } else {
                    ZERO_BITS
                },
            },
    )
}

impl Matrix4 {
    /// The matrix that transforms nothing.
    pub fn identity() -> (matrix: Self)
        ensures
            matrix@ == identity_elements(),
            forall|i: int|
                0 <= i < 16 ==> (#[trigger] matrix.elements@[i]).bits == (if i / 4 == i % 4 {
                    0x3f80_0000u32
                } else {
                    0u32
                }),
    {
        let l = Real { bits: ONE_BITS };
        let o = Real { bits: ZERO_BITS };
        Matrix4 { elements: [l, o, o, o, o, l, o, o, o, o, l, o, o, o, o, l] }
    }
}

/// A reference to a node of a scene graph: the place of the node in the pool of nodes, and the
/// generation of that place, which tells a node from those that stood there before it.
#[derive(Clone, Copy, Debug, PartialEq, Eq, Hash, Structural)]
pub struct Handle {
    pub index: u32,
    pub generation: u32,
}

/// A reference to shared surface data (vertices and triangles). Two references are to the same
/// data exactly if their keys are equal.
#[derive(Clone, Copy, Debug, PartialEq, Eq, Hash, Structural)]
pub struct SurfaceResource {
    pub key: u64,
}

/// A reference to a shared material. Two references are to the same material exactly if their
/// keys are equal.
#[derive(Clone, Copy, Debug, PartialEq, Eq, Hash, Structural)]
pub struct MaterialResource {
    pub key: u64,
}

/// The way in which a surface is rendered.
#[derive(Clone, Copy, Debug, PartialEq, Eq, Hash, Structural)]
pub enum RenderPath {
    /// With the other opaque surfaces, before lighting is applied.
    Deferred,
    /// On its own, after lighting was applied to the opaque surfaces.
    Forward,
}

impl RenderPath {
    /// The number of the render path.
    pub open spec fn number(&self) -> u32 {
        match *self {
            RenderPath::Deferred => 0,
            RenderPath::Forward => 1,
        }
    }

    /// The number of the render path.
    pub fn as_u32(&self) -> (number: u32)
        ensures
            number == self.number(),
            *self == RenderPath::Deferred ==> number == 0,
            *self == RenderPath::Forward ==> number == 1,
    {
        match *self {
            RenderPath::Deferred => 0,
            RenderPath::Forward => 1,
        }
    }
}

/// The part of the graphics primitives of a surface that is drawn.
#[derive(Clone, Copy, Debug, PartialEq, Eq, Hash, Structural)]
pub enum ElementRange {
    /// All of them.
    Full,
    /// `count` of them, starting at `offset`.
    Specific { offset: usize, count: usize },
}

/// How long the renderer keeps the GPU buffers that it made for a surface.
#[derive(Clone, Copy, Debug, PartialEq, Eq, Hash, Structural)]
pub enum TimeToLive {
    /// As long as it keeps any buffer.
    Standard,
    /// That many seconds after the last use.
    Seconds(Real),
}

/// One attribute of a vertex, as it lies in a vertex buffer. The usage and the data type are
/// given by their numbers.
#[derive(Clone, Copy, Debug, PartialEq, Eq, Hash, Structural)]
pub struct VertexAttributeDescriptor {
    /// What the attribute is used for.
    pub usage: u32,
    /// The type of its components.
    pub data_type: u8,
    /// How many components there are.
    pub size: u8,
    /// After how many instances the attribute advances; zero: after each vertex.
    pub divisor: u8,
    /// The location at which shaders find the attribute.
    pub shader_location: u8,
    /// Whether integer components are mapped to the unit range.
    pub normalized: bool,
}

/// What new surface data are made from: a vertex buffer with a layout and a number of vertices,
/// and a triangle buffer without triangles.
#[derive(Clone, Copy, Debug)]
pub struct SurfaceRequest<'a> {
    /// The attributes of a vertex.
    pub layout: &'a [VertexAttributeDescriptor],
    /// How many vertices there are at first.
    pub vertex_count: usize,
    /// For how many bytes of vertices there is room at first.
    pub vertex_bytes_capacity: usize,
    /// For how many triangles there is room at first.
    pub triangle_capacity: usize,
}

/// For how many bytes of vertices there is room in the surface data of a new bundle for triangles.
pub const DEFAULT_CAPACITY: usize = 4096;

impl<'a> SurfaceRequest<'a> {
    /// The request for empty buffers, with the usual room in them.
    pub open spec fn empty_surface(layout: &'a [VertexAttributeDescriptor]) -> SurfaceRequest<'a> {
        SurfaceRequest {
            layout,
            vertex_count: 0,
            vertex_bytes_capacity: DEFAULT_CAPACITY,
            triangle_capacity: (DEFAULT_CAPACITY * 3) as usize,
        }
    }

    /// Requests empty buffers, with the usual room in them.
    pub fn empty(layout: &'a [VertexAttributeDescriptor]) -> (request: Self)
        ensures
            request == Self::empty_surface(layout),
            request.layout == layout,
            request.vertex_count == 0,
            request.vertex_bytes_capacity == 4096,
            request.triangle_capacity == 3 * 4096,
    {
        SurfaceRequest {
            layout,
            vertex_count: 0,
            vertex_bytes_capacity: DEFAULT_CAPACITY,
            triangle_capacity: DEFAULT_CAPACITY * 3,
        }
    }
}

/// The matrix that transforms nothing has the number one in the places of its diagonal, in the same
/// column as row, and the number zero in all others. The bit patterns are those of IEEE 754.
pub proof fn identity_has_ones_on_its_diagonal(column: int, row: int)
    requires
        0 <= column < 4,
        0 <= row < 4,
    ensures
        identity_elements().len() == 16,
        column == row ==> identity_elements()[4 * column + row].bits == 0x3f80_0000,
        column != row ==> identity_elements()[4 * column + row].bits == 0,
{
}

/// A matrix is its sixteen numbers, each in its place.
pub proof fn matrices_are_their_elements(a: Matrix4, i: int)
    requires
        0 <= i < 16,
    ensures
        a@.len() == 16,
        a@[i] == a.elements@[i],
{
}

/// New surface data have the requested layout, no vertices yet, and room for 4096 bytes of them and
/// for three times as many triangles.
pub proof fn new_surfaces_are_empty(layout: &[VertexAttributeDescriptor])
    ensures
        SurfaceRequest::empty_surface(layout).layout@ == layout@,
        SurfaceRequest::empty_surface(layout).vertex_count == 0,
        SurfaceRequest::empty_surface(layout).vertex_bytes_capacity == 4096,
        SurfaceRequest::empty_surface(layout).triangle_capacity == 12288,
{
}

/// The render paths are numbered from zero.
pub proof fn render_paths_are_numbered()
    ensures
        RenderPath::Deferred.number() == 0,
        RenderPath::Forward.number() == 1,
{
}

} // verus!
