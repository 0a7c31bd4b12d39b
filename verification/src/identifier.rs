//! Identifiers that stay the same from frame to frame.
use core::hash::Hasher;
use std::collections::hash_map::DefaultHasher;
use vstd::prelude::*;
use vstd::std_specs::hash::DefaultHasherAdditionalSpecFns;

use crate::resource::Handle;
use crate::resource::SurfaceResource;

verus! {

/// The order of the bytes of a number in memory.
#[derive(Clone, Copy, Debug, PartialEq, Eq, Structural)]
pub enum ByteOrder {
    /// The least significant byte comes first.
    LittleEndian,
    /// The most significant byte comes first.
    BigEndian,
}

impl ByteOrder {
    /// Whether the least significant byte comes first.
    pub open spec fn is_little_endian(&self) -> bool {
        *self == ByteOrder::LittleEndian
    }
}

/// The two bytes of a number in memory.
pub open spec fn bytes_of(order: ByteOrder, x: u16) -> Seq<u8> {
    match order {
        ByteOrder::LittleEndian => seq![(x % 256) as u8, (x / 256) as u8],
        ByteOrder::BigEndian => seq![(x / 256) as u8, (x % 256) as u8],
    }
}

/// `u16::to_ne_bytes`: the two bytes of a number in the byte order of the machine, which is one
/// of the two orders. Which of them it is, is left open.
#[verifier::external_body]
fn u16_to_ne_bytes(x: u16) -> (bytes: [u8; 2])
    ensures
        bytes@ == bytes_of(ByteOrder::LittleEndian, x) || bytes@ == bytes_of(
            ByteOrder::BigEndian,
            x,
        ),
{
    x.to_ne_bytes()
}

/// Whether a byte order is the one in which the machine lays out a number: the bytes that
/// `u16::to_ne_bytes` gives for one are in this order.
pub closed spec fn is_native_order(order: ByteOrder) -> bool {
    exists|bytes: [u8; 2]|
        #[trigger] call_ensures(u16_to_ne_bytes, (1u16,), bytes) && bytes@ == bytes_of(order, 1)
}

/// The byte order of the machine.
pub fn native_order() -> (order: ByteOrder)
    ensures
        is_native_order(order),
{
    let bytes = u16_to_ne_bytes(1);
    assert(bytes_of(ByteOrder::LittleEndian, 1)[0] == 1);
    assert(bytes_of(ByteOrder::BigEndian, 1)[0] == 0);
    if bytes[0] == 1 {
        ByteOrder::LittleEndian
    } else {
        ByteOrder::BigEndian
    }
}

/// What a `DefaultHasher` that took in `input` has taken in after `Hasher::write_u32`, on a
/// machine whose byte order is little-endian or not.
pub uninterp spec fn input_with_u32(
    little_endian: bool,
    input: Seq<Seq<u8>>,
    i: u32,
) -> Seq<Seq<u8>>;

/// What a `DefaultHasher` that took in `input` has taken in after `Hasher::write_u64`, on a
/// machine whose byte order is little-endian or not.
pub uninterp spec fn input_with_u64(
    little_endian: bool,
    input: Seq<Seq<u8>>,
    i: u64,
) -> Seq<Seq<u8>>;

/// What a `DefaultHasher` that took in `input` has taken in after `Hasher::write_usize`, on a
/// machine whose byte order is little-endian or not and whose words have `word_bits` bits.
pub uninterp spec fn input_with_usize(
    little_endian: bool,
    word_bits: u32,
    input: Seq<Seq<u8>>,
    i: usize,
) -> Seq<Seq<u8>>;

/// `<DefaultHasher as Hasher>::write_u32`: what the hasher has taken in afterwards depends on what
/// it had taken in before, on the number, and on the byte order of the machine, which has only one,
/// and on nothing else. Which bytes it takes in for the number is left open.
#[allow(unused_variables)]
#[verifier::external_body]
fn write_u32(hasher: &mut DefaultHasher, i: u32, order: ByteOrder)
    requires
        is_native_order(order),
    ensures
        forall|native: ByteOrder| #[trigger]
            is_native_order(native) ==> final(hasher)@ == input_with_u32(
                native.is_little_endian(),
                old(hasher)@,
                i,
            ),
{
    hasher.write_u32(i);
}

/// `<DefaultHasher as Hasher>::write_u64`: what the hasher has taken in afterwards depends on what
/// it had taken in before, on the number, and on the byte order of the machine, which has only one,
/// and on nothing else. Which bytes it takes in for the number is left open.
#[allow(unused_variables)]
#[verifier::external_body]
fn write_u64(hasher: &mut DefaultHasher, i: u64, order: ByteOrder)
    requires
        is_native_order(order),
    ensures
        forall|native: ByteOrder| #[trigger]
            is_native_order(native) ==> final(hasher)@ == input_with_u64(
                native.is_little_endian(),
                old(hasher)@,
                i,
            ),
{
    hasher.write_u64(i);
}

/// `<DefaultHasher as Hasher>::write_usize`: what the hasher has taken in afterwards depends on
/// what it had taken in before, on the number, and on the byte order and the word width of the
/// machine, which has only one of each, and on nothing else. Which bytes it takes in for the number
/// is left open.
#[allow(unused_variables)]
#[verifier::external_body]
fn write_usize(hasher: &mut DefaultHasher, i: usize, order: ByteOrder)
    requires
        is_native_order(order),
    ensures
        forall|native: ByteOrder| #[trigger]
            is_native_order(native) ==> final(hasher)@ == input_with_usize(
                native.is_little_endian(),
                usize::BITS,
                old(hasher)@,
                i,
            ),
{
    hasher.write_usize(i);
}

/// What a hasher has taken in after a handle: its index, and then its generation.
pub open spec fn input_with_handle(
    order: ByteOrder,
    input: Seq<Seq<u8>>,
    handle: Handle,
) -> Seq<Seq<u8>> {
    let little_endian = order.is_little_endian();
    input_with_u32(
        little_endian,
        input_with_u32(little_endian, input, handle.index),
        handle.generation,
    )
}

/// What is hashed for an identifier: the handle, the surface's key, and the index.
pub open spec fn combined_input(
    order: ByteOrder,
    surface_data: SurfaceResource,
    handle: Handle,
    index: usize,
) -> Seq<Seq<u8>> {
    let little_endian = order.is_little_endian();
    let handle_input = input_with_handle(order, Seq::empty(), handle);
    input_with_usize(
        little_endian,
        usize::BITS,
        input_with_u64(little_endian, handle_input, surface_data.key),
        index,
    )
}

/// The number of the identifier that a machine with the given byte order forms.
pub open spec fn combined_digest(
    order: ByteOrder,
    surface_data: SurfaceResource,
    handle: Handle,
    index: usize,
) -> u64 {
    DefaultHasher::spec_finish(combined_input(order, surface_data, handle, index))
}

/// Persistent identifier marks drawing data, telling the renderer that the data is the same, no
/// matter from which render bundle it came from. It is used by the renderer to create associated
/// GPU resources.
#[derive(Copy, Clone, Hash, Debug, PartialEq, Eq, Structural)]
pub struct PersistentIdentifier(pub u64);

impl PersistentIdentifier {
    /// Whether the identifier is the one that the machine, with whichever byte order it has, forms
    /// for the given surface, node and index.
    pub open spec fn identifies(
        &self,
        surface_data: SurfaceResource,
        handle: Handle,
        index: usize,
    ) -> bool {
        &&& exists|order: ByteOrder| #[trigger] is_native_order(order)
        &&& forall|order: ByteOrder| #[trigger]
            is_native_order(order) ==> self.0 == combined_digest(
                order,
                surface_data,
                handle,
                index,
            )
    }

    /// Creates the persistent identifier on a machine with the given byte order.
    pub fn combined_in_order(
        order: ByteOrder,
        surface_data: &SurfaceResource,
        handle: Handle,
        index: usize,
    ) -> (identifier: Self)
        requires
            is_native_order(order),
        ensures
            identifier.0 == combined_digest(order, *surface_data, handle, index),
            identifier.identifies(*surface_data, handle, index),
            ({
                let little_endian = order == ByteOrder::LittleEndian;
                let i = input_with_u32(little_endian, Seq::empty(), handle.index);
                let i = input_with_u32(little_endian, i, handle.generation);
                let i = input_with_u64(little_endian, i, surface_data.key);
                let i = input_with_usize(little_endian, usize::BITS, i, index);
                identifier.0 == DefaultHasher::spec_finish(i)
            }),
    {
        let mut hasher = DefaultHasher::new();
        write_u32(&mut hasher, handle.index, order);
        write_u32(&mut hasher, handle.generation, order);
        write_u64(&mut hasher, surface_data.key, order);
        write_usize(&mut hasher, index, order);
        PersistentIdentifier(hasher.finish())
    }

    /// Creates a new persistent identifier using shared surface data, node handle and an
    /// arbitrary index.
    pub fn new_combined(
        surface_data: &SurfaceResource,
        handle: Handle,
        index: usize,
    ) -> (identifier: Self)
        ensures
            identifier.identifies(*surface_data, handle, index),
            exists|order: ByteOrder| #[trigger] is_native_order(order),
            forall|order: ByteOrder| #[trigger]
                is_native_order(order) ==> ({
                    let little_endian = order == ByteOrder::LittleEndian;
                    let i = input_with_u32(little_endian, Seq::empty(), handle.index);
                    let i = input_with_u32(little_endian, i, handle.generation);
                    let i = input_with_u64(little_endian, i, surface_data.key);
                    let i = input_with_usize(little_endian, usize::BITS, i, index);
                    identifier.0 == DefaultHasher::spec_finish(i)
                }),
    {
        Self::combined_in_order(native_order(), surface_data, handle, index)
    }
}

/// Equal surface keys, handles and indices give equal identifiers, whenever and for whichever
/// bundle they are created: what the surface holds makes no difference.
pub proof fn equal_sources_have_equal_identifiers(
    a: PersistentIdentifier,
    b: PersistentIdentifier,
    surfaces: (SurfaceResource, SurfaceResource),
    handle: Handle,
    index: usize,
)
    requires
        a.identifies(surfaces.0, handle, index),
        b.identifies(surfaces.1, handle, index),
        surfaces.0.key == surfaces.1.key,
    ensures
        a == b,
{
    let order = choose|order: ByteOrder| #[trigger] is_native_order(order);
    assert(a.0 == combined_digest(order, surfaces.0, handle, index));
}

/// The two bytes of a number make up the number, with the less significant one first in
/// little-endian order and last in big-endian order.
pub proof fn bytes_make_up_the_number(x: u16)
    ensures
        ({
            let (little, big) = (
                bytes_of(ByteOrder::LittleEndian, x),
                bytes_of(ByteOrder::BigEndian, x),
            );
            &&& little.len() == 2
            &&& big.len() == 2
            &&& little[0] + 256 * little[1] == x
            &&& 256 * big[0] + big[1] == x
        }),
        ByteOrder::LittleEndian.is_little_endian(),
        !ByteOrder::BigEndian.is_little_endian(),
{
}

/// The numbers are hashed one after another: the node's index, its generation, the key of the
/// surface, and the index.
pub proof fn all_parts_are_hashed_in_order(
    order: ByteOrder,
    surface_data: SurfaceResource,
    handle: Handle,
    index: usize,
)
    ensures
        ({
            let little_endian = order == ByteOrder::LittleEndian;
            let i = input_with_u32(little_endian, Seq::empty(), handle.index);
            let i = input_with_u32(little_endian, i, handle.generation);
            let i = input_with_u64(little_endian, i, surface_data.key);
            let i = input_with_usize(little_endian, usize::BITS, i, index);
            &&& combined_input(order, surface_data, handle, index) == i
            &&& combined_digest(order, surface_data, handle, index) == DefaultHasher::spec_finish(
                i,
            )
        }),
{
}

/// What is hashed for an identifier determines the surface, both parts of the node handle, and the
/// index: different sources are never hashed alike, as long as a hasher that takes in a number
/// keeps apart both the numbers and what it took in before.
pub proof fn different_sources_are_hashed_apart(
    order: ByteOrder,
    surfaces: (SurfaceResource, SurfaceResource),
    handles: (Handle, Handle),
    indices: (usize, usize),
)
    requires
        combined_input(order, surfaces.0, handles.0, indices.0) == combined_input(
            order,
            surfaces.1,
            handles.1,
            indices.1,
        ),
        forall|a: Seq<Seq<u8>>, b: Seq<Seq<u8>>, i: u32, j: u32|
            #![trigger
                input_with_u32(order.is_little_endian(), a, i),
                input_with_u32(order.is_little_endian(), b, j)]
            input_with_u32(order.is_little_endian(), a, i) == input_with_u32(
                order.is_little_endian(),
                b,
                j,
            ) ==> a == b && i == j,
        forall|a: Seq<Seq<u8>>, b: Seq<Seq<u8>>, i: u64, j: u64|
            #![trigger
                input_with_u64(order.is_little_endian(), a, i),
                input_with_u64(order.is_little_endian(), b, j)]
            input_with_u64(order.is_little_endian(), a, i) == input_with_u64(
                order.is_little_endian(),
                b,
                j,
            ) ==> a == b && i == j,
        forall|a: Seq<Seq<u8>>, b: Seq<Seq<u8>>, i: usize, j: usize|
            #![trigger
                input_with_usize(order.is_little_endian(), usize::BITS, a, i),
                input_with_usize(order.is_little_endian(), usize::BITS, b, j)]
            input_with_usize(order.is_little_endian(), usize::BITS, a, i) == input_with_usize(
                order.is_little_endian(),
                usize::BITS,
                b,
                j,
            ) ==> a == b && i == j,
    ensures
        surfaces.0.key == surfaces.1.key,
        handles.0.index == handles.1.index,
        handles.0.generation == handles.1.generation,
        indices.0 == indices.1,
{
}

/// An identifier is the hash of all parts of its source, in the byte order of the machine.
pub proof fn identifiers_are_hashes_of_all_parts(
    identifier: PersistentIdentifier,
    surface_data: SurfaceResource,
    handle: Handle,
    index: usize,
)
    requires
        identifier.identifies(surface_data, handle, index),
    ensures
        exists|order: ByteOrder| #[trigger] is_native_order(order),
        forall|order: ByteOrder| #[trigger]
            is_native_order(order) ==> ({
                let little_endian = order == ByteOrder::LittleEndian;
                let i = input_with_u32(little_endian, Seq::empty(), handle.index);
                let i = input_with_u32(little_endian, i, handle.generation);
                let i = input_with_u64(little_endian, i, surface_data.key);
                let i = input_with_usize(little_endian, usize::BITS, i, index);
                identifier.0 == DefaultHasher::spec_finish(i)
            }),
{
}

} // verus!
