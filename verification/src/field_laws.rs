//! What pushes leave in the fields of the bundles.
use vstd::prelude::*;

use crate::bundle::BundleView;
use crate::context::RenderContext;
use crate::identifier::PersistentIdentifier;
use crate::instance::plain_instances_change_nothing;
use crate::instance::InstanceView;
use crate::keys::InstanceParameters;
use crate::keys::TriangleParameters;
use crate::laws::empty_storage_is_built_by_pushes;
use crate::laws::lemma_key_index;
use crate::laws::pushing_keeps_built;
use crate::push_laws::instance_pushes;
use crate::push_laws::instances_are_grouped_by_key;
use crate::push_laws::instances_under;
use crate::push_laws::is_first;
use crate::push_laws::lemma_first_under_key;
use crate::push_laws::replaying_keeps_built;
use crate::pushed::PushedStorage;
use crate::pushes::InstancePush;
use crate::pushes::Push;
use crate::pushes::TrianglesPush;
use crate::resource::ElementRange;
use crate::resource::Handle;
use crate::resource::SurfaceResource;
use crate::resource::TimeToLive;
use crate::storage::key_index;
use crate::storage::RenderDataBundleStorage;
use crate::storage::RenderDataBundleStorageTrait;
use crate::storage::StorageView;

verus! {

/// An empty storage has no bundles, and no key leads anywhere in it.
pub proof fn empty_storages_hold_nothing(key: u64)
    ensures
        StorageView::empty().bundles.len() == 0,
        !StorageView::empty().index.contains_key(key),
{
}

/// An instance whose key leads nowhere comes into a new bundle behind the others, to which its key
/// leads from then on. The bundle has the parameters and the sort index of the push, holds the
/// instance alone, and is kept as long as any. Nothing else changes.
pub proof fn new_parameters_open_a_bundle(
    s: StorageView,
    p: InstanceParameters,
    sort_index: u64,
    instance: InstanceView,
)
    requires
        !s.index.contains_key(p.key()),
        s.bundles.len() <= usize::MAX,
    ensures
        ({
            let t = s.with_instance(p, sort_index, instance);
            let n = s.bundles.len() as int;
            &&& t.index.contains_key(p.key())
            &&& t.index[p.key()] == n
            &&& forall|key: u64|
                key != p.key() ==> #[trigger] t.index.contains_key(key) == s.index.contains_key(key)
            &&& forall|key: u64|
                key != p.key() && #[trigger] s.index.contains_key(key) ==> t.index[key]
                    == s.index[key]
            &&& t.bundles.len() == n + 1
            &&& forall|i: int| 0 <= i < n ==> #[trigger] t.bundles[i] == s.bundles[i]
            &&& t.bundles[n].sort_index == sort_index
            &&& t.bundles[n].time_to_live == TimeToLive::Standard
            &&& t.bundles[n].data == p.data
            &&& t.bundles[n].material == p.material
            &&& t.bundles[n].is_skinned == p.is_skinned
            &&& t.bundles[n].render_path == p.render_path
            &&& t.bundles[n].decal_layer_index == p.decal_layer_index
            &&& t.bundles[n].key == p.key()
            &&& t.bundles[n].layout is None
            &&& t.bundles[n].instances.len() == 1
            &&& t.bundles[n].instances[0] == instance
        }),
{
}

/// An instance whose key leads to a bundle comes behind the instances that are in it. Nothing else
/// changes: neither the other fields of this bundle, its sort index among them, nor another bundle,
/// nor where a key leads.
pub proof fn known_parameters_join_their_bundle(
    s: StorageView,
    p: InstanceParameters,
    sort_index: u64,
    instance: InstanceView,
)
    requires
        s.index.contains_key(p.key()),
        s.index[p.key()] < s.bundles.len(),
    ensures
        ({
            let t = s.with_instance(p, sort_index, instance);
            let place = s.index[p.key()] as int;
            let (b, c) = (s.bundles[place], t.bundles[place]);
            &&& t.index == s.index
            &&& t.bundles.len() == s.bundles.len()
            &&& forall|i: int|
                0 <= i < s.bundles.len() && i != place ==> #[trigger] t.bundles[i] == s.bundles[i]
            &&& c.instances.len() == b.instances.len() + 1
            &&& forall|i: int|
                0 <= i < b.instances.len() ==> #[trigger] c.instances[i] == b.instances[i]
            &&& c.instances[b.instances.len() as int] == instance
            &&& c.sort_index == b.sort_index
            &&& c.time_to_live == b.time_to_live
            &&& c.data == b.data
            &&& c.material == b.material
            &&& c.is_skinned == b.is_skinned
            &&& c.render_path == b.render_path
            &&& c.decal_layer_index == b.decal_layer_index
            &&& c.key == b.key
            &&& c.layout == b.layout
        }),
{
}

/// Triangles whose key leads nowhere come into a new bundle behind the others, to which their key
/// leads from then on. The bundle has the parameters and the sort index of the push and the new
/// surface data, which live for no time. Its one instance draws them where and as they are: its
/// transform has ones on the diagonal and zeros elsewhere. Nothing else changes.
pub proof fn new_triangle_parameters_open_a_bundle(
    s: StorageView,
    push: TrianglesPush,
    column: int,
    row: int,
)
    requires
        !s.index.contains_key(push.parameters.key()),
        s.bundles.len() <= usize::MAX,
        0 <= column < 4,
        0 <= row < 4,
    ensures
        ({
            let p = push.parameters;
            let t = s.after(Push::Triangles(push));
            let n = s.bundles.len() as int;
            let instance = t.bundles[n].instances[0];
            &&& t.index.contains_key(p.key())
            &&& t.index[p.key()] == n
            &&& forall|key: u64|
                key != p.key() ==> #[trigger] t.index.contains_key(key) == s.index.contains_key(key)
            &&& forall|key: u64|
                key != p.key() && #[trigger] s.index.contains_key(key) ==> t.index[key]
                    == s.index[key]
            &&& t.bundles.len() == n + 1
            &&& forall|i: int| 0 <= i < n ==> #[trigger] t.bundles[i] == s.bundles[i]
            &&& t.bundles[n].sort_index == push.sort_index
            &&& t.bundles[n].time_to_live matches TimeToLive::Seconds(time) && time.bits == 0
            &&& t.bundles[n].data == push.data
            &&& t.bundles[n].material == p.material
            &&& t.bundles[n].is_skinned == p.is_skinned
            &&& t.bundles[n].render_path == p.render_path
            &&& t.bundles[n].decal_layer_index == p.decal_layer_index
            &&& t.bundles[n].key == p.key()
            &&& t.bundles[n].layout == Some(p.layout)
            &&& t.bundles[n].instances.len() == 1
            &&& instance.world_transform.len() == 16
            &&& column == row ==> instance.world_transform[4 * column + row].bits == 0x3f80_0000
            &&& column != row ==> instance.world_transform[4 * column + row].bits == 0
            &&& instance.bone_matrices.len() == 0
            &&& instance.depth_offset.bits == 0
            &&& instance.blend_shapes_weights.len() == 0
            &&& instance.element_range == ElementRange::Full
            &&& instance.persistent_identifier == push.identifier
            &&& instance.node_handle == push.node_handle
        }),
{
    plain_instances_change_nothing(push.identifier, push.node_handle, column, row);
}

/// What opening a bundle for triangles does is what a push of triangles does that finds none.
pub proof fn pushed_triangles_open_bundles(
    s: StorageView,
    p: TriangleParameters,
    sort_index: u64,
    node_handle: Handle,
    data: SurfaceResource,
    identifier: PersistentIdentifier,
)
    requires
        !s.index.contains_key(p.key()),
    ensures
        s.with_triangles(p, sort_index, node_handle, data, identifier) == s.after(
            Push::Triangles(
                TrianglesPush { parameters: p, sort_index, node_handle, data, identifier },
            ),
        ),
{
}

/// Triangles whose key leads to a bundle change no bundle, and are written into its surface data;
/// others are written into those that are made for them.
pub proof fn triangles_go_into_the_surface_of_their_bundle(s: StorageView, push: TrianglesPush)
    ensures
        s.index.contains_key(push.parameters.key()) ==> s.after(Push::Triangles(push)) == s,
        s.index.contains_key(push.parameters.key()) ==> s.surface_for(push.parameters, push.data)
            == s.bundles[s.index[push.parameters.key()] as int].data,
        !s.index.contains_key(push.parameters.key()) ==> s.surface_for(push.parameters, push.data)
            == push.data,
{
}

/// A push of an instance is what its parameters, its sort index and the instance make of a storage;
/// and nothing is made of it by no pushes.
pub proof fn pushes_are_made_one_by_one(s: StorageView, pushes: Seq<Push>, push: InstancePush)
    ensures
        s.after(Push::Instance(push)) == s.with_instance(
            push.parameters,
            push.sort_index,
            push.instance,
        ),
        s.replay(Seq::empty()) == s,
        s.replay(pushes.push(Push::Instance(push))) == s.replay(pushes).with_instance(
            push.parameters,
            push.sort_index,
            push.instance,
        ),
{
    assert(pushes.push(Push::Instance(push)).drop_last() == pushes);
}

/// In a storage that pushes lead to, each key leads to the bundle that was opened under it, no two
/// keys to the same one; each bundle is found under the hash of its own parameters, and has an
/// instance.
pub proof fn keys_lead_to_bundles_of_their_own(s: StorageView)
    requires
        s.is_built_by_pushes(),
    ensures
        forall|key: u64| #[trigger]
            s.index.contains_key(key) ==> s.index[key] < s.bundles.len() && s.bundles[
                s.index[key] as int].key == key,
        forall|i: int|
            0 <= i < s.bundles.len() ==> s.index.contains_key((#[trigger] s.bundles[i]).key)
                && s.index[s.bundles[i].key] == i && s.bundles[i].instances.len() >= 1,
        forall|i: int|
            0 <= i < s.bundles.len() && (#[trigger] s.bundles[i]).layout is None
                ==> s.bundles[i].key == (InstanceParameters {
                material: s.bundles[i].material,
                data: s.bundles[i].data,
                is_skinned: s.bundles[i].is_skinned,
                decal_layer_index: s.bundles[i].decal_layer_index,
                render_path: s.bundles[i].render_path,
            }).key(),
        forall|i: int|
            0 <= i < s.bundles.len() && (#[trigger] s.bundles[i]).layout is Some
                ==> s.bundles[i].key == (TriangleParameters {
                material: s.bundles[i].material,
                layout: s.bundles[i].layout->0,
                is_skinned: s.bundles[i].is_skinned,
                decal_layer_index: s.bundles[i].decal_layer_index,
                render_path: s.bundles[i].render_path,
            }).key(),
{
    assert forall|i: int| 0 <= i < s.bundles.len() implies s.is_sound_at(i) && #[trigger]
        s.bundles[i] == s.bundles[i] by {
        assert(s.is_sound_at(i));
    }
}

/// Looked up anew, each key leads to the last bundle that was opened under it, and each bundle's
/// key leads somewhere.
pub proof fn places_are_those_of_the_keys(bundles: Seq<BundleView>, place: int)
    requires
        bundles.len() <= usize::MAX,
        0 <= place < bundles.len(),
        forall|later: int|
            place < later < bundles.len() ==> (#[trigger] bundles[later]).key
                != bundles[place].key,
    ensures
        key_index(bundles).contains_key(bundles[place].key),
        key_index(bundles)[bundles[place].key] == place,
    decreases bundles.len(),
{
    let before = bundles.drop_last();
    if place < before.len() {
        assert(bundles[bundles.len() - 1].key != bundles[place].key);
        assert forall|later: int| place < later < before.len() implies (
        #[trigger] before[later]).key != before[place].key by {
            assert(bundles[later].key != bundles[place].key);
        }
        places_are_those_of_the_keys(before, place);
    }
}

/// A key under which no bundle was opened leads nowhere, when the places are looked up anew.
pub proof fn unknown_keys_have_no_place(bundles: Seq<BundleView>, key: u64)
    requires
        bundles.len() <= usize::MAX,
        forall|i: int| 0 <= i < bundles.len() ==> (#[trigger] bundles[i]).key != key,
    ensures
        !key_index(bundles).contains_key(key),
{
    lemma_key_index(bundles);
}

/// A storage that is a reordering of another one has its bundles, each as often, and each key leads
/// to the same bundle.
pub proof fn reorderings_keep_bundles_and_keys(s: StorageView, t: StorageView, key: u64)
    requires
        t.is_reordering_of(s),
    ensures
        t.bundles.len() == s.bundles.len(),
        t.bundles.to_multiset() == s.bundles.to_multiset(),
        t.index.contains_key(key) == s.index.contains_key(key),
        s.index.contains_key(key) ==> t.bundles[t.index[key] as int] == s.bundles[
            s.index[key] as int],
{
    s.bundles.to_multiset_ensures();
    t.bundles.to_multiset_ensures();
    assert(t.index.dom().contains(key) == s.index.dom().contains(key));
}

/// After any pushes into an empty storage, the bundle that a key leads to has what the first push
/// under this key gave it: its sort index, its surface data and the other parameters.
pub proof fn first_pushes_fix_their_bundles(pushes: Seq<Push>, i: int)
    requires
        pushes.len() <= usize::MAX,
        0 <= i < pushes.len(),
        forall|j: int| 0 <= j < i ==> (#[trigger] pushes[j]).key() != pushes[i].key(),
    ensures
        ({
            let s = StorageView::empty().replay(pushes);
            let b = s.bundles[s.index[pushes[i].key()] as int];
            &&& s.index.contains_key(pushes[i].key())
            &&& s.index[pushes[i].key()] < s.bundles.len()
            &&& b.key == pushes[i].key()
            &&& match pushes[i] {
                Push::Instance(push) => {
                    &&& b.key == push.parameters.key()
                    &&& b.sort_index == push.sort_index
                    &&& b.time_to_live == TimeToLive::Standard
                    &&& b.data == push.parameters.data
                    &&& b.material == push.parameters.material
                    &&& b.is_skinned == push.parameters.is_skinned
                    &&& b.render_path == push.parameters.render_path
                    &&& b.decal_layer_index == push.parameters.decal_layer_index
                    &&& b.layout is None
                    &&& b.instances[0] == push.instance
                },
                Push::Triangles(push) => {
                    &&& b.key == push.parameters.key()
                    &&& b.sort_index == push.sort_index
                    &&& b.time_to_live matches TimeToLive::Seconds(time) && time.bits == 0
                    &&& b.data == push.data
                    &&& b.material == push.parameters.material
                    &&& b.is_skinned == push.parameters.is_skinned
                    &&& b.render_path == push.parameters.render_path
                    &&& b.decal_layer_index == push.parameters.decal_layer_index
                    &&& b.layout == Some(push.parameters.layout)
                    &&& b.instances[0].persistent_identifier == push.identifier
                    &&& b.instances[0].node_handle == push.node_handle
                },
            }
        }),
    decreases pushes.len(),
{
    let (before, last) = (pushes.drop_last(), pushes.last());
    let (r, s) = (StorageView::empty().replay(before), StorageView::empty().replay(pushes));
    let key = pushes[i].key();
    empty_storage_is_built_by_pushes();
    replaying_keeps_built(StorageView::empty(), before);
    pushing_keeps_built(r, last);
    if i < before.len() {
        assert forall|j: int| 0 <= j < i implies (#[trigger] before[j]).key()
            != before[i].key() by {
            assert(pushes[j].key() != pushes[i].key());
        }
        first_pushes_fix_their_bundles(before, i);
        let place = r.index[key] as int;
        assert(r.is_sound_at(place));
        assert(r.bundles[place].instances.len() != 0);
    } else {
        lemma_unpushed_keys_lead_nowhere(before, key);
    }
}

/// A key under which nothing was pushed leads nowhere.
proof fn lemma_unpushed_keys_lead_nowhere(pushes: Seq<Push>, key: u64)
    requires
        forall|j: int| 0 <= j < pushes.len() ==> (#[trigger] pushes[j]).key() != key,
    ensures
        !StorageView::empty().replay(pushes).index.contains_key(key),
    decreases pushes.len(),
{
    if pushes.len() != 0 {
        assert(pushes[pushes.len() - 1].key() != key);
        assert forall|j: int| 0 <= j < pushes.drop_last().len() implies (
        #[trigger] pushes.drop_last()[j]).key() != key by {
            assert(pushes[j].key() != key);
        }
        lemma_unpushed_keys_lead_nowhere(pushes.drop_last(), key);
    }
}

/// The places, among the pushes, of those under a key.
proof fn lemma_places_under(pushes: Seq<InstancePush>, key: u64) -> (places: Seq<int>)
    ensures
        places.len() == instances_under(pushes, key).len(),
        forall|a: int, b: int|
            0 <= a < b < places.len() ==> #[trigger] places[a] < #[trigger] places[b],
        forall|a: int|
            0 <= a < places.len() ==> 0 <= #[trigger] places[a] < pushes.len()
                && pushes[places[a]].parameters.key() == key && instances_under(pushes, key)[a]
                == pushes[places[a]].instance,
        forall|j: int|
            0 <= j < pushes.len() && (#[trigger] pushes[j]).parameters.key() == key
                ==> places.contains(j),
    decreases pushes.len(),
{
    if pushes.len() == 0 {
        Seq::empty()
    } else {
        let before = pushes.drop_last();
        let n = before.len() as int;
        let earlier = lemma_places_under(before, key);
        let places = if pushes.last().parameters.key() == key {
            earlier.push(n)
        } else {
            earlier
        };
        assert forall|a: int| 0 <= a < places.len() implies 0 <= #[trigger] places[a]
            < pushes.len() && pushes[places[a]].parameters.key() == key && instances_under(
            pushes,
            key,
        )[a] == pushes[places[a]].instance by {
            if a < earlier.len() {
                assert(earlier[a] == places[a]);
                assert(before[earlier[a]] == pushes[earlier[a]]);
            }
        }
        assert forall|a: int, b: int| 0 <= a < b < places.len() implies #[trigger] places[a]
            < #[trigger] places[b] by {
            assert(earlier[a] == places[a]);
            if b < earlier.len() {
                assert(earlier[b] == places[b]);
            }
        }
        assert forall|j: int|
            0 <= j < pushes.len() && (#[trigger] pushes[j]).parameters.key()
                == key implies places.contains(j) by {
            if j < n {
                assert(before[j] == pushes[j]);
                assert(earlier.contains(j));
                let a = earlier.index_of(j);
                assert(places[a] == j);
            } else {
                assert(places[earlier.len() as int] == j);
            }
        }
        places
    }
}

/// After pushes of instances alone into an empty storage, the bundle that the key of a push leads
/// to holds the instances of exactly the pushes under this key, in the order in which they were
/// pushed: the places give, for each instance of the bundle, the push that it came with.
pub proof fn bundles_hold_what_was_pushed_in_order(pushes: Seq<InstancePush>, i: int) -> (places:
    Seq<int>)
    requires
        pushes.len() <= usize::MAX,
        0 <= i < pushes.len(),
    ensures
        ({
            let s = StorageView::empty().replay(
                pushes.map_values(|push: InstancePush| Push::Instance(push)),
            );
            let key = pushes[i].parameters.key();
            let b = s.bundles[s.index[key] as int];
            &&& s.index.contains_key(key)
            &&& s.index[key] < s.bundles.len()
            &&& b.instances.len() == places.len()
            &&& forall|a: int, c: int|
                0 <= a < c < places.len() ==> #[trigger] places[a] < #[trigger] places[c]
            &&& forall|a: int|
                0 <= a < places.len() ==> 0 <= #[trigger] places[a] < pushes.len()
                    && pushes[places[a]].parameters.key() == key && b.instances[a]
                    == pushes[places[a]].instance
            &&& forall|j: int|
                0 <= j < pushes.len() && (#[trigger] pushes[j]).parameters.key() == key
                    ==> places.contains(j)
        }),
{
    instances_are_grouped_by_key(pushes);
    let s = StorageView::empty().replay(instance_pushes(pushes));
    assert(instance_pushes(pushes) == pushes.map_values(
        |push: InstancePush| Push::Instance(push),
    ));
    let key = pushes[i].parameters.key();
    assert(s.index.contains_key(key));
    let first = lemma_first_under_key(pushes, i);
    assert(is_first(pushes, first));
    assert(pushes[first].parameters.key() == key);
    lemma_places_under(pushes, key)
}

/// Bundles whose first pushes came one after the other stand one after the other: an earlier first
/// push has its bundle further in front.
pub proof fn bundles_stand_in_the_order_of_their_first_pushes(pushes: Seq<Push>, i: int, j: int)
    requires
        pushes.len() <= usize::MAX,
        0 <= i < j < pushes.len(),
        forall|k: int| 0 <= k < i ==> (#[trigger] pushes[k]).key() != pushes[i].key(),
        forall|k: int| 0 <= k < j ==> (#[trigger] pushes[k]).key() != pushes[j].key(),
    ensures
        ({
            let s = StorageView::empty().replay(pushes);
            s.index[pushes[i].key()] < s.index[pushes[j].key()]
        }),
    decreases pushes.len(),
{
    let (before, last) = (pushes.drop_last(), pushes.last());
    let r = StorageView::empty().replay(before);
    empty_storage_is_built_by_pushes();
    replaying_keeps_built(StorageView::empty(), before);
    assert forall|k: int| 0 <= k < i implies (#[trigger] before[k]).key() != before[i].key() by {
        assert(pushes[k].key() != pushes[i].key());
    }
    first_pushes_fix_their_bundles(before, i);
    assert(pushes[i].key() != pushes[j].key());
    if j < before.len() {
        assert forall|k: int| 0 <= k < j implies (#[trigger] before[k]).key()
            != before[j].key() by {
            assert(pushes[k].key() != pushes[j].key());
        }
        first_pushes_fix_their_bundles(before, j);
        bundles_stand_in_the_order_of_their_first_pushes(before, i, j);
    } else {
        assert forall|k: int| 0 <= k < before.len() implies (#[trigger] before[k]).key()
            != pushes[j].key() by {
            assert(pushes[k].key() != pushes[j].key());
        }
        lemma_unpushed_keys_lead_nowhere(before, pushes[j].key());
    }
}

/// What is pushed under a key can be collected wherever this key does not lead past the bundles.
pub proof fn storages_are_open_where_keys_lead_to_bundles(
    storage: RenderDataBundleStorage,
    key: u64,
)
    ensures
        storage.collected() == storage@,
        storage.is_open_for(key) <==> (storage@.index.contains_key(key) ==> storage@.index[key]
            < storage@.bundles.len()),
{
}

/// Anything can be pushed during a collection.
pub proof fn collections_are_open(storage: PushedStorage, key: u64)
    ensures
        storage.is_open_for(key),
{
}

/// A context holds what the storage holds that it writes to, and is open where the storage is.
pub proof fn contexts_stand_for_their_storage<'a, S: RenderDataBundleStorageTrait, T, F>(
    ctx: RenderContext<'a, S, T, F>,
    key: u64,
)
    ensures
        ctx.collected() == (*ctx.borrowed_storage()).collected(),
        ctx.is_open_for(key) == (*ctx.borrowed_storage()).is_open_for(key),
{
}

} // verus!
