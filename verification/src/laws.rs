//! What holds of the bundles whatever is pushed.
use vstd::prelude::*;

use crate::bundle::in_rendering_order;
use crate::bundle::BundleView;
use crate::identifier::PersistentIdentifier;
use crate::instance::InstanceView;
use crate::keys::one_different_parameter_changes_instance_key;
use crate::keys::one_different_parameter_changes_triangles_key;
use crate::keys::InstanceParameters;
use crate::keys::TriangleParameters;
use crate::pushes::Push;
use crate::resource::Handle;
use crate::resource::SurfaceResource;
use crate::storage::instance_bundle;
use crate::storage::key_index;
use crate::storage::StorageView;

verus! {

/// A storage without bundles is one that pushes lead to: no pushes.
pub proof fn empty_storage_is_built_by_pushes()
    ensures
        StorageView::empty().is_built_by_pushes(),
{
}

/// Opening a bundle under a key of its own keeps the storage one that pushes lead to.
proof fn lemma_with_bundle_keeps_built(s: StorageView, key: u64, bundle: BundleView)
    requires
        s.is_built_by_pushes(),
        s.bundles.len() <= usize::MAX,
        !s.index.contains_key(key),
        bundle.has_key(key),
        bundle.is_keyed_by_parameters(),
        bundle.instances.len() != 0,
    ensures
        s.with_bundle(key, bundle).is_built_by_pushes(),
{
    let t = s.with_bundle(key, bundle);
    assert forall|place: int| 0 <= place < t.bundles.len() implies t.is_sound_at(place) by {
        if place < s.bundles.len() {
            assert(s.is_sound_at(place));
        }
    }
}

/// Pushing a surface instance leads from a storage that pushes lead to, to another one.
pub proof fn pushing_an_instance_keeps_built(
    s: StorageView,
    parameters: InstanceParameters,
    sort_index: u64,
    instance: InstanceView,
)
    requires
        s.is_built_by_pushes(),
        s.bundles.len() <= usize::MAX,
    ensures
        s.with_instance(parameters, sort_index, instance).is_built_by_pushes(),
{
    let key = parameters.key();
    let t = s.with_instance(parameters, sort_index, instance);
    if s.index.contains_key(key) {
        let at = s.index[key] as int;
        let (b, c) = (s.bundles[at], t.bundles[at]);
        assert(c.instance_parameters() == b.instance_parameters());
        assert(b.layout matches Some(layout) ==> c.triangle_parameters(layout)
            == b.triangle_parameters(layout));
        assert forall|place: int| 0 <= place < t.bundles.len() implies t.is_sound_at(place) by {
            assert(s.is_sound_at(place));
        }
    } else {
        let bundle = instance_bundle(parameters, sort_index, instance);
        assert(bundle.instance_parameters() == parameters);
        lemma_with_bundle_keeps_built(s, key, bundle);
    }
}

/// Opening a bundle for triangles leads from a storage that pushes lead to, to another one.
pub proof fn pushing_triangles_keeps_built(
    s: StorageView,
    parameters: TriangleParameters,
    sort_index: u64,
    node_handle: Handle,
    data: SurfaceResource,
    identifier: PersistentIdentifier,
)
    requires
        s.is_built_by_pushes(),
        s.bundles.len() <= usize::MAX,
        !s.index.contains_key(parameters.key()),
    ensures
        s.with_triangles(
            parameters,
            sort_index,
            node_handle,
            data,
            identifier,
        ).is_built_by_pushes(),
{
    let t = s.with_triangles(parameters, sort_index, node_handle, data, identifier);
    let bundle = t.bundles.last();
    assert(bundle.triangle_parameters(parameters.layout) == parameters);
    lemma_with_bundle_keeps_built(s, parameters.key(), bundle);
}

/// A push leads from a storage that pushes lead to, to another one.
pub proof fn pushing_keeps_built(s: StorageView, push: Push)
    requires
        s.is_built_by_pushes(),
        s.bundles.len() <= usize::MAX,
    ensures
        s.after(push).is_built_by_pushes(),
{
    match push {
        Push::Instance(push) => {
            pushing_an_instance_keeps_built(s, push.parameters, push.sort_index, push.instance);
        },
        Push::Triangles(push) => {
            if !s.index.contains_key(push.parameters.key()) {
                pushing_triangles_keeps_built(
                    s,
                    push.parameters,
                    push.sort_index,
                    push.node_handle,
                    push.data,
                    push.identifier,
                );
            }
        },
    }
}

/// Surface instances that are pushed one after another with the same parameters come to stand one
/// after another in the same bundle; the second push opens no bundle.
pub proof fn equal_parameters_share_a_bundle(
    s: StorageView,
    parameters: InstanceParameters,
    first: (u64, InstanceView),
    second: (u64, InstanceView),
)
    requires
        s.is_open_for(parameters.key()),
        s.bundles.len() <= usize::MAX,
    ensures
        ({
            let t = s.with_instance(parameters, first.0, first.1);
            let u = t.with_instance(parameters, second.0, second.1);
            let bundle = u.bundles[u.index[parameters.key()] as int];
            let n = bundle.instances.len();
            &&& u.index == t.index
            &&& u.bundles.len() == t.bundles.len()
            &&& u.index[parameters.key()] < u.bundles.len()
            &&& n >= 2
            &&& bundle.instances[n - 2] == first.1
            &&& bundle.instances[n - 1] == second.1
        }),
{
}

/// Where parameters of which only one is different both lead to bundles, they lead to separate
/// ones.
pub proof fn one_different_parameter_leads_to_separate_bundles(
    s: StorageView,
    a: InstanceParameters,
    b: InstanceParameters,
)
    requires
        s.is_built_by_pushes(),
        s.index.contains_key(a.key()),
        s.index.contains_key(b.key()),
        a.differs_in_one(&b),
        usize::BITS == 64 || a.resources_mix_apart(&b),
    ensures
        s.index[a.key()] != s.index[b.key()],
{
    one_different_parameter_changes_instance_key(a, b);
}

/// If only one of the parameters is different, two surface instances that are pushed one after
/// the other are put in separate bundles.
pub proof fn one_different_parameter_separates_instances(
    s: StorageView,
    a: InstanceParameters,
    b: InstanceParameters,
    first: (u64, InstanceView),
    second: (u64, InstanceView),
)
    requires
        s.is_built_by_pushes(),
        s.bundles.len() < usize::MAX,
        a.differs_in_one(&b),
        usize::BITS == 64 || a.resources_mix_apart(&b),
    ensures
        ({
            let t = s.with_instance(a, first.0, first.1);
            let u = t.with_instance(b, second.0, second.1);
            let (i, j) = (u.index[a.key()], u.index[b.key()]);
            &&& i != j
            &&& i < u.bundles.len()
            &&& j < u.bundles.len()
            &&& u.bundles[i as int].instances.last() == first.1
            &&& u.bundles[j as int].instances.last() == second.1
        }),
{
    one_different_parameter_changes_instance_key(a, b);
    pushing_an_instance_keeps_built(s, a, first.0, first.1);
    let t = s.with_instance(a, first.0, first.1);
    pushing_an_instance_keeps_built(t, b, second.0, second.1);
    let u = t.with_instance(b, second.0, second.1);
    assert(u.index.contains_key(a.key()) && u.index.contains_key(b.key()));
}

/// If only one of the parameters is different, triangles are not put in a bundle that was opened
/// for other triangles: they have a bundle elsewhere, or still need one.
pub proof fn one_different_parameter_separates_triangles(
    s: StorageView,
    a: TriangleParameters,
    b: TriangleParameters,
    sort_index: u64,
    node_handle: Handle,
    data: SurfaceResource,
    identifier: PersistentIdentifier,
)
    requires
        s.is_open_for(b.key()),
        s.bundles.len() <= usize::MAX,
        a.differs_in_one(&b),
        (usize::BITS == 64 && a.layout == b.layout) || a.resources_mix_apart(&b),
    ensures
        ({
            let t = s.with_triangles(a, sort_index, node_handle, data, identifier);
            &&& t.index.contains_key(b.key()) == s.index.contains_key(b.key())
            &&& t.index.contains_key(b.key()) ==> t.index[b.key()] != t.index[a.key()]
        }),
{
    one_different_parameter_changes_triangles_key(a, b);
}

/// Triangles with the same parameters find the bundle that was opened for the first of them, and
/// go into its surface data.
pub proof fn equal_parameters_share_surface_data(
    s: StorageView,
    parameters: TriangleParameters,
    sort_index: u64,
    node_handle: Handle,
    data: SurfaceResource,
    identifier: PersistentIdentifier,
)
    requires
        s.bundles.len() <= usize::MAX,
    ensures
        ({
            let t = s.with_triangles(parameters, sort_index, node_handle, data, identifier);
            &&& t.index.contains_key(parameters.key())
            &&& t.index[parameters.key()] < t.bundles.len()
            &&& t.bundles[t.index[parameters.key()] as int].data == data
        }),
{
}

/// How many instances some bundles have together.
pub open spec fn instance_count(bundles: Seq<BundleView>) -> nat
    decreases bundles.len(),
{
    if bundles.len() == 0 {
        0
    } else {
        instance_count(bundles.drop_last()) + bundles.last().instances.len()
    }
}

proof fn lemma_instance_count_update(bundles: Seq<BundleView>, place: int, bundle: BundleView)
    requires
        0 <= place < bundles.len(),
    ensures
        instance_count(bundles.update(place, bundle)) + bundles[place].instances.len()
            == instance_count(bundles) + bundle.instances.len(),
    decreases bundles.len(),
{
    let updated = bundles.update(place, bundle);
    if place == bundles.len() - 1 {
        assert(updated.drop_last() == bundles.drop_last());
    } else {
        assert(updated.drop_last() == bundles.drop_last().update(place, bundle));
        lemma_instance_count_update(bundles.drop_last(), place, bundle);
    }
}

/// A push adds one instance, and takes none away.
pub proof fn pushing_adds_one_instance(
    s: StorageView,
    parameters: InstanceParameters,
    sort_index: u64,
    instance: InstanceView,
)
    requires
        s.is_open_for(parameters.key()),
    ensures
        instance_count(s.with_instance(parameters, sort_index, instance).bundles)
            == instance_count(s.bundles) + 1,
{
    let key = parameters.key();
    let t = s.with_instance(parameters, sort_index, instance);
    if s.index.contains_key(key) {
        let place = s.index[key] as int;
        lemma_instance_count_update(s.bundles, place, s.bundles[place].with_instance(instance));
    } else {
        assert(t.bundles.drop_last() == s.bundles);
    }
}

/// A push removes no bundle and leaves each bundle as it is but for the one that the instance is
/// put in, of which it changes the instances alone: what the first push of a bundle fixed, its
/// sort index among it, stays.
pub proof fn pushing_keeps_other_bundles(
    s: StorageView,
    parameters: InstanceParameters,
    sort_index: u64,
    instance: InstanceView,
    place: int,
)
    requires
        s.is_open_for(parameters.key()),
        0 <= place < s.bundles.len(),
    ensures
        ({
            let t = s.with_instance(parameters, sort_index, instance);
            let key = parameters.key();
            &&& place < t.bundles.len()
            &&& t.bundles[place] == (if s.index.contains_key(key) && s.index[key] == place {
                s.bundles[place].with_instance(instance)
            } else {
                s.bundles[place]
            })
        }),
{
}

/// Where each key leads, if the bundles stand in the given order: to a bundle that was opened under
/// it; and each bundle's key leads somewhere.
pub(crate) proof fn lemma_key_index(bundles: Seq<BundleView>)
    requires
        bundles.len() <= usize::MAX,
    ensures
        forall|key: u64| #[trigger]
            key_index(bundles).contains_key(key) ==> key_index(bundles)[key] < bundles.len()
                && bundles[key_index(bundles)[key] as int].key == key,
        forall|place: int|
            0 <= place < bundles.len() ==> key_index(bundles).contains_key(
                (#[trigger] bundles[place]).key,
            ),
    decreases bundles.len(),
{
    if bundles.len() != 0 {
        let before = bundles.drop_last();
        lemma_key_index(before);
        assert forall|key: u64| #[trigger]
            key_index(bundles).contains_key(key) implies key_index(bundles)[key] < bundles.len()
            && bundles[key_index(bundles)[key] as int].key == key by {
            if key != bundles.last().key {
                assert(key_index(before).contains_key(key));
            }
        }
        assert forall|place: int| 0 <= place < bundles.len() implies key_index(
            bundles,
        ).contains_key((#[trigger] bundles[place]).key) by {
            if place < before.len() {
                assert(before[place] == bundles[place]);
            }
        }
    }
}

/// Bundles that stand where their keys lead are all different.
proof fn lemma_built_bundles_differ(s: StorageView)
    requires
        s.is_built_by_pushes(),
    ensures
        s.bundles.no_duplicates(),
{
    assert forall|i: int, j: int|
        0 <= i < s.bundles.len() && 0 <= j < s.bundles.len() && i != j implies s.bundles[i]
        != s.bundles[j] by {
        assert(s.is_sound_at(i) && s.is_sound_at(j));
    }
}

/// After the bundles were reordered and their places were looked up anew, each key leads to the
/// bundle that it led to before.
pub(crate) proof fn lemma_sorted_index(s: StorageView, t: StorageView)
    requires
        s.is_built_by_pushes(),
        t.bundles.len() <= usize::MAX,
        t.bundles.to_multiset() == s.bundles.to_multiset(),
        t.index == key_index(t.bundles),
    ensures
        t.is_built_by_pushes(),
        t.index.dom() == s.index.dom(),
        forall|key: u64| #[trigger]
            s.index.contains_key(key) ==> t.bundles[t.index[key] as int]
                == s.bundles[s.index[key] as int],
{
    lemma_key_index(t.bundles);
    lemma_built_bundles_differ(s);
    s.bundles.lemma_multiset_has_no_duplicates();
    t.bundles.lemma_multiset_has_no_duplicates_conv();
    assert forall|place: int| 0 <= place < t.bundles.len() implies t.is_sound_at(place) by {
        let bundle = t.bundles[place];
        assert(t.index.contains_key(bundle.key));
        let found = t.index[bundle.key] as int;
        let i = lemma_found_in_reordered(t.bundles, s.bundles, place);
        let j = lemma_found_in_reordered(t.bundles, s.bundles, found);
        assert(s.is_sound_at(i) && s.is_sound_at(j));
    }
    assert forall|key: u64| s.index.contains_key(key) implies #[trigger] t.index.contains_key(key)
        && t.bundles[t.index[key] as int] == s.bundles[s.index[key] as int] by {
        let place = s.index[key] as int;
        let found = lemma_found_in_reordered(s.bundles, t.bundles, place);
        assert(t.is_sound_at(found));
    }
    assert forall|key: u64| t.index.contains_key(key) implies #[trigger] s.index.contains_key(
        key,
    ) by {
        let found = lemma_found_in_reordered(t.bundles, s.bundles, t.index[key] as int);
        assert(s.is_sound_at(found));
    }
    assert(t.index.dom() =~= s.index.dom());
}

/// Of two bundles whose sort indices were calculated from depths, the one that lies deeper is
/// rendered first: from back to front.
pub proof fn deeper_bundles_are_rendered_first(
    bundles: Seq<BundleView>,
    i: int,
    j: int,
    deep: u64,
    shallow: u64,
)
    requires
        in_rendering_order(bundles),
        0 <= i < bundles.len(),
        0 <= j < bundles.len(),
        bundles[i].sort_index == u64::MAX - deep,
        bundles[j].sort_index == u64::MAX - shallow,
        deep > shallow,
    ensures
        i < j,
{
    if j <= i {
        assert(bundles[j].sort_index <= bundles[i].sort_index);
    }
}

/// Whatever stands in a list stands in a reordered one as well.
proof fn lemma_found_in_reordered(a: Seq<BundleView>, b: Seq<BundleView>, i: int) -> (j: int)
    requires
        a.to_multiset() == b.to_multiset(),
        0 <= i < a.len(),
    ensures
        0 <= j < b.len(),
        b[j] == a[i],
{
    a.to_multiset_ensures();
    b.to_multiset_ensures();
    assert(a.contains(a[i]));
    assert(a.to_multiset().count(a[i]) > 0);
    assert(b.contains(a[i]));
    b.index_of(a[i])
}

/// Sorting the same bundles gives the same sequence of sort indices, in whatever order they were
/// before: bundles with equal sort indices alone can change places.
pub proof fn sorting_fixes_the_sort_indices(a: Seq<BundleView>, b: Seq<BundleView>, place: int)
    requires
        in_rendering_order(a),
        in_rendering_order(b),
        a.to_multiset() == b.to_multiset(),
        0 <= place < a.len(),
    ensures
        a.len() == b.len(),
        a[place].sort_index == b[place].sort_index,
    decreases a.len(),
{
    a.to_multiset_ensures();
    b.to_multiset_ensures();
    let n = a.len() as int;
    let at = lemma_found_in_reordered(a, b, n - 1);
    let back = lemma_found_in_reordered(b, a, n - 1);
    assert(a[back].sort_index <= a[n - 1].sort_index);
    assert(b[at].sort_index <= b[n - 1].sort_index);
    if place < n - 1 {
        let (c, d) = (a.remove(n - 1), b.remove(at));
        assert(in_rendering_order(c));
        assert(in_rendering_order(d));
        sorting_fixes_the_sort_indices(c, d, place);
        if at <= place {
            assert(b[at].sort_index <= b[place].sort_index);
            assert(b[place].sort_index <= b[place + 1].sort_index);
            assert(b[place + 1].sort_index <= b[n - 1].sort_index);
        }
    }
}

} // verus!
