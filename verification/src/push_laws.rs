//! What holds of sequences of pushes.
use vstd::prelude::*;

use crate::bundle::in_rendering_order;
use crate::bundle::BundleView;
use crate::graph::Graph;
use crate::instance::plain_instance;
use crate::instance::InstanceView;
use crate::laws::empty_storage_is_built_by_pushes;
use crate::laws::instance_count;
use crate::laws::pushing_keeps_built;
use crate::pushes::InstancePush;
use crate::pushes::Push;
use crate::pushes::TrianglesPush;
use crate::storage::instance_bundle;
use crate::storage::triangles_bundle;
use crate::storage::StorageView;
use crate::traversal::is_collection;
use crate::traversal::NodeVisit;

verus! {

/// A push of triangles opens one bundle with one instance in it, or none where there is a bundle
/// for them; it leaves all bundles as they were.
pub proof fn pushing_triangles_adds_instances_with_bundles(s: StorageView, push: TrianglesPush)
    ensures
        ({
            let t = s.after_triangles(push);
            let opened: nat = if s.index.contains_key(push.parameters.key()) {
                0
            } else {
                1
            };
            &&& t.bundles.len() == s.bundles.len() + opened
            &&& instance_count(t.bundles) == instance_count(s.bundles) + opened
            &&& t.bundles.take(s.bundles.len() as int) == s.bundles
        }),
{
    let t = s.after_triangles(push);
    if !s.index.contains_key(push.parameters.key()) {
        assert(t.bundles.drop_last() == s.bundles);
    }
}

/// Any pushes lead from a storage that pushes lead to, to another one. None of them removes a
/// bundle, and each opens one at most.
pub proof fn replaying_keeps_built(s: StorageView, pushes: Seq<Push>)
    requires
        s.is_built_by_pushes(),
        s.bundles.len() + pushes.len() <= usize::MAX,
    ensures
        s.replay(pushes).is_built_by_pushes(),
        s.bundles.len() <= s.replay(pushes).bundles.len() <= s.bundles.len() + pushes.len(),
    decreases pushes.len(),
{
    if pushes.len() != 0 {
        replaying_keeps_built(s, pushes.drop_last());
        pushing_keeps_built(s.replay(pushes.drop_last()), pushes.last());
    }
}

/// Pushes that follow others start from what those left.
pub proof fn replaying_continues(s: StorageView, a: Seq<Push>, b: Seq<Push>)
    ensures
        s.replay(a + b) == s.replay(a).replay(b),
    decreases b.len(),
{
    if b.len() == 0 {
        assert(a + b == a);
    } else {
        assert((a + b).drop_last() == a + b.drop_last());
        replaying_continues(s, a, b.drop_last());
    }
}

/// Where each of several stages is what some pushes make of the one before, the last one is what
/// all these pushes, one after another, make of the first.
pub proof fn stages_replay_all_pushes(stages: Seq<StorageView>, pushes: Seq<Seq<Push>>)
    requires
        stages.len() == pushes.len() + 1,
        forall|k: int|
            0 <= k < pushes.len() ==> stages[k + 1] == stages[k].replay(#[trigger] pushes[k]),
    ensures
        stages.last() == stages[0].replay(pushes.flatten()),
    decreases pushes.len(),
{
    pushes.lemma_flatten_and_flatten_alt_are_equivalent();
    if pushes.len() != 0 {
        let (a, b) = (stages.drop_last(), pushes.drop_last());
        assert forall|k: int| 0 <= k < b.len() implies a[k + 1] == a[k].replay(
            #[trigger] b[k],
        ) by {
            assert(pushes[k] == b[k]);
        }
        stages_replay_all_pushes(a, b);
        b.lemma_flatten_and_flatten_alt_are_equivalent();
        let last = pushes[pushes.len() - 1];
        assert(pushes.flatten_alt() == b.flatten_alt() + last);
        replaying_continues(stages[0], b.flatten(), last);
        assert(stages[pushes.len() - 1 + 1] == stages[pushes.len() - 1].replay(last));
    }
}

/// A collection gives the bundles that the same pushes, those of all visited nodes one after
/// another, make of an empty storage, in rendering order.
pub proof fn collections_are_replayed_and_sorted<T>(
    graph: &Graph<T>,
    visits: Seq<NodeVisit>,
    stages: Seq<StorageView>,
    storage: StorageView,
    pushes: Seq<Seq<Push>>,
)
    requires
        is_collection(graph, visits, stages, storage),
        pushes.len() == visits.len(),
        forall|k: int|
            0 <= k < pushes.len() ==> stages[k + 1] == stages[k].replay(#[trigger] pushes[k]),
    ensures
        storage.is_reordering_of(StorageView::empty().replay(pushes.flatten())),
        in_rendering_order(storage.bundles),
{
    stages_replay_all_pushes(stages, pushes);
}

/// Whether each bundle for triangles has surface data of its own, that no other bundle has.
pub open spec fn surfaces_are_apart(s: StorageView) -> bool {
    forall|i: int, j: int|
        0 <= i < s.bundles.len() && 0 <= j < s.bundles.len() && i != j && (
        #[trigger] s.bundles[i]).layout is Some ==> s.bundles[i].data != (
        #[trigger] s.bundles[j]).data
}

/// Whether a bundle that a push opens has surface data that keep apart: new ones for triangles, and
/// for an instance none that were made for triangles.
pub open spec fn brings_fresh_surface(s: StorageView, push: Push) -> bool {
    match push {
        Push::Instance(push) => s.index.contains_key(push.parameters.key()) || forall|i: int|
            0 <= i < s.bundles.len() && (#[trigger] s.bundles[i]).layout is Some
                ==> s.bundles[i].data != push.parameters.data,
        Push::Triangles(push) => s.index.contains_key(push.parameters.key()) || forall|i: int|
            0 <= i < s.bundles.len() ==> (#[trigger] s.bundles[i]).data != push.data,
    }
}

/// Where surface data are new when they are made for triangles, each bundle for triangles keeps
/// surface data of its own through further pushes.
pub proof fn fresh_surfaces_stay_apart(s: StorageView, push: Push)
    requires
        s.is_open_for(push.key()),
        surfaces_are_apart(s),
        brings_fresh_surface(s, push),
    ensures
        surfaces_are_apart(s.after(push)),
{
    let t = s.after(push);
    assert forall|i: int, j: int|
        0 <= i < t.bundles.len() && 0 <= j < t.bundles.len() && i != j && (
        #[trigger] t.bundles[i]).layout is Some implies t.bundles[i].data != (
    #[trigger] t.bundles[j]).data by {
        if i < s.bundles.len() && j < s.bundles.len() {
            let (b, c) = (s.bundles[i], s.bundles[j]);
        } else if i < s.bundles.len() {
            let b = s.bundles[i];
        } else {
            let c = s.bundles[j];
        }
    }
}

/// Each bundle for triangles keeps surface data of its own through sorting.
pub proof fn sorted_surfaces_stay_apart(s: StorageView, t: StorageView)
    requires
        s.is_built_by_pushes(),
        t.is_built_by_pushes(),
        t.is_reordering_of(s),
        surfaces_are_apart(s),
    ensures
        surfaces_are_apart(t),
{
    assert forall|i: int, j: int|
        0 <= i < t.bundles.len() && 0 <= j < t.bundles.len() && i != j && (
        #[trigger] t.bundles[i]).layout is Some implies t.bundles[i].data != (
    #[trigger] t.bundles[j]).data by {
        assert(t.is_sound_at(i) && t.is_sound_at(j));
        let (p, q) = (t.bundles[i].key, t.bundles[j].key);
        assert(t.index.dom().contains(p) && t.index.dom().contains(q));
        assert(s.index.contains_key(p) && s.index.contains_key(q));
        let (k, l) = (s.index[p] as int, s.index[q] as int);
        assert(s.bundles[k] == t.bundles[i] && s.bundles[l] == t.bundles[j]);
    }
}

/// Whether one storage becomes the other by a push or by sorting. Surface data that are made for
/// triangles are new, and are not pushed with instances.
pub open spec fn is_step(s: StorageView, t: StorageView) -> bool {
    ||| exists|push: Push| #[trigger] brings_fresh_surface(s, push) && t == s.after(push)
    ||| t.is_built_by_pushes() && t.is_reordering_of(s)
}

/// Whatever pushes and sorting make of an empty storage, each key leads to the bundle that was
/// opened under it, each bundle has at least one instance, and each bundle for triangles has
/// surface data of its own.
pub proof fn pushes_and_sorting_keep_invariants(states: Seq<StorageView>)
    requires
        states.len() != 0,
        states[0] == StorageView::empty(),
        forall|k: int|
            0 <= k < states.len() ==> (#[trigger] states[k]).bundles.len() <= usize::MAX,
        forall|k: int|
            0 <= k < states.len() - 1 ==> is_step(#[trigger] states[k], states[k + 1]),
    ensures
        states.last().is_built_by_pushes(),
        surfaces_are_apart(states.last()),
    decreases states.len(),
{
    empty_storage_is_built_by_pushes();
    if states.len() > 1 {
        let before = states.drop_last();
        assert forall|k: int| 0 <= k < before.len() implies (
        #[trigger] before[k]).bundles.len() <= usize::MAX by {
            assert(states[k] == before[k]);
        }
        assert forall|k: int| 0 <= k < before.len() - 1 implies is_step(
            #[trigger] before[k],
            before[k + 1],
        ) by {
            assert(states[k] == before[k]);
        }
        pushes_and_sorting_keep_invariants(before);
        let n = before.len() - 1;
        let (s, t) = (states[n], states[n + 1]);
        assert(is_step(s, t));
        if exists|push: Push| #[trigger] brings_fresh_surface(s, push) && t == s.after(push) {
            let push = choose|push: Push| #[trigger]
                brings_fresh_surface(s, push) && t == s.after(push);
            pushing_keeps_built(s, push);
            fresh_surfaces_stay_apart(s, push);
        } else {
            sorted_surfaces_stay_apart(s, t);
        }
    }
}

/// What is pushed after sorting goes to the bundle that its key led to before: an instance is added
/// to that bundle, and triangles are written into its surface data.
pub proof fn pushes_after_sorting_find_their_bundles(
    s: StorageView,
    t: StorageView,
    instance: InstancePush,
    triangles: TrianglesPush,
)
    requires
        s.is_built_by_pushes(),
        t.is_built_by_pushes(),
        t.is_reordering_of(s),
    ensures
        ({
            let key = instance.parameters.key();
            let u = t.after(Push::Instance(instance));
            s.index.contains_key(key) ==> {
                &&& u.index == t.index
                &&& u.bundles.len() == t.bundles.len()
                &&& u.bundles[u.index[key] as int] == s.bundles[s.index[key] as int].with_instance(
                    instance.instance,
                )
            }
        }),
        t.after_triangles(triangles) == t <==> s.index.contains_key(triangles.parameters.key()),
        t.surface_for(triangles.parameters, triangles.data) == s.surface_for(
            triangles.parameters,
            triangles.data,
        ),
{
    let key = instance.parameters.key();
    let other = triangles.parameters.key();
    assert(t.index.dom().contains(key) == s.index.dom().contains(key));
    assert(t.index.dom().contains(other) == s.index.dom().contains(other));
    if !s.index.contains_key(other) {
        assert(t.after_triangles(triangles).bundles.len() == t.bundles.len() + 1);
    }
}

/// Several pushes of triangles.
pub open spec fn triangle_pushes(pushes: Seq<TrianglesPush>) -> Seq<Push> {
    pushes.map_values(|push: TrianglesPush| Push::Triangles(push))
}

/// Several pushes of surface instances.
pub open spec fn instance_pushes(pushes: Seq<InstancePush>) -> Seq<Push> {
    pushes.map_values(|push: InstancePush| Push::Instance(push))
}

/// However often triangles with the same parameters are pushed, they are all written into the same
/// surface data, and the bundles are those that the first push left: the one for the triangles has
/// one instance if it was opened for them.
pub proof fn equal_triangles_share_one_bundle(s: StorageView, pushes: Seq<TrianglesPush>)
    requires
        s.bundles.len() <= usize::MAX,
        pushes.len() != 0,
        forall|k: int|
            0 <= k < pushes.len() ==> (#[trigger] pushes[k]).parameters == pushes[0].parameters,
    ensures
        s.replay(triangle_pushes(pushes)) == s.after_triangles(pushes[0]),
        forall|k: int|
            0 <= k < pushes.len() ==> s.replay(triangle_pushes(pushes.take(k))).surface_for(
                pushes[0].parameters,
                (#[trigger] pushes[k]).data,
            ) == s.surface_for(pushes[0].parameters, pushes[0].data),
        !s.index.contains_key(pushes[0].parameters.key()) ==> s.replay(
            triangle_pushes(pushes),
        ).bundles.last().instances.len() == 1,
    decreases pushes.len(),
{
    let before = pushes.drop_last();
    let all = triangle_pushes(pushes);
    assert(all.drop_last() == triangle_pushes(before));
    if before.len() != 0 {
        assert forall|k: int| 0 <= k < before.len() implies (#[trigger] before[k]).parameters
            == before[0].parameters by {
            assert(pushes[k] == before[k]);
        }
        equal_triangles_share_one_bundle(s, before);
        assert(pushes[pushes.len() - 1].parameters == pushes[0].parameters);
    } else {
        assert(s.replay(triangle_pushes(before)) == s);
    }
    assert forall|k: int| 0 <= k < pushes.len() implies s.replay(
        triangle_pushes(pushes.take(k)),
    ).surface_for(pushes[0].parameters, (#[trigger] pushes[k]).data) == s.surface_for(
        pushes[0].parameters,
        pushes[0].data,
    ) by {
        if k < before.len() {
            assert(before[k] == pushes[k]);
            assert(before.take(k) == pushes.take(k));
        } else {
            assert(pushes.take(k) == before);
        }
    }
}

/// Triangles that are pushed into an empty storage more than once with the same parameters give
/// one bundle with one instance.
pub proof fn equal_triangles_in_an_empty_storage(pushes: Seq<TrianglesPush>)
    requires
        pushes.len() != 0,
        forall|k: int|
            0 <= k < pushes.len() ==> (#[trigger] pushes[k]).parameters == pushes[0].parameters,
    ensures
        ({
            let bundles = StorageView::empty().replay(triangle_pushes(pushes)).bundles;
            &&& bundles.len() == 1
            &&& bundles[0].data == pushes[0].data
            &&& bundles[0].instances.len() == 1
        }),
{
    equal_triangles_share_one_bundle(StorageView::empty(), pushes);
}

/// Where the parameters of an instance and of triangles hash apart, pushing both gives two bundles:
/// the one for the instance stays as it was, and the triangles are written into the new surface
/// data of the other.
pub proof fn triangles_keep_off_instances(first: InstancePush, second: TrianglesPush)
    requires
        first.parameters.key() != second.parameters.key(),
    ensures
        ({
            let s = StorageView::empty().after(Push::Instance(first));
            let t = s.after(Push::Triangles(second));
            &&& t.bundles == seq![
                instance_bundle(first.parameters, first.sort_index, first.instance),
                triangles_bundle(
                    second.parameters,
                    second.sort_index,
                    second.data,
                    plain_instance(second.identifier, second.node_handle),
                ),
            ]
            &&& t.bundles[0] == s.bundles[0]
            &&& s.surface_for(second.parameters, second.data) == second.data
            &&& second.data != first.parameters.data ==> t.bundles[1].data != t.bundles[0].data
        }),
{
    let s = StorageView::empty().after(Push::Instance(first));
    let t = s.after(Push::Triangles(second));
    assert(t.bundles =~= seq![s.bundles[0], t.bundles[1]]);
}

/// Where the parameters of triangles hash apart, pushing both into an empty storage gives two
/// bundles, each with its parameters, and each set of triangles is written into its own surface
/// data.
pub proof fn different_triangles_have_their_own_bundles(first: TrianglesPush, second: TrianglesPush)
    requires
        first.parameters.key() != second.parameters.key(),
    ensures
        ({
            let s = StorageView::empty().after(Push::Triangles(first));
            let t = s.after(Push::Triangles(second));
            &&& t.bundles == seq![
                triangles_bundle(
                    first.parameters,
                    first.sort_index,
                    first.data,
                    plain_instance(first.identifier, first.node_handle),
                ),
                triangles_bundle(
                    second.parameters,
                    second.sort_index,
                    second.data,
                    plain_instance(second.identifier, second.node_handle),
                ),
            ]
            &&& t.bundles[0].triangle_parameters(first.parameters.layout) == first.parameters
            &&& t.bundles[1].triangle_parameters(second.parameters.layout) == second.parameters
            &&& StorageView::empty().surface_for(first.parameters, first.data) == first.data
            &&& s.surface_for(second.parameters, second.data) == second.data
            &&& second.data != first.data ==> t.bundles[1].data != t.bundles[0].data
        }),
{
    let s = StorageView::empty().after(Push::Triangles(first));
    let t = s.after(Push::Triangles(second));
    assert(t.bundles =~= seq![s.bundles[0], t.bundles[1]]);
}

/// The instances that were pushed under a key, in the order of the pushes.
pub open spec fn instances_under(pushes: Seq<InstancePush>, key: u64) -> Seq<InstanceView>
    decreases pushes.len(),
{
    if pushes.len() == 0 {
        Seq::empty()
    } else if pushes.last().parameters.key() == key {
        instances_under(pushes.drop_last(), key).push(pushes.last().instance)
    } else {
        instances_under(pushes.drop_last(), key)
    }
}

/// Whether a push is the first one under its key.
pub open spec fn is_first(pushes: Seq<InstancePush>, i: int) -> bool {
    &&& 0 <= i < pushes.len()
    &&& forall|j: int|
        0 <= j < i ==> (#[trigger] pushes[j]).parameters.key() != pushes[i].parameters.key()
}

/// The bundle that is opened by a push, with the instances of all pushes under its key.
pub open spec fn bundle_of_first(pushes: Seq<InstancePush>, i: int) -> BundleView {
    let push = pushes[i];
    BundleView {
        instances: instances_under(pushes, push.parameters.key()),
        ..instance_bundle(push.parameters, push.sort_index, push.instance)
    }
}

/// Each push has a first push under its key.
pub(crate) proof fn lemma_first_under_key(pushes: Seq<InstancePush>, i: int) -> (first: int)
    requires
        0 <= i < pushes.len(),
    ensures
        is_first(pushes, first),
        first <= i,
        pushes[first].parameters.key() == pushes[i].parameters.key(),
    decreases i,
{
    if is_first(pushes, i) {
        i
    } else {
        let j = choose|j: int|
            0 <= j < i && (#[trigger] pushes[j]).parameters.key() == pushes[i].parameters.key();
        lemma_first_under_key(pushes, j)
    }
}

/// Where no push is under a key, there are no instances.
proof fn lemma_no_instances_under(pushes: Seq<InstancePush>, key: u64)
    requires
        forall|j: int| 0 <= j < pushes.len() ==> (#[trigger] pushes[j]).parameters.key() != key,
    ensures
        instances_under(pushes, key).len() == 0,
    decreases pushes.len(),
{
    if pushes.len() != 0 {
        assert(pushes[pushes.len() - 1].parameters.key() != key);
        assert forall|j: int| 0 <= j < pushes.drop_last().len() implies (
        #[trigger] pushes.drop_last()[j]).parameters.key() != key by {
            assert(pushes[j].parameters.key() != key);
        }
        lemma_no_instances_under(pushes.drop_last(), key);
    }
}

/// Surface instances alone, pushed into an empty storage, give one bundle for each key that they
/// have: the bundles stand in the order in which the keys first came up, each has the parameters
/// and the sort index of the first push under its key, and the instances of all pushes under it,
/// in their order.
#[verifier::rlimit(60)]
pub proof fn instances_are_grouped_by_key(pushes: Seq<InstancePush>)
    requires
        pushes.len() <= usize::MAX,
    ensures
        ({
            let s = StorageView::empty().replay(instance_pushes(pushes));
            &&& s.is_built_by_pushes()
            &&& s.bundles.len() <= pushes.len()
            &&& forall|i: int|
                0 <= i < pushes.len() ==> s.index.contains_key(
                    (#[trigger] pushes[i]).parameters.key(),
                )
            &&& forall|i: int| #[trigger]
                is_first(pushes, i) ==> s.bundles[s.index[pushes[i].parameters.key()] as int]
                    == bundle_of_first(pushes, i)
            &&& forall|i: int, j: int|
                i < j && #[trigger] is_first(pushes, i) && #[trigger] is_first(pushes, j)
                    ==> s.index[pushes[i].parameters.key()] < s.index[pushes[j].parameters.key()]
            &&& forall|place: int|
                0 <= place < s.bundles.len() ==> exists|i: int| #[trigger]
                    is_first(pushes, i) && pushes[i].parameters.key() == (
                    #[trigger] s.bundles[place]).key
        }),
    decreases pushes.len(),
{
    let s = StorageView::empty().replay(instance_pushes(pushes));
    empty_storage_is_built_by_pushes();
    if pushes.len() != 0 {
        let (before, last, n) = (pushes.drop_last(), pushes.last(), pushes.len() - 1);
        let key = last.parameters.key();
        let r = StorageView::empty().replay(instance_pushes(before));
        assert(instance_pushes(pushes).drop_last() == instance_pushes(before));
        assert(instance_pushes(pushes).last() == Push::Instance(last));
        instances_are_grouped_by_key(before);
        pushing_keeps_built(r, Push::Instance(last));
        assert(s == r.after(Push::Instance(last)));
        assert forall|i: int| i < n implies is_first(pushes, i) == #[trigger] is_first(
            before,
            i,
        ) by {
            if 0 <= i {
                assert(before[i] == pushes[i]);
                assert forall|j: int| 0 <= j < i implies #[trigger] before[j] == pushes[j] by {}
                if is_first(before, i) {
                    assert forall|j: int| 0 <= j < i implies (
                    #[trigger] pushes[j]).parameters.key() != pushes[i].parameters.key() by {
                        assert(before[j].parameters.key() != before[i].parameters.key());
                    }
                }
                if is_first(pushes, i) {
                    assert forall|j: int| 0 <= j < i implies (
                    #[trigger] before[j]).parameters.key() != before[i].parameters.key() by {
                        assert(pushes[j].parameters.key() != pushes[i].parameters.key());
                    }
                }
            }
        }
        assert forall|i: int| 0 <= i < pushes.len() implies s.index.contains_key(
            (#[trigger] pushes[i]).parameters.key(),
        ) by {
            if i < n {
                assert(before[i] == pushes[i]);
            }
        }
        if r.index.contains_key(key) {
            assert(!is_first(pushes, n)) by {
                let place = r.index[key] as int;
                assert(r.bundles[place].key == key);
                let i = choose|i: int| #[trigger]
                    is_first(before, i) && before[i].parameters.key() == r.bundles[place].key;
                assert(pushes[i] == before[i]);
            }
        } else {
            assert forall|j: int| 0 <= j < before.len() implies (
            #[trigger] before[j]).parameters.key() != key by {
                assert(r.index.contains_key(before[j].parameters.key()));
            }
            lemma_no_instances_under(before, key);
            assert(instances_under(pushes, key) =~= seq![last.instance]);
            assert(is_first(pushes, n)) by {
                assert forall|j: int| 0 <= j < n implies (#[trigger] pushes[j]).parameters.key()
                    != pushes[n].parameters.key() by {
                    assert(before[j] == pushes[j]);
                }
            }
        }
        assert forall|i: int| #[trigger] is_first(pushes, i) implies s.bundles[
            s.index[pushes[i].parameters.key()] as int] == bundle_of_first(pushes, i) by {
            if i < n {
                assert(is_first(before, i));
                assert(before[i] == pushes[i]);
                let k = pushes[i].parameters.key();
                assert(r.index.contains_key(before[i].parameters.key()));
                assert(r.bundles[r.index[k] as int] == bundle_of_first(before, i));
                assert(s.bundles[s.index[k] as int] =~= bundle_of_first(pushes, i));
            }
        }
        assert forall|i: int, j: int|
            i < j && #[trigger] is_first(pushes, i) && #[trigger] is_first(
                pushes,
                j,
            ) implies s.index[pushes[i].parameters.key()] < s.index[
            pushes[j].parameters.key()] by {
            assert(is_first(before, i));
            assert(before[i] == pushes[i]);
            assert(r.index.contains_key(before[i].parameters.key()));
            if j < n {
                assert(is_first(before, j));
                assert(before[j] == pushes[j]);
                assert(r.index.contains_key(before[j].parameters.key()));
            }
        }
        assert forall|place: int| 0 <= place < s.bundles.len() implies exists|i: int| #[trigger]
            is_first(pushes, i) && pushes[i].parameters.key() == (
            #[trigger] s.bundles[place]).key by {
            if place < r.bundles.len() {
                assert(s.bundles[place].key == r.bundles[place].key);
                let i = choose|i: int| #[trigger]
                    is_first(before, i) && before[i].parameters.key() == r.bundles[place].key;
                assert(before[i] == pushes[i]);
                assert(is_first(pushes, i));
            } else {
                assert(is_first(pushes, n));
            }
        }
    }
}

/// Where different parameters of the pushed surface instances have different keys, each instance is
/// in a bundle with its parameters, and two instances are in the same bundle exactly if their
/// parameters are equal: there is one bundle for each different set of parameters.
pub proof fn instances_are_grouped_by_parameters(pushes: Seq<InstancePush>, i: int, j: int)
    requires
        pushes.len() <= usize::MAX,
        0 <= i < pushes.len(),
        0 <= j < pushes.len(),
        forall|k: int, l: int|
            0 <= k < pushes.len() && 0 <= l < pushes.len() && (
            #[trigger] pushes[k]).parameters.key() == (#[trigger] pushes[l]).parameters.key()
                ==> pushes[k].parameters == pushes[l].parameters,
    ensures
        ({
            let s = StorageView::empty().replay(instance_pushes(pushes));
            let (p, q) = (pushes[i].parameters, pushes[j].parameters);
            &&& s.bundles[s.index[p.key()] as int].instance_parameters() == p
            &&& s.index[p.key()] == s.index[q.key()] <==> p == q
        }),
{
    instances_are_grouped_by_key(pushes);
    let s = StorageView::empty().replay(instance_pushes(pushes));
    assert(s.index.contains_key(pushes[i].parameters.key()));
    assert(s.index.contains_key(pushes[j].parameters.key()));
    let first = lemma_first_under_key(pushes, i);
    assert(pushes[first].parameters == pushes[i].parameters);
    assert(bundle_of_first(pushes, first).instance_parameters() == pushes[first].parameters);
}

} // verus!
