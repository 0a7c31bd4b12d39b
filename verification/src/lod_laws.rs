//! What holds of the nodes of a graph and of their levels of detail, said of the records.
use vstd::prelude::*;

use crate::graph::nodes_in_records;
use crate::graph::objects_of_levels;
use crate::graph::objects_of_record;
use crate::graph::objects_of_records;
use crate::graph::Graph;
use crate::graph::LevelOfDetail;
use crate::graph::LodObject;
use crate::graph::PoolRecord;
use crate::resource::Handle;

verus! {

/// A graph has the node that a handle refers to exactly if there is a node in the handle's place
/// that has the handle's generation; and it is the one in this place.
pub proof fn handles_refer_to_records<T>(graph: Graph<T>, handle: Handle)
    ensures
        graph.contains(handle) <==> {
            &&& handle.index < graph.records@.len()
            &&& graph.records@[handle.index as int].generation == handle.generation
            &&& graph.records@[handle.index as int].node is Some
        },
        graph.contains(handle) ==> graph.records@[handle.index as int].node == Some(
            graph.node_at(handle),
        ),
        graph.contains(handle) ==> graph.children_of(handle) == graph.records@[
            handle.index as int].node->0.children@,
{
}

/// The number of nodes is the number of places that hold one.
pub proof fn nodes_are_counted_by_places<T>(records: Seq<PoolRecord<T>>)
    ensures
        ({
            let places = Set::new(
                |i: int| 0 <= i < records.len() && records[i].node is Some,
            );
            &&& places.finite()
            &&& nodes_in_records(records) == places.len()
        }),
    decreases records.len(),
{
    let places = Set::new(|i: int| 0 <= i < records.len() && records[i].node is Some);
    if records.len() == 0 {
        assert(places =~= Set::empty());
    } else {
        let before = records.drop_last();
        let n = before.len() as int;
        let earlier = Set::new(|i: int| 0 <= i < before.len() && before[i].node is Some);
        nodes_are_counted_by_places(before);
        if records.last().node is Some {
            assert(places =~= earlier.insert(n));
        } else {
            assert(places =~= earlier);
        }
    }
}

/// Whether some of the given objects is a node of the graph in place `index`.
spec fn lists<T>(graph: Graph<T>, objects: Seq<LodObject>, index: int) -> bool {
    exists|k: int|
        0 <= k < objects.len() && graph.contains((#[trigger] objects[k]).handle)
            && objects[k].handle.index == index
}

/// Of two sequences of objects, the second decides where it lists a node, else the first.
proof fn lemma_verdict_of_both<T>(
    graph: Graph<T>,
    a: Seq<LodObject>,
    b: Seq<LodObject>,
    index: int,
)
    ensures
        lists(graph, b, index) ==> graph.last_verdict(a + b, index) == graph.last_verdict(b, index),
        !lists(graph, b, index) ==> graph.last_verdict(a + b, index) == graph.last_verdict(
            a,
            index,
        ),
    decreases b.len(),
{
    if b.len() == 0 {
        assert(a + b == a);
    } else {
        let n = b.len() - 1;
        assert((a + b).drop_last() == a + b.drop_last());
        assert((a + b).last() == b[n]);
        lemma_verdict_of_both(graph, a, b.drop_last(), index);
        if graph.contains(b[n].handle) && b[n].handle.index == index {
            assert(lists(graph, b, index));
        } else {
            if lists(graph, b, index) {
                let k = choose|k: int|
                    0 <= k < b.len() && graph.contains((#[trigger] b[k]).handle)
                        && b[k].handle.index == index;
                assert(b.drop_last()[k] == b[k]);
            }
            if lists(graph, b.drop_last(), index) {
                let k = choose|k: int|
                    0 <= k < b.drop_last().len() && graph.contains(
                        (#[trigger] b.drop_last()[k]).handle,
                    ) && b.drop_last()[k].handle.index == index;
                assert(b.drop_last()[k] == b[k]);
            }
        }
    }
}

/// Where no object is a node in a place, the place counts as visible.
proof fn lemma_verdict_of_none<T>(graph: Graph<T>, objects: Seq<LodObject>, index: int)
    requires
        !lists(graph, objects, index),
    ensures
        graph.last_verdict(objects, index),
{
    lemma_verdict_of_both(graph, Seq::empty(), objects, index);
    assert(Seq::empty() + objects == objects);
}

/// The objects of some levels come before those of the levels behind them.
proof fn lemma_objects_of_levels_split(a: Seq<LevelOfDetail>, b: Seq<LevelOfDetail>)
    ensures
        objects_of_levels(a + b) == objects_of_levels(a) + objects_of_levels(b),
    decreases b.len(),
{
    if b.len() == 0 {
        assert(a + b == a);
        assert(objects_of_levels(a) + objects_of_levels(b) == objects_of_levels(a));
    } else {
        assert((a + b).drop_last() == a + b.drop_last());
        assert((a + b).last() == b.last());
        lemma_objects_of_levels_split(a, b.drop_last());
        assert(objects_of_levels(a) + (objects_of_levels(b.drop_last()) + b.last().objects@) == (
        objects_of_levels(a) + objects_of_levels(b.drop_last())) + b.last().objects@);
    }
}

/// The objects of some records come before those of the records behind them.
proof fn lemma_objects_of_records_split<T>(a: Seq<PoolRecord<T>>, b: Seq<PoolRecord<T>>)
    ensures
        objects_of_records(a + b) == objects_of_records(a) + objects_of_records(b),
    decreases b.len(),
{
    if b.len() == 0 {
        assert(a + b == a);
        assert(objects_of_records(a) + objects_of_records(b) == objects_of_records(a));
    } else {
        assert((a + b).drop_last() == a + b.drop_last());
        assert((a + b).last() == b.last());
        lemma_objects_of_records_split(a, b.drop_last());
        assert(objects_of_records(a) + (objects_of_records(b.drop_last()) + objects_of_record(
            b.last(),
        )) == (objects_of_records(a) + objects_of_records(b.drop_last())) + objects_of_record(
            b.last(),
        ));
    }
}

/// Each object of some levels is in one of them.
proof fn lemma_object_is_in_a_level(levels: Seq<LevelOfDetail>, k: int) -> (found: (int, int))
    requires
        0 <= k < objects_of_levels(levels).len(),
    ensures
        0 <= found.0 < levels.len(),
        0 <= found.1 < levels[found.0].objects@.len(),
        levels[found.0].objects@[found.1] == objects_of_levels(levels)[k],
    decreases levels.len(),
{
    let before = levels.drop_last();
    let n = objects_of_levels(before).len() as int;
    if k < n {
        let found = lemma_object_is_in_a_level(before, k);
        assert(before[found.0] == levels[found.0]);
        found
    } else {
        (levels.len() - 1, k - n)
    }
}

/// Each object of some records is in a level of a group of one of them.
proof fn lemma_object_is_in_a_record<T>(records: Seq<PoolRecord<T>>, k: int) -> (found: (
    int,
    int,
    int,
))
    requires
        0 <= k < objects_of_records(records).len(),
    ensures
        0 <= found.0 < records.len(),
        records[found.0].node is Some,
        records[found.0].node->0.lod_group is Some,
        0 <= found.1 < records[found.0].node->0.lod_group->0.levels@.len(),
        0 <= found.2 < records[found.0].node->0.lod_group->0.levels@[found.1].objects@.len(),
        records[found.0].node->0.lod_group->0.levels@[found.1].objects@[found.2]
            == objects_of_records(records)[k],
    decreases records.len(),
{
    let before = records.drop_last();
    let n = objects_of_records(before).len() as int;
    if k < n {
        let found = lemma_object_is_in_a_record(before, k);
        assert(before[found.0] == records[found.0]);
        found
    } else {
        let found = lemma_object_is_in_a_level(
            records.last().node->0.lod_group->0.levels@,
            k - n,
        );
        (records.len() - 1, found.0, found.1)
    }
}

/// Where none of the levels from `first` on lists a node in a place, neither do their objects.
proof fn lemma_levels_list_nothing<T>(
    graph: Graph<T>,
    levels: Seq<LevelOfDetail>,
    first: int,
    index: int,
)
    requires
        0 <= first <= levels.len(),
        forall|l: int, o: int|
            first <= l < levels.len() && 0 <= o < levels[l].objects@.len() && graph.contains(
                (#[trigger] levels[l].objects@[o]).handle,
            ) ==> levels[l].objects@[o].handle.index != index,
    ensures
        !lists(graph, objects_of_levels(levels.skip(first)), index),
{
    let rest = levels.skip(first);
    let objects = objects_of_levels(rest);
    if lists(graph, objects, index) {
        let k = choose|k: int|
            0 <= k < objects.len() && graph.contains((#[trigger] objects[k]).handle)
                && objects[k].handle.index == index;
        let found = lemma_object_is_in_a_level(rest, k);
        assert(rest[found.0] == levels[first + found.0]);
        assert(levels[first + found.0].objects@[found.1] == objects[k]);
    }
}

/// Where none of the records from `first` on lists a node in a place, neither do their objects.
proof fn lemma_records_list_nothing<T>(graph: Graph<T>, first: int, index: int)
    requires
        0 <= first <= graph.records@.len(),
        forall|r: int, l: int, o: int|
            #![trigger graph.records@[r].node->0.lod_group->0.levels@[l].objects@[o]]
            {
                &&& first <= r < graph.records@.len()
                &&& graph.records@[r].node is Some
                &&& graph.records@[r].node->0.lod_group is Some
                &&& 0 <= l < graph.records@[r].node->0.lod_group->0.levels@.len()
                &&& 0 <= o < graph.records@[r].node->0.lod_group->0.levels@[l].objects@.len()
                &&& graph.contains(
                    graph.records@[r].node->0.lod_group->0.levels@[l].objects@[o].handle,
                )
            } ==> graph.records@[r].node->0.lod_group->0.levels@[l].objects@[o].handle.index
                != index,
    ensures
        !lists(graph, objects_of_records(graph.records@.skip(first)), index),
{
    let rest = graph.records@.skip(first);
    let objects = objects_of_records(rest);
    if lists(graph, objects, index) {
        let k = choose|k: int|
            0 <= k < objects.len() && graph.contains((#[trigger] objects[k]).handle)
                && objects[k].handle.index == index;
        let found = lemma_object_is_in_a_record(rest, k);
        assert(rest[found.0] == graph.records@[first + found.0]);
        assert(graph.records@[first
            + found.0].node->0.lod_group->0.levels@[found.1].objects@[found.2] == objects[k]);
    }
}

/// Of all listings of nodes, by the places of the groups in the pool, in each group by its levels,
/// and in each level by its objects, the last one that is of a node decides whether it is visible:
/// where the object `o` of level `l` of the group in place `r` is a node of the graph, and no object
/// behind it is one in the same place, this place is visible exactly if the object is in range.
pub proof fn last_listing_in_the_records_decides<T>(graph: Graph<T>, r: int, l: int, o: int)
    requires
        0 <= r < graph.records@.len(),
        graph.records@[r].node is Some,
        graph.records@[r].node->0.lod_group is Some,
        0 <= l < graph.records@[r].node->0.lod_group->0.levels@.len(),
        0 <= o < graph.records@[r].node->0.lod_group->0.levels@[l].objects@.len(),
        ({
            let h = graph.records@[r].node->0.lod_group->0.levels@[l].objects@[o].handle;
            &&& h.index < graph.records@.len()
            &&& graph.records@[h.index as int].generation == h.generation
            &&& graph.records@[h.index as int].node is Some
        }),
        forall|r2: int, l2: int, o2: int|
            #![trigger graph.records@[r2].node->0.lod_group->0.levels@[l2].objects@[o2]]
            {
                &&& r < r2 || (r == r2 && l < l2) || (r == r2 && l == l2 && o < o2)
                &&& r2 < graph.records@.len()
                &&& graph.records@[r2].node is Some
                &&& graph.records@[r2].node->0.lod_group is Some
                &&& 0 <= l2 < graph.records@[r2].node->0.lod_group->0.levels@.len()
                &&& 0 <= o2 < graph.records@[r2].node->0.lod_group->0.levels@[l2].objects@.len()
                &&& graph.contains(
                    graph.records@[r2].node->0.lod_group->0.levels@[l2].objects@[o2].handle,
                )
            } ==> graph.records@[r2].node->0.lod_group->0.levels@[l2].objects@[o2].handle.index
                != graph.records@[r].node->0.lod_group->0.levels@[l].objects@[o].handle.index,
    ensures
        ({
            let object = graph.records@[r].node->0.lod_group->0.levels@[l].objects@[o];
            graph.visibility()[object.handle.index as int] == object.in_range
        }),
{
    let records = graph.records@;
    let levels = records[r].node->0.lod_group->0.levels@;
    let objects = levels[l].objects@;
    let index = objects[o].handle.index as int;
    // The records behind.
    lemma_records_list_nothing(graph, r + 1, index);
    assert(records == records.take(r).push(records[r]) + records.skip(r + 1));
    lemma_objects_of_records_split(records.take(r).push(records[r]), records.skip(r + 1));
    assert(records.take(r).push(records[r]).drop_last() == records.take(r));
    lemma_verdict_of_both(
        graph,
        objects_of_records(records.take(r).push(records[r])),
        objects_of_records(records.skip(r + 1)),
        index,
    );
    // The levels behind.
    assert forall|l2: int, o2: int|
        l + 1 <= l2 < levels.len() && 0 <= o2 < levels[l2].objects@.len() && graph.contains(
            (#[trigger] levels[l2].objects@[o2]).handle,
        ) implies levels[l2].objects@[o2].handle.index != index by {
        assert(graph.records@[r].node->0.lod_group->0.levels@[l2].objects@[o2]
            == levels[l2].objects@[o2]);
    }
    lemma_levels_list_nothing(graph, levels, l + 1, index);
    assert(levels == levels.take(l).push(levels[l]) + levels.skip(l + 1));
    lemma_objects_of_levels_split(levels.take(l).push(levels[l]), levels.skip(l + 1));
    assert(levels.take(l).push(levels[l]).drop_last() == levels.take(l));
    let earlier = objects_of_levels(levels.take(l)) + objects;
    assert(objects_of_levels(levels.take(l).push(levels[l])) == earlier);
    // The objects behind.
    lemma_verdict_in_level(graph, objects, o);
    lemma_verdict_of_both(graph, objects_of_levels(levels.take(l)), objects, index);
    assert(lists(graph, objects, index)) by {
        assert(graph.contains(objects[o].handle) && objects[o].handle.index == index);
    }
    lemma_verdict_of_both(graph, earlier, objects_of_levels(levels.skip(l + 1)), index);
    assert(graph.last_verdict(objects_of_levels(levels), index) == objects[o].in_range);
    assert(lists(graph, objects_of_levels(levels), index)) by {
        let at = objects_of_levels(levels.take(l)).len() + o;
        assert(objects_of_levels(levels)[at] == objects[o]);
    }
    lemma_verdict_of_both(
        graph,
        objects_of_records(records.take(r)),
        objects_of_levels(levels),
        index,
    );
    assert(objects_of_records(records.take(r).push(records[r])) == objects_of_records(
        records.take(r),
    ) + objects_of_levels(levels));
}

/// In a level, the last listing of a node decides.
proof fn lemma_verdict_in_level<T>(graph: Graph<T>, objects: Seq<LodObject>, o: int)
    requires
        0 <= o < objects.len(),
        graph.contains(objects[o].handle),
        forall|o2: int|
            o < o2 < objects.len() && graph.contains((#[trigger] objects[o2]).handle)
                ==> objects[o2].handle.index != objects[o].handle.index,
    ensures
        graph.last_verdict(objects, objects[o].handle.index as int) == objects[o].in_range,
    decreases objects.len(),
{
    let n = objects.len() - 1;
    if o < n {
        assert(objects[n] == objects.last());
        let before = objects.drop_last();
        assert forall|o2: int|
            o < o2 < before.len() && graph.contains(
                (#[trigger] before[o2]).handle,
            ) implies before[o2].handle.index != before[o].handle.index by {
            assert(objects[o2] == before[o2]);
        }
        lemma_verdict_in_level(graph, before, o);
    }
}

/// A node that no level of detail of any group lists is visible.
pub proof fn nodes_without_a_listing_are_visible<T>(graph: Graph<T>, index: int)
    requires
        0 <= index < graph.records@.len(),
        forall|r: int, l: int, o: int|
            #![trigger graph.records@[r].node->0.lod_group->0.levels@[l].objects@[o]]
            {
                &&& 0 <= r < graph.records@.len()
                &&& graph.records@[r].node is Some
                &&& graph.records@[r].node->0.lod_group is Some
                &&& 0 <= l < graph.records@[r].node->0.lod_group->0.levels@.len()
                &&& 0 <= o < graph.records@[r].node->0.lod_group->0.levels@[l].objects@.len()
                &&& graph.contains(
                    graph.records@[r].node->0.lod_group->0.levels@[l].objects@[o].handle,
                )
            } ==> graph.records@[r].node->0.lod_group->0.levels@[l].objects@[o].handle.index
                != index,
    ensures
        graph.visibility().len() == graph.records@.len(),
        graph.visibility()[index],
{
    lemma_records_list_nothing(graph, 0, index);
    assert(graph.records@.skip(0) == graph.records@);
    lemma_verdict_of_none(graph, objects_of_records(graph.records@), index);
}

} // verus!
