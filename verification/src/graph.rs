//! The scene graph, as far as the collection of render data depends on it.
use vstd::prelude::*;

use crate::resource::Handle;

verus! {

/// An object of a level of detail.
#[derive(Clone, Copy, Debug, PartialEq, Eq, Structural)]
pub struct LodObject {
    /// The node that is shown or hidden.
    pub handle: Handle,
    /// Whether the distance between the node and the observer, in relation to the range between
    /// the observer's clipping planes, lies within the bounds of the level.
    pub in_range: bool,
}

/// A level of detail: objects that are shown within a range of distances.
pub struct LevelOfDetail {
    pub objects: Vec<LodObject>,
}

/// A group of levels of detail.
pub struct LodGroup {
    pub levels: Vec<LevelOfDetail>,
}

/// A node of a scene graph.
pub struct Node<T> {
    /// The nodes right below this one.
    pub children: Vec<Handle>,
    /// The levels of detail that the node controls, if it does.
    pub lod_group: Option<LodGroup>,
    /// What the node is.
    pub content: T,
}

/// A place in the pool of nodes.
pub struct PoolRecord<T> {
    /// Counts the nodes that stood in this place.
    pub generation: u32,
    /// The node that stands there now.
    pub node: Option<Node<T>>,
}

/// A scene graph.
pub struct Graph<T> {
    /// The node that all others are below of.
    pub root: Handle,
    /// The pool that holds the nodes.
    pub records: Vec<PoolRecord<T>>,
}

/// The objects of all given levels, level after level.
pub open spec fn objects_of_levels(levels: Seq<LevelOfDetail>) -> Seq<LodObject>
    decreases levels.len(),
{
    if levels.len() == 0 {
        Seq::empty()
    } else {
        objects_of_levels(levels.drop_last()) + levels.last().objects@
    }
}

/// The objects of the levels of detail that the node in a record controls.
pub open spec fn objects_of_record<T>(record: PoolRecord<T>) -> Seq<LodObject> {
    match record.node {
        Some(node) => match node.lod_group {
            Some(group) => objects_of_levels(group.levels@),
            None => Seq::empty(),
        },
        None => Seq::empty(),
    }
}

/// The objects of the levels of detail that the nodes in the given records control, record after
/// record.
pub open spec fn objects_of_records<T>(records: Seq<PoolRecord<T>>) -> Seq<LodObject>
    decreases records.len(),
{
    if records.len() == 0 {
        Seq::empty()
    } else {
        objects_of_records(records.drop_last()) + objects_of_record(records.last())
    }
}

/// How many of the given records hold a node.
pub open spec fn nodes_in_records<T>(records: Seq<PoolRecord<T>>) -> nat
    decreases records.len(),
{
    if records.len() == 0 {
        0
    } else {
        nodes_in_records(records.drop_last()) + (if records.last().node is Some {
            1nat
        } else {
            0nat
        })
    }
}

impl<T> Graph<T> {
    /// Whether the graph has the node that the handle refers to.
    pub open spec fn contains(&self, handle: Handle) -> bool {
        &&& handle.index < self.records@.len()
        &&& self.records@[handle.index as int].generation == handle.generation
        &&& self.records@[handle.index as int].node is Some
    }

    /// The node in the handle's place.
    pub open spec fn node_at(&self, handle: Handle) -> Node<T> {
        self.records@[handle.index as int].node->0
    }

    /// Whether the last of the given objects that is a node of the graph in place `index` is in
    /// range; where there is none, the place counts as visible.
    pub open spec fn last_verdict(&self, objects: Seq<LodObject>, index: int) -> bool
        decreases objects.len(),
    {
        if objects.len() == 0 {
            true
        } else if self.contains(objects.last().handle) && objects.last().handle.index == index {
            objects.last().in_range
        } else {
            self.last_verdict(objects.drop_last(), index)
        }
    }

    /// Whether the levels of detail leave the node in place `index` visible.
    pub open spec fn is_visible(&self, index: int) -> bool {
        self.last_verdict(objects_of_records(self.records@), index)
    }

    /// For each place in the pool, whether the levels of detail leave the node there visible.
    pub open spec fn visibility(&self) -> Seq<bool> {
        Seq::new(self.records@.len(), |i: int| self.is_visible(i))
    }

    /// The node that the handle refers to, if the graph has it.
    pub fn try_get(&self, handle: Handle) -> (node: Option<&Node<T>>)
        ensures
            node == (if self.contains(handle) {
                Some(&self.node_at(handle))
            } else {
                None
            }),
            node is Some <==> handle.index < self.records@.len() && self.records@[
                handle.index as int].generation == handle.generation && self.records@[
                handle.index as int].node is Some,
            node matches Some(found) ==> self.records@[handle.index as int].node == Some(*found),
    {
        let index: usize = handle.index as usize;
        if index < self.records.len() && self.records[index].generation == handle.generation {
            self.records[index].node.as_ref()
        } else {
            None
        }
    }

    /// The node that the handle refers to.
    pub fn node(&self, handle: Handle) -> (node: &Node<T>)
        requires
            self.contains(handle),
        ensures
            *node == self.node_at(handle),
            self.records@[handle.index as int].node == Some(*node),
    {
        self.records[handle.index as usize].node.as_ref().unwrap()
    }

    /// The number of nodes in the graph.
    pub fn node_count(&self) -> (count: usize)
        ensures
            count == nodes_in_records(self.records@),
    {
        let mut count: usize = 0;
        let mut i: usize = 0;
        while i < self.records.len()
            invariant
                i <= self.records@.len(),
                count <= i,
                count == nodes_in_records(self.records@.take(i as int)),
            decreases self.records@.len() - i,
        {
            assert(self.records@.take(i + 1).drop_last() == self.records@.take(i as int));
            if self.records[i].node.is_some() {
                count = count + 1;
            }
            i = i + 1;
        }
        assert(self.records@.take(i as int) == self.records@);
        count
    }

    /// For each place in the pool, whether the levels of detail leave the node there visible. Of
    /// several levels that list a node, the last one decides.
    pub fn lod_filter(&self) -> (filter: Vec<bool>)
        ensures
            filter@ == self.visibility(),
            filter@.len() == self.records@.len(),
    {
        let mut lod_filter: Vec<bool> = vec![true; self.records.len()];
        let mut i: usize = 0;
        while i < self.records.len()
            invariant
                i <= self.records@.len(),
                self.filter_matches(lod_filter@, objects_of_records(self.records@.take(i as int))),
            decreases self.records@.len() - i,
        {
            let ghost done = objects_of_records(self.records@.take(i as int));
            let ghost record = self.records@[i as int];
            assert(self.records@.take(i + 1).drop_last() == self.records@.take(i as int));
            if let Some(node) = &self.records[i].node {
                if let Some(group) = &node.lod_group {
                    self.apply_group(group, &mut lod_filter, Ghost(done));
                } else {
                    assert(done + objects_of_record(record) == done);
                }
            } else {
                assert(done + objects_of_record(record) == done);
            }
            i = i + 1;
        }
        assert(self.records@.take(i as int) == self.records@);
        lod_filter
    }

    /// Whether a filter holds what the given objects, one after another, made of it.
    spec fn filter_matches(&self, filter: Seq<bool>, objects: Seq<LodObject>) -> bool {
        &&& filter.len() == self.records@.len()
        &&& forall|i: int| 0 <= i < filter.len() ==> #[trigger] filter[i] == self.last_verdict(
            objects,
            i,
        )
    }

    /// Brings the filter up to date with a group of levels of detail.
    fn apply_group(
        &self,
        group: &LodGroup,
        lod_filter: &mut Vec<bool>,
        Ghost(done): Ghost<Seq<LodObject>>,
    )
        requires
            self.filter_matches(old(lod_filter)@, done),
        ensures
            self.filter_matches(final(lod_filter)@, done + objects_of_levels(group.levels@)),
    {
        let mut i: usize = 0;
        assert(done + objects_of_levels(group.levels@.take(0)) == done);
        while i < group.levels.len()
            invariant
                i <= group.levels@.len(),
                self.filter_matches(
                    lod_filter@,
                    done + objects_of_levels(group.levels@.take(i as int)),
                ),
            decreases group.levels@.len() - i,
        {
            let ghost before = done + objects_of_levels(group.levels@.take(i as int));
            self.apply_level(&group.levels[i], lod_filter, Ghost(before));
            assert(group.levels@.take(i + 1).drop_last() == group.levels@.take(i as int));
            assert(before + group.levels@[i as int].objects@ == done + objects_of_levels(
                group.levels@.take(i + 1),
            ));
            i = i + 1;
        }
        assert(group.levels@.take(i as int) == group.levels@);
    }

    /// Brings the filter up to date with one level of detail.
    fn apply_level(
        &self,
        level: &LevelOfDetail,
        lod_filter: &mut Vec<bool>,
        Ghost(done): Ghost<Seq<LodObject>>,
    )
        requires
            self.filter_matches(old(lod_filter)@, done),
        ensures
            self.filter_matches(final(lod_filter)@, done + level.objects@),
    {
        let mut i: usize = 0;
        assert(done + level.objects@.take(0) == done);
        while i < level.objects.len()
            invariant
                i <= level.objects@.len(),
                self.filter_matches(lod_filter@, done + level.objects@.take(i as int)),
            decreases level.objects@.len() - i,
        {
            let object = level.objects[i];
            let ghost next = done + level.objects@.take(i + 1);
            assert(next.drop_last() == done + level.objects@.take(i as int));
            if self.try_get(object.handle).is_some() {
                lod_filter[object.handle.index as usize] = object.in_range;
            }
            i = i + 1;
        }
        assert(level.objects@.take(i as int) == level.objects@);
    }
}

} // verus!
