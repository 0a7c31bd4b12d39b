use std::cell::RefCell;
use std::rc::Rc;

use render_bundle::context::NodeTrait;
use render_bundle::context::ObserverInfo;
use render_bundle::context::RdcControlFlow;
use render_bundle::context::RenderContext;
use render_bundle::graph::Graph;
use render_bundle::graph::LevelOfDetail;
use render_bundle::graph::LodGroup;
use render_bundle::graph::LodObject;
use render_bundle::graph::Node;
use render_bundle::graph::PoolRecord;
use render_bundle::identifier::PersistentIdentifier;
use render_bundle::instance::SurfaceInstanceData;
use render_bundle::resource::Handle;
use render_bundle::resource::MaterialResource;
use render_bundle::resource::Matrix4;
use render_bundle::resource::Real;
use render_bundle::resource::RenderPath;
use render_bundle::resource::SurfaceResource;
use render_bundle::storage::RenderDataBundleStorage;
use render_bundle::storage::RenderDataBundleStorageTrait;
use render_bundle::traversal::CollectionError;
use render_bundle::traversal::RenderTraversal;

/// A node that notes when it is asked, and pushes one instance of a surface at a depth.
struct Probe {
    name: u32,
    surface: u64,
    depth: u64,
    flow: RdcControlFlow,
    log: Rc<RefCell<Vec<u32>>>,
    views: Rc<RefCell<Vec<u32>>>,
}

/// A frustum that is told from others by a number.
#[derive(Default)]
struct View {
    number: u32,
}

impl<S: RenderDataBundleStorageTrait> NodeTrait<S, View> for Probe {
    fn collect_render_data(&self, ctx: &mut RenderContext<'_, S, Self, View>) -> RdcControlFlow {
        self.log.borrow_mut().push(self.name);
        self.views.borrow_mut().push(ctx.frustum().unwrap().number);
        assert_eq!(ctx.render_pass_name(), "Forward");
        assert_eq!(ctx.observer_info().z_near, number(0.5));
        assert_eq!(ctx.observer_info().observer_position[2], number(3.0));
        assert!(ctx.graph().node_count() > 0);
        if self.surface != 0 {
            let sort_index = ctx.calculate_sorting_index(self.depth);
            ctx.push(
                &SurfaceResource { key: self.surface },
                &MaterialResource { key: 1 },
                RenderPath::Forward,
                0,
                sort_index,
                SurfaceInstanceData::plain(
                    PersistentIdentifier(self.name as u64),
                    Handle { index: self.name, generation: 1 },
                ),
            );
        }
        self.flow
    }
}

fn number(x: f32) -> Real {
    Real { bits: x.to_bits() }
}

fn observer() -> ObserverInfo {
    ObserverInfo {
        observer_position: [number(1.0), number(2.0), number(3.0)],
        z_near: number(0.5),
        z_far: number(100.0),
        view_matrix: Matrix4::identity(),
        projection_matrix: Matrix4::identity(),
    }
}

fn handle(index: u32) -> Handle {
    Handle { index, generation: 1 }
}

fn graph(children: &[&[u32]], log: &Rc<RefCell<Vec<u32>>>) -> Graph<Probe> {
    let mut records: Vec<PoolRecord<Probe>> = Vec::new();
    for (i, below) in children.iter().enumerate() {
        records.push(PoolRecord {
            generation: 1,
            node: Some(Node {
                children: below.iter().map(|c| handle(*c)).collect(),
                lod_group: None,
                content: Probe {
                    name: i as u32,
                    surface: 0,
                    depth: 0,
                    flow: RdcControlFlow::Continue,
                    log: log.clone(),
                    views: Rc::new(RefCell::new(Vec::new())),
                },
            }),
        });
    }
    Graph { root: handle(0), records }
}

fn content(graph: &mut Graph<Probe>, index: usize) -> &mut Probe {
    &mut graph.records[index].node.as_mut().unwrap().content
}

fn lod(levels: &[&[(u32, u32, bool)]]) -> Option<LodGroup> {
    Some(LodGroup {
        levels: levels
            .iter()
            .map(|objects| LevelOfDetail {
                objects: objects
                    .iter()
                    .map(|(index, generation, in_range)| LodObject {
                        handle: Handle { index: *index, generation: *generation },
                        in_range: *in_range,
                    })
                    .collect(),
            })
            .collect(),
    })
}

fn visits(graph: &Graph<Probe>, log: &Rc<RefCell<Vec<u32>>>) -> Vec<u32> {
    log.borrow_mut().clear();
    RenderDataBundleStorage::from_graph(graph, observer(), Some(View { number: 7 }), "Forward");
    log.borrow().clone()
}

#[test]
fn every_node_is_asked_the_last_child_first() {
    let log = Rc::new(RefCell::new(Vec::new()));
    let graph = graph(&[&[1, 2], &[3, 4], &[5], &[], &[], &[]], &log);
    assert_eq!(visits(&graph, &log), vec![0, 2, 5, 1, 4, 3]);
}

#[test]
fn break_skips_the_nodes_below() {
    let log = Rc::new(RefCell::new(Vec::new()));
    let mut graph = graph(&[&[1, 2], &[3, 4], &[5], &[], &[], &[]], &log);
    content(&mut graph, 1).flow = RdcControlFlow::Break;
    assert_eq!(visits(&graph, &log), vec![0, 2, 5, 1]);
    content(&mut graph, 0).flow = RdcControlFlow::Break;
    assert_eq!(visits(&graph, &log), vec![0]);
}

#[test]
fn hidden_nodes_are_skipped_with_what_is_below() {
    let log = Rc::new(RefCell::new(Vec::new()));
    let mut graph = graph(&[&[1, 2], &[3, 4], &[5], &[], &[], &[]], &log);
    graph.records[5].node.as_mut().unwrap().lod_group = lod(&[&[(1, 1, false), (5, 1, true)]]);
    assert_eq!(graph.lod_filter(), vec![true, false, true, true, true, true]);
    assert_eq!(visits(&graph, &log), vec![0, 2, 5]);
}

#[test]
fn hidden_root_leaves_nothing() {
    let log = Rc::new(RefCell::new(Vec::new()));
    let mut graph = graph(&[&[1], &[]], &log);
    graph.records[1].node.as_mut().unwrap().lod_group = lod(&[&[(0, 1, false)]]);
    assert_eq!(visits(&graph, &log), Vec::<u32>::new());
}

#[test]
fn last_listing_decides() {
    let log = Rc::new(RefCell::new(Vec::new()));
    let mut graph = graph(&[&[1, 2, 3], &[], &[], &[]], &log);
    graph.records[0].node.as_mut().unwrap().lod_group =
        lod(&[&[(1, 1, true), (2, 1, false)], &[(1, 1, false), (3, 1, false)]]);
    graph.records[2].node.as_mut().unwrap().lod_group = lod(&[&[(3, 1, true)]]);
    assert_eq!(graph.lod_filter(), vec![true, false, false, true]);
    assert_eq!(visits(&graph, &log), vec![0, 3]);
}

#[test]
fn listings_of_other_nodes_count_for_nothing() {
    let log = Rc::new(RefCell::new(Vec::new()));
    let mut graph = graph(&[&[1], &[], &[]], &log);
    graph.records[2].node = None;
    graph.records[0].node.as_mut().unwrap().lod_group =
        lod(&[&[(1, 2, false), (2, 1, false), (99, 1, false)]]);
    assert_eq!(graph.lod_filter(), vec![true, true, true]);
    assert_eq!(visits(&graph, &log), vec![0, 1]);
}

#[test]
fn pool_finds_its_nodes() {
    let log = Rc::new(RefCell::new(Vec::new()));
    let mut graph = graph(&[&[1], &[], &[]], &log);
    assert_eq!(graph.node_count(), 3);
    graph.records[2].node = None;
    assert_eq!(graph.node_count(), 2);
    assert_eq!(graph.try_get(handle(1)).unwrap().content.name, 1);
    assert_eq!(graph.node(handle(1)).content.name, 1);
    assert!(graph.try_get(handle(2)).is_none());
    assert!(graph.try_get(handle(3)).is_none());
    assert!(graph.try_get(Handle { index: 1, generation: 2 }).is_none());
}

#[test]
fn collected_bundles_are_sorted_from_back_to_front() {
    let log = Rc::new(RefCell::new(Vec::new()));
    let mut graph = graph(&[&[1, 2, 3, 4], &[], &[], &[], &[]], &log);
    for (i, surface, depth) in [(1, 10, 500), (2, 20, 9000), (3, 30, 2000), (4, 20, 1)] {
        content(&mut graph, i).surface = surface;
        content(&mut graph, i).depth = depth;
    }
    let storage = RenderDataBundleStorage::from_graph(&graph, observer(), Some(View { number: 7 }), "Forward");
    let found: Vec<(u64, u64)> =
        storage.bundles.iter().map(|b| (b.data.key, b.sort_index())).collect();
    assert_eq!(
        found,
        vec![(30, u64::MAX - 2000), (10, u64::MAX - 500), (20, u64::MAX - 1)]
    );
    let nodes: Vec<u32> =
        storage.bundles[2].instances.iter().map(|i| i.node_handle.index).collect();
    assert_eq!(nodes, vec![4, 2]);
}

/// Collects from a graph that may not be sound.
fn try_collect(graph: &Graph<Probe>, limit: usize) -> Result<usize, CollectionError> {
    let view = Some(View { number: 7 });
    RenderDataBundleStorage::try_from_graph(graph, observer(), view, "Forward", limit)
        .map(|storage| storage.bundles.len())
}

#[test]
fn missing_nodes_end_the_collection() {
    let log = Rc::new(RefCell::new(Vec::new()));
    let mut tree = graph(&[&[1], &[2], &[]], &log);
    assert_eq!(try_collect(&tree, 3), Ok(0));
    tree.records[2].node.as_mut().unwrap().children.push(handle(7));
    assert_eq!(try_collect(&tree, 50), Err(CollectionError::MissingNode(handle(7))));
    assert_eq!(*log.borrow(), vec![0, 1, 2, 0, 1, 2]);
    let stale = Handle { index: 1, generation: 9 };
    tree.records[2].node.as_mut().unwrap().children[0] = stale;
    assert_eq!(try_collect(&tree, 50), Err(CollectionError::MissingNode(stale)));
    tree.records[2].node = None;
    assert_eq!(try_collect(&tree, 50), Err(CollectionError::MissingNode(handle(2))));
    tree.root = handle(9);
    assert_eq!(try_collect(&tree, 50), Err(CollectionError::MissingNode(handle(9))));
}

#[test]
fn too_many_visits_end_the_collection() {
    let log = Rc::new(RefCell::new(Vec::new()));
    let mut graph = graph(&[&[1], &[2], &[]], &log);
    assert_eq!(try_collect(&graph, 2), Err(CollectionError::TooManyVisits));
    assert_eq!(*log.borrow(), vec![0, 1]);
    assert_eq!(try_collect(&graph, 0), Err(CollectionError::TooManyVisits));
    graph.records[2].node.as_mut().unwrap().children.push(handle(0));
    assert_eq!(try_collect(&graph, 50), Err(CollectionError::TooManyVisits));
}

#[test]
fn nothing_is_asked_of_what_is_below_a_hidden_node() {
    let log = Rc::new(RefCell::new(Vec::new()));
    let mut graph = graph(&[&[1], &[9]], &log);
    assert_eq!(try_collect(&graph, 3), Err(CollectionError::MissingNode(handle(9))));
    graph.records[0].node.as_mut().unwrap().lod_group = lod(&[&[(1, 1, false)]]);
    assert_eq!(try_collect(&graph, 3), Ok(0));
    assert_eq!(visits(&graph, &log), vec![0]);
}

#[test]
fn nothing_is_asked_of_what_is_below_a_stop() {
    let log = Rc::new(RefCell::new(Vec::new()));
    let mut graph = graph(&[&[1], &[9]], &log);
    content(&mut graph, 1).flow = RdcControlFlow::Break;
    assert_eq!(try_collect(&graph, 3), Ok(0));
    assert_eq!(visits(&graph, &log), vec![0, 1]);
}

#[test]
fn nodes_below_two_others_are_asked_twice() {
    let log = Rc::new(RefCell::new(Vec::new()));
    let graph = graph(&[&[1, 2], &[3], &[3], &[]], &log);
    assert_eq!(visits(&graph, &log), vec![0, 2, 3, 1, 3]);
}

#[test]
fn nodes_see_the_frustum() {
    let log = Rc::new(RefCell::new(Vec::new()));
    let mut graph = graph(&[&[1], &[]], &log);
    let views = content(&mut graph, 1).views.clone();
    visits(&graph, &log);
    RenderDataBundleStorage::from_graph(&graph, observer(), None::<View>, "Forward");
    assert_eq!(*views.borrow(), vec![7, 0]);
}

#[test]
fn traversal_takes_answers() {
    let log = Rc::new(RefCell::new(Vec::new()));
    let mut graph = graph(&[&[1, 2], &[], &[]], &log);
    graph.records[0].node.as_mut().unwrap().lod_group = lod(&[&[(2, 1, false)]]);
    let mut traversal = RenderTraversal::start(&graph, 0);
    assert_eq!(traversal.next(&graph), Ok(Some(handle(0))));
    traversal.answer(RdcControlFlow::Continue, &[handle(1), handle(2)]);
    assert_eq!(traversal.next(&graph), Ok(Some(handle(1))));
    traversal.answer(RdcControlFlow::Break, &[handle(2)]);
    assert_eq!(traversal.next(&graph), Ok(None));
    assert!(traversal.stack.is_empty());
    traversal.answer(RdcControlFlow::Continue, &[handle(8), handle(2)]);
    assert_eq!(traversal.next(&graph), Err(handle(8)));
}

#[test]
fn context_takes_an_edited_storage() {
    let log = Rc::new(RefCell::new(Vec::new()));
    let graph = graph(&[&[]], &log);
    let observer = observer();
    let mut storage = RenderDataBundleStorage::default();
    for round in 0..2 {
        let mut ctx: RenderContext<'_, RenderDataBundleStorage, Probe, View> =
            RenderContext::new(&mut storage, &observer, None, &graph, "Shadow");
        ctx.push(
            &SurfaceResource { key: 1 },
            &MaterialResource { key: 2 },
            RenderPath::Deferred,
            0,
            9,
            SurfaceInstanceData::plain(PersistentIdentifier(round), handle(0)),
        );
        if round == 0 {
            storage.bundles[0].instances.clear();
            storage.bundles[0].material = MaterialResource { key: 3 };
        }
    }
    assert_eq!(storage.bundles.len(), 1);
    assert_eq!(storage.bundles[0].material.key, 3);
    assert_eq!(storage.bundles[0].instances.len(), 1);
    assert_eq!(storage.bundles[0].instances[0].persistent_identifier.0, 1);
}

/// A node that makes a context of its own over another storage, and goes on with the one that it
/// was given.
struct Diverting;

impl<S: RenderDataBundleStorageTrait, F> NodeTrait<S, F> for Diverting {
    fn collect_render_data(&self, ctx: &mut RenderContext<'_, S, Self, F>) -> RdcControlFlow {
        let push = |storage: &mut dyn FnMut(SurfaceInstanceData), id: u64| {
            storage(SurfaceInstanceData::plain(PersistentIdentifier(id), handle(0)))
        };
        let (data, material) = (SurfaceResource { key: 1 }, MaterialResource { key: 2 });
        let path = RenderPath::Forward;
        push(&mut |i| ctx.push(&data, &material, path, 0, 0, i), 1);
        let mut aside = RenderDataBundleStorage::default();
        {
            let mut other: RenderContext<'_, RenderDataBundleStorage, Self, F> = RenderContext::new(
                &mut aside,
                ctx.observer_info(),
                ctx.frustum(),
                ctx.graph(),
                ctx.render_pass_name(),
            );
            push(&mut |i| other.push(&data, &material, path, 0, 0, i), 2);
        }
        assert_eq!(aside.bundles[0].instances.len(), 1);
        push(&mut |i| ctx.push(&data, &material, path, 0, 0, i), 3);
        RdcControlFlow::Continue
    }
}

#[test]
fn what_was_collected_stays_with_the_collection() {
    let mut records: Vec<PoolRecord<Diverting>> = Vec::new();
    for below in [vec![handle(1)], vec![]] {
        records.push(PoolRecord {
            generation: 1,
            node: Some(Node { children: below, lod_group: None, content: Diverting }),
        });
    }
    let graph = Graph { root: handle(0), records };
    let storage =
        RenderDataBundleStorage::from_graph(&graph, observer(), Some(View { number: 7 }), "Forward");
    assert_eq!(storage.bundles.len(), 1);
    let ids: Vec<u64> =
        storage.bundles[0].instances.iter().map(|i| i.persistent_identifier.0).collect();
    assert_eq!(ids, vec![1, 3, 1, 3]);
}

#[test]
fn context_collects_into_a_storage() {
    let log = Rc::new(RefCell::new(Vec::new()));
    let graph = graph(&[&[]], &log);
    let observer = observer();
    let mut storage = RenderDataBundleStorage::default();
    storage.push(
        &SurfaceResource { key: 1 },
        &MaterialResource { key: 2 },
        RenderPath::Deferred,
        0,
        9,
        SurfaceInstanceData::plain(PersistentIdentifier(1), handle(0)),
    );
    let mut ctx: RenderContext<'_, RenderDataBundleStorage, Probe, View> =
        RenderContext::new(&mut storage, &observer, None, &graph, "Shadow");
    assert!(ctx.frustum().is_none());
    assert_eq!(ctx.render_pass_name(), "Shadow");
    ctx.push(
        &SurfaceResource { key: 1 },
        &MaterialResource { key: 2 },
        RenderPath::Deferred,
        0,
        4,
        SurfaceInstanceData::plain(PersistentIdentifier(2), handle(0)),
    );
    assert_eq!(storage.bundles.len(), 1);
    assert_eq!(storage.bundles[0].sort_index(), 9);
    assert_eq!(storage.bundles[0].instances.len(), 2);
}

/// A node that pushes triangles.
struct Batched {
    surface: u64,
    log: Rc<RefCell<Vec<u64>>>,
}

impl<S: RenderDataBundleStorageTrait, F> NodeTrait<S, F> for Batched {
    fn collect_render_data(&self, ctx: &mut RenderContext<'_, S, Self, F>) -> RdcControlFlow {
        ctx.push_triangles(
            &[],
            &MaterialResource { key: 4 },
            RenderPath::Forward,
            0,
            0,
            false,
            handle(0),
            |_| SurfaceResource { key: self.surface },
            |data| self.log.borrow_mut().push(data.key),
        );
        RdcControlFlow::Continue
    }
}

#[test]
fn nodes_share_batched_triangles() {
    let log = Rc::new(RefCell::new(Vec::new()));
    let mut records: Vec<PoolRecord<Batched>> = Vec::new();
    for (i, below) in [vec![handle(1)], vec![]].into_iter().enumerate() {
        records.push(PoolRecord {
            generation: 1,
            node: Some(Node {
                children: below,
                lod_group: None,
                content: Batched { surface: 70 + i as u64, log: log.clone() },
            }),
        });
    }
    let graph = Graph { root: handle(0), records };
    let storage = RenderDataBundleStorage::from_graph(&graph, observer(), Some(View { number: 7 }), "Forward");
    assert_eq!(*log.borrow(), vec![70, 70]);
    assert_eq!(storage.bundles.len(), 1);
    assert_eq!(storage.bundles[0].instances.len(), 1);
}

#[test]
fn collections_are_replayed_and_sorted() {
    let log = Rc::new(RefCell::new(Vec::new()));
    let mut graph = graph(&[&[1, 2, 3], &[], &[], &[]], &log);
    let pushed = [(1, 10u64, 500u64), (2, 20, 9000), (3, 10, 2000)];
    for (i, surface, depth) in pushed {
        content(&mut graph, i).surface = surface;
        content(&mut graph, i).depth = depth;
    }
    let collected =
        RenderDataBundleStorage::from_graph(&graph, observer(), Some(View { number: 7 }), "Forward");
    let mut replayed = RenderDataBundleStorage::default();
    for (i, surface, depth) in [pushed[2], pushed[1], pushed[0]] {
        replayed.push(
            &SurfaceResource { key: surface },
            &MaterialResource { key: 1 },
            RenderPath::Forward,
            0,
            u64::MAX - depth,
            SurfaceInstanceData::plain(PersistentIdentifier(i as u64), handle(i as u32)),
        );
    }
    replayed.sort();
    let contents = |storage: &RenderDataBundleStorage| -> Vec<(u64, u64, Vec<u64>)> {
        storage
            .bundles
            .iter()
            .map(|b| {
                let ids = b.instances.iter().map(|i| i.persistent_identifier.0).collect();
                (b.data.key, b.sort_index(), ids)
            })
            .collect()
    };
    assert_eq!(contents(&collected), contents(&replayed));
    assert_eq!(contents(&collected)[1], (10, u64::MAX - 2000, vec![3, 1]));
}
