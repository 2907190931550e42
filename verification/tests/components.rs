//! Tests of the individual building blocks: nodes, the deduplicating
//! priority queue, errors, sizes, kernels and the collapsed-value export.

use wave_collapse::binary_heap_set::{BinaryHeapSet, HeapEntry};
use wave_collapse::error::WaveCollapseError;
use wave_collapse::node::{Node, NodeIter};
use wave_collapse::tile2d::{Cutoff, Kernel2D, Size2D, TileMap2D, Wrapping};
use wave_collapse::{WaveKernel, WaveShape};

#[test]
fn node_starts_uncollapsed() {
    let node: Node<u32> = Node::new((3, 4), vec![10, 20, 30]);
    assert_eq!(node.get_id(), (3, 4));
    assert!(!node.is_collapsed());
    assert!(!node.is_overspecified());
    assert_eq!(node.entropy(), 3);
    assert_eq!(node.possible_values().as_slice(), &[10, 20, 30]);
    assert_eq!(node.collapsed(), None);
}

#[test]
fn node_duplicate_matches() {
    let node: Node<u32> = Node::new((0, 0), vec![7, 8]);
    let copy = node.duplicate();
    assert_eq!(copy.get_id(), (0, 0));
    assert_eq!(copy.possible_values().as_slice(), &[7, 8]);
    assert!(!copy.is_collapsed());
}

#[test]
fn size2d_square() {
    let s = Size2D::square(5);
    assert_eq!(s.width, 5);
    assert_eq!(s.height, 5);
    let r = Size2D::new(2, 3);
    assert_eq!(r.width, 2);
    assert_eq!(r.height, 3);
}

#[test]
fn error_messages() {
    assert_eq!(WaveCollapseError::EmptyInput.message(), "input is empty");
    assert_eq!(
        WaveCollapseError::InvalidSuperposition.message(),
        "failed to collapse wave function"
    );
    assert_eq!(WaveCollapseError::NotImplemented.message(), "not implemented");
    assert_eq!(WaveCollapseError::Other.message(), "unknown error");
    assert_eq!(
        WaveCollapseError::IterationError.message(),
        "iteration failed, this should never happen"
    );
}

#[test]
fn queue_pops_in_priority_order() {
    let mut q = BinaryHeapSet::new();
    assert!(q.is_empty());
    assert!(q.push(HeapEntry { priority: 3, id: (0, 0) }));
    assert!(q.push(HeapEntry { priority: 1, id: (1, 0) }));
    assert!(q.push(HeapEntry { priority: 2, id: (2, 0) }));
    assert!(!q.is_empty());
    assert_eq!(q.pop().unwrap().id, (1, 0));
    assert_eq!(q.pop().unwrap().id, (2, 0));
    assert_eq!(q.pop().unwrap().id, (0, 0));
    assert!(q.pop().is_none());
}

#[test]
fn queue_breaks_ties_by_insertion_order() {
    let mut q = BinaryHeapSet::new();
    assert!(q.push(HeapEntry { priority: 2, id: (5, 5) }));
    assert!(q.push(HeapEntry { priority: 2, id: (6, 6) }));
    assert!(q.push(HeapEntry { priority: 2, id: (7, 7) }));
    assert_eq!(q.pop().unwrap().id, (5, 5));
    assert_eq!(q.pop().unwrap().id, (6, 6));
    assert_eq!(q.pop().unwrap().id, (7, 7));
}

#[test]
fn queue_rejects_duplicate_ids() {
    let mut q = BinaryHeapSet::new();
    assert!(q.push(HeapEntry { priority: 4, id: (1, 2) }));
    assert!(!q.push(HeapEntry { priority: 1, id: (1, 2) }));
    // the rejected push did not grow the queue
    assert_eq!(q.pop().unwrap().priority, 4);
    assert!(q.pop().is_none());
    // after popping, the same id is a fresh admission
    assert!(q.push(HeapEntry { priority: 1, id: (1, 2) }));
    assert_eq!(q.pop().unwrap().priority, 1);
}

#[test]
fn tile_map_enumerates_row_major() {
    let map: TileMap2D<u32> = TileMap2D::new(Size2D::new(3, 2), Size2D::square(1), &vec![9]);
    let ids = map.iter_node_ids();
    assert_eq!(ids, vec![(0, 0), (1, 0), (2, 0), (0, 1), (1, 1), (2, 1)]);
    for id in ids {
        let node = map.get_node(&id).expect("listed ids are valid");
        assert_eq!(node.get_id(), id);
        assert_eq!(node.possible_values().as_slice(), &[9]);
    }
    assert!(map.get_node(&(3, 0)).is_none());
    assert!(map.get_node(&(0, 2)).is_none());
    assert_eq!(*map.size(), Size2D::new(3, 2));
    assert_eq!(*map.kernel_size(), Size2D::square(1));
    assert_eq!(map.get_last_collapsed_id(), None);
}

#[test]
fn node_iter_visits_all_nodes() {
    let map: TileMap2D<u32> = TileMap2D::new(Size2D::new(2, 2), Size2D::square(1), &vec![1, 2]);
    let mut iter = NodeIter::new(map.iter_node_ids(), &map);
    let mut seen = Vec::new();
    while let Some(node) = iter.next() {
        seen.push(node.get_id());
    }
    assert_eq!(seen, vec![(0, 0), (1, 0), (0, 1), (1, 1)]);
}

#[test]
fn cutoff_kernel_clips_at_the_border() {
    let map: TileMap2D<u32> = TileMap2D::new(Size2D::new(3, 3), Size2D::square(3), &vec![1]);
    let corner = map.get_node(&(0, 0)).unwrap();
    let kernel: Kernel2D<Cutoff, u32> = WaveKernel::new(&map, corner);
    assert_eq!(kernel.radius_x, 1);
    assert_eq!(kernel.radius_y, 1);
    let mut ids = kernel.iter_node_ids();
    ids.sort();
    assert_eq!(ids, vec![(0, 0), (0, 1), (1, 0), (1, 1)]);
    // center and in-range neighbors
    assert_eq!(kernel.get(0, 0).unwrap().get_id(), (0, 0));
    assert_eq!(kernel.get(1, 1).unwrap().get_id(), (1, 1));
    // off the grid, and off the radius
    assert!(kernel.get(-1, 0).is_none());
    assert!(kernel.get(0, -1).is_none());
    assert!(kernel.get(2, 0).is_none());
}

#[test]
fn wrapping_kernel_wraps_at_the_border() {
    let map: TileMap2D<u32> = TileMap2D::new(Size2D::new(4, 4), Size2D::square(3), &vec![1]);
    let corner = map.get_node(&(0, 0)).unwrap();
    let kernel: Kernel2D<Wrapping, u32> = WaveKernel::new(&map, corner);
    let mut ids = kernel.iter_node_ids();
    assert_eq!(ids.len(), 9);
    ids.sort();
    ids.dedup();
    let mut expected = vec![
        (0, 0),
        (1, 0),
        (3, 0),
        (0, 1),
        (1, 1),
        (3, 1),
        (0, 3),
        (1, 3),
        (3, 3),
    ];
    expected.sort();
    assert_eq!(ids, expected);
    assert_eq!(kernel.get(0, 0).unwrap().get_id(), (0, 0));
    assert_eq!(kernel.get(-1, 0).unwrap().get_id(), (3, 0));
    assert_eq!(kernel.get(-1, -1).unwrap().get_id(), (3, 3));
    assert!(kernel.get(2, 0).is_none());
}

#[test]
fn wrapping_kernel_covers_whole_small_grid() {
    let map: TileMap2D<u32> = TileMap2D::new(Size2D::new(2, 1), Size2D::new(3, 1), &vec![1]);
    let node = map.get_node(&(1, 0)).unwrap();
    let kernel: Kernel2D<Wrapping, u32> = WaveKernel::new(&map, node);
    // radius 1 on a width-2 grid: the left neighbor and the right neighbor
    // are the same cell, listed once per offset
    let ids = kernel.iter_node_ids();
    assert_eq!(ids, vec![(0, 0), (1, 0), (0, 0)]);
}

#[test]
fn get_collapsed_requires_a_finished_grid() {
    let map: TileMap2D<u32> = TileMap2D::new(Size2D::new(2, 3), Size2D::square(1), &vec![4, 5]);
    assert!(map.collapsed_values().is_none());
    assert!(map.get_collapsed().is_none());
}
