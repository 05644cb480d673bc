use delaunator::EMPTY;
use particle_links::registry::{Link, LinkRegistry};

#[test]
fn new_registry_tracks_nothing() {
    let r = LinkRegistry::new();
    assert!(r.links().is_empty());
    assert_eq!(r.since(0, 1), None);
}

#[test]
fn new_pairs_start_now() {
    let mut r = LinkRegistry::new();
    r.reconcile(&vec![(1, 2), (4, 3)], 100);
    assert_eq!(
        r.links(),
        &vec![Link { a: 1, b: 2, since: 100 }, Link { a: 3, b: 4, since: 100 }]
    );
    assert_eq!(r.since(3, 4), Some(100));
    assert_eq!(r.since(4, 3), Some(100));
}

#[test]
fn same_candidates_twice_keep_their_times() {
    let mut r = LinkRegistry::new();
    let c = vec![(0, 1), (1, 2), (0, 2)];
    r.reconcile(&c, 10);
    let first = r.links().clone();
    r.reconcile(&c, 20);
    assert_eq!(r.links(), &first);
    assert_eq!(r.since(0, 2), Some(10));
}

#[test]
fn persisting_pair_keeps_time_and_new_pair_gets_now() {
    let mut r = LinkRegistry::new();
    r.reconcile(&vec![(0, 1)], 10);
    r.reconcile(&vec![(1, 0), (1, 2)], 20);
    assert_eq!(r.since(0, 1), Some(10));
    assert_eq!(r.since(1, 2), Some(20));
}

#[test]
fn pair_absent_for_one_frame_restarts() {
    let mut r = LinkRegistry::new();
    r.reconcile(&vec![(1, 2)], 1);
    r.reconcile(&vec![], 2);
    assert_eq!(r.since(1, 2), None);
    r.reconcile(&vec![(1, 2)], 3);
    assert_eq!(r.since(1, 2), Some(3));
}

#[test]
fn tracked_pairs_equal_candidates() {
    let mut r = LinkRegistry::new();
    r.reconcile(&vec![(0, 1), (1, 2), (2, 3)], 5);
    r.reconcile(&vec![(2, 1), (3, 4), (1, 2), (4, 3)], 6);
    let links = r.links();
    assert_eq!(links.len(), 2);
    assert_eq!(links[0], Link { a: 1, b: 2, since: 5 });
    assert_eq!(links[1], Link { a: 3, b: 4, since: 6 });
    assert_eq!(r.since(0, 1), None);
    assert_eq!(r.since(2, 3), None);
}

#[test]
fn empty_candidates_drop_every_link() {
    let mut r = LinkRegistry::new();
    r.reconcile(&vec![(0, 1), (0, 2)], 5);
    r.reconcile(&vec![], 6);
    assert!(r.links().is_empty());
}

#[test]
fn self_pair_is_tracked_once() {
    let mut r = LinkRegistry::new();
    r.reconcile(&vec![(7, 7), (7, 7)], 9);
    assert_eq!(r.links(), &vec![Link { a: 7, b: 7, since: 9 }]);
}

#[test]
fn largest_time_is_kept() {
    let mut r = LinkRegistry::new();
    r.reconcile(&vec![(usize::MAX - 1, usize::MAX)], u64::MAX);
    assert_eq!(r.since(usize::MAX, usize::MAX - 1), Some(u64::MAX));
}

#[test]
fn triangulation_frames_keep_shared_edges() {
    let mut r = LinkRegistry::new();
    let triangles = vec![0, 1, 2, 2, 1, 3];
    let halfedges = vec![EMPTY, 3, EMPTY, 1, EMPTY, EMPTY];
    r.reconcile_triangulation(&triangles, &halfedges, 50);
    assert_eq!(r.links().len(), 5);
    // The next frame flips the diagonal: 1-2 goes, 0-3 comes.
    let triangles = vec![0, 1, 3, 0, 3, 2];
    let halfedges = vec![EMPTY, EMPTY, 3, 2, EMPTY, EMPTY];
    r.reconcile_triangulation(&triangles, &halfedges, 60);
    assert_eq!(r.links().len(), 5);
    assert_eq!(r.since(0, 1), Some(50));
    assert_eq!(r.since(2, 3), Some(50));
    assert_eq!(r.since(0, 3), Some(60));
    assert_eq!(r.since(1, 2), None);
}
