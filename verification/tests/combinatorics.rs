use geometry_kernel::arrangement::{directed_edge_seen, push_unique_neighbor, Arrangement};
use geometry_kernel::assign::hole_targets;
use geometry_kernel::error::GeometryError;
use geometry_kernel::halfedge::HalfEdgeGraph;
use geometry_kernel::kinds::{CapStyle, JoinStyle, KernelBackend, PointLocation, Position};
use geometry_kernel::order::{sort_by_keys, sort_indices_by};
use geometry_kernel::overlay::{boundary_edge, OverlayOp};
use geometry_kernel::scan::{
    best_index, close_coords, dedup_consecutive, next_distinct_index, previous_distinct_index,
    rotate_left, trim_closing_repeats,
};
use geometry_kernel::simplify::{
    delete_shallow_concavities, find_next_non_deleted_index, is_shallow_sampled,
    simplify_buffer_input_line,
};

fn square_arrangement() -> Arrangement {
    let mut a = Arrangement::new();
    for _ in 0..4 {
        a.add_vertex();
    }
    a.connect(0, 1);
    a.connect(1, 2);
    a.connect(2, 3);
    a.connect(3, 0);
    a
}

#[test]
fn opposite_side_flips_and_returns() {
    assert_eq!(Position::Left.opposite(), Position::Right);
    assert_eq!(Position::Right.opposite(), Position::Left);
    assert_eq!(Position::Left.opposite().opposite(), Position::Left);
}

#[test]
fn enums_compare_by_variant() {
    assert_eq!(JoinStyle::Round, JoinStyle::Round);
    assert_ne!(JoinStyle::Mitre, JoinStyle::Bevel);
    assert_ne!(CapStyle::Flat, CapStyle::Square);
    assert_ne!(KernelBackend::PureRust, KernelBackend::GeosReference);
    assert_ne!(PointLocation::Interior, PointLocation::Boundary);
}

#[test]
fn error_messages_name_their_kind() {
    assert_eq!(
        GeometryError::InvalidGeometry("bad ring".to_string()).message(),
        "invalid geometry: bad ring"
    );
    assert_eq!(
        GeometryError::Unsupported("holes".to_string()).message(),
        "unsupported operation: holes"
    );
    assert_eq!(
        GeometryError::Backend("geos".to_string()).message(),
        "backend error: geos"
    );
    assert_eq!(
        GeometryError::Serialization("eof".to_string()).message(),
        "serialization error: eof"
    );
}

#[test]
fn next_non_deleted_skips_deleted_entries() {
    let mask = [false, false, true, true, false, true];
    assert_eq!(find_next_non_deleted_index(1, &mask), 4);
    assert_eq!(find_next_non_deleted_index(0, &mask), 1);
    assert_eq!(find_next_non_deleted_index(4, &mask), 6);
    assert_eq!(find_next_non_deleted_index(7, &mask), 8);
}

#[test]
fn one_pass_deletes_accepted_vertices_and_resumes_after_them() {
    let mut mask = vec![false; 6];
    let mut calls = Vec::new();
    let log = std::cell::RefCell::new(&mut calls);
    let changed = delete_shallow_concavities(&mut mask, &|a: usize, b: usize, c: usize| {
        log.borrow_mut().push((a, b, c));
        b == 2
    });
    assert!(changed);
    assert_eq!(mask, vec![false, false, true, false, false, false]);
    assert_eq!(calls, vec![(1, 2, 3), (3, 4, 5)]);
}

#[test]
fn pass_without_deletions_reports_no_change() {
    let mut mask = vec![false; 5];
    let changed = delete_shallow_concavities(&mut mask, &|_a: usize, _b: usize, _c: usize| false);
    assert!(!changed);
    assert_eq!(mask, vec![false; 5]);
}

#[test]
fn simplification_repeats_until_stable_and_keeps_ends() {
    let points = [10, 11, 12, 13, 14, 15];
    let kept = simplify_buffer_input_line(&points, |_a: usize, b: usize, _c: usize| b != 5);
    assert_eq!(kept, vec![10, 11, 15]);
}

#[test]
fn simplification_of_short_lines_keeps_everything() {
    let points = [1, 2];
    let kept = simplify_buffer_input_line(&points, |_a: usize, _b: usize, _c: usize| true);
    assert_eq!(kept, vec![1, 2]);
}

#[test]
fn shallow_sampling_checks_every_tenth() {
    let mut seen = Vec::new();
    let log = std::cell::RefCell::new(&mut seen);
    let shallow = is_shallow_sampled(0, 25, |i: usize| {
        log.borrow_mut().push(i);
        false
    });
    assert!(shallow);
    assert_eq!(seen, vec![0, 2, 4, 6, 8, 10, 12, 14, 16, 18, 20, 22, 24]);
    assert!(!is_shallow_sampled(3, 7, |i: usize| i == 5));
    assert!(is_shallow_sampled(4, 4, |_i: usize| true));
}

#[test]
fn sorting_by_keys_is_stable() {
    let items = vec![10, 20, 30, 40];
    assert_eq!(sort_by_keys(&items, &[3, 1, 3, 1]), vec![20, 40, 10, 30]);
    assert_eq!(sort_by_keys(&items, &[9, 8, 7, 6]), vec![40, 30, 20, 10]);
    assert_eq!(sort_by_keys(&Vec::new(), &[]), Vec::<usize>::new());
}

#[test]
fn neighbour_lists_hold_each_vertex_once() {
    let mut nb = vec![3, 5];
    push_unique_neighbor(&mut nb, 5);
    assert_eq!(nb, vec![3, 5]);
    push_unique_neighbor(&mut nb, 7);
    assert_eq!(nb, vec![3, 5, 7]);
    assert!(directed_edge_seen(&[(1, 2), (2, 3)], 2, 3));
    assert!(!directed_edge_seen(&[(1, 2), (2, 3)], 3, 2));
}

#[test]
fn connecting_vertices_is_symmetric_and_ignores_loops() {
    let mut a = square_arrangement();
    a.connect(1, 1);
    a.connect(1, 0);
    assert_eq!(a.vertex_count(), 4);
    assert_eq!(a.neighbors(0), &vec![1, 3]);
    assert_eq!(a.neighbors(1), &vec![0, 2]);
    assert_eq!(a.neighbors(3), &vec![2, 0]);
}

#[test]
fn square_arrangement_has_two_faces() {
    let mut a = square_arrangement();
    // Direction ranks of each neighbour, by angle around the vertex.
    a.order_neighbors(0, &[0, 1]);
    a.order_neighbors(1, &[2, 1]);
    a.order_neighbors(2, &[0, 1]);
    a.order_neighbors(3, &[1, 0]);
    assert_eq!(a.neighbors(1), &vec![2, 0]);
    assert_eq!(a.neighbors(3), &vec![0, 2]);
    assert_eq!(a.next_face_vertex(0, 1), Some(2));
    assert_eq!(a.next_face_vertex(1, 2), Some(3));
    assert_eq!(a.next_face_vertex(2, 0), None);
    assert_eq!(a.next_face_vertex(0, 9), None);
    assert_eq!(a.face_rings(), vec![vec![0, 1, 2, 3], vec![0, 3, 2, 1]]);
}

#[test]
fn face_walk_visits_each_directed_edge_once() {
    let mut a = square_arrangement();
    a.order_neighbors(1, &[2, 1]);
    a.order_neighbors(3, &[1, 0]);
    let mut visited = Vec::new();
    let ring = a.walk_face(0, 1, &mut visited);
    assert_eq!(ring, vec![0, 1, 2, 3]);
    assert_eq!(visited, vec![(0, 1), (1, 2), (2, 3), (3, 0)]);
    let again = a.walk_face(0, 1, &mut visited);
    assert!(again.is_empty());
    let other = a.walk_face(1, 0, &mut visited);
    assert_eq!(other, vec![1, 0, 3, 2]);
    assert_eq!(visited.len(), 8);
}

fn square_graph() -> HalfEdgeGraph {
    let mut g = HalfEdgeGraph::new();
    let ids: Vec<usize> = [100u128, 101, 102, 103].iter().map(|k| g.vertex_id(*k)).collect();
    assert_eq!(ids, vec![0, 1, 2, 3]);
    assert!(g.add_segment(0, 1));
    assert!(g.add_segment(1, 2));
    assert!(g.add_segment(2, 3));
    assert!(g.add_segment(3, 0));
    g
}

#[test]
fn half_edge_graph_interns_vertices_and_segments() {
    let mut g = square_graph();
    assert_eq!(g.vertex_id(102), 2);
    assert_eq!(g.vertex_count(), 4);
    assert!(!g.add_segment(1, 0));
    assert!(!g.add_segment(0, 3));
    assert_eq!(g.edge_count(), 8);
    let e = g.half_edge(2);
    assert_eq!((e.from, e.to, e.reverse), (1, 2, 3));
    let twin = g.half_edge(e.reverse);
    assert_eq!((twin.from, twin.to, twin.reverse), (2, 1, 2));
    assert_eq!(g.outgoing(1), &vec![1, 2]);
}

#[test]
fn half_edge_square_traces_two_faces() {
    let mut g = square_graph();
    g.order_outgoing(1, &[2, 1]);
    g.order_outgoing(3, &[1, 0]);
    assert_eq!(g.outgoing(1), &vec![2, 1]);
    let rings = g.face_cycles();
    assert_eq!(rings, vec![vec![0, 1, 2, 3], vec![1, 0, 3, 2]]);
    assert!((0..g.edge_count()).all(|e| g.is_visited(e)));
}

#[test]
fn tracing_from_a_visited_edge_yields_nothing() {
    let mut g = square_graph();
    g.order_outgoing(1, &[2, 1]);
    g.order_outgoing(3, &[1, 0]);
    assert_eq!(g.trace_face(0), Some(vec![0, 1, 2, 3]));
    assert_eq!(g.trace_face(0), None);
    assert_eq!(g.trace_face(2), None);
    assert!(!g.is_visited(1));
}

#[test]
fn tracing_a_dangling_segment_yields_no_ring() {
    let mut g = HalfEdgeGraph::new();
    let a = g.vertex_id(7);
    let b = g.vertex_id(9);
    assert!(g.add_segment(a, b));
    assert_eq!(g.face_cycles(), Vec::<Vec<usize>>::new());
    assert!(g.is_visited(0) && g.is_visited(1));
}

#[test]
fn consecutive_repeats_are_dropped() {
    let out = dedup_consecutive(&[1, 1, 2, 2, 2, 3, 1], |a: i32, b: i32| a == b);
    assert_eq!(out, vec![1, 2, 3, 1]);
    let near = dedup_consecutive(&[10, 11, 15, 16, 30], |a: i32, b: i32| (a - b).abs() <= 1);
    assert_eq!(near, vec![10, 15, 30]);
}

#[test]
fn closing_repeats_are_trimmed_and_rings_closed() {
    let mut v = vec![5, 1, 2, 5, 5];
    trim_closing_repeats(&mut v, |a: i32, b: i32| a == b);
    assert_eq!(v, vec![5, 1, 2]);
    let mut one = vec![4, 4];
    trim_closing_repeats(&mut one, |a: i32, b: i32| a == b);
    assert_eq!(one, vec![4]);
    let mut ring = vec![1, 2, 3];
    close_coords(&mut ring, |a: i32, b: i32| a == b);
    assert_eq!(ring, vec![1, 2, 3, 1]);
    close_coords(&mut ring, |a: i32, b: i32| a == b);
    assert_eq!(ring, vec![1, 2, 3, 1]);
    let mut empty: Vec<i32> = Vec::new();
    close_coords(&mut empty, |a: i32, b: i32| a == b);
    assert!(empty.is_empty());
}

#[test]
fn best_index_follows_the_replacement_rule() {
    let v = [3, 1, 2, 1];
    assert_eq!(best_index(4, |b: usize, i: usize| v[i] < v[b]), 1);
    let w = [1, 5, 2, 5];
    assert_eq!(best_index(4, |b: usize, i: usize| !(w[b] > w[i])), 3);
    assert_eq!(best_index(1, |_b: usize, _i: usize| true), 0);
}

#[test]
fn rotation_starts_at_the_given_index() {
    assert_eq!(rotate_left(&[1, 2, 3, 4], 1), vec![2, 3, 4, 1]);
    assert_eq!(rotate_left(&[1, 2, 3, 4], 0), vec![1, 2, 3, 4]);
    assert_eq!(rotate_left(&[1, 2, 3, 4], 4), vec![1, 2, 3, 4]);
}

#[test]
fn backward_walk_wraps_to_the_last_index() {
    // Ring of five entries (indices 0..=4); entries 1 and 2 repeat the start.
    let same = [false, true, true, false, false];
    assert_eq!(previous_distinct_index(4, 2, |i: usize| !same[i]), 0);
    let same_at_zero = [true, true, true, false, false];
    assert_eq!(previous_distinct_index(4, 2, |i: usize| !same_at_zero[i]), 4);
    assert_eq!(previous_distinct_index(4, 2, |_i: usize| false), 2);
}

#[test]
fn forward_walk_steps_modulo_n() {
    assert_eq!(next_distinct_index(4, 3, |i: usize| i == 1), 1);
    assert_eq!(next_distinct_index(4, 1, |_i: usize| false), 1);
    // Starting at index n, the first step goes to 1 (the closing point is
    // skipped).
    assert_eq!(next_distinct_index(4, 4, |i: usize| i == 0 || i == 2), 2);
    assert_eq!(next_distinct_index(4, 4, |i: usize| i == 0), 0);
}

#[test]
fn holes_go_to_the_smallest_containing_shell() {
    // Shell areas; hole 0 lies in shells 0, 1 and 3, hole 1 in none, hole 2
    // in shells 1 and 2 (equal areas: the first one wins).
    let areas = [100u32, 40, 40, 60];
    let inside = [
        [true, true, false, true],
        [false, false, false, false],
        [false, true, true, false],
    ];
    let targets = hole_targets(
        3,
        4,
        |h: usize, s: usize| inside[h][s],
        |s: usize, t: usize| areas[s] < areas[t],
    );
    assert_eq!(targets, vec![Some(1), None, Some(1)]);
}

#[test]
fn holes_without_shells_get_no_target() {
    let targets = hole_targets(2, 0, |_h: usize, _s: usize| true, |_s: usize, _t: usize| false);
    assert_eq!(targets, vec![None, None]);
}

#[test]
fn errors_compare_by_kind_and_text() {
    assert_eq!(
        GeometryError::Backend("x".to_string()),
        GeometryError::Backend("x".to_string())
    );
    assert_ne!(
        GeometryError::Backend("x".to_string()),
        GeometryError::Unsupported("x".to_string())
    );
}

#[test]
fn boundary_edges_keep_the_result_on_their_left() {
    // Left side in both inputs, right side only in the subject.
    assert_eq!(
        boundary_edge(OverlayOp::Intersection, 3, 7, (true, true), (true, false)),
        Some((3, 7))
    );
    assert_eq!(
        boundary_edge(OverlayOp::Difference, 3, 7, (true, true), (true, false)),
        Some((7, 3))
    );
    assert_eq!(
        boundary_edge(OverlayOp::Difference, 3, 7, (false, false), (false, true)),
        None
    );
    assert!(OverlayOp::Difference.contains(true, false));
    assert!(!OverlayOp::Intersection.contains(true, false));
}

#[test]
fn sorting_by_a_comparison_is_stable() {
    let keys = [30u32, 10, 30, 20, 10];
    let order = sort_indices_by(5, |a: usize, b: usize| keys[a] < keys[b]);
    assert_eq!(order, vec![1, 4, 3, 0, 2]);
    let descending = sort_indices_by(5, |a: usize, b: usize| keys[a] > keys[b]);
    assert_eq!(descending, vec![0, 2, 3, 1, 4]);
    assert_eq!(sort_indices_by(0, |_a: usize, _b: usize| true), Vec::<usize>::new());
}
