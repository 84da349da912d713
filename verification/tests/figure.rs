use vetor::archives::raw_to_figure;
use vetor::figure::edge::{Edge, EdgeFormat, ROOT};
use vetor::figure::pose::PoseSnapshot;
use vetor::figure::{Figure, FigureError};
use vetor::maths::Vector2;

fn at(x: i64, y: i64) -> Vector2 {
    Vector2::new(x * 1000, y * 1000)
}

fn chain() -> Figure {
    let root = Edge::new(at(0, 0), at(10, 0), ROOT, 1);
    let a = Edge::new(at(10, 0), at(20, 0), 0, 1);
    let b = Edge::new(at(20, 0), at(30, 0), 1, 2);
    Figure::new(vec![root, a, b]).unwrap()
}

#[test]
fn import_gives_one_root_line() {
    let figure = raw_to_figure("1,0,0,0,0\n1,50,0,0,1".as_bytes()).unwrap();
    assert_eq!(figure.len(), 1);
    let edge = *figure.get(0).unwrap();
    assert_eq!(edge.start, at(0, 0));
    assert_eq!(edge.end, at(50, 0));
    assert_eq!(edge.width, 50_000);
    assert_eq!(edge.parent, ROOT);
    assert_eq!(edge.format, EdgeFormat::LINE);
}

#[test]
fn divide_cuts_the_line_in_two() {
    let mut figure = raw_to_figure("1,0,0,0,0\n1,50,0,0,1".as_bytes()).unwrap();
    figure.divide(0).unwrap();
    assert_eq!(figure.len(), 2);
    let first = *figure.get(0).unwrap();
    let second = *figure.get(1).unwrap();
    assert_eq!(first.start, at(0, 0));
    assert_eq!(first.end, at(25, 0));
    assert_eq!(first.width, 25_000);
    assert_eq!(first.parent, ROOT);
    assert_eq!(second.start, at(25, 0));
    assert_eq!(second.end, at(50, 0));
    assert_eq!(second.width, 25_000);
    assert_eq!(second.parent, 0);
}

#[test]
fn divide_keeps_the_width_of_an_odd_line() {
    let edge = Edge::new(Vector2::new(0, 0), Vector2::new(3001, 4003), ROOT, 1);
    let whole = edge.width;
    let mut figure = Figure::new(vec![edge]).unwrap();
    figure.divide(0).unwrap();
    let sum = figure.get(0).unwrap().width + figure.get(1).unwrap().width;
    assert!((sum - whole).abs() <= 1);
    assert_eq!(whole, 5003);
}

#[test]
fn divide_hands_the_children_to_the_new_half() {
    let root = Edge::new(at(0, 0), at(10, 0), ROOT, 1);
    let a = Edge::new(at(10, 0), at(20, 0), 0, 1);
    let b = Edge::new(at(10, 0), at(10, 10), 0, 1);
    let mut figure = Figure::new(vec![root, a, b]).unwrap();
    figure.divide(0).unwrap();
    assert_eq!(figure.len(), 4);
    assert_eq!(figure.get(0).unwrap().end, at(5, 0));
    assert_eq!(figure.get(1).unwrap().start, at(5, 0));
    assert_eq!(figure.get(1).unwrap().parent, 0);
    assert_eq!(figure.get(2).unwrap().parent, 1);
    assert_eq!(figure.get(3).unwrap().parent, 1);
    assert_eq!(figure.get(2).unwrap().end, at(20, 0));
    assert_eq!(figure.get(3).unwrap().end, at(10, 10));
}

#[test]
fn divide_refuses_a_circle_and_a_missing_segment() {
    let mut figure = chain();
    assert_eq!(figure.divide(2), Err(FigureError::UnsupportedOperation));
    assert_eq!(figure.divide(3), Err(FigureError::InvalidIndex));
    assert_eq!(figure.len(), 3);
}

#[test]
fn delete_in_a_chain_hangs_the_child_on_the_root() {
    let mut figure = chain();
    figure.delete(1).unwrap();
    assert_eq!(figure.len(), 2);
    assert_eq!(figure.get(0).unwrap().parent, ROOT);
    assert_eq!(figure.get(1).unwrap().parent, 0);
    assert_eq!(figure.get(1).unwrap().end, at(30, 0));
    assert_eq!(figure.get(1).unwrap().format, EdgeFormat::CIRCLE);
}

#[test]
fn delete_moves_later_references_down() {
    let root = Edge::new(at(0, 0), at(10, 0), ROOT, 1);
    let a = Edge::new(at(10, 0), at(20, 0), 0, 1);
    let b = Edge::new(at(20, 0), at(30, 0), 1, 1);
    let c = Edge::new(at(30, 0), at(40, 0), 2, 1);
    let mut figure = Figure::new(vec![root, a, b, c]).unwrap();
    figure.delete(1).unwrap();
    assert_eq!(figure.len(), 3);
    assert_eq!(figure.get(1).unwrap().parent, 0);
    assert_eq!(figure.get(2).unwrap().parent, 1);
    assert_eq!(figure.delete(3), Err(FigureError::InvalidIndex));
}

#[test]
fn delete_of_a_root_anchors_its_children_at_another_root() {
    let first = Edge::new(at(0, 0), at(10, 0), ROOT, 1);
    let second = Edge::new(at(100, 100), at(110, 100), ROOT, 1);
    let child = Edge::new(at(110, 100), at(110, 120), 1, 1);
    let mut figure = Figure::new(vec![first, second, child]).unwrap();
    let doomed = (0..3).find(|&i| figure.get(i).unwrap().start == at(100, 100)).unwrap();
    figure.delete(doomed).unwrap();
    assert_eq!(figure.len(), 2);
    let moved = (0..2).map(|i| *figure.get(i).unwrap()).find(|e| e.width == 20_000).unwrap();
    assert_eq!(moved.parent, ROOT);
    assert_eq!(moved.start, at(0, 0));
    assert_eq!(moved.end, at(0, 20));
}

#[test]
fn resort_puts_parents_first() {
    let root = Edge::new(at(0, 0), at(10, 0), ROOT, 1);
    let far = Edge::new(at(20, 0), at(30, 0), 2, 1);
    let near = Edge::new(at(10, 0), at(20, 0), 0, 1);
    let side = Edge::new(at(10, 0), at(10, 10), 0, 2);
    let figure = Figure::new(vec![root, far, near, side]).unwrap();
    assert_eq!(figure.len(), 4);
    for i in 0..4 {
        assert!(figure.get(i).unwrap().parent < i as isize);
    }
    // The children of the root come first, then what hangs on the last of
    // them, then what hangs on the first.
    assert_eq!(figure.get(1).unwrap().end, at(20, 0));
    assert_eq!(figure.get(2).unwrap().end, at(10, 10));
    assert_eq!(figure.get(3).unwrap().end, at(30, 0));
    assert_eq!(figure.get(3).unwrap().parent, 1);
    assert_eq!(figure.indexed_tree(ROOT), vec![0, 1, 2, 3]);
    assert_eq!(figure.get_children(0), vec![1, 2]);
}

#[test]
fn new_refuses_a_cycle_and_a_bad_parent() {
    let a = Edge::new(at(0, 0), at(10, 0), 1, 1);
    let b = Edge::new(at(10, 0), at(20, 0), 0, 1);
    assert_eq!(Figure::new(vec![a, b]).err(), Some(FigureError::ParentCycle));
    let c = Edge::new(at(0, 0), at(10, 0), 5, 1);
    assert_eq!(Figure::new(vec![c]).err(), Some(FigureError::InvalidIndex));
}

#[test]
fn insert_refuses_a_parent_that_is_not_there() {
    let mut figure = chain();
    let stray = Edge::new(at(0, 0), at(1, 1), 3, 1);
    assert_eq!(figure.insert(stray), Err(FigureError::InvalidIndex));
    assert_eq!(figure.len(), 3);
    let leaf = Edge::new(at(30, 0), at(40, 0), 2, 1);
    assert_eq!(figure.insert(leaf), Ok(()));
    assert_eq!(figure.len(), 4);
    assert_eq!(figure.get(3).unwrap().parent, 2);
}

#[test]
fn loading_a_scan_changes_nothing() {
    let mut figure = chain();
    let before: Vec<Edge> = (0..3).map(|i| *figure.get(i).unwrap()).collect();
    let pose = figure.scan();
    figure.load_state(&pose).unwrap();
    let after: Vec<Edge> = (0..3).map(|i| *figure.get(i).unwrap()).collect();
    assert_eq!(before, after);
}

#[test]
fn load_state_lays_named_segments_only() {
    let mut figure = chain();
    let mut pose = PoseSnapshot::new();
    pose.insert(1, at(10, 0), at(10, 30));
    figure.load_state(&pose).unwrap();
    assert_eq!(figure.get(0).unwrap().end, at(10, 0));
    assert_eq!(figure.get(1).unwrap().end, at(10, 30));
    assert_eq!(figure.get(1).unwrap().width, 30_000);
    assert_eq!(figure.get(1).unwrap().fixed_angle, Vector2::new(0, 30_000));
    assert_eq!(figure.get(2).unwrap().end, at(30, 0));
    let mut stray = PoseSnapshot::new();
    stray.insert(3, at(0, 0), at(1, 1));
    assert_eq!(figure.load_state(&stray), Err(FigureError::InvalidIndex));
}

#[test]
fn diff_holds_what_moved() {
    let older = chain();
    let mut newer = chain();
    let mut pose = PoseSnapshot::new();
    pose.insert(2, at(20, 0), at(20, 10));
    newer.load_state(&pose).unwrap();
    let diff = older.diff(&newer);
    assert_eq!(diff.get(0), None);
    assert_eq!(diff.get(1), None);
    assert_eq!(diff.get(2), Some((at(20, 0), at(20, 10))));
    assert_eq!(diff.entries(), vec![(2, at(20, 0), at(20, 10))]);
}

#[test]
fn toggle_type_flips_the_format() {
    let mut figure = chain();
    figure.toggle_type(0).unwrap();
    assert_eq!(figure.get(0).unwrap().format, EdgeFormat::CIRCLE);
    figure.toggle_type(0).unwrap();
    assert_eq!(figure.get(0).unwrap().format, EdgeFormat::LINE);
    assert_eq!(figure.toggle_type(9), Err(FigureError::InvalidIndex));
}

#[test]
fn distance_is_rounded_down() {
    assert_eq!(Vector2::new(0, 0).distance_to(Vector2::new(1000, 1000)), 1414);
    assert_eq!(Vector2::new(0, 0).distance_to(Vector2::new(3000, 4000)), 5000);
    assert_eq!(Vector2::new(7, 7).lerp_half(Vector2::new(10, 2)), Vector2::new(8, 5));
    assert!(Vector2::new(3000, 4000).within(Vector2::new(0, 0), 5000));
    assert!(!Vector2::new(3000, 4001).within(Vector2::new(0, 0), 5000));
}

#[test]
fn center_to_moves_every_point() {
    let mut figure = chain();
    figure.center_to(at(100, 50));
    assert_eq!(figure.get(0).unwrap().start, at(100, 50));
    assert_eq!(figure.get(2).unwrap().end, at(130, 50));
    assert_eq!(figure.get(2).unwrap().width, 10_000);
}

#[test]
fn copy_tmp_turns_the_segment_round() {
    let mut figure = chain();
    figure.copy_tmp(1).unwrap();
    let tmp = figure.tmp_edge.unwrap();
    assert_eq!(tmp.start, at(20, 0));
    assert_eq!(tmp.end, at(10, 0));
    assert_eq!(tmp.fixed_angle, Vector2::new(-10_000, 0));
    assert_eq!(figure.copy_tmp(7), Err(FigureError::InvalidIndex));
}

#[test]
fn delete_of_the_only_root_anchors_its_children_where_it_started() {
    let root = Edge::new(at(5, 5), at(15, 5), ROOT, 1);
    let left = Edge::new(at(15, 5), at(15, 25), 0, 1);
    let right = Edge::new(at(15, 5), at(25, 5), 0, 1);
    let mut figure = Figure::new(vec![root, left, right]).unwrap();
    figure.delete(0).unwrap();
    assert_eq!(figure.len(), 2);
    for i in 0..2 {
        let edge = *figure.get(i).unwrap();
        assert_eq!(edge.parent, ROOT);
        assert_eq!(edge.start, at(5, 5));
    }
    assert_eq!(figure.get(0).unwrap().end, at(5, 25));
    assert_eq!(figure.get(1).unwrap().end, at(15, 5));
}

#[test]
fn the_real_end_stays_in_bounds() {
    let mut edge = Edge::new(at(999_990, 0), at(1_000_000, 0), ROOT, 1);
    assert_eq!(edge.get_real_end(), at(1_000_000, 0));
    edge.start = at(999_995, 0);
    assert_eq!(edge.get_real_end(), at(1_000_000, 0));
    edge.start = at(0, 0);
    assert_eq!(edge.get_real_end(), at(10, 0));
    assert!(edge.is_in_bounds());
    assert!(!Vector2::new(1_000_000_001, 0).is_in_bounds());
}

#[test]
fn a_format_has_a_code() {
    assert_eq!(EdgeFormat::from(1), EdgeFormat::LINE);
    assert_eq!(EdgeFormat::from(2), EdgeFormat::CIRCLE);
    assert_eq!(EdgeFormat::from(7), EdgeFormat::LINE);
    assert_eq!(EdgeFormat::LINE.code(), 1);
    assert_eq!(EdgeFormat::CIRCLE.code(), 2);
    assert_eq!(EdgeFormat::CIRCLE.toggled(), EdgeFormat::LINE);
}

#[test]
fn a_segment_is_changed_in_place() {
    let mut figure = chain();
    figure.get_mut(2).pressed_end = true;
    assert!(figure.get(2).unwrap().pressed_end);
    assert!(!figure.get(1).unwrap().pressed_end);
    figure.get_mut(1).pressed_start = true;
    figure.clear_edge_and_children(2).unwrap();
    assert!(!figure.get(2).unwrap().pressed_end);
    assert!(figure.get(1).unwrap().pressed_start);
    assert_eq!(figure.get(3).err(), Some(FigureError::InvalidIndex));
    assert_eq!(figure.set_pose(3, at(0, 0), at(1, 1)), Err(FigureError::InvalidIndex));
}

#[test]
fn a_snapshot_holds_poses_by_index() {
    let mut pose = PoseSnapshot::new();
    assert_eq!(pose.span(), 0);
    pose.insert(2, at(1, 1), at(2, 2));
    pose.insert(0, at(0, 0), at(1, 1));
    pose.insert(2, at(3, 3), at(4, 4));
    assert_eq!(pose.get(0), Some((at(0, 0), at(1, 1))));
    assert_eq!(pose.get(1), None);
    assert_eq!(pose.get(2), Some((at(3, 3), at(4, 4))));
    assert_eq!(pose.get(9), None);
    assert_eq!(pose.entries(), vec![(0, at(0, 0), at(1, 1)), (2, at(3, 3), at(4, 4))]);
    assert!(pose.is_in_bounds());
    pose.insert(1, Vector2::new(2_000_000_000, 0), at(0, 0));
    assert!(!pose.is_in_bounds());
    let scanned = chain().scan();
    assert_eq!(scanned.span(), 3);
    assert_eq!(scanned.get(2), Some((at(20, 0), at(30, 0))));
}
