use vetor::figure::edge::{Aim, Edge, Pointer, ROOT};
use vetor::figure::{Figure, FigureError};
use vetor::maths::Vector2;

fn at(x: i64, y: i64) -> Vector2 {
    Vector2::new(x * 1000, y * 1000)
}

fn chain() -> Figure {
    let root = Edge::new(at(0, 0), at(10, 0), ROOT, 1);
    let a = Edge::new(at(10, 0), at(20, 0), 0, 1);
    Figure::new(vec![root, a]).unwrap()
}

#[test]
fn the_pointer_grabs_one_point_only() {
    let mut figure = chain();
    let pointer = Pointer { position: at(10, 3), down: true };
    assert!(figure.begin_update());
    // The end of the root and the start of the arm lie under the pointer;
    // the root is updated first and gets the grab.
    let aim = figure.update(pointer, 0).unwrap();
    assert_eq!(aim, Aim::Along { direction: Vector2::new(10_000, 3000) });
    assert!(figure.get(0).unwrap().pressed_end);
    assert!(figure.get(0).unwrap().moved);
    assert!(figure.pressed);
    assert_eq!(figure.selected, Some(0));
    figure.lay(0, Vector2::new(9578, 2873)).unwrap();
    assert_eq!(figure.get(0).unwrap().end, Vector2::new(9578, 2873));
    assert_eq!(figure.get(0).unwrap().width, 10_000);

    // The arm follows: it starts where the root now ends and turns with it.
    let aim = figure.update(pointer, 1).unwrap();
    assert_eq!(
        aim,
        Aim::Turned {
            parent_now: Vector2::new(9578, 2873),
            parent_fixed: Vector2::new(10_000, 0),
            own_fixed: Vector2::new(10_000, 0),
        }
    );
    assert_eq!(figure.get(1).unwrap().start, Vector2::new(9578, 2873));
    assert!(!figure.get(1).unwrap().pressed_end);
    assert!(figure.get(1).unwrap().moved);
    assert_eq!(figure.selected, Some(0));
}

#[test]
fn a_grab_outside_the_pick_radius_misses() {
    let mut figure = chain();
    let pointer = Pointer { position: Vector2::new(10_000, 5001), down: true };
    figure.begin_update();
    assert_eq!(figure.update(pointer, 0), Ok(Aim::Keep));
    assert!(!figure.pressed);
    let pointer = Pointer { position: Vector2::new(10_000, 5000), down: true };
    figure.update(pointer, 0).unwrap();
    assert!(figure.pressed);
}

#[test]
fn a_root_is_dragged_by_its_start() {
    let mut figure = chain();
    figure.begin_update();
    let pointer = Pointer { position: at(1, 1), down: true };
    let aim = figure.update(pointer, 0).unwrap();
    assert_eq!(aim, Aim::Along { direction: Vector2::new(10_000, 0) });
    assert!(figure.presset_root);
    assert_eq!(figure.get(0).unwrap().start, at(1, 1));
    assert!(!figure.get(0).unwrap().moved);
    figure.lay(0, Vector2::new(10_000, 0)).unwrap();
    // The arm keeps its own direction and moves along.
    let aim = figure.update(pointer, 1).unwrap();
    assert_eq!(aim, Aim::Along { direction: Vector2::new(10_000, 0) });
    assert_eq!(figure.get(1).unwrap().start, at(11, 1));
}

#[test]
fn letting_go_commits_the_turn() {
    let mut figure = chain();
    let pointer = Pointer { position: at(10, 0), down: true };
    figure.begin_update();
    figure.update(pointer, 0).unwrap();
    figure.lay(0, Vector2::new(0, 10_000)).unwrap();
    figure.update(pointer, 1).unwrap();
    figure.lay(1, Vector2::new(0, 10_000)).unwrap();

    let up = Pointer { position: at(50, 50), down: false };
    figure.begin_update();
    assert_eq!(figure.update(up, 0), Ok(Aim::Keep));
    let root = *figure.get(0).unwrap();
    assert_eq!(root.fixed_angle, Vector2::new(0, 10_000));
    assert_eq!(root.moved_angle, Vector2::new(-10_000, 10_000));
    assert!(!root.pressed_end);
    assert!(!figure.pressed);
    assert_eq!(figure.selected, Some(0));
    // The arm's parent has just committed a turn, so the arm commits too.
    figure.update(up, 1).unwrap();
    let arm = *figure.get(1).unwrap();
    assert_eq!(arm.fixed_angle, Vector2::new(0, 10_000));
    assert_eq!(arm.moved_angle, Vector2::new(-10_000, 10_000));

    // The next update forgets the turn.
    figure.begin_update();
    figure.update(up, 0).unwrap();
    assert_eq!(figure.get(0).unwrap().moved_angle, Vector2::new(0, 0));
    assert_eq!(figure.selected, None);
}

#[test]
fn a_frozen_figure_is_not_updated() {
    let mut figure = chain();
    figure.should_update = false;
    assert!(!figure.begin_update());
    let pointer = Pointer { position: at(10, 0), down: true };
    assert_eq!(figure.update(pointer, 0), Ok(Aim::Keep));
    assert!(!figure.pressed);
    assert_eq!(figure.update(pointer, 2), Err(FigureError::InvalidIndex));
    assert_eq!(figure.lay(2, at(0, 0)), Err(FigureError::InvalidIndex));
}

#[test]
fn a_pending_segment_joins_on_commit() {
    let mut figure = chain();
    figure.begin_update();
    figure.update(Pointer { position: at(20, 0), down: true }, 1).unwrap();
    assert_eq!(figure.selected, Some(1));
    figure.begin_tmp().unwrap();
    assert_eq!(figure.len(), 2);
    let tmp = figure.tmp_edge.unwrap();
    assert_eq!((tmp.start, tmp.end, tmp.parent), (at(20, 0), at(20, 0), 1));
    assert!(!figure.should_update);
    assert!(!figure.get(1).unwrap().pressed_end);
    figure.stretch_tmp(at(20, 30), true);
    let tmp = figure.tmp_edge.unwrap();
    assert_eq!(tmp.end, at(20, 30));
    assert_eq!(tmp.width, 30_000);
    assert_eq!(tmp.format, vetor::figure::edge::EdgeFormat::CIRCLE);
    figure.commit_tmp(None).unwrap();
    assert_eq!(figure.len(), 3);
    assert_eq!(figure.get(2).unwrap().parent, 1);
    assert!(figure.tmp_edge.is_none());
    assert!(figure.should_update);
    assert_eq!(figure.commit_tmp(None), Err(FigureError::UnsupportedOperation));
}

#[test]
fn a_copy_is_carried_and_hung() {
    let mut figure = chain();
    figure.copy_tmp(1).unwrap();
    figure.carry_tmp(at(0, 50));
    let tmp = figure.tmp_edge.unwrap();
    assert_eq!(tmp.start, at(0, 50));
    assert_eq!(tmp.end, at(-10, 50));
    assert_eq!(figure.commit_tmp(Some(5)), Err(FigureError::InvalidIndex));
    assert!(figure.tmp_edge.is_some());
    figure.commit_tmp(Some(0)).unwrap();
    assert_eq!(figure.len(), 3);
    figure.clear_edge_and_children(0).unwrap();
}

#[test]
fn a_grabbed_segment_is_picked_up_as_a_copy() {
    let mut figure = chain();
    assert_eq!(figure.begin_copy(), Err(FigureError::InvalidIndex));
    figure.begin_update();
    figure.update(Pointer { position: at(20, 0), down: true }, 1).unwrap();
    figure.begin_copy().unwrap();
    let tmp = figure.tmp_edge.unwrap();
    assert_eq!((tmp.start, tmp.end), (at(20, 0), at(10, 0)));
    assert!(!figure.pressed);
    assert!(!figure.should_update);
    assert_eq!(figure.selected, None);
    assert!(!figure.get(1).unwrap().pressed_end);
}

#[test]
fn vectors_add_and_subtract() {
    use_maths();
}

fn use_maths() {
    let a = Vector2::new(3, 4);
    let b = Vector2::new(10, -1);
    assert_eq!(vetor::maths::vector2_add(a, b), Vector2::new(13, 3));
    assert_eq!(vetor::maths::vector2_subtract(a, b), Vector2::new(-7, 5));
    assert_eq!(vetor::maths::Vector2Maths::add(&a, b), Vector2::new(13, 3));
    assert_eq!(vetor::maths::Vector2Maths::sub(&a, b), Vector2::new(-7, 5));
    assert_eq!(vetor::maths::isqrt(99), 9);
    assert_eq!(vetor::maths::isqrt(100), 10);
    assert_eq!(vetor::maths::isqrt(u64::MAX), 4_294_967_295);
}
