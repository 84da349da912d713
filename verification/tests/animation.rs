use vetor::animation::Animation;
use vetor::archives::{ArchiveError, FileEncoding};
use vetor::figure::edge::{Edge, ROOT};
use vetor::figure::pose::PoseSnapshot;
use vetor::figure::{Figure, FigureError};
use vetor::maths::Vector2;

fn at(x: i64, y: i64) -> Vector2 {
    Vector2::new(x * 1000, y * 1000)
}

fn actor() -> Figure {
    let root = Edge::new(at(0, 0), at(10, 0), ROOT, 1);
    let arm = Edge::new(at(10, 0), at(20, 0), 0, 1);
    Figure::new(vec![root, arm]).unwrap()
}

fn pose_arm(animation: &mut Animation, end: Vector2) {
    let mut pose = PoseSnapshot::new();
    pose.insert(1, at(10, 0), end);
    animation.figures[0].load_state(&pose).unwrap();
}

#[test]
fn frames_give_the_shared_actor_its_pose_back() {
    let mut animation = Animation::new();
    animation.push_figure(actor());
    animation.push_frame();
    assert_eq!(animation.selected_frame, 1);
    assert_eq!(animation.frames.len(), 2);
    animation.select_frame(0).unwrap();

    // Edit the actor while the first frame is active, and save.
    pose_arm(&mut animation, at(10, 10));
    let first = animation.selected_frame;
    animation.frames[first].save_state(&animation.figures);

    animation.select_frame(1).unwrap();
    assert_eq!(animation.figures[0].get(1).unwrap().end, at(20, 0));
    assert!(animation.frames[1].is_selected);
    assert!(!animation.frames[0].is_selected);

    animation.select_frame(0).unwrap();
    assert_eq!(animation.figures[0].get(1).unwrap().end, at(10, 10));
    assert_eq!(animation.figures[0].get(1).unwrap().start, at(10, 0));
    assert_eq!(animation.select_frame(2), Err(FigureError::InvalidIndex));
}

#[test]
fn leaving_a_frame_keeps_its_edits() {
    let mut animation = Animation::new();
    animation.push_figure(actor());
    animation.push_frame();
    pose_arm(&mut animation, at(0, 0));
    animation.select_frame(0).unwrap();
    assert_eq!(animation.figures[0].get(1).unwrap().end, at(20, 0));
    animation.select_frame(1).unwrap();
    assert_eq!(animation.figures[0].get(1).unwrap().end, at(0, 0));
}

#[test]
fn remove_frame_goes_to_the_frame_before() {
    let mut animation = Animation::new();
    animation.push_figure(actor());
    assert_eq!(animation.remove_frame(), Err(FigureError::UnsupportedOperation));
    animation.push_frame();
    animation.push_frame();
    pose_arm(&mut animation, at(10, 10));
    animation.select_frame(1).unwrap();
    animation.remove_frame().unwrap();
    assert_eq!(animation.frames.len(), 2);
    assert_eq!(animation.selected_frame, 0);
    assert!(animation.frames[0].is_selected);
    assert_eq!(animation.figures[0].get(1).unwrap().end, at(20, 0));
    animation.remove_frame().unwrap();
    assert_eq!(animation.selected_frame, 0);
    assert_eq!(animation.figures[0].get(1).unwrap().end, at(10, 10));
}

#[test]
fn play_goes_round_when_a_frame_is_due() {
    let mut animation = Animation::new();
    animation.push_figure(actor());
    animation.push_frame();
    animation.push_frame();
    assert_eq!(animation.framerate, 5000);
    animation.previous_time = 1000;
    assert!(!animation.play(1199));
    assert_eq!(animation.selected_frame, 2);
    assert!(animation.play(1200));
    assert_eq!(animation.selected_frame, 0);
    assert_eq!(animation.previous_time, 1200);
    assert!(!animation.play(1100));
    assert!(animation.play(1400));
    assert_eq!(animation.selected_frame, 1);
}

#[test]
fn only_one_actor_is_edited_at_a_time() {
    let mut animation = Animation::new();
    animation.push_figure(actor());
    animation.push_figure(actor());
    animation.push_figure(actor());
    let frame = animation.frames[0].clone();
    frame.disable_except(&mut animation.figures, 1);
    assert!(!animation.figures[0].should_update);
    assert!(animation.figures[1].should_update);
    assert!(!animation.figures[2].should_update);
    frame.enable_all(&mut animation.figures);
    assert!(animation.figures[0].should_update);
    assert!(animation.figures[2].should_update);
}

#[test]
fn an_animation_is_written_as_text() {
    let mut animation = Animation::new();
    animation.push_figure(actor());
    animation.push_frame();
    pose_arm(&mut animation, at(10, 10));
    let current = animation.selected_frame;
    animation.frames[current].save_state(&animation.figures);
    let text = String::from_utf8(animation.text()).unwrap();
    assert_eq!(
        text,
        "1,0,0,0,0\n1,10,0,0,1\n1,10,10,1,2\n\
         @Frame 0\n^0\n0,0,10,0\n10,0,20,0\n\
         @Frame 1\n^0\n0,0,10,0\n10,0,10,10\n"
    );
}

#[test]
fn an_animation_is_read_from_text() {
    let text = "1,0,0,0,0\n1,10,0,0,1\n1,20,0,1,2\n^\n1,0,0,0,0\n2,0,5,0,1\n\
                @Frame 0\n^0\n0,0,10,0\n10,0,20,0\n^1\n0,0,0,5\n\
                @Frame 1\n^0\n0,0,0,10\n";
    let animation = Animation::from_text(text.as_bytes(), Vector2::new(1000, 2000)).unwrap();
    assert_eq!(animation.figures.len(), 2);
    assert_eq!(animation.frames.len(), 2);
    assert_eq!(animation.selected_frame, 1);
    assert!(animation.frames[1].is_selected);
    assert!(!animation.frames[0].is_selected);
    assert_eq!(animation.frames[0].figure_animation.len(), 2);
    assert_eq!(animation.frames[1].figure_animation.len(), 1);
    assert_eq!(animation.frames[0].figure_animation[1].global_index, 1);
    assert_eq!(animation.frames[0].figure_animation[1].local_index, 1);
    // Every point read is moved by the centre.
    assert_eq!(
        animation.frames[0].figure_animation[0].moved_edges.get(1),
        Some((Vector2::new(11_000, 2000), Vector2::new(21_000, 2000)))
    );
    // A segment without a line lies as it lay in the frame before.
    assert_eq!(
        animation.frames[1].figure_animation[0].moved_edges.get(0),
        Some((Vector2::new(1000, 2000), Vector2::new(1000, 12_000)))
    );
    assert_eq!(
        animation.frames[1].figure_animation[0].moved_edges.get(1),
        Some((Vector2::new(11_000, 2000), Vector2::new(21_000, 2000)))
    );
    assert_eq!(animation.figures[0].get(0).unwrap().end, Vector2::new(1000, 12_000));
    assert_eq!(animation.figures[0].get(0).unwrap().width, 10_000);
}

#[test]
fn a_stored_animation_comes_back() {
    let mut animation = Animation::new();
    animation.push_figure(actor());
    animation.push_frame();
    pose_arm(&mut animation, at(10, 10));
    animation.push_frame();
    for encoding in [
        FileEncoding::RAW,
        FileEncoding::GZIP,
        FileEncoding::ZLIB,
    ] {
        let bytes = animation.save(encoding).unwrap();
        let back = Animation::load(&bytes, encoding, Vector2::new(0, 0)).unwrap();
        assert_eq!(back.frames.len(), 3);
        assert_eq!(back.selected_frame, 2);
        for f in 0..3 {
            assert_eq!(
                back.frames[f].figure_animation[0].moved_edges.entries(),
                animation.frames[f].figure_animation[0].moved_edges.entries()
            );
        }
        assert_eq!(back.figures[0].get(1).unwrap().end, at(10, 10));
    }
}

#[test]
fn a_broken_animation_text_is_refused() {
    let zero = Vector2::new(0, 0);
    let figure = "1,0,0,0,0\n1,10,0,0,1\n";
    let read = |rest: &str| Animation::from_text(format!("{figure}{rest}").as_bytes(), zero).err();
    assert_eq!(read("@Frame 0\n0,0,1,1\n"), Some(ArchiveError::ParseError));
    assert_eq!(read("@Frame 0\n^1\n"), Some(ArchiveError::InvalidIndex));
    assert_eq!(read("@Frame 0\n^0\n0,0,1,1\n0,0,2,2\n"), Some(ArchiveError::InvalidIndex));
    assert_eq!(read("@Frame 0\n^0\n0,0,1\n"), Some(ArchiveError::ParseError));
    assert_eq!(read("@Frame 0\n^x\n"), Some(ArchiveError::ParseError));
    assert_eq!(read("@Frame 0\n^0\n0,0,1,1\n"), None);
    assert_eq!(
        Animation::from_text(b"1,0,0,0\n@Frame 0\n", zero).err(),
        Some(ArchiveError::ParseError)
    );
    assert_eq!(
        Animation::load(b"junk", FileEncoding::GZIP, zero).err(),
        Some(ArchiveError::Corrupt)
    );
    let empty = Animation::from_text(b"", zero).unwrap();
    assert_eq!(empty.frames.len(), 1);
    assert_eq!(empty.figures.len(), 1);
    assert_eq!(empty.figures[0].len(), 0);
}

#[test]
fn the_grabbed_actor_keeps_the_pointer() {
    let mut animation = Animation::new();
    animation.push_figure(actor());
    animation.push_figure(actor());
    assert_eq!(animation.claim(0), Ok(false));
    assert!(animation.figures[1].should_update);
    animation.figures[1].selected = Some(0);
    assert_eq!(animation.claim(1), Ok(true));
    assert!(!animation.figures[0].should_update);
    assert!(animation.figures[1].should_update);
    assert_eq!(animation.claim(2), Err(FigureError::InvalidIndex));
    animation.release();
    assert!(animation.figures[0].should_update);
}
