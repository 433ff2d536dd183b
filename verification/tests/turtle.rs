use fractals::lsystem::Sym;
use fractals::lsystem_reader::lsystem_from_strs;
use fractals::turtle::{interpret, Drawing, NestingError, Pose};

const F: Sym = Sym::Fwd(0);

fn pose(at: usize, heading: i128) -> Pose {
    Pose { at, heading }
}

/// The points of a drawing, for a turn angle and a step length.
fn points(d: &Drawing, angle: f64, step: f64) -> Vec<(f64, f64)> {
    let mut pts = vec![(0.0, 0.0)];
    for s in &d.strokes {
        let (x, y) = pts[s.at];
        let dir = s.heading as f64 * angle;
        pts.push((x + step * dir.cos(), y + step * dir.sin()));
    }
    pts
}

#[test]
fn nothing_to_walk_draws_nothing() {
    let d = interpret(&[]).unwrap();
    assert_eq!(d.strokes, vec![]);
    assert_eq!(d.end, pose(0, 0));
}

#[test]
fn a_forward_symbol_draws_one_stroke() {
    let d = interpret(&[F]).unwrap();
    assert_eq!(d.strokes, vec![pose(0, 0)]);
    assert_eq!(d.end, pose(1, 0));
}

#[test]
fn every_forward_letter_draws_alike() {
    let d = interpret(&[Sym::Fwd(0), Sym::Fwd(5), Sym::Fwd(usize::MAX)]).unwrap();
    assert_eq!(d.strokes, vec![pose(0, 0), pose(1, 0), pose(2, 0)]);
    assert_eq!(d.end, pose(3, 0));
}

#[test]
fn variables_draw_nothing() {
    let d = interpret(&[Sym::Var(0), F, Sym::Var(1), Sym::Var(0)]).unwrap();
    assert_eq!(d.strokes, vec![pose(0, 0)]);
    assert_eq!(d.end, pose(1, 0));
}

#[test]
fn left_turns_count_down_and_right_turns_count_up() {
    let d = interpret(&[Sym::TurnLeft, F, Sym::TurnRight, Sym::TurnRight, Sym::TurnRight, F])
        .unwrap();
    assert_eq!(d.strokes, vec![pose(0, -1), pose(1, 2)]);
    assert_eq!(d.end, pose(2, 2));
}

#[test]
fn headings_are_not_reduced() {
    let turns = vec![Sym::TurnRight; 1000];
    let d = interpret(&turns).unwrap();
    assert_eq!(d.end, pose(0, 1000));
    let turns = vec![Sym::TurnLeft; 1000];
    let d = interpret(&turns).unwrap();
    assert_eq!(d.end, pose(0, -1000));
}

#[test]
fn a_branch_returns_to_where_it_left() {
    let d = interpret(&[
        F,
        Sym::TurnRight,
        Sym::Push,
        Sym::TurnLeft,
        Sym::TurnLeft,
        F,
        F,
        Sym::Pop,
        F,
    ])
    .unwrap();
    assert_eq!(d.strokes, vec![pose(0, 0), pose(1, -1), pose(2, -1), pose(1, 1)]);
    assert_eq!(d.end, pose(4, 1));
}

#[test]
fn a_bracketed_sequence_ends_in_the_pose_it_started_in() {
    let inner = [F, Sym::TurnLeft, Sym::Push, F, Sym::TurnRight, Sym::Pop, F];
    let mut whole = vec![F, Sym::TurnRight, Sym::Push];
    whole.extend_from_slice(&inner);
    whole.push(Sym::Pop);
    let before = interpret(&whole[..2]).unwrap();
    let after = interpret(&whole).unwrap();
    assert_eq!(before.end, pose(1, 1));
    assert_eq!(after.end, before.end);
    assert_eq!(after.strokes.len(), 4);
}

#[test]
fn branches_nest() {
    let d = interpret(&[
        Sym::Push,
        F,
        Sym::Push,
        Sym::TurnRight,
        F,
        Sym::Pop,
        F,
        Sym::Pop,
        F,
    ])
    .unwrap();
    assert_eq!(d.strokes, vec![pose(0, 0), pose(1, 1), pose(1, 0), pose(0, 0)]);
    assert_eq!(d.end, pose(4, 0));
}

#[test]
fn an_open_branch_is_no_error() {
    let d = interpret(&[Sym::Push, F, Sym::Push, Sym::TurnLeft]).unwrap();
    assert_eq!(d.strokes, vec![pose(0, 0)]);
    assert_eq!(d.end, pose(1, -1));
}

#[test]
fn mismatched_nesting_fails_on_the_second_pop() {
    let r = interpret(&[Sym::Push, F, Sym::Pop, Sym::Pop]);
    assert_eq!(r.err(), Some(NestingError { index: 3 }));
}

#[test]
fn a_pop_with_nothing_saved_fails_wherever_it_stands() {
    assert_eq!(interpret(&[Sym::Pop]).err(), Some(NestingError { index: 0 }));
    assert_eq!(
        interpret(&[F, Sym::Pop, Sym::Push, Sym::Pop]).err(),
        Some(NestingError { index: 1 })
    );
    assert_eq!(
        interpret(&[Sym::Push, Sym::Pop, Sym::Push, Sym::Pop, Sym::Pop, Sym::Pop]).err(),
        Some(NestingError { index: 4 })
    );
}

#[test]
fn koch_bend_level_one() {
    let angle = 90.0f64.to_radians();
    let mut sys = lsystem_from_strs("F", "", "F", &[('F', "F+F-F-F+F")], angle).unwrap();
    assert_eq!(sys.get(0), &[F][..]);
    let level = sys.get(1).to_vec();
    assert_eq!(level.len(), 9);
    let d = interpret(&level).unwrap();
    assert_eq!(d.strokes.len(), 5);
    assert_eq!(
        d.strokes,
        vec![pose(0, 0), pose(1, -1), pose(2, 0), pose(3, 1), pose(4, 0)]
    );
    assert_eq!(d.end, pose(5, 0));

    let pts = points(&d, sys.angle_radians(), 1.0);
    let x_min = pts.iter().map(|p| p.0).fold(0.0f64, f64::min);
    let x_max = pts.iter().map(|p| p.0).fold(0.0f64, f64::max);
    let y_min = pts.iter().map(|p| p.1).fold(0.0f64, f64::min);
    let y_max = pts.iter().map(|p| p.1).fold(0.0f64, f64::max);
    assert!((x_max - x_min - 3.0).abs() < 1e-9);
    assert!((y_max - y_min - 1.0).abs() < 1e-9);
    assert!(x_max - x_min > 1.0);
    assert!(y_max - y_min > 0.0);
}

#[test]
fn strokes_start_at_earlier_points() {
    let mut sys =
        lsystem_from_strs("F", "X", "X", &[('X', "F[+X]-X"), ('F', "FF")], 0.4f64).unwrap();
    let level = sys.get(5).to_vec();
    let d = interpret(&level).unwrap();
    let forwards = level.iter().filter(|s| matches!(s, Sym::Fwd(_))).count();
    assert_eq!(d.strokes.len(), forwards);
    for (k, s) in d.strokes.iter().enumerate() {
        assert!(s.at <= k);
    }
    assert!(d.end.at <= d.strokes.len());
}

#[test]
fn interpretation_is_repeatable() {
    let syms = [F, Sym::Push, Sym::TurnLeft, F, Sym::Pop, Sym::TurnRight, F];
    let a = interpret(&syms).unwrap();
    let b = interpret(&syms).unwrap();
    assert_eq!(a.strokes, b.strokes);
    assert_eq!(a.end, b.end);
}
