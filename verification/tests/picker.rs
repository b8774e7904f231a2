use carimbo::picker::{bgra_to_rgb, pick_outcome, picker_step, GridSample, PickerEvent, PickerStep};

fn grid(size: i32) -> GridSample {
    let n = (size * size * 3) as usize;
    GridSample { x: 10, y: 20, size, rgb: (0..n).map(|i| (i % 251) as u8).collect() }
}

#[test]
fn center_is_the_middle_pixel() {
    let g = grid(11);
    // Middle of an 11×11 grid: row 5, column 5 -> pixel 60 -> byte 180.
    assert_eq!(g.center(), (180, 181, 182));
    assert_eq!(grid(1).center(), (0, 1, 2));
}

#[test]
fn pick_outcomes() {
    let (name, p) = pick_outcome(Some((1, 2, 3)), false);
    assert_eq!(name, "color:picked");
    let p = p.unwrap();
    assert_eq!((p.r, p.g, p.b), (1, 2, 3));
    assert_eq!(pick_outcome(None, false).0, "color:cancelled");
    assert_eq!(pick_outcome(Some((0, 0, 0)), true).0, "colors:open");
    let (name, p) = pick_outcome(None, true);
    assert_eq!(name, "colors:open");
    assert!(p.is_none());
}

#[test]
fn picker_steps() {
    match picker_step(PickerEvent::Move(grid(3))) {
        PickerStep::Preview(m) => {
            assert_eq!((m.x, m.y, m.size), (10, 20, 3));
            assert_eq!(m.rgb.len(), 27);
        }
        other => panic!("unexpected {other:?}"),
    }
    match picker_step(PickerEvent::Picked(grid(3))) {
        PickerStep::Finish(Some(c)) => assert_eq!(c, (12, 13, 14)),
        other => panic!("unexpected {other:?}"),
    }
    assert!(matches!(picker_step(PickerEvent::Cancelled), PickerStep::Finish(None)));
}

#[test]
fn bgra_pixels_become_rgb_triples() {
    assert_eq!(bgra_to_rgb(&vec![1, 2, 3, 255, 10, 20, 30, 0]), vec![3, 2, 1, 30, 20, 10]);
    assert_eq!(bgra_to_rgb(&vec![1, 2, 3]), Vec::<u8>::new());
    assert_eq!(bgra_to_rgb(&vec![1, 2, 3, 4, 5]), vec![3, 2, 1]);
}
