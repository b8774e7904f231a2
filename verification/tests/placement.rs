use carimbo::placement::{center_on_monitor, palette_position, place_near_cursor, MonitorArea};

const MON: MonitorArea = MonitorArea { x: 0, y: 0, width: 1920, height: 1080 };

#[test]
fn below_right_when_there_is_room() {
    assert_eq!(place_near_cursor(100, 100, 200, 150, 12, Some(MON)), (112, 112));
    assert_eq!(place_near_cursor(100, 100, 200, 150, 12, None), (112, 112));
}

#[test]
fn flips_near_the_far_edges() {
    // Right edge: flipped to the left of the cursor.
    assert_eq!(place_near_cursor(1900, 100, 200, 150, 12, Some(MON)), (1688, 112));
    // Bottom edge: flipped above.
    assert_eq!(place_near_cursor(100, 1000, 200, 150, 28, Some(MON)), (128, 822));
}

#[test]
fn clamped_onto_the_monitor() {
    // A second monitor to the right; the cursor near its left edge.
    let m = MonitorArea { x: 1920, y: 0, width: 800, height: 600 };
    let (x, y) = place_near_cursor(1925, 590, 300, 200, 12, Some(m));
    assert!(x >= 1920 && x + 300 <= 2720);
    assert!(y >= 0 && y + 200 <= 600);
    // A window wider than the monitor sticks to its left edge.
    assert_eq!(place_near_cursor(10, 10, 900, 100, 12, Some(m)).0, 1920);
}

#[test]
fn centring_on_a_monitor() {
    let m = MonitorArea { x: 100, y: 50, width: 1920, height: 1080 };
    assert_eq!(center_on_monitor(m, 320, 320), (100 + 800, 50 + 380));
    assert_eq!(palette_position(m, 640, 480), (100 + 640, 50 + 200));
    // A window wider than the monitor: the negative room rounds toward zero.
    let small = MonitorArea { x: 0, y: 0, width: 100, height: 100 };
    assert_eq!(center_on_monitor(small, 103, 101), (-1, 0));
    assert_eq!(palette_position(small, 100, 105), (0, -1));
}

#[test]
fn no_flip_needs_no_room_on_the_other_side() {
    let m = MonitorArea { x: 0, y: 0, width: 1000, height: 1000 };
    assert_eq!(place_near_cursor(i32::MIN + 20, 10, 100, 100, 12, Some(m)), (0, 22));
}
