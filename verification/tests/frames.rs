use hanoi::render::DiskColor;
use hanoi::state::Tower;

const RED: &str = "\u{1b}[31m";
const GREEN: &str = "\u{1b}[32m";
const RESET: &str = "\u{1b}[0m";

#[test]
fn one_disk_frame_is_exact() {
    let t = Tower::new(1);
    assert_eq!(t.render(), "= | | \n== == == \nA B C \n");
}

#[test]
fn fresh_three_disk_frame_is_exact() {
    let t = Tower::new(3);
    let expected = "  =     |     |   \n ===    |     |   \n=====   |     |   \n====== ====== ====== \n  A     B     C   \n";
    assert_eq!(t.render(), expected);
}

#[test]
fn last_moved_disk_renders_red_even_on_the_highlight_peg() {
    // Disk 2 sits on peg C (the highlight peg) and is also the last-moved
    // disk: it must render in the last-moved color, not the highlight one.
    let mut t = Tower::new(3);
    t.move_disk(0, 1); // disk 1 to B
    t.move_disk(0, 2); // disk 2 to C, last moved
    let frame = t.render();
    let red_disk_two = format!("{}==={}", RED, RESET);
    assert!(frame.contains(&red_disk_two));
    assert!(!frame.contains(GREEN));
}

#[test]
fn settled_disks_on_the_highlight_peg_render_green() {
    let mut t = Tower::new(3);
    t.move_disk(0, 1); // disk 1 to B
    t.move_disk(0, 2); // disk 2 to C
    t.move_disk(1, 2); // disk 1 to C, last moved
    let frame = t.render();
    let red_disk_one = format!("{}={}", RED, RESET);
    let green_disk_two = format!("{}==={}", GREEN, RESET);
    assert!(frame.contains(&red_disk_one));
    assert!(frame.contains(&green_disk_two));
}

#[test]
fn disk_color_precedence() {
    let mut t = Tower::new(3);
    t.move_disk(0, 1); // disk 1 to B
    t.move_disk(0, 2); // disk 2 to C, last moved
    assert_eq!(t.disk_color(2, 2), DiskColor::LastMoved);
    assert_eq!(t.disk_color(0, 2), DiskColor::LastMoved);
    assert_eq!(t.disk_color(2, 3), DiskColor::OnDestination);
    assert_eq!(t.disk_color(0, 3), DiskColor::Plain);
    assert_eq!(t.disk_color(1, 1), DiskColor::Plain);
}
