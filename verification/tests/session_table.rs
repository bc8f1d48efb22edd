use arplay::session::SessionTable;

fn table_of(ids_created: &[(i32, u64)]) -> SessionTable {
    let mut t = SessionTable::new();
    for &(id, created) in ids_created {
        assert!(t.on_new_session(id, created, format!("peer-{}", id)));
    }
    t
}

#[test]
fn all_sessions_ended_leaves_table_empty() {
    let mut t = SessionTable::new();
    assert!(t.on_new_session(1, 10, String::from("a")));
    assert!(t.on_new_session(2, 20, String::from("b")));
    assert!(t.on_session_ended(1));
    assert!(t.on_new_session(3, 30, String::from("c")));
    t.on_frame_decoded(3, 100, 100);
    assert!(t.on_session_ended(3));
    assert!(t.on_new_session(4, 40, String::from("d")));
    assert!(t.on_session_ended(2));
    assert!(t.on_session_ended(4));
    assert_eq!(t.len(), 0);
}

#[test]
fn live_id_is_never_displaced() {
    let mut t = table_of(&[(5, 100)]);
    t.on_frame_decoded(5, 640, 480);
    assert!(!t.on_new_session(5, 200, String::from("intruder")));
    assert_eq!(t.len(), 1);
    // the earlier session, display and all, is still there
    assert!(t.on_frame_decoded(5, 1, 1) == false, "display already created");
}

#[test]
fn stale_frame_is_discarded() {
    let mut t = table_of(&[(1, 10)]);
    assert!(!t.on_frame_decoded(99, 640, 480));
    assert_eq!(t.len(), 1);
    assert!(!t.contains(99));
}

#[test]
fn duplicate_end_is_idempotent() {
    let mut t = table_of(&[(1, 10), (2, 20)]);
    assert!(t.on_session_ended(1));
    assert!(!t.on_session_ended(1));
    assert_eq!(t.len(), 1);
    assert!(t.contains(2));
}

#[test]
fn first_frame_creates_display_later_frames_do_not() {
    let mut t = table_of(&[(1, 10)]);
    assert!(t.on_frame_decoded(1, 640, 480), "first decode shows the window");
    assert!(!t.on_frame_decoded(1, 640, 480), "later decodes only refresh");
}

#[test]
fn layout_example_three_windows() {
    // screen 1000x800, three windows of widths 100, 200, 150, height 100
    let mut t = table_of(&[(1, 10), (2, 20), (3, 30)]);
    assert!(t.on_frame_decoded(1, 100, 100));
    assert!(t.on_frame_decoded(2, 200, 100));
    assert!(t.on_frame_decoded(3, 150, 100));
    t.align_windows(1000, 800);
    // total width 100+200+150+2*20 = 490, start (1000-490)/2 = 255
    assert_eq!(t.position_of(1), Some((255, 350)));
    assert_eq!(t.position_of(2), Some((375, 350)));
    assert_eq!(t.position_of(3), Some((595, 350)));
}

#[test]
fn layout_is_reproducible() {
    let build = || {
        let mut t = table_of(&[(7, 1), (8, 2)]);
        t.on_frame_decoded(7, 300, 200);
        t.on_frame_decoded(8, 100, 400);
        t.align_windows(1280, 1024);
        (t.position_of(7), t.position_of(8))
    };
    let first = build();
    let second = build();
    assert_eq!(first, second);
    // realigning the same table changes nothing either
    let mut t = table_of(&[(7, 1), (8, 2)]);
    t.on_frame_decoded(7, 300, 200);
    t.on_frame_decoded(8, 100, 400);
    t.align_windows(1280, 1024);
    let once = (t.position_of(7), t.position_of(8));
    t.align_windows(1280, 1024);
    assert_eq!(once, (t.position_of(7), t.position_of(8)));
}

#[test]
fn layout_orders_by_creation_not_insertion() {
    let mut t = SessionTable::new();
    assert!(t.on_new_session(3, 30, String::from("late")));
    assert!(t.on_new_session(1, 10, String::from("early")));
    assert!(t.on_new_session(2, 20, String::from("middle")));
    for id in [1, 2, 3] {
        assert!(t.on_frame_decoded(id, 100, 100));
    }
    t.align_windows(1000, 800);
    // row total 340, start 330; creation stamps 10, 20, 30 give the row order
    assert_eq!(t.position_of(1), Some((330, 350)));
    assert_eq!(t.position_of(2), Some((450, 350)));
    assert_eq!(t.position_of(3), Some((570, 350)));
}

#[test]
fn pending_session_takes_no_slot() {
    let mut t = table_of(&[(1, 10), (2, 20)]);
    assert!(t.on_frame_decoded(1, 100, 100));
    // session 2 never decodes a picture: it stays out of the row
    t.align_windows(1000, 800);
    assert_eq!(t.position_of(1), Some((450, 350)));
    assert_eq!(t.position_of(2), None);
}

#[test]
fn reconnect_excludes_old_includes_new() {
    let mut t = table_of(&[(1, 10), (2, 20), (3, 30)]);
    for id in [1, 2, 3] {
        assert!(t.on_frame_decoded(id, 100, 100));
    }
    t.align_windows(1000, 800);
    assert_eq!(t.position_of(1), Some((330, 350)));
    // session 1 ends; a new connection arrives afterwards
    assert!(t.on_session_ended(1));
    assert!(t.on_new_session(4, 40, String::from("d")));
    assert!(t.on_frame_decoded(4, 100, 100));
    t.align_windows(1000, 800);
    assert!(!t.contains(1));
    assert!(t.contains(4));
    assert_eq!(t.position_of(1), None);
    assert_eq!(t.position_of(2), Some((330, 350)));
    assert_eq!(t.position_of(3), Some((450, 350)));
    assert_eq!(t.position_of(4), Some((570, 350)));
}

#[test]
fn decode_failure_ends_only_that_session() {
    let mut t = table_of(&[(1, 10), (2, 20), (3, 30)]);
    assert!(t.on_frame_decoded(1, 100, 100));
    assert!(t.on_frame_decoded(2, 200, 100));
    assert!(t.on_frame_decoded(3, 150, 100));
    t.align_windows(1000, 800);
    // a malformed stream on session 2 is terminal for session 2 alone
    assert!(t.on_session_ended(2));
    assert_eq!(t.len(), 2);
    assert!(t.contains(1) && t.contains(3));
    // the survivors keep their windows; the next layout recentres them
    t.align_windows(1000, 800);
    assert_eq!(t.position_of(1), Some((365, 350)));
    assert_eq!(t.position_of(3), Some((485, 350)));
    assert_eq!(t.position_of(2), None);
}

#[test]
fn positions_round_toward_zero_and_may_go_negative() {
    let mut t = table_of(&[(1, 10)]);
    assert!(t.on_frame_decoded(1, 300, 100));
    // screen narrower than the window: start is negative, not clamped
    t.align_windows(101, 99);
    // (101 - 300) / 2 truncates to -99; (99 - 100) / 2 truncates to 0
    assert_eq!(t.position_of(1), Some((-99, 0)));
}

#[test]
fn empty_table_layout_is_a_noop() {
    let mut t = SessionTable::new();
    t.align_windows(1000, 800);
    assert_eq!(t.len(), 0);
}
