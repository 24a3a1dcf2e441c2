use throcc::client::media::sequence::{SequenceWindow, WINDOW};

fn window() -> SequenceWindow {
    SequenceWindow::default()
}

#[test]
fn a_run_in_order_is_all_new() {
    let mut window = window();
    for seq in 0..1000 {
        assert!(window.accept(seq), "{seq} is new");
    }
    assert_eq!(window.missing(), 0);
}

#[test]
fn a_duplicate_is_refused() {
    let mut window = window();
    assert!(window.accept(10));
    assert!(!window.accept(10));

    assert!(window.accept(12));
    assert!(window.accept(11));
    assert!(!window.accept(11));
    assert!(!window.accept(12));
    assert_eq!(window.missing(), 0, "a filled gap is not a loss");
}

#[test]
fn reordering_inside_the_window_is_accepted() {
    let mut window = window();
    assert!(window.accept(100));
    assert!(window.accept(163), "the far edge of the window");
    assert!(window.accept(101), "still one slot inside the window");
    assert_eq!(window.missing(), 0);
}

#[test]
fn arriving_below_the_window_is_refused() {
    let mut window = window();
    assert!(window.accept(100));
    assert!(window.accept(164));
    assert!(
        !window.accept(100),
        "exactly a window behind is already gone"
    );
    assert!(!window.accept(99));
    assert!(window.accept(101), "one slot short of the edge survives");
}

#[test]
fn a_gap_that_slides_out_of_the_window_counts_as_loss() {
    let mut window = window();
    assert!(window.accept(0));
    assert!(window.accept(1));
    for seq in 3..=65 {
        assert!(window.accept(seq));
    }
    assert_eq!(window.missing(), 0, "2 is still fillable");

    assert!(window.accept(66));
    assert_eq!(window.missing(), 1, "2 has now slid out");

    assert!(!window.accept(2));
    assert_eq!(
        window.missing(),
        1,
        "a refused arrival is not a second loss"
    );
}

#[test]
fn a_far_future_jump_counts_every_sequence_it_skipped() {
    let mut window = window();
    assert!(window.accept(0));
    assert!(window.accept(1_000));
    assert_eq!(
        window.missing(),
        1_000 - WINDOW as u64,
        "the 64 nearest are still in the window, the rest are gone"
    );

    for seq in 937..1_000 {
        assert!(window.accept(seq), "{seq} is inside the new window");
    }
    assert_eq!(window.missing(), 936);
}

#[test]
fn a_first_packet_far_from_zero_is_not_a_thousand_losses() {
    let mut window = window();
    assert!(window.accept(5_000));
    for seq in 5_001..5_200 {
        assert!(window.accept(seq));
    }
    assert_eq!(
        window.missing(),
        0,
        "nothing before the first packet was ever expected"
    );
}

#[test]
fn an_adversarial_sequence_holds_the_invariant() {
    let mut window = window();

    let arrivals = [
        (7, true),
        (9, true),
        (8, true),
        (7, false),
        (9, false),
        (10, true),
        (200, true),
        (199, true),
        (136, false),
        (135, false),
        (201, true),
        (8, false),
        (137, false),
        (4_000, true),
    ];
    for (seq, new) in arrivals {
        assert_eq!(window.accept(seq), new, "arrival {seq}");
    }

    assert!(!window.accept(4_000));
    assert!(window.accept(u32::MAX));
    assert!(!window.accept(u32::MAX));
}

#[test]
fn every_sequence_is_delivered_at_most_once_under_duplication() {
    let mut window = window();
    let mut delivered = vec![0u32; 300];

    for round in 0..3 {
        for seq in 0..300u32 {
            let arrival = if round == 2 { 299 - seq } else { seq };
            if window.accept(arrival) {
                delivered[arrival as usize] += 1;
            }
        }
    }
    assert!(
        delivered.iter().all(|&count| count == 1),
        "a sequence was delivered twice or not at all"
    );
}

#[test]
fn one_that_came_before_the_first_is_taken_while_the_window_reaches_it() {
    let mut window = window();
    assert!(window.accept(100));
    assert!(window.accept(37), "63 behind");
    assert!(!window.accept(36), "64 behind");
    assert!(!window.accept(37));
    assert_eq!(window.missing(), 0);
}
