//! Which frame of an animation shows.
use repartee::emote_anim::frame_index_at;

#[test]
fn frame_index_advances_with_time() {
    let delays = [100u32, 100, 100];
    assert_eq!(frame_index_at(&delays, 0), 0);
    assert_eq!(frame_index_at(&delays, 150), 1);
    assert_eq!(frame_index_at(&delays, 250), 2);
    assert_eq!(frame_index_at(&delays, 350), 0);
}

#[test]
fn single_frame_is_static() {
    assert_eq!(frame_index_at(&[100], 99_999), 0);
}

#[test]
fn empty_delays_is_zero() {
    assert_eq!(frame_index_at(&[], 123), 0);
}

#[test]
fn a_frame_lasts_up_to_its_delay() {
    let delays = [10u32, 0, 30];
    assert_eq!(frame_index_at(&delays, 9), 0);
    assert_eq!(frame_index_at(&delays, 39), 2);
    assert_eq!(frame_index_at(&delays, 40), 0);
}

#[test]
fn an_animation_never_steps_back_within_a_round() {
    let delays = [10u32, 0, 30, 5];
    let mut shown = 0;
    for t in 0..45 {
        let frame = frame_index_at(&delays, 90 + t);
        assert!(shown <= frame);
        shown = frame;
    }
    assert_eq!(shown, 3);
    assert_eq!(frame_index_at(&delays, 135), 0);
}
