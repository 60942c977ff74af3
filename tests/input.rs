use fvz::input::{decode_input_frame, direction, GameInput, INPUT_DOWN, INPUT_FIRE, INPUT_LEFT, INPUT_REVIVE, INPUT_UP};

#[test]
fn opposite_keys_cancel() {
    assert_eq!(direction(INPUT_UP | INPUT_DOWN | INPUT_LEFT), (-1, 0));
    assert_eq!(direction(0), (0, 0));
}

#[test]
fn action_bits() {
    assert!(INPUT_FIRE.is_fire());
    assert!(!INPUT_FIRE.is_revive());
    assert!((INPUT_REVIVE | INPUT_UP).is_revive());
}

#[test]
fn malformed_frames_become_neutral() {
    assert_eq!(decode_input_frame(&[INPUT_FIRE]), (INPUT_FIRE, false));
    assert_eq!(decode_input_frame(&[0x80]), (0, true));
    assert_eq!(decode_input_frame(&[]), (0, true));
    assert_eq!(decode_input_frame(&[1, 2]), (0, true));
}
