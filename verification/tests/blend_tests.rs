use solid_formats::blend::{blender_timeout_secs, poll_action, BlendLoader, PollAction, DEFAULT_TIMEOUT_SECS};

#[test]
fn blend_header_is_recognised() {
    assert!(BlendLoader.detect(b"BLENDER-v300"));
    assert!(!BlendLoader.detect(b"BLENDE"));
    assert!(!BlendLoader.detect(b"glTF"));
}

#[test]
fn timeout_setting_falls_back_to_default() {
    assert_eq!(DEFAULT_TIMEOUT_SECS, 180);
    assert_eq!(blender_timeout_secs(None), 180);
    assert_eq!(blender_timeout_secs(Some(b"30")), 30);
    assert_eq!(blender_timeout_secs(Some(b"+7")), 7);
    assert_eq!(blender_timeout_secs(Some(b"0")), 180);
    assert_eq!(blender_timeout_secs(Some(b"abc")), 180);
    assert_eq!(blender_timeout_secs(Some(b"-5")), 180);
    assert_eq!(blender_timeout_secs(Some(b"18446744073709551616")), 180);
}

#[test]
fn polls_decide_the_next_step() {
    assert_eq!(poll_action(Some(true), 10, 1), PollAction::Finished);
    assert_eq!(poll_action(Some(false), 0, 1), PollAction::Failed);
    assert_eq!(poll_action(None, 999, 1), PollAction::Wait);
    assert_eq!(poll_action(None, 1000, 1), PollAction::TimedOut);
    assert_eq!(poll_action(None, u64::MAX, u64::MAX), PollAction::Wait);
}
