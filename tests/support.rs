use rsonpath::engine::depth::Depth;
use rsonpath::error::{DepthError, UnsupportedFeatureError};
use rsonpath::input::Input;
use rsonpath::query::Label;

#[test]
fn unsupported_features() {
    let depths = UnsupportedFeatureError::large_json_depths();
    assert_eq!(depths.feature(), "Large JSON Depths");
    assert_eq!(depths.issue(), None);
    assert!(!depths.is_planned());
    let with_issue = UnsupportedFeatureError::tracked_at(42, "Filters");
    assert_eq!(with_issue.issue(), Some(42));
    assert_eq!(with_issue.feature(), "Filters");
    assert!(with_issue.is_planned());
    let not_planned = UnsupportedFeatureError::untracked("Slices");
    assert_eq!(not_planned.feature(), "Slices");
    assert!(!not_planned.is_planned());
}

#[test]
fn input_is_padded() {
    let input = Input::new(b"abc");
    let bytes = input.as_bytes();
    assert_eq!(bytes.len(), 128);
    assert_eq!(&bytes[..3], b"abc");
    assert!(bytes[3..].iter().all(|b| *b == 0));
    assert_eq!(Input::new(&[b'x'; 64]).as_bytes().len(), 128);
    assert_eq!(Input::new(b"").as_bytes().len(), 64);
}

#[test]
fn label_quoting() {
    let label = Label::new(b"key");
    assert_eq!(label.bytes(), b"key");
    assert_eq!(label.bytes_with_quotes(), b"\"key\"");
    assert_eq!(label.len(), 3);
    assert!(!label.is_empty());
}

#[test]
fn depth_counter_limits() {
    let mut depth = Depth::zero();
    assert_eq!(depth.decrement(), Err(DepthError::BelowZero));
    for _ in 0..255 {
        assert_eq!(depth.increment(), Ok(()));
    }
    assert_eq!(depth.get(), 255);
    assert_eq!(depth.increment(), Err(DepthError::AboveLimit(255)));
    assert_eq!(depth.decrement(), Ok(()));
    assert_eq!(depth.get(), 254);
}
