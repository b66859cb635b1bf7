//! The input-state helpers: edge detection on key observations.

use watersim::controls::ClickButton;
use watersim::controls::KeyState;
use watersim::controls::PolygonMode;

#[test]
fn key_state_new_counts_as_changed() {
    let k = KeyState::new(false);
    assert!(!k.pressed);
    assert!(k.just_changed);
    let k2 = KeyState::new(true);
    assert!(k2.pressed);
    assert!(k2.just_changed);
}

#[test]
fn key_state_update_detects_edges() {
    let mut k = KeyState::new(false);
    // the first observation after creation never counts as a fresh edge
    k.update(true);
    assert!(k.pressed);
    assert!(!k.just_changed);
    // a settled state that flips is a fresh edge
    k.update(false);
    assert!(!k.pressed);
    assert!(k.just_changed);
    // holding the same state is no edge
    k.update(false);
    assert!(!k.pressed);
    assert!(!k.just_changed);
    k.update(true);
    assert!(k.just_changed);
}

#[test]
fn selector_enums_compare() {
    assert_eq!(PolygonMode::Face, PolygonMode::Face);
    assert_ne!(PolygonMode::Line, PolygonMode::Point);
    assert_eq!(ClickButton::Left, ClickButton::Left);
    assert_ne!(ClickButton::Left, ClickButton::Right);
}
