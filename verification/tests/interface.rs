use transcribe_stream::interface::InterfaceState;

#[test]
fn clicks_pass_through_at_creation() {
    let s = InterfaceState::new(1_000);
    assert!(s.click_through_enabled());
}

#[test]
fn shortcut_is_debounced() {
    let mut s = InterfaceState::new(1_000);
    assert!(!s.accept_shortcut(1_000));
    assert!(!s.accept_shortcut(1_200));
    assert!(s.accept_shortcut(1_201));
    assert!(!s.accept_shortcut(1_300));
    assert!(s.accept_shortcut(1_402));
}

#[test]
fn clock_reading_from_the_past_is_rejected() {
    let mut s = InterfaceState::new(1_000);
    assert!(!s.accept_shortcut(500));
    assert!(s.accept_shortcut(1_201));
}

#[test]
fn toggle_flips_the_flag() {
    let mut s = InterfaceState::new(0);
    assert_eq!(s.toggle_click_through(), false);
    assert!(!s.click_through_enabled());
    assert_eq!(s.toggle_click_through(), true);
    assert!(s.click_through_enabled());
}

#[test]
fn set_overrides_the_flag() {
    let mut s = InterfaceState::new(0);
    s.set_click_through(false);
    assert!(!s.click_through_enabled());
    s.set_click_through(true);
    assert!(s.click_through_enabled());
}
