use conway::{Action, Key, Modifiers};

#[test]
fn modifiers_track_left_and_right_keys() {
    let mut m = Modifiers::new();
    assert!(m.is_empty());
    m.update_modifiers(Key::LeftShift, Action::Press);
    assert!(m.mod_shift);
    m.update_modifiers(Key::RightControl, Action::Repeat);
    assert!(m.mod_control);
    m.update_modifiers(Key::RightShift, Action::Release);
    assert!(!m.mod_shift);
    m.update_modifiers(Key::LeftAlt, Action::Press);
    m.update_modifiers(Key::RightSuper, Action::Press);
    assert!(m.mod_alt && m.mod_super && m.mod_control);
    assert!(!m.is_empty());
}

#[test]
fn other_keys_leave_modifiers_alone() {
    let mut m = Modifiers::new();
    m.update_modifiers(Key::LeftAlt, Action::Press);
    m.update_modifiers(Key::Other, Action::Release);
    m.update_modifiers(Key::Other, Action::Press);
    assert_eq!(m, Modifiers { mod_shift: false, mod_alt: true, mod_control: false, mod_super: false });
}
