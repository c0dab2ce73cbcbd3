use bill_tracker::menu::MainMenu;

#[test]
fn each_digit_selects_its_menu_entry() {
    assert_eq!(MainMenu::from_str("1"), Some(MainMenu::AddEdit));
    assert_eq!(MainMenu::from_str("2"), Some(MainMenu::View));
    assert_eq!(MainMenu::from_str("3"), Some(MainMenu::Remove));
    assert_eq!(MainMenu::from_str("4"), Some(MainMenu::Undo));
}

#[test]
fn other_input_is_unrecognized() {
    assert_eq!(MainMenu::from_str(""), None);
    assert_eq!(MainMenu::from_str("0"), None);
    assert_eq!(MainMenu::from_str("5"), None);
    assert_eq!(MainMenu::from_str("12"), None);
    assert_eq!(MainMenu::from_str(" 1"), None);
    assert_eq!(MainMenu::from_str("add"), None);
}
