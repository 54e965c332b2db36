use config_store::shell::decide;
use config_store::shell::tray_menu;
use config_store::shell::MenuEntry;
use config_store::shell::ShellAction;
use config_store::shell::ShellEvent;

#[test]
fn the_tray_menu_is_fixed() {
    assert_eq!(
        tray_menu(),
        vec![
            MenuEntry::Settings,
            MenuEntry::Separator,
            MenuEntry::Documentation,
            MenuEntry::ReportBug,
            MenuEntry::Separator,
            MenuEntry::Exit,
        ]
    );
}

#[test]
fn left_click_toggles_visibility() {
    assert_eq!(
        decide(ShellEvent::TrayLeftClick, true, false),
        ShellAction::Show
    );
    assert_eq!(
        decide(ShellEvent::TrayLeftClick, true, true),
        ShellAction::Hide
    );
}

#[test]
fn left_click_without_a_window_does_nothing() {
    assert_eq!(
        decide(ShellEvent::TrayLeftClick, false, false),
        ShellAction::Idle
    );
}

#[test]
fn settings_shows_or_focuses() {
    assert_eq!(
        decide(ShellEvent::MenuSettings, true, false),
        ShellAction::Show
    );
    assert_eq!(
        decide(ShellEvent::MenuSettings, true, true),
        ShellAction::Focus
    );
    assert_eq!(
        decide(ShellEvent::MenuSettings, false, true),
        ShellAction::Idle
    );
}

#[test]
fn exit_ends_with_code_zero_whatever_the_window_state() {
    assert_eq!(decide(ShellEvent::MenuExit, true, true), ShellAction::Exit(0));
    assert_eq!(decide(ShellEvent::MenuExit, true, false), ShellAction::Exit(0));
    assert_eq!(decide(ShellEvent::MenuExit, false, false), ShellAction::Exit(0));
}

#[test]
fn close_request_hides_and_cancels_the_close() {
    assert_eq!(
        decide(ShellEvent::CloseRequested, true, true),
        ShellAction::HideAndPreventClose
    );
}

#[test]
fn passive_menu_items_do_nothing() {
    assert_eq!(
        decide(ShellEvent::MenuDocumentation, true, true),
        ShellAction::Idle
    );
    assert_eq!(
        decide(ShellEvent::MenuReportBug, true, false),
        ShellAction::Idle
    );
}
