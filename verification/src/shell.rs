//! The decision rules of the tray shell. The hosting program performs the
//! returned action; every rule is stated here as a function from the event
//! and the window's state to the action, and nothing else.

use vstd::prelude::*;

verus! {

/// An event from the tray icon, its menu, or the window.
#[derive(Debug, Clone, Copy, PartialEq, Eq, Structural)]
pub enum ShellEvent {
    /// A left-click on the tray icon.
    TrayLeftClick,
    /// The Settings item of the tray menu.
    MenuSettings,
    /// The Documentation item of the tray menu.
    MenuDocumentation,
    /// The Report-a-bug item of the tray menu.
    MenuReportBug,
    /// The Exit item of the tray menu.
    MenuExit,
    /// The window's native close affordance was used.
    CloseRequested,
}

/// What the shell does in answer to an event.
#[derive(Debug, Clone, Copy, PartialEq, Eq, Structural)]
pub enum ShellAction {
    /// Nothing changes.
    Idle,
    /// Show the window.
    Show,
    /// Hide the window.
    Hide,
    /// Give the window focus.
    Focus,
    /// Hide the window and cancel the native close.
    HideAndPreventClose,
    /// End the process with the given exit code.
    Exit(i32),
}

/// One entry of the tray menu, in display order.
#[derive(Debug, Clone, Copy, PartialEq, Eq, Structural)]
pub enum MenuEntry {
    Settings,
    Separator,
    Documentation,
    ReportBug,
    Exit,
}

/// The fixed tray menu: Settings, a separator, Documentation, Report a
/// bug, a separator, Exit.
pub fn tray_menu() -> (r: Vec<MenuEntry>)
    ensures
        r@ == seq![
            MenuEntry::Settings,
            MenuEntry::Separator,
            MenuEntry::Documentation,
            MenuEntry::ReportBug,
            MenuEntry::Separator,
            MenuEntry::Exit,
        ],
{
    let mut m: Vec<MenuEntry> = Vec::new();
    m.push(MenuEntry::Settings);
    m.push(MenuEntry::Separator);
    m.push(MenuEntry::Documentation);
    m.push(MenuEntry::ReportBug);
    m.push(MenuEntry::Separator);
    m.push(MenuEntry::Exit);
    proof {
        assert(m@ =~= seq![
            MenuEntry::Settings,
            MenuEntry::Separator,
            MenuEntry::Documentation,
            MenuEntry::ReportBug,
            MenuEntry::Separator,
            MenuEntry::Exit,
        ]);
    }
    m
}

/// The shell's decision for one event.
///
/// A left-click on the tray toggles the window: a visible window is hidden,
/// a hidden one shown, and nothing else changes. Settings focuses a visible
/// window and shows a hidden one. Exit ends the process with code zero
/// whatever the window's state. A close request hides the window and
/// cancels the native close. Documentation and Report-a-bug change nothing
/// here. Without a window, window actions fall away.
pub fn decide(event: ShellEvent, window_present: bool, visible: bool) -> (r: ShellAction)
    ensures
        event == ShellEvent::TrayLeftClick && window_present ==> r == (if visible {
            ShellAction::Hide
        } else {
            ShellAction::Show
        }),
        event == ShellEvent::TrayLeftClick && !window_present ==> r == ShellAction::Idle,
        event == ShellEvent::MenuSettings && window_present ==> r == (if visible {
            ShellAction::Focus
        } else {
            ShellAction::Show
        }),
        event == ShellEvent::MenuSettings && !window_present ==> r == ShellAction::Idle,
        event == ShellEvent::MenuExit ==> r == ShellAction::Exit(0),
        event == ShellEvent::CloseRequested ==> r == ShellAction::HideAndPreventClose,
        event == ShellEvent::MenuDocumentation ==> r == ShellAction::Idle,
        event == ShellEvent::MenuReportBug ==> r == ShellAction::Idle,
{
    match event {
        ShellEvent::TrayLeftClick => {
            if !window_present {
                ShellAction::Idle
            } else if visible {
                ShellAction::Hide
            } else {
                ShellAction::Show
            }
        },
        ShellEvent::MenuSettings => {
            if !window_present {
                ShellAction::Idle
            } else if visible {
                ShellAction::Focus
            } else {
                ShellAction::Show
            }
        },
        ShellEvent::MenuDocumentation => ShellAction::Idle,
        ShellEvent::MenuReportBug => ShellAction::Idle,
        ShellEvent::MenuExit => ShellAction::Exit(0),
        ShellEvent::CloseRequested => ShellAction::HideAndPreventClose,
    }
}

} // verus!
