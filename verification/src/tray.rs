//! The menu of the tray icon.

use vstd::prelude::*;

use crate::text::same_text;

verus! {

/// The menu item that opens the settings window.
pub const SHOW_ITEM: &'static str = "show";

/// The menu item that ends the program.
pub const QUIT_ITEM: &'static str = "quit";

/// What choosing a menu item does.
#[derive(Debug, Clone, Copy, PartialEq, Eq, Structural)]
pub enum MenuAction {
    /// The settings window is shown and gets the focus.
    ShowWindow,
    /// The program ends.
    Quit,
    /// Nothing happens.
    Ignore,
}

/// What choosing the menu item `id` does.
pub fn menu_action(id: &str) -> (action: MenuAction)
    ensures
        action == (if id@ == SHOW_ITEM@ {
            MenuAction::ShowWindow
        } else if id@ == QUIT_ITEM@ {
            MenuAction::Quit
        } else {
            MenuAction::Ignore
        }),
{
    if same_text(id, SHOW_ITEM) {
        MenuAction::ShowWindow
    } else if same_text(id, QUIT_ITEM) {
        MenuAction::Quit
    } else {
        MenuAction::Ignore
    }
}

} // verus!
