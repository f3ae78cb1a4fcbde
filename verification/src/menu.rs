//! The app's own menu items and what choosing each of them does.
use vstd::prelude::*;

use crate::text::{owned, str_eq};

verus! {

pub const SETTINGS_ID: &'static str = "settings";

pub const NEW_NOTE_ID: &'static str = "new-note";

pub const DELETE_NOTE_ID: &'static str = "delete-note";

pub const FULLSCREEN_ID: &'static str = "fullscreen";

/// What choosing a menu item does.
pub enum MenuAction {
    /// Tell the front end, with an event of this name.
    Emit(String),
    /// Switch the main window in or out of full screen.
    ToggleFullscreen,
    /// Nothing: the item is not one of the app's own.
    Ignore,
}

/// The action for the menu item with id `id`: settings opens the config, a new note opens
/// the quick switcher, deleting a note is left to the front end, and full screen toggles the
/// main window.
pub fn menu_action(id: &str) -> (r: MenuAction)
    ensures
        id@ == SETTINGS_ID@ ==> (r matches MenuAction::Emit(e) && e@ == "open-config"@),
        id@ == NEW_NOTE_ID@ ==> (r matches MenuAction::Emit(e) && e@ == "open-quick-switcher"@),
        id@ == DELETE_NOTE_ID@ ==> (r matches MenuAction::Emit(e) && e@ == "delete-note"@),
        id@ == FULLSCREEN_ID@ ==> r is ToggleFullscreen,
        id@ != SETTINGS_ID@ && id@ != NEW_NOTE_ID@ && id@ != DELETE_NOTE_ID@ && id@
            != FULLSCREEN_ID@ ==> r is Ignore,
{
    proof {
        reveal_strlit("settings");
        reveal_strlit("new-note");
        reveal_strlit("delete-note");
        reveal_strlit("fullscreen");
        assert(SETTINGS_ID@[0] == 's' && NEW_NOTE_ID@[0] == 'n');
        assert(DELETE_NOTE_ID@[0] == 'd' && FULLSCREEN_ID@[0] == 'f');
    }
    if str_eq(id, SETTINGS_ID) {
        MenuAction::Emit(owned("open-config"))
    } else if str_eq(id, NEW_NOTE_ID) {
        MenuAction::Emit(owned("open-quick-switcher"))
    } else if str_eq(id, DELETE_NOTE_ID) {
        MenuAction::Emit(owned("delete-note"))
    } else if str_eq(id, FULLSCREEN_ID) {
        MenuAction::ToggleFullscreen
    } else {
        MenuAction::Ignore
    }
}

} // verus!
