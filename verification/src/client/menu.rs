use vstd::prelude::*;

verus! {

/// An entry of the main menu.
#[derive(Clone, Copy, Debug, PartialEq, Eq, Structural)]
pub enum MenuItem {
    Continue,
    NewGame,
    Settings,
    Exit,
}

/// What a frame of the main menu asks for.
#[derive(Clone, Copy, Debug, PartialEq, Eq, Structural)]
pub enum MenuOutcome {
    /// Nothing changes.
    Stay,
    /// The game starts playing.
    StartPlaying,
    /// The settings window opens.
    OpenSettings,
    /// The program quits.
    Quit,
}

/// The main menu's decision for one frame: it is only shown while the game is not playing;
/// continuing or starting a new game starts play, the settings entry opens the settings
/// window, and exit quits.
pub fn main_menu_action(is_playing: bool, clicked: Option<MenuItem>) -> (r: MenuOutcome)
    ensures
        r == (if is_playing {
            MenuOutcome::Stay
        } else {
            match clicked {
                None => MenuOutcome::Stay,
                Some(MenuItem::Continue) => MenuOutcome::StartPlaying,
                Some(MenuItem::NewGame) => MenuOutcome::StartPlaying,
                Some(MenuItem::Settings) => MenuOutcome::OpenSettings,
                Some(MenuItem::Exit) => MenuOutcome::Quit,
            }
        }),
{
    if is_playing {
        return MenuOutcome::Stay;
    }
    match clicked {
        None => MenuOutcome::Stay,
        Some(MenuItem::Continue) => MenuOutcome::StartPlaying,
        Some(MenuItem::NewGame) => MenuOutcome::StartPlaying,
        Some(MenuItem::Settings) => MenuOutcome::OpenSettings,
        Some(MenuItem::Exit) => MenuOutcome::Quit,
    }
}

} // verus!
