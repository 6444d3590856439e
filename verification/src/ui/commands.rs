//! What is done when something is chosen in the window.

use std::sync::mpsc::Sender;

use vstd::prelude::*;

use crate::channel;
use crate::config::defaults;
use crate::config::settings::PordaConfig;
use crate::runtime::commands::UiCommand;
use crate::ui::state;
use crate::ui::state::UiState;

verus! {

/// A command was handed over, whether it was taken or not.
pub open spec fn sent(tx: Sender<UiCommand>, command: UiCommand) -> bool {
    exists|taken: bool| #[trigger] channel::handed(tx, command, taken)
}

/// Passes on what is chosen in the window.
pub struct UiCommandHandler {
    pub command_tx: Sender<UiCommand>,
}

impl UiCommandHandler {
    pub fn new(command_tx: Sender<UiCommand>) -> (r: Self)
        ensures
            r.command_tx == command_tx,
    {
        UiCommandHandler { command_tx }
    }

    fn pass(&self, command: UiCommand)
        ensures
            sent(self.command_tx, command),
    {
        let taken = channel::send(&self.command_tx, command).is_ok();
        assert(channel::handed(self.command_tx, command, taken));
    }

    /// The settings that were to be saved are saved.
    pub fn save_settings(&self)
        ensures
            sent(self.command_tx, UiCommand::SaveSettings),
    {
        self.pass(UiCommand::SaveSettings)
    }

    /// The window shows what is set to begin with.
    pub fn restore_defaults(&self, ui: &mut UiState)
        ensures
            state::at_rest(*final(ui)),
            exists|c: PordaConfig| defaults::default_config(c) && #[trigger] state::shows(
                *final(ui),
                c,
            ),
            sent(self.command_tx, UiCommand::RestoreDefaults),
    {
        *ui = UiState::default();
        self.pass(UiCommand::RestoreDefaults)
    }

    /// What the window stands for is to be used.
    pub fn apply_settings(&self, ui: &UiState)
        ensures
            exists|c: PordaConfig| #[trigger]
                state::means(*ui, c) && sent(self.command_tx, UiCommand::ApplySettings(c)),
    {
        let config = ui.to_config();
        let ghost c = config;
        self.pass(UiCommand::ApplySettings(config));
        assert(state::means(*ui, c));
    }

    pub fn activate(&self, ui: &mut UiState)
        ensures
            final(ui).detection_state@ == "Active"@,
            *final(ui) == (UiState {
                is_active: true,
                detection_state: final(ui).detection_state,
                ..*old(ui)
            }),
            sent(self.command_tx, UiCommand::Activate),
    {
        ui.is_active = true;
        ui.detection_state = "Active".to_owned();
        self.pass(UiCommand::Activate)
    }

    pub fn deactivate(&self, ui: &mut UiState)
        ensures
            final(ui).detection_state@ == "Sleep"@,
            *final(ui) == (UiState {
                is_active: false,
                detection_state: final(ui).detection_state,
                ..*old(ui)
            }),
            sent(self.command_tx, UiCommand::Deactivate),
    {
        ui.is_active = false;
        ui.detection_state = "Sleep".to_owned();
        self.pass(UiCommand::Deactivate)
    }

    /// Turns detection off where the window shows it as on, and on where it does not.
    pub fn toggle_activation(&self, ui: &mut UiState)
        ensures
            final(ui).detection_state@ == if old(ui).is_active {
                "Sleep"@
            } else {
                "Active"@
            },
            *final(ui) == (UiState {
                is_active: !old(ui).is_active,
                detection_state: final(ui).detection_state,
                ..*old(ui)
            }),
            if old(ui).is_active {
                sent(self.command_tx, UiCommand::Deactivate)
            } else {
                sent(self.command_tx, UiCommand::Activate)
            },
    {
        if ui.is_active {
            self.deactivate(ui);
        } else {
            self.activate(ui);
        }
    }

    pub fn take_screenshot(&self)
        ensures
            sent(self.command_tx, UiCommand::TakeScreenshot),
    {
        self.pass(UiCommand::TakeScreenshot)
    }

    pub fn refresh_hotkeys(&self)
        ensures
            sent(self.command_tx, UiCommand::RefreshHotkeys),
    {
        self.pass(UiCommand::RefreshHotkeys)
    }

    pub fn configure_global_shortcut(&self)
        ensures
            sent(self.command_tx, UiCommand::ConfigureGlobalShortcut),
    {
        self.pass(UiCommand::ConfigureGlobalShortcut)
    }

    pub fn terminate(&self)
        ensures
            sent(self.command_tx, UiCommand::Terminate),
    {
        self.pass(UiCommand::Terminate)
    }
}

} // verus!
