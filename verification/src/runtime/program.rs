//! What the program does with commands, events, and what is chosen in the tray.

use vstd::prelude::*;

use crate::config::defaults;
use crate::config::settings::PordaConfig;
use crate::path;
use crate::path::join_text;
use crate::platform::tray::TrayAction;
use crate::runtime::app_state;
use crate::runtime::app_state::AppState;
use crate::runtime::commands::{CoreEvent, UiCommand};
use crate::systray::tray_action_to_ui_command;
use crate::text;
use crate::text::{concat, push_decimal};
use crate::ui::state::UiState;
use crate::vision::detection::DetectionState;

verus! {

/// What is left to do for a command.
#[derive(Debug, Clone, Copy, PartialEq, Eq, Structural)]
pub enum Effect {
    Nothing,
    /// Save what the window stands for, and tell that it was saved.
    Save,
    /// Take a picture of the screen.
    Screenshot,
    /// End the program.
    Quit,
}

/// What is left to do for each command.
pub open spec fn effect(command: UiCommand) -> Effect {
    match command {
        UiCommand::SaveSettings => Effect::Save,
        UiCommand::TakeScreenshot => Effect::Screenshot,
        UiCommand::Terminate => Effect::Quit,
        _ => Effect::Nothing,
    }
}

/// What a command does to the state. New settings start the program afresh, with detection off.
pub open spec fn commanded(command: UiCommand, before: AppState, after: AppState) -> bool {
    match command {
        UiCommand::LoadSettings(config) | UiCommand::ApplySettings(config) => app_state::fresh(
            after,
            config,
        ),
        UiCommand::RestoreDefaults => exists|config: PordaConfig|
            defaults::default_config(config) && #[trigger] app_state::fresh(after, config),
        UiCommand::Activate => after == (AppState { is_active: true, ..before }),
        UiCommand::Deactivate => after == (AppState { is_active: false, ..before }),
        UiCommand::ToggleActivation => after == (AppState {
            is_active: !before.is_active,
            ..before
        }),
        _ => after == before,
    }
}

/// Carries out a command.
pub fn handle_command(command: UiCommand, state: &mut AppState) -> (r: Effect)
    ensures
        r == effect(command),
        commanded(command, *old(state), *final(state)),
{
    match command {
        UiCommand::SaveSettings => Effect::Save,
        UiCommand::LoadSettings(config) => {
            *state = AppState::new(config);
            Effect::Nothing
        },
        UiCommand::RestoreDefaults => {
            *state = AppState::new(PordaConfig::default());
            Effect::Nothing
        },
        UiCommand::Activate => {
            state.is_active = true;
            Effect::Nothing
        },
        UiCommand::Deactivate => {
            state.is_active = false;
            Effect::Nothing
        },
        UiCommand::ToggleActivation => {
            state.is_active = !state.is_active;
            Effect::Nothing
        },
        UiCommand::ApplySettings(config) => {
            *state = AppState::new(config);
            Effect::Nothing
        },
        UiCommand::Terminate => Effect::Quit,
        UiCommand::TakeScreenshot => Effect::Screenshot,
        UiCommand::RefreshHotkeys => Effect::Nothing,
        UiCommand::RefreshOverlay => Effect::Nothing,
        UiCommand::ConfigureGlobalShortcut => Effect::Nothing,
    }
}

/// Turning detection on or off twice leaves everything as it was.
pub proof fn law_toggle_twice(before: AppState, once: AppState, twice: AppState)
    requires
        commanded(UiCommand::ToggleActivation, before, once),
        commanded(UiCommand::ToggleActivation, once, twice),
    ensures
        twice == before,
{
}

/// Whatever the settings were, after a command to turn detection off the screen is not looked at.
pub proof fn law_deactivate_stops(before: AppState, after: AppState)
    requires
        commanded(UiCommand::Deactivate, before, after),
    ensures
        !after.runs(),
{
}

/// New settings turn detection off.
pub proof fn law_new_settings_turn_off(config: PordaConfig, before: AppState, after: AppState)
    requires
        commanded(UiCommand::ApplySettings(config), before, after),
    ensures
        !after.runs(),
        after.config == config,
{
}

/// The name of a state of detection.
pub open spec fn state_name(s: DetectionState) -> Seq<char> {
    match s {
        DetectionState::Active => "Active"@,
        DetectionState::Sleep => "Sleep"@,
    }
}

fn name_of_state(s: DetectionState) -> (r: String)
    ensures
        r@ == state_name(s),
{
    match s {
        DetectionState::Active => "Active".to_owned(),
        DetectionState::Sleep => "Sleep".to_owned(),
    }
}

/// What an event changes in the window.
pub open spec fn reported(event: CoreEvent, before: UiState, after: UiState) -> bool {
    match event {
        CoreEvent::DetectionStateChange(s) => {
            &&& after.detection_state@ == state_name(s)
            &&& after == (UiState { detection_state: after.detection_state, ..before })
        },
        CoreEvent::CpuUsageUpdate(usage) => after == (UiState { cpu_usage: usage, ..before }),
        _ => after == before,
    }
}

/// Shows an event in the window. The result says whether more events are to be waited for.
pub fn handle_event(event: &CoreEvent, ui: &mut UiState) -> (r: bool)
    ensures
        r == (*event !is Terminated),
        reported(*event, *old(ui), *final(ui)),
{
    match event {
        CoreEvent::DetectionStateChange(s) => {
            ui.detection_state = name_of_state(*s);
            true
        },
        CoreEvent::CpuUsageUpdate(usage) => {
            ui.cpu_usage = *usage;
            true
        },
        CoreEvent::Terminated => false,
        _ => true,
    }
}

/// What is done for an action of the tray.
#[derive(Debug)]
pub enum TrayEffect {
    ShowWindow,
    Send(UiCommand),
    /// Send the command to end the program, and wait for no more actions.
    Exit,
}

/// Decides what is done for an action of the tray.
pub fn handle_tray_action(action: &TrayAction) -> (r: TrayEffect)
    ensures
        match *action {
            TrayAction::Show => r is ShowWindow,
            TrayAction::Exit => r is Exit,
            _ => r matches TrayEffect::Send(command) && crate::systray::command(*action) == Some(
                command,
            ),
        },
{
    match tray_action_to_ui_command(action) {
        Some(command) => TrayEffect::Send(command),
        None => match action {
            TrayAction::Exit => TrayEffect::Exit,
            _ => TrayEffect::ShowWindow,
        },
    }
}

/// Where a picture of the screen is put that is taken at a time in seconds.
pub fn screenshot_path(dir: &[u8], seconds: u64) -> (r: Vec<u8>)
    ensures
        r@ == path::joined(
            dir@,
            path::of_text("screenshot_"@ + text::decimal(seconds as nat) + ".jpg"@),
        ),
{
    let mut name = "screenshot_".to_owned();
    push_decimal(&mut name, seconds);
    let name = concat(name.as_str(), ".jpg");
    join_text(dir, name.as_str())
}

/// Commands but for those that bring settings leave the settings, and what was found and covered,
/// as they are; they change at most whether the screen is looked at.
pub proof fn law_commands_keep(command: UiCommand, before: AppState, after: AppState)
    requires
        commanded(command, before, after),
        command !is LoadSettings,
        command !is ApplySettings,
        command !is RestoreDefaults,
    ensures
        after.config == before.config,
        after.last_detections == before.last_detections,
        after.covers == before.covers,
        after.window_rects == before.window_rects,
        after.detection_state == before.detection_state,
        after.last_detection_time == before.last_detection_time,
        after.cpu_usage == before.cpu_usage,
        command is Activate ==> after.is_active,
        command is Deactivate ==> !after.is_active,
        command is ToggleActivation ==> after.is_active != before.is_active,
        command !is Activate && command !is Deactivate && command !is ToggleActivation
            ==> after.is_active == before.is_active,
{
}

/// What is left to do for a command is to save, to take a picture or to quit, where the command
/// asks for just that.
pub proof fn law_effect_asked(command: UiCommand)
    ensures
        (effect(command) is Save) == (command is SaveSettings),
        (effect(command) is Screenshot) == (command is TakeScreenshot),
        (effect(command) is Quit) == (command is Terminate),
{
}

/// The states of detection have different names, and an event that tells of one shows its name.
pub proof fn law_state_shown(s: DetectionState, before: UiState, after: UiState)
    requires
        reported(CoreEvent::DetectionStateChange(s), before, after),
    ensures
        (after.detection_state@ == "Active"@) == (s is Active),
        (after.detection_state@ == "Sleep"@) == (s is Sleep),
        after.cpu_usage == before.cpu_usage,
        after.is_active == before.is_active,
{
    reveal_strlit("Active");
    reveal_strlit("Sleep");
    assert("Active"@.len() == 6);
    assert("Sleep"@.len() == 5);
}

} // verus!
