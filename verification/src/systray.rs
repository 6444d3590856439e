//! The icon in the tray of the desktop: what it is called, what its menu holds, and what the
//! entries mean.

use std::sync::mpsc::Sender;

use vstd::prelude::*;

use crate::channel;
use crate::platform::tray::{generate_tray_icon_argb, TrayAction, TrayManager};
use crate::runtime::commands::UiCommand;
use crate::text;
use crate::text::{contains, lowercase, same};

verus! {

/// An entry of the menu.
#[derive(Debug, Clone, Copy, PartialEq, Eq, Structural)]
pub enum MenuEntry {
    Action(TrayAction),
    Separator,
}

/// The entries of the menu, in order.
pub open spec fn entries() -> Seq<MenuEntry> {
    seq![
        MenuEntry::Action(TrayAction::Show),
        MenuEntry::Action(TrayAction::Activate),
        MenuEntry::Action(TrayAction::Deactivate),
        MenuEntry::Action(TrayAction::TakeScreenshot),
        MenuEntry::Separator,
        MenuEntry::Action(TrayAction::Exit),
    ]
}

/// The entries of the menu.
pub fn menu_entries() -> (r: Vec<MenuEntry>)
    ensures
        r@ == entries(),
{
    let mut r: Vec<MenuEntry> = Vec::new();
    r.push(MenuEntry::Action(TrayAction::Show));
    r.push(MenuEntry::Action(TrayAction::Activate));
    r.push(MenuEntry::Action(TrayAction::Deactivate));
    r.push(MenuEntry::Action(TrayAction::TakeScreenshot));
    r.push(MenuEntry::Separator);
    r.push(MenuEntry::Action(TrayAction::Exit));
    r
}

/// The actions among the entries of the menu, in order.
pub open spec fn actions() -> Seq<TrayAction> {
    seq![
        TrayAction::Show,
        TrayAction::Activate,
        TrayAction::Deactivate,
        TrayAction::TakeScreenshot,
        TrayAction::Exit,
    ]
}

/// The actions of some entries.
pub open spec fn actions_of(es: Seq<MenuEntry>) -> Seq<TrayAction>
    decreases es.len(),
{
    if es.len() == 0 {
        Seq::empty()
    } else {
        match es.last() {
            MenuEntry::Action(action) => actions_of(es.drop_last()).push(action),
            MenuEntry::Separator => actions_of(es.drop_last()),
        }
    }
}

/// The actions of the menu.
pub fn menu_actions() -> (r: Vec<TrayAction>)
    ensures
        r@ == actions(),
{
    let mut r: Vec<TrayAction> = Vec::new();
    r.push(TrayAction::Show);
    r.push(TrayAction::Activate);
    r.push(TrayAction::Deactivate);
    r.push(TrayAction::TakeScreenshot);
    r.push(TrayAction::Exit);
    r
}

/// The actions of the menu are those of its entries; each stands there once.
pub proof fn law_menu_actions()
    ensures
        actions() == actions_of(entries()),
        actions().no_duplicates(),
{
    reveal_with_fuel(actions_of, 7);
    let es = entries();
    assert(es.drop_last() =~= es.take(5));
    assert(es.take(5).drop_last() =~= es.take(4));
    assert(es.take(4).drop_last() =~= es.take(3));
    assert(es.take(3).drop_last() =~= es.take(2));
    assert(es.take(2).drop_last() =~= es.take(1));
    assert(es.take(1).drop_last() =~= Seq::empty());
    assert(actions() =~= actions_of(es));
}

/// The name of the icon of an entry; most have none.
pub fn entry_icon(action: TrayAction) -> (r: &'static str)
    ensures
        r@ == if action == TrayAction::Exit {
            "application-exit"@
        } else {
            ""@
        },
{
    match action {
        TrayAction::Exit => "application-exit",
        _ => "",
    }
}

/// The command that an action stands for. Showing the window and ending the program are no
/// commands.
pub open spec fn command(action: TrayAction) -> Option<UiCommand> {
    match action {
        TrayAction::Activate => Some(UiCommand::Activate),
        TrayAction::Deactivate => Some(UiCommand::Deactivate),
        TrayAction::ToggleDetection => Some(UiCommand::ToggleActivation),
        TrayAction::TakeScreenshot => Some(UiCommand::TakeScreenshot),
        TrayAction::RefreshHotkeys => Some(UiCommand::RefreshHotkeys),
        TrayAction::RefreshOverlay => Some(UiCommand::RefreshOverlay),
        TrayAction::Show | TrayAction::Exit => None,
    }
}

/// The command that an action stands for.
pub fn tray_action_to_ui_command(action: &TrayAction) -> (r: Option<UiCommand>)
    ensures
        r == command(*action),
{
    match action {
        TrayAction::Activate => Some(UiCommand::Activate),
        TrayAction::Deactivate => Some(UiCommand::Deactivate),
        TrayAction::ToggleDetection => Some(UiCommand::ToggleActivation),
        TrayAction::TakeScreenshot => Some(UiCommand::TakeScreenshot),
        TrayAction::RefreshHotkeys => Some(UiCommand::RefreshHotkeys),
        TrayAction::RefreshOverlay => Some(UiCommand::RefreshOverlay),
        TrayAction::Show | TrayAction::Exit => None,
    }
}

/// No action ends the program by way of a command.
pub proof fn law_no_action_terminates(action: TrayAction)
    ensures
        command(action) != Some(UiCommand::Terminate),
{
}

/// Whether there is an icon in the tray already: there is never more than one.
#[derive(Debug, Clone, Copy, PartialEq, Eq, Structural)]
pub struct TrayGuard {
    pub initialized: bool,
}

impl TrayGuard {
    pub fn new() -> (r: Self)
        ensures
            !r.initialized,
    {
        TrayGuard { initialized: false }
    }

    /// Claims the place in the tray; fails if it is taken.
    pub fn claim(&mut self) -> (r: Result<(), String>)
        ensures
            final(self).initialized,
            r is Ok <==> !old(self).initialized,
            r matches Err(e) ==> e@
                == "tray already initialized (duplicate PordaTray::run call)"@,
    {
        if self.initialized {
            return Err("tray already initialized (duplicate PordaTray::run call)".to_owned());
        }
        self.initialized = true;
        Ok(())
    }

    /// Gives the place up.
    pub fn release(&mut self)
        ensures
            !final(self).initialized,
    {
        self.initialized = false;
    }
}

/// The icon in the tray.
pub struct PordaTray {
    pub manager: TrayManager,
}

impl PordaTray {
    pub fn new(action_tx: Sender<TrayAction>) -> (r: Self)
        ensures
            r.manager.action_tx == action_tx,
    {
        PordaTray { manager: TrayManager::new(action_tx) }
    }

    /// Claims the place in the tray and gives the picture to be shown there, with its width and
    /// height.
    pub fn run(&self, guard: &mut TrayGuard) -> (r: Result<(i32, i32, Vec<u8>), String>)
        ensures
            final(guard).initialized,
            r is Ok <==> !old(guard).initialized,
            r matches Ok(icon) ==> icon.0 == 32 && icon.1 == 32 && icon.2@
                == crate::platform::tray::icon_bytes(),
            r matches Err(e) ==> e@
                == "tray already initialized (duplicate PordaTray::run call)"@,
    {
        match guard.claim() {
            Ok(()) => Ok(generate_tray_icon_argb()),
            Err(e) => Err(e),
        }
    }

    pub fn send_action(&self, action: TrayAction) -> (r: Result<(), String>)
        ensures
            channel::handed(self.manager.action_tx, action, r is Ok),
    {
        self.manager.send_action(action)
    }
}

/// What a desktop needs so that the icon can be seen.
#[derive(Debug, Clone, Copy, PartialEq, Eq, Structural)]
pub enum TrayHost {
    Kde,
    Gnome,
    Wayland,
    Unknown,
}

/// The kind of desktop, by its name and session type in small letters.
pub open spec fn host(desktop: Seq<char>, session: Seq<char>) -> TrayHost {
    if text::holds(desktop, "kde"@) {
        TrayHost::Kde
    } else if text::holds(desktop, "gnome"@) {
        TrayHost::Gnome
    } else if session == "wayland"@ {
        TrayHost::Wayland
    } else {
        TrayHost::Unknown
    }
}

/// The kind of desktop, by its name and session type in small letters.
pub fn tray_host(desktop: &str, session: &str) -> (r: TrayHost)
    ensures
        r == host(desktop@, session@),
{
    if contains(desktop, "kde") {
        TrayHost::Kde
    } else if contains(desktop, "gnome") {
        TrayHost::Gnome
    } else if same(session, "wayland") {
        TrayHost::Wayland
    } else {
        TrayHost::Unknown
    }
}

/// The kind of desktop, by its name and session type.
pub fn diagnose_tray_host(desktop: &str, session_type: &str) -> (r: TrayHost)
    ensures
        r == host(text::lowercased(desktop@), text::lowercased(session_type@)),
{
    tray_host(lowercase(desktop).as_str(), lowercase(session_type).as_str())
}

/// An action in the tray stands for the command of the same name; showing the window and ending
/// the program stand for none.
pub proof fn law_command_of_action(action: TrayAction)
    ensures
        (command(action) == Some(UiCommand::Activate)) == (action is Activate),
        (command(action) == Some(UiCommand::Deactivate)) == (action is Deactivate),
        (command(action) == Some(UiCommand::ToggleActivation)) == (action is ToggleDetection),
        (command(action) == Some(UiCommand::TakeScreenshot)) == (action is TakeScreenshot),
        command(action) is None == (action is Show || action is Exit),
{
}

/// A desktop that names itself after KDE or GNOME is taken for that, whatever its session; of any
/// other the session decides.
pub proof fn law_host_by_name(desktop: Seq<char>, session: Seq<char>, other: Seq<char>)
    ensures
        text::holds(desktop, "kde"@) ==> host(desktop, session) is Kde,
        text::holds(desktop, "gnome"@) && !text::holds(desktop, "kde"@) ==> host(desktop, session)
            is Gnome,
        host(desktop, session) is Kde || host(desktop, session) is Gnome ==> host(desktop, other)
            == host(desktop, session),
        host(desktop, session) is Wayland ==> session == "wayland"@ && !text::holds(
            desktop,
            "kde"@,
        ) && !text::holds(desktop, "gnome"@),
        session == "wayland"@ ==> host(desktop, session) !is Unknown,
{
}

} // verus!
