//! The global shortcut: what is registered, what the desktop makes of it, and what is shown.
//!
//! The desktop portal is asked elsewhere. This module says what to ask, and what each answer means.

use std::sync::mpsc::Sender;

use vstd::prelude::*;

use crate::config::settings;
use crate::platform::registry;
use crate::platform::registry::{HotkeyAction, HotkeyRegistry};
use crate::platform::shortcut;
use crate::platform::shortcut::HotkeyError;
use crate::text;
use crate::text::{
    chars_of, concat, contains, copy_maybe, join, lowercase, push_decimal, same, same_ignoring_case,
    split, trim,
};

verus! {

/// The session type, or the address of a display, says that the session runs on Wayland.
pub open spec fn wayland(session_type: Option<Seq<char>>, has_display: bool) -> bool {
    has_display || (session_type matches Some(t) && text::lowered(t) == text::lowered("wayland"@))
}

/// Whether a session runs on Wayland: by its type, or because it names a Wayland display.
pub fn is_wayland(session_type: &Option<String>, has_display: bool) -> (r: bool)
    ensures
        r == wayland(text::maybe(*session_type), has_display),
{
    let by_type = match session_type {
        Some(t) => same_ignoring_case(&chars_of(t.as_str()), &chars_of("wayland")),
        None => false,
    };
    by_type || has_display
}

/// The words for a session without Wayland.
pub open spec fn needs_wayland() -> Seq<char> {
    "Global shortcuts require Wayland (XDG_SESSION_TYPE=wayland). X11/XWayland is intentionally unsupported."@
}

/// Global shortcuts are for Wayland sessions only.
pub fn check_supported_environment(session_type: &Option<String>, has_display: bool) -> (r: Result<
    (),
    HotkeyError,
>)
    ensures
        r is Ok <==> wayland(text::maybe(*session_type), has_display),
        r matches Err(e) ==> e matches HotkeyError::UnsupportedEnvironment(t) && t@
            == needs_wayland(),
{
    if is_wayland(session_type, has_display) {
        Ok(())
    } else {
        Err(unsupported())
    }
}

fn unsupported() -> (r: HotkeyError)
    ensures
        r matches HotkeyError::UnsupportedEnvironment(t) && t@ == needs_wayland(),
{
    HotkeyError::UnsupportedEnvironment(
        "Global shortcuts require Wayland (XDG_SESSION_TYPE=wayland). X11/XWayland is intentionally unsupported.".to_owned(),
    )
}

/// The message for a session without Wayland.
pub open spec fn unsupported_text() -> Seq<char> {
    "unsupported environment: "@ + needs_wayland()
}

/// Each text trimmed.
pub open spec fn each_trimmed(ps: Seq<Seq<char>>) -> Seq<Seq<char>> {
    ps.map_values(|p: Seq<char>| text::trimmed(p))
}

/// A trigger as it is shown: with spaces around the plus signs.
pub open spec fn trigger_display(raw: Seq<char>) -> Seq<char> {
    let t = text::trimmed(raw);
    if t.len() == 0 {
        "Not configured"@
    } else {
        text::joined(each_trimmed(text::pieces(t, '+')), " + "@)
    }
}

/// Shows `Meta+Shift+P` as `Meta + Shift + P`.
pub fn format_trigger_display(raw: &str) -> (r: String)
    ensures
        r@ == trigger_display(raw@),
{
    let t = trim(&chars_of(raw));
    if t.len() == 0 {
        return "Not configured".to_owned();
    }
    let ps = split(&t, '+');
    let ghost all = text::texts(ps@);
    let mut trimmed: Vec<Vec<char>> = Vec::new();
    let mut i: usize = 0;
    while i < ps.len()
        invariant
            i <= ps@.len(),
            all == text::texts(ps@),
            trimmed@.len() == i,
            forall|k: int| 0 <= k < i ==> (#[trigger] trimmed@[k])@ == text::trimmed(all[k]),
        decreases ps.len() - i,
    {
        trimmed.push(trim(&ps[i]));
        i = i + 1;
    }
    assert(text::texts(trimmed@) =~= each_trimmed(all));
    join(&trimmed, " + ")
}

/// What the desktop portal can fail at. The words after a colon are the portal's own.
#[derive(Debug)]
pub enum PortalFault {
    Runtime(String),
    Connect(String),
    ConnectSession(String),
    NotSupported,
    NotSupportedByBackend,
    TooOld(u32),
    CreateSession(String),
    BindTimeout,
    Bind(String),
    BindResponse(String),
    BindResponseError(String),
    NoTrigger(String),
    List(String),
    ListResponse(String),
    Receive(String),
    Spawn(String),
    Configure(String),
}

impl PortalFault {
    pub open spec fn text(&self) -> Seq<char> {
        match self {
            PortalFault::Runtime(e) => "tokio runtime failed: "@ + e@,
            PortalFault::Connect(e) => "GlobalShortcuts portal unavailable: "@ + e@,
            PortalFault::ConnectSession(e) => "GlobalShortcuts portal unavailable (xdg-desktop-portal-kde not running): "@
                + e@,
            PortalFault::NotSupported => "GlobalShortcuts portal not supported"@,
            PortalFault::NotSupportedByBackend => "GlobalShortcuts portal not supported by current portal backend"@,
            PortalFault::TooOld(version) => "GlobalShortcuts portal version "@ + text::decimal(
                *version as nat,
            ) + " does not support ConfigureShortcuts (requires v2)"@,
            PortalFault::CreateSession(e) => "CreateSession failed: "@ + e@,
            PortalFault::BindTimeout => "BindShortcuts timed out waiting for user confirmation (dialog not confirmed within 30s)"@,
            PortalFault::Bind(e) => "BindShortcuts failed: "@ + e@,
            PortalFault::BindResponse(e) => "BindShortcuts response: "@ + e@,
            PortalFault::BindResponseError(e) => "BindShortcuts response error: "@ + e@,
            PortalFault::NoTrigger(id) => "portal returned no trigger for "@ + id@
                + " (trigger_description=''), registration failed (likely stale empty permission or dialog not confirmed, try fresh ID porda_toggle_v2 or allow dialog)"@,
            PortalFault::List(e) => "ListShortcuts failed: "@ + e@,
            PortalFault::ListResponse(e) => "ListShortcuts response: "@ + e@,
            PortalFault::Receive(e) => "receive_activated failed: "@ + e@,
            PortalFault::Spawn(e) => "failed to spawn hotkey thread: "@ + e@,
            PortalFault::Configure(e) => e@,
        }
    }

    /// The fault in words.
    pub fn message(&self) -> (r: String)
        ensures
            r@ == self.text(),
    {
        match self {
            PortalFault::Runtime(e) => concat("tokio runtime failed: ", e.as_str()),
            PortalFault::Connect(e) => concat("GlobalShortcuts portal unavailable: ", e.as_str()),
            PortalFault::ConnectSession(e) => concat(
                "GlobalShortcuts portal unavailable (xdg-desktop-portal-kde not running): ",
                e.as_str(),
            ),
            PortalFault::NotSupported => "GlobalShortcuts portal not supported".to_owned(),
            PortalFault::NotSupportedByBackend => "GlobalShortcuts portal not supported by current portal backend".to_owned(),
            PortalFault::TooOld(version) => {
                let mut t = "GlobalShortcuts portal version ".to_owned();
                push_decimal(&mut t, *version as u64);
                concat(t.as_str(), " does not support ConfigureShortcuts (requires v2)")
            },
            PortalFault::CreateSession(e) => concat("CreateSession failed: ", e.as_str()),
            PortalFault::BindTimeout => "BindShortcuts timed out waiting for user confirmation (dialog not confirmed within 30s)".to_owned(),
            PortalFault::Bind(e) => concat("BindShortcuts failed: ", e.as_str()),
            PortalFault::BindResponse(e) => concat("BindShortcuts response: ", e.as_str()),
            PortalFault::BindResponseError(e) => concat(
                "BindShortcuts response error: ",
                e.as_str(),
            ),
            PortalFault::NoTrigger(id) => concat(
                concat("portal returned no trigger for ", id.as_str()).as_str(),
                " (trigger_description=''), registration failed (likely stale empty permission or dialog not confirmed, try fresh ID porda_toggle_v2 or allow dialog)",
            ),
            PortalFault::List(e) => concat("ListShortcuts failed: ", e.as_str()),
            PortalFault::ListResponse(e) => concat("ListShortcuts response: ", e.as_str()),
            PortalFault::Receive(e) => concat("receive_activated failed: ", e.as_str()),
            PortalFault::Spawn(e) => concat("failed to spawn hotkey thread: ", e.as_str()),
            PortalFault::Configure(e) => e.clone(),
        }
    }
}

/// The portal can be asked for shortcuts if it knows them at all.
pub fn check_query_version(version: u32) -> (r: Result<(), PortalFault>)
    ensures
        r == if version == 0 {
            Err::<(), _>(PortalFault::NotSupported)
        } else {
            Ok(())
        },
{
    if version == 0 {
        Err(PortalFault::NotSupported)
    } else {
        Ok(())
    }
}

/// A session that listens for shortcuts needs a portal that knows them.
pub fn check_session_version(version: u32) -> (r: Result<(), PortalFault>)
    ensures
        r == if version == 0 {
            Err::<(), _>(PortalFault::NotSupportedByBackend)
        } else {
            Ok(())
        },
{
    if version == 0 {
        Err(PortalFault::NotSupportedByBackend)
    } else {
        Ok(())
    }
}

/// The portal can show its settings for shortcuts from version 2 on.
pub fn check_configure_version(version: u32) -> (r: Result<(), PortalFault>)
    ensures
        r == if version < 2 {
            Err::<(), _>(PortalFault::TooOld(version))
        } else {
            Ok(())
        },
{
    if version < 2 {
        Err(PortalFault::TooOld(version))
    } else {
        Ok(())
    }
}

/// The error for which configuring is given up; after any other one the shortcuts are read again.
pub fn fatal_configure_error(error: &str) -> (r: bool)
    ensures
        r == text::holds(error@, "RequiresVersion"@),
{
    contains(error, "RequiresVersion")
}

/// The words of an error, in small letters, say that there are no global shortcuts here.
pub open spec fn names_unavailable(lowered: Seq<char>) -> bool {
    text::holds(lowered, "unavailable"@) || text::holds(lowered, "unsupported"@)
}

/// Whether the words of an error, in small letters, say that there are no global shortcuts here.
pub fn means_unavailable(lowered: &str) -> (r: bool)
    ensures
        r == names_unavailable(lowered@),
{
    contains(lowered, "unavailable") || contains(lowered, "unsupported")
}

/// The words of an error, in small letters, say that the dialog was left without a choice.
pub open spec fn names_cancelled(lowered: Seq<char>) -> bool {
    text::holds(lowered, "cancel"@) || text::holds(lowered, "dismiss"@) || text::holds(
        lowered,
        "closed"@,
    )
}

/// Whether the words of an error, in small letters, say that the dialog was left without a choice.
pub fn means_cancelled(lowered: &str) -> (r: bool)
    ensures
        r == names_cancelled(lowered@),
{
    contains(lowered, "cancel") || contains(lowered, "dismiss") || contains(lowered, "closed")
}

/// The first shortcut in a list of identifiers and triggers that is ours.
pub open spec fn own_shortcut(list: Seq<(Seq<char>, Seq<char>)>) -> Option<Seq<char>>
    decreases list.len(),
{
    if list.len() == 0 {
        None
    } else if registry::is_toggle_id(list.first().0) {
        Some(list.first().1)
    } else {
        own_shortcut(list.drop_first())
    }
}

/// Our trigger in a list: none where we are not in it or have an empty trigger.
pub open spec fn listed_trigger(list: Seq<(Seq<char>, Seq<char>)>) -> Option<Seq<char>> {
    match own_shortcut(list) {
        Some(raw) => if raw.len() == 0 {
            None
        } else {
            Some(raw)
        },
        None => None,
    }
}

fn is_empty_text(s: &str) -> (r: bool)
    ensures
        r == (s@.len() == 0),
{
    chars_of(s).len() == 0
}

/// Finds our trigger in the portal's list of identifiers and triggers.
pub fn own_trigger(list: &Vec<(String, String)>) -> (r: Option<String>)
    ensures
        text::maybe(r) == listed_trigger(settings::pairs(list@)),
{
    let ghost all = settings::pairs(list@);
    let mut i: usize = 0;
    assert(all.skip(0) =~= all);
    while i < list.len()
        invariant
            i <= list@.len(),
            all == settings::pairs(list@),
            own_shortcut(all) == own_shortcut(all.skip(i as int)),
        decreases list.len() - i,
    {
        assert(all.skip(i as int).drop_first() =~= all.skip(i + 1));
        assert(all.skip(i as int).first() == (list@[i as int].0@, list@[i as int].1@));
        if HotkeyAction::from_id(list[i].0.as_str()).is_some() {
            if is_empty_text(list[i].1.as_str()) {
                return None;
            }
            return Some(list[i].1.clone());
        }
        i = i + 1;
    }
    None
}

/// The first shortcut in a list without a trigger.
pub open spec fn first_without_trigger(list: Seq<(Seq<char>, Seq<char>)>) -> Option<Seq<char>>
    decreases list.len(),
{
    if list.len() == 0 {
        None
    } else if list.first().1.len() == 0 {
        Some(list.first().0)
    } else {
        first_without_trigger(list.drop_first())
    }
}

/// The last trigger in a list that is ours and not empty.
pub open spec fn last_own(list: Seq<(Seq<char>, Seq<char>)>) -> Option<Seq<char>>
    decreases list.len(),
{
    if list.len() == 0 {
        None
    } else if registry::is_toggle_id(list.last().0) && list.last().1.len() > 0 {
        Some(list.last().1)
    } else {
        last_own(list.drop_last())
    }
}

/// The shortcuts, what the portal reports of them, and the state of its session.
pub struct Hotkeys {
    pub bindings: Seq<(Seq<char>, HotkeyAction)>,
    pub enabled: bool,
    pub testing: bool,
    pub wayland: bool,
    pub trigger: Option<Seq<char>>,
    pub error: Option<Seq<char>>,
    pub running: bool,
}

impl Hotkeys {
    /// The last error says that there are no global shortcuts here.
    pub open spec fn unavailable(self) -> bool {
        self.error matches Some(e) && names_unavailable(text::lowercased(e))
    }

    /// The state after the portal confirmed or set a list of shortcuts, read in order.
    pub open spec fn after_list(self, list: Seq<(Seq<char>, Seq<char>)>) -> Hotkeys
        decreases list.len(),
    {
        if list.len() == 0 {
            self
        } else {
            let before = self.after_list(list.drop_last());
            let (id, trigger) = list.last();
            if registry::is_toggle_id(id) && trigger.len() > 0 {
                Hotkeys { trigger: Some(trigger), error: None, ..before }
            } else if id == "porda_toggle_v2"@ && trigger.len() == 0 {
                Hotkeys { trigger: None, ..before }
            } else {
                before
            }
        }
    }

    /// What is shown as the shortcut, given whether the last error means that there are none.
    pub open spec fn display(self, unavailable: bool) -> Seq<char> {
        if self.error matches Some(e) && (text::holds(e, "Global shortcuts unavailable"@)
            || text::holds(e, "Unsupported"@)) {
            "Global shortcuts unavailable"@
        } else if !self.enabled {
            match self.trigger {
                Some(raw) => trigger_display(raw),
                None => if self.bindings.len() > 0 {
                    trigger_display(self.bindings[0].0)
                } else {
                    "Not configured"@
                },
            }
        } else if !self.wayland || unavailable {
            "Global shortcuts unavailable"@
        } else {
            match self.trigger {
                Some(raw) => trigger_display(raw),
                None => "Not configured"@,
            }
        }
    }

    /// What is shown as the state of the portal, given whether the last error means that there are
    /// no global shortcuts.
    pub open spec fn status(self, unavailable: bool) -> Seq<char> {
        if !self.enabled && self.testing {
            Seq::empty()
        } else if !self.wayland {
            "Global shortcuts unavailable"@
        } else if self.error is Some {
            if unavailable {
                "Global shortcuts unavailable"@
            } else {
                Seq::empty()
            }
        } else if self.trigger is None {
            "Not configured"@
        } else {
            "Shortcut managed by desktop environment"@
        }
    }
}

/// What is left to do after a shortcut was registered.
#[derive(Debug)]
pub enum Registration {
    /// Nothing: the portal is not used.
    Done,
    /// A portal session is to be started for these shortcuts.
    Bind(Vec<(String, HotkeyAction)>),
}

/// What a question for the current trigger comes to.
#[derive(Debug)]
pub enum Query {
    Known(String),
    /// The portal is to be asked in a session with these shortcuts.
    Ask(Vec<(String, HotkeyAction)>),
}

/// What the portal is to let the user configure, and the trigger before that.
#[derive(Debug)]
pub struct Configuration {
    pub entries: Vec<(String, HotkeyAction)>,
    pub previous: Option<String>,
}

/// The global shortcut of the program.
pub struct LinuxHotkeyManager {
    pub action_tx: Sender<HotkeyAction>,
    pub registry: HotkeyRegistry,
    pub enable_portal: bool,
    pub testing: bool,
    pub wayland: bool,
    pub portal_trigger: Option<String>,
    pub portal_error: Option<String>,
    pub portal_running: bool,
}

impl View for LinuxHotkeyManager {
    type V = Hotkeys;

    open spec fn view(&self) -> Hotkeys {
        Hotkeys {
            bindings: self.registry@,
            enabled: self.enable_portal,
            testing: self.testing,
            wayland: self.wayland,
            trigger: text::maybe(self.portal_trigger),
            error: text::maybe(self.portal_error),
            running: self.portal_running,
        }
    }
}

impl LinuxHotkeyManager {
    pub open spec fn valid(&self) -> bool {
        self.registry.valid()
    }

    /// A manager without shortcuts; `enable_portal` says whether the portal is to be used, and
    /// `wayland` whether the session runs on Wayland.
    pub fn new(action_tx: Sender<HotkeyAction>, enable_portal: bool, wayland: bool) -> (r: Self)
        ensures
            r.valid(),
            r.action_tx == action_tx,
            r@ == (Hotkeys {
                bindings: Seq::empty(),
                enabled: enable_portal,
                testing: false,
                wayland,
                trigger: None,
                error: None,
                running: false,
            }),
    {
        LinuxHotkeyManager {
            action_tx,
            registry: HotkeyRegistry::new(),
            enable_portal,
            testing: false,
            wayland,
            portal_trigger: None,
            portal_error: None,
            portal_running: false,
        }
    }

    /// A manager that never uses the portal.
    pub fn new_for_test(action_tx: Sender<HotkeyAction>) -> (r: Self)
        ensures
            r.valid(),
            r.action_tx == action_tx,
            r@ == (Hotkeys {
                bindings: Seq::empty(),
                enabled: false,
                testing: true,
                wayland: false,
                trigger: None,
                error: None,
                running: false,
            }),
    {
        LinuxHotkeyManager {
            action_tx,
            registry: HotkeyRegistry::new(),
            enable_portal: false,
            testing: true,
            wayland: false,
            portal_trigger: None,
            portal_error: None,
            portal_running: false,
        }
    }

    /// Registers a shortcut. Where the portal is used, an earlier session of it ends, and a new
    /// one is to be started; without Wayland the registration fails and is taken back.
    pub fn register(&mut self, key: &str, action: HotkeyAction) -> (r: Result<Registration, String>)
        requires
            old(self).valid(),
        ensures
            final(self).valid(),
            final(self).action_tx == old(self).action_tx,
            match shortcut::normalized(key@) {
                Err(fault) => {
                    &&& r matches Err(e) && e@ == registry::fault_text(fault)
                    &&& final(self)@ == old(self)@
                },
                Ok(trigger) => {
                    let bound = seq![(trigger, action)];
                    if !old(self)@.enabled {
                        &&& r matches Ok(Registration::Done)
                        &&& final(self)@ == (Hotkeys { bindings: bound, ..old(self)@ })
                    } else if !old(self)@.wayland {
                        &&& r matches Err(e) && e@ == unsupported_text()
                        &&& final(self)@ == (Hotkeys { bindings: Seq::empty(), ..old(self)@ })
                    } else {
                        &&& r matches Ok(Registration::Bind(entries)) && registry::bindings(
                            entries@,
                        ) == bound
                        &&& final(self)@ == (Hotkeys {
                            bindings: bound,
                            running: false,
                            ..old(self)@
                        })
                    }
                },
            },
    {
        let ghost before = self.registry@;
        match self.registry.register(key, action) {
            Err(e) => {
                proof {
                    if shortcut::normalized(key@) is Ok {
                        lemma_only_one_action(before, shortcut::normalized(key@)->Ok_0, action);
                    }
                }
                Err(e.message())
            },
            Ok(norm) => {
                proof {
                    registry::law_registered_alone(before, norm@, action);
                    lemma_forgotten(norm@, action);
                }
                if self.enable_portal {
                    if !self.wayland {
                        self.registry.forget(action);
                        return Err(unsupported().message());
                    }
                    self.portal_running = false;
                    return Ok(Registration::Bind(self.registry.entries()));
                }
                Ok(Registration::Done)
            },
        }
    }

    /// What came of starting the portal session for a registered action: `None` where it ended
    /// without a word. A failure takes the registration back.
    pub fn session_started(
        &mut self,
        action: HotkeyAction,
        outcome: Option<Result<(), String>>,
    ) -> (r: Result<(), String>)
        requires
            old(self).valid(),
        ensures
            final(self).valid(),
            final(self).action_tx == old(self).action_tx,
            match outcome {
                Some(Ok(())) => {
                    &&& r is Ok
                    &&& final(self)@ == (Hotkeys { error: None, running: true, ..old(self)@ })
                },
                Some(Err(e)) => {
                    &&& r matches Err(t) && t@ == "portal session/binding failed: "@ + e@
                    &&& final(self)@ == (Hotkeys {
                        bindings: registry::without_action(old(self)@.bindings, action),
                        error: Some(e@),
                        ..old(self)@
                    })
                },
                None => {
                    let e =
                        "portal thread dropped without signalling readiness (session/bind/listen failed)"@;
                    &&& r matches Err(t) && t@ == e
                    &&& final(self)@ == (Hotkeys {
                        bindings: registry::without_action(old(self)@.bindings, action),
                        error: Some(e),
                        ..old(self)@
                    })
                },
            },
    {
        match outcome {
            Some(Ok(())) => {
                self.portal_running = true;
                self.portal_error = None;
                Ok(())
            },
            Some(Err(e)) => {
                let message = concat("portal session/binding failed: ", e.as_str());
                self.portal_error = Some(e);
                self.registry.forget(action);
                Err(message)
            },
            None => {
                let e =
                    "portal thread dropped without signalling readiness (session/bind/listen failed)".to_owned();
                self.portal_error = Some(e.clone());
                self.registry.forget(action);
                Err(e)
            },
        }
    }

    /// The thread of a portal session could not be started: the registration is taken back.
    pub fn session_not_spawned(&mut self, action: HotkeyAction, error: String) -> (r: Result<
        (),
        String,
    >)
        requires
            old(self).valid(),
        ensures
            final(self).valid(),
            final(self).action_tx == old(self).action_tx,
            r matches Err(t) && t@ == PortalFault::Spawn(error).text(),
            final(self)@ == (Hotkeys {
                bindings: registry::without_action(old(self)@.bindings, action),
                ..old(self)@
            }),
    {
        self.registry.forget(action);
        Err(PortalFault::Spawn(error).message())
    }

    /// Ends the portal session; the result says whether there was one.
    pub fn shutdown_portal(&mut self) -> (r: bool)
        requires
            old(self).valid(),
        ensures
            final(self).valid(),
            final(self).action_tx == old(self).action_tx,
            r == old(self)@.running,
            final(self)@ == (Hotkeys { running: false, ..old(self)@ }),
    {
        let was = self.portal_running;
        self.portal_running = false;
        was
    }

    /// Forgets all shortcuts and ends the portal session.
    pub fn unregister_all(&mut self) -> (r: Result<(), String>)
        requires
            old(self).valid(),
        ensures
            final(self).valid(),
            final(self).action_tx == old(self).action_tx,
            r is Ok,
            final(self)@ == (Hotkeys { bindings: Seq::empty(), running: false, ..old(self)@ }),
    {
        self.registry.unregister_all();
        self.portal_running = false;
        Ok(())
    }

    /// Replaces all shortcuts by one for the toggle. The old ones are gone even if the new one
    /// cannot be read.
    pub fn refresh(&mut self, toggle_key: &str) -> (r: Result<Registration, String>)
        requires
            old(self).valid(),
        ensures
            final(self).valid(),
            final(self).action_tx == old(self).action_tx,
            match shortcut::normalized(toggle_key@) {
                Err(fault) => {
                    &&& r matches Err(e) && e@ == registry::fault_text(fault)
                    &&& final(self)@ == (Hotkeys {
                        bindings: Seq::empty(),
                        running: false,
                        ..old(self)@
                    })
                },
                Ok(trigger) => {
                    let bound = seq![(trigger, HotkeyAction::ToggleDetection)];
                    if !old(self)@.enabled {
                        &&& r matches Ok(Registration::Done)
                        &&& final(self)@ == (Hotkeys { bindings: bound, running: false, ..old(self)@ })
                    } else if !old(self)@.wayland {
                        &&& r matches Err(e) && e@ == unsupported_text()
                        &&& final(self)@ == (Hotkeys {
                            bindings: Seq::empty(),
                            running: false,
                            ..old(self)@
                        })
                    } else {
                        &&& r matches Ok(Registration::Bind(entries)) && registry::bindings(
                            entries@,
                        ) == bound
                        &&& final(self)@ == (Hotkeys { bindings: bound, running: false, ..old(self)@ })
                    }
                },
            },
    {
        let _ = self.unregister_all();
        self.register(toggle_key, HotkeyAction::ToggleDetection)
    }

    pub fn is_supported(&self) -> (r: Result<(), String>)
        ensures
            r is Ok <==> self@.wayland,
            r matches Err(e) ==> e@ == unsupported_text(),
    {
        if self.wayland {
            Ok(())
        } else {
            Err(unsupported().message())
        }
    }

    pub fn registered_count(&self) -> (r: usize)
        ensures
            r == self@.bindings.len(),
    {
        self.registry.len()
    }

    pub fn is_registered(&self, shortcut: &str) -> (r: bool)
        requires
            self.valid(),
        ensures
            r == match shortcut::normalized(shortcut@) {
                Ok(trigger) => registry::is_bound(self@.bindings, trigger),
                Err(_) => false,
            },
    {
        self.registry.contains(shortcut)
    }

    fn error_means_unavailable(&self) -> (r: bool)
        ensures
            r == self@.unavailable(),
    {
        match &self.portal_error {
            Some(e) => means_unavailable(lowercase(e.as_str()).as_str()),
            None => false,
        }
    }

    /// What to show as the shortcut: the portal's word counts. `unavailable` says whether the last
    /// error means that there are no global shortcuts.
    pub fn shortcut_display(&self, unavailable: bool) -> (r: String)
        ensures
            r@ == self@.display(unavailable),
    {
        if let Some(e) = &self.portal_error {
            if contains(e.as_str(), "Global shortcuts unavailable") || contains(
                e.as_str(),
                "Unsupported",
            ) {
                return "Global shortcuts unavailable".to_owned();
            }
        }
        if !self.enable_portal {
            return match &self.portal_trigger {
                Some(raw) => format_trigger_display(raw.as_str()),
                None => {
                    let entries = self.registry.entries();
                    if entries.len() > 0 {
                        assert(registry::bindings(entries@)[0].0 == entries@[0].0@);
                        format_trigger_display(entries[0].0.as_str())
                    } else {
                        "Not configured".to_owned()
                    }
                },
            };
        }
        if !self.wayland || unavailable {
            return "Global shortcuts unavailable".to_owned();
        }
        match &self.portal_trigger {
            Some(raw) => format_trigger_display(raw.as_str()),
            None => "Not configured".to_owned(),
        }
    }

    /// What to show as the shortcut.
    pub fn current_shortcut_display(&self) -> (r: String)
        ensures
            r@ == self@.display(self@.unavailable()),
    {
        self.shortcut_display(self.error_means_unavailable())
    }

    /// Whether the portal can be used.
    pub fn is_portal_available(&self) -> (r: bool)
        ensures
            r == (self@.enabled && self@.wayland && !self@.unavailable()),
    {
        self.enable_portal && self.wayland && !self.error_means_unavailable()
    }

    /// What to show as the state of the portal. `unavailable` says whether the last error means
    /// that there are no global shortcuts.
    pub fn status_text(&self, unavailable: bool) -> (r: String)
        ensures
            r@ == self@.status(unavailable),
    {
        if !self.enable_portal && self.testing {
            return String::new();
        }
        if !self.wayland {
            return "Global shortcuts unavailable".to_owned();
        }
        if self.portal_error.is_some() {
            if unavailable {
                return "Global shortcuts unavailable".to_owned();
            }
            return String::new();
        }
        if self.portal_trigger.is_none() {
            return "Not configured".to_owned();
        }
        "Shortcut managed by desktop environment".to_owned()
    }

    pub fn portal_status_text(&self) -> (r: String)
        ensures
            r@ == self@.status(self@.unavailable()),
    {
        self.status_text(self.error_means_unavailable())
    }

    /// Begins to ask for the current trigger.
    pub fn query_portal_trigger(&mut self) -> (r: Result<Query, String>)
        requires
            old(self).valid(),
        ensures
            final(self).valid(),
            final(self).action_tx == old(self).action_tx,
            if !old(self)@.enabled {
                &&& r matches Ok(Query::Known(t)) && t@ == old(self)@.display(
                    old(self)@.unavailable(),
                )
                &&& final(self)@ == old(self)@
            } else if !old(self)@.wayland {
                &&& r matches Err(e) && e@ == unsupported_text()
                &&& final(self)@ == (Hotkeys { error: Some(unsupported_text()), ..old(self)@ })
            } else {
                &&& r matches Ok(Query::Ask(entries)) && registry::bindings(entries@)
                    == old(self)@.bindings
                &&& final(self)@ == old(self)@
            },
    {
        if !self.enable_portal {
            return Ok(Query::Known(self.current_shortcut_display()));
        }
        if !self.wayland {
            let message = unsupported().message();
            self.portal_error = Some(message.clone());
            return Err(message);
        }
        Ok(Query::Ask(self.registry.entries()))
    }

    /// The portal's answer to the question for the current trigger.
    pub fn query_finished(&mut self, result: Result<Option<String>, String>) -> (r: Result<
        String,
        String,
    >)
        requires
            old(self).valid(),
        ensures
            final(self).valid(),
            final(self).action_tx == old(self).action_tx,
            match result {
                Ok(trigger) => {
                    &&& r matches Ok(t) && t@ == shown(text::maybe(trigger))
                    &&& final(self)@ == (Hotkeys {
                        trigger: text::maybe(trigger),
                        error: None,
                        ..old(self)@
                    })
                },
                Err(e) => {
                    &&& r matches Err(t) && t@ == e@
                    &&& final(self)@ == (Hotkeys { error: Some(e@), ..old(self)@ })
                },
            },
    {
        match result {
            Ok(trigger) => {
                let t = show(&trigger);
                self.portal_trigger = trigger;
                self.portal_error = None;
                Ok(t)
            },
            Err(e) => {
                self.portal_error = Some(e.clone());
                Err(e)
            },
        }
    }

    /// Begins to let the user configure the shortcut in the portal.
    pub fn configure_shortcut(&mut self) -> (r: Result<Configuration, String>)
        requires
            old(self).valid(),
        ensures
            final(self).valid(),
            final(self).action_tx == old(self).action_tx,
            if !old(self)@.enabled {
                &&& r matches Err(e) && e@ == "portal disabled (test mode)"@
                &&& final(self)@ == old(self)@
            } else if !old(self)@.wayland {
                &&& r matches Err(e) && e@ == unsupported_text()
                &&& final(self)@ == (Hotkeys { error: Some(unsupported_text()), ..old(self)@ })
            } else if old(self)@.bindings.len() == 0 {
                &&& r matches Err(e) && e@ == "no hotkey registered to configure"@
                &&& final(self)@ == old(self)@
            } else {
                &&& r matches Ok(c) && registry::bindings(c.entries@) == old(self)@.bindings
                    && text::maybe(c.previous) == old(self)@.trigger
                &&& final(self)@ == old(self)@
            },
    {
        if !self.enable_portal {
            return Err("portal disabled (test mode)".to_owned());
        }
        if !self.wayland {
            let message = unsupported().message();
            self.portal_error = Some(message.clone());
            return Err(message);
        }
        if self.registry.len() == 0 {
            return Err("no hotkey registered to configure".to_owned());
        }
        Ok(
            Configuration {
                entries: self.registry.entries(),
                previous: copy_maybe(&self.portal_trigger),
            },
        )
    }

    /// What came of configuring, where `lowered` holds the words of an error in small letters.
    /// After a dialog that was left without a choice the trigger from before stands again.
    pub fn configured_with(
        &mut self,
        previous: Option<String>,
        result: Result<Option<String>, String>,
        lowered: &str,
    ) -> (r: Result<String, String>)
        requires
            old(self).valid(),
        ensures
            final(self).valid(),
            final(self).action_tx == old(self).action_tx,
            configured(
                old(self)@,
                text::maybe(previous),
                result,
                lowered@,
                final(self)@,
                r,
            ),
    {
        match result {
            Ok(trigger) => {
                let t = show(&trigger);
                self.portal_trigger = trigger;
                self.portal_error = None;
                Ok(t)
            },
            Err(e) => {
                if means_unavailable(lowered) || contains(e.as_str(), "RequiresVersion") {
                    self.portal_error = Some(e.clone());
                    return Err(e);
                }
                if means_cancelled(lowered) {
                    let t = show(&previous);
                    self.portal_trigger = previous;
                    return Ok(t);
                }
                self.portal_error = Some(e.clone());
                Err(e)
            },
        }
    }

    /// What came of configuring.
    pub fn configured(&mut self, previous: Option<String>, result: Result<Option<String>, String>) -> (
    r: Result<String, String>)
        requires
            old(self).valid(),
        ensures
            final(self).valid(),
            final(self).action_tx == old(self).action_tx,
            configured(
                old(self)@,
                text::maybe(previous),
                result,
                match result {
                    Ok(_) => Seq::empty(),
                    Err(e) => text::lowercased(e@),
                },
                final(self)@,
                r,
            ),
    {
        let lowered = match &result {
            Ok(_) => String::new(),
            Err(e) => lowercase(e.as_str()),
        };
        self.configured_with(previous, result, lowered.as_str())
    }

    /// The portal's answer to the request to bind the shortcuts, as identifiers and triggers. A
    /// shortcut without a trigger was not bound.
    pub fn bound(&mut self, list: &Vec<(String, String)>) -> (r: Result<(), PortalFault>)
        requires
            old(self).valid(),
        ensures
            final(self).valid(),
            final(self).action_tx == old(self).action_tx,
            match first_without_trigger(settings::pairs(list@)) {
                Some(id) => {
                    &&& r matches Err(PortalFault::NoTrigger(t)) && t@ == id
                    &&& final(self)@ == old(self)@
                },
                None => {
                    &&& r is Ok
                    &&& final(self)@ == match last_own(settings::pairs(list@)) {
                        Some(trigger) => Hotkeys {
                            trigger: Some(trigger),
                            error: None,
                            ..old(self)@
                        },
                        None => old(self)@,
                    }
                },
            },
    {
        let ghost all = settings::pairs(list@);
        let mut own: Option<String> = None;
        let mut i: usize = 0;
        assert(all.skip(0) =~= all);
        assert(all.take(0) =~= Seq::empty());
        while i < list.len()
            invariant
                i <= list@.len(),
                all == settings::pairs(list@),
                *self == *old(self),
                self.valid(),
                first_without_trigger(all) == first_without_trigger(all.skip(i as int)),
                text::maybe(own) == last_own(all.take(i as int)),
            decreases list.len() - i,
        {
            assert(all.skip(i as int).drop_first() =~= all.skip(i + 1));
            assert(all.take(i + 1).drop_last() =~= all.take(i as int));
            assert(all[i as int] == (list@[i as int].0@, list@[i as int].1@));
            if is_empty_text(list[i].1.as_str()) {
                return Err(PortalFault::NoTrigger(list[i].0.clone()));
            }
            if HotkeyAction::from_id(list[i].0.as_str()).is_some() {
                own = Some(list[i].1.clone());
            }
            i = i + 1;
        }
        assert(all.take(i as int) =~= all);
        if own.is_some() {
            self.portal_trigger = own;
            self.portal_error = None;
        }
        Ok(())
    }

    /// The portal's list of shortcuts, as identifiers and triggers, read to confirm what was bound.
    pub fn listed(&mut self, list: &Vec<(String, String)>)
        requires
            old(self).valid(),
        ensures
            final(self).valid(),
            final(self).action_tx == old(self).action_tx,
            final(self)@ == old(self)@.after_list(settings::pairs(list@)),
    {
        let ghost all = settings::pairs(list@);
        let mut i: usize = 0;
        assert(all.take(0) =~= Seq::empty());
        while i < list.len()
            invariant
                i <= list@.len(),
                all == settings::pairs(list@),
                self.valid(),
                self.action_tx == old(self).action_tx,
                self@ == old(self)@.after_list(all.take(i as int)),
            decreases list.len() - i,
        {
            assert(all.take(i + 1).drop_last() =~= all.take(i as int));
            assert(all[i as int] == (list@[i as int].0@, list@[i as int].1@));
            let empty = is_empty_text(list[i].1.as_str());
            if HotkeyAction::from_id(list[i].0.as_str()).is_some() && !empty {
                self.portal_trigger = Some(list[i].1.clone());
                self.portal_error = None;
            } else if same(list[i].0.as_str(), "porda_toggle_v2") && empty {
                self.portal_trigger = None;
            }
            i = i + 1;
        }
        assert(all.take(i as int) =~= all);
    }
}

/// How a trigger is shown that the portal may not have.
pub open spec fn shown(trigger: Option<Seq<char>>) -> Seq<char> {
    match trigger {
        Some(raw) => trigger_display(raw),
        None => "Not configured"@,
    }
}

fn show(trigger: &Option<String>) -> (r: String)
    ensures
        r@ == shown(text::maybe(*trigger)),
{
    match trigger {
        Some(raw) => format_trigger_display(raw.as_str()),
        None => "Not configured".to_owned(),
    }
}

/// What configuring comes to: the state after it, and what is shown or the error.
pub open spec fn configured(
    before: Hotkeys,
    previous: Option<Seq<char>>,
    result: Result<Option<String>, String>,
    lowered: Seq<char>,
    after: Hotkeys,
    r: Result<String, String>,
) -> bool {
    match result {
        Ok(trigger) => {
            &&& r matches Ok(t) && t@ == shown(text::maybe(trigger))
            &&& after == (Hotkeys { trigger: text::maybe(trigger), error: None, ..before })
        },
        Err(e) => if !names_unavailable(lowered) && !text::holds(e@, "RequiresVersion"@)
            && names_cancelled(lowered) {
            &&& r matches Ok(t) && t@ == shown(previous)
            &&& after == (Hotkeys { trigger: previous, ..before })
        } else {
            &&& r matches Err(t) && t@ == e@
            &&& after == (Hotkeys { error: Some(e@), ..before })
        },
    }
}

proof fn lemma_only_one_action(
    bs: Seq<(Seq<char>, HotkeyAction)>,
    trigger: Seq<char>,
    action: HotkeyAction,
)
    ensures
        bs.contains((trigger, action)) || !registry::is_bound(bs, trigger),
{
    if registry::is_bound(bs, trigger) {
        let i = choose|i: int| 0 <= i < bs.len() && (#[trigger] bs[i]).0 == trigger;
        assert(bs[i].1 is ToggleDetection && action is ToggleDetection);
        assert(bs[i] == (trigger, action));
    }
}

proof fn lemma_forgotten(trigger: Seq<char>, action: HotkeyAction)
    ensures
        registry::without_action(seq![(trigger, action)], action) == Seq::<
            (Seq<char>, HotkeyAction),
        >::empty(),
{
    let bs = seq![(trigger, action)];
    assert(bs.drop_last() =~= Seq::empty());
    assert(registry::without_action(bs.drop_last(), action) =~= Seq::empty());
}

/// A shortcut that is registered is found, and taking its action back, as after a session that
/// failed, leaves nothing registered.
pub proof fn law_register_then_fail(trigger: Seq<char>, action: HotkeyAction)
    ensures
        registry::is_bound(seq![(trigger, action)], trigger),
        registry::without_action(seq![(trigger, action)], action) == Seq::<
            (Seq<char>, HotkeyAction),
        >::empty(),
{
    lemma_forgotten(trigger, action);
    assert(seq![(trigger, action)][0].0 == trigger);
}

/// What counts of a list that the portal confirmed is the last trigger of the toggle that is not
/// empty.
pub proof fn law_last_own(list: Seq<(Seq<char>, Seq<char>)>, k: int)
    requires
        -1 <= k < list.len(),
        forall|j: int|
            k < j < list.len() ==> !registry::is_toggle_id((#[trigger] list[j]).0) || list[j].1.len()
                == 0,
        k >= 0 ==> registry::is_toggle_id(list[k].0) && list[k].1.len() > 0,
    ensures
        last_own(list) == (if k >= 0 {
            Some(list[k].1)
        } else {
            None
        }),
    decreases list.len(),
{
    if list.len() > 0 && k < list.len() - 1 {
        let front = list.drop_last();
        assert(!registry::is_toggle_id(list[list.len() - 1].0) || list[list.len() - 1].1.len() == 0);
        assert forall|j: int| k < j < front.len() implies !registry::is_toggle_id(
            (#[trigger] front[j]).0,
        ) || front[j].1.len() == 0 by {
            assert(front[j] == list[j]);
        }
        law_last_own(front, k);
    }
}

/// Of a list that the portal set, the last entry of the toggle decides: with a trigger it sets
/// the trigger and takes the error away; an empty one of the newest name takes the trigger away.
/// Nothing else changes.
pub proof fn law_after_list(h: Hotkeys, list: Seq<(Seq<char>, Seq<char>)>, k: int)
    requires
        -1 <= k < list.len(),
        forall|j: int|
            k < j < list.len() ==> !registry::is_toggle_id((#[trigger] list[j]).0) || (list[j].1.len()
                == 0 && list[j].0 != "porda_toggle_v2"@),
        k >= 0 ==> registry::is_toggle_id(list[k].0) && (list[k].1.len() > 0 || list[k].0
            == "porda_toggle_v2"@),
    ensures
        ({
            let after = h.after_list(list);
            &&& after.bindings == h.bindings
            &&& after.enabled == h.enabled
            &&& after.testing == h.testing
            &&& after.wayland == h.wayland
            &&& after.running == h.running
            &&& k == -1 ==> after == h
            &&& k >= 0 && list[k].1.len() > 0 ==> after.trigger == Some(list[k].1)
                && after.error is None
            &&& k >= 0 && list[k].1.len() == 0 ==> after.trigger is None
            &&& h.error is None ==> after.error is None
        }),
    decreases list.len(),
{
    if list.len() > 0 {
        let front = list.drop_last();
        if k < list.len() - 1 {
            let last = list[list.len() - 1];
            assert(!registry::is_toggle_id(last.0) || (last.1.len() == 0 && last.0
                != "porda_toggle_v2"@));
            assert forall|j: int| k < j < front.len() implies !registry::is_toggle_id(
                (#[trigger] front[j]).0,
            ) || (front[j].1.len() == 0 && front[j].0 != "porda_toggle_v2"@) by {
                assert(front[j] == list[j]);
            }
            law_after_list(h, front, k);
        } else {
            lemma_after_list_keeps(h, front);
        }
    }
}

proof fn lemma_after_list_keeps(h: Hotkeys, list: Seq<(Seq<char>, Seq<char>)>)
    ensures
        ({
            let after = h.after_list(list);
            &&& after.bindings == h.bindings
            &&& after.enabled == h.enabled
            &&& after.testing == h.testing
            &&& after.wayland == h.wayland
            &&& after.running == h.running
            &&& h.error is None ==> after.error is None
        }),
    decreases list.len(),
{
    if list.len() > 0 {
        lemma_after_list_keeps(h, list.drop_last());
    }
}

/// What is shown as the shortcut and as the state of the portal agree, while shortcuts are on and
/// nothing failed.
pub proof fn law_display_and_status(h: Hotkeys, unavailable: bool)
    requires
        h.enabled,
        h.error is None,
    ensures
        !h.wayland ==> h.display(unavailable) == "Global shortcuts unavailable"@ && h.status(
            unavailable,
        ) == "Global shortcuts unavailable"@,
        h.wayland && !unavailable && h.trigger is None ==> h.display(unavailable)
            == "Not configured"@ && h.status(unavailable) == "Not configured"@,
        h.wayland && !unavailable && h.trigger is Some ==> h.display(unavailable)
            == trigger_display(h.trigger->0) && h.status(unavailable)
            == "Shortcut managed by desktop environment"@,
{
}

/// An error is never shown as if there were a shortcut.
pub proof fn law_error_hides_state(h: Hotkeys, unavailable: bool)
    requires
        h.error is Some,
        h.enabled,
    ensures
        h.status(unavailable) == "Global shortcuts unavailable"@ || h.status(unavailable).len() == 0,
        (h.status(unavailable).len() > 0) == (!h.wayland || unavailable),
{
    reveal_strlit("Global shortcuts unavailable");
}

} // verus!
