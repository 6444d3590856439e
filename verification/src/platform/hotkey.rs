//! Shortcuts kept in memory, without a desktop that listens for them.

use vstd::prelude::*;

use crate::platform::registry;
use crate::platform::registry::HotkeyAction;
use crate::platform::shortcut;
use crate::platform::shortcut::normalize_shortcut;
use crate::text::{concat, same};

verus! {

/// The command of the user interface that an action stands for.
pub open spec fn command_name(action: HotkeyAction) -> Seq<char> {
    match action {
        HotkeyAction::ToggleDetection => "ToggleActivation"@,
    }
}

/// The name of the command of the user interface that an action stands for.
pub fn hotkey_action_to_command_name(action: HotkeyAction) -> (r: &'static str)
    ensures
        r@ == command_name(action),
{
    match action {
        HotkeyAction::ToggleDetection => "ToggleActivation",
    }
}

/// No shortcut stands twice.
pub open spec fn no_repeats(bs: Seq<(Seq<char>, HotkeyAction)>) -> bool {
    forall|i: int, j: int|
        0 <= i < j < bs.len() ==> (#[trigger] bs[i]).0 != (#[trigger] bs[j]).0
}

/// Shortcuts and their actions. An action may have several shortcuts.
#[derive(Debug)]
pub struct HotkeyManager {
    hotkeys: Vec<(String, HotkeyAction)>,
}

impl View for HotkeyManager {
    type V = Seq<(Seq<char>, HotkeyAction)>;

    closed spec fn view(&self) -> Seq<(Seq<char>, HotkeyAction)> {
        registry::bindings(self.hotkeys@)
    }
}

impl HotkeyManager {
    pub open spec fn valid(&self) -> bool {
        no_repeats(self@)
    }

    pub fn new() -> (r: Self)
        ensures
            r.valid(),
            r@ == Seq::<(Seq<char>, HotkeyAction)>::empty(),
    {
        let r = HotkeyManager { hotkeys: Vec::new() };
        assert(r@ =~= Seq::empty());
        r
    }

    fn action_of(&self, trigger: &str) -> (r: Option<HotkeyAction>)
        requires
            self.valid(),
        ensures
            match r {
                Some(action) => {
                    &&& registry::is_bound(self@, trigger@)
                    &&& forall|other: HotkeyAction|
                        self@.contains((trigger@, other)) <==> other == action
                },
                None => !registry::is_bound(self@, trigger@),
            },
    {
        let mut i: usize = 0;
        while i < self.hotkeys.len()
            invariant
                i <= self.hotkeys@.len(),
                self.valid(),
                self@ == registry::bindings(self.hotkeys@),
                forall|k: int| 0 <= k < i ==> (#[trigger] self@[k]).0 != trigger@,
            decreases self.hotkeys.len() - i,
        {
            assert(self@[i as int] == (self.hotkeys@[i as int].0@, self.hotkeys@[i as int].1));
            if same(self.hotkeys[i].0.as_str(), trigger) {
                let action = self.hotkeys[i].1;
                assert(self@[i as int] == (trigger@, action));
                assert forall|other: HotkeyAction|
                    self@.contains((trigger@, other)) implies other == action by {
                    let k = choose|k: int| 0 <= k < self@.len() && self@[k] == (trigger@, other);
                    assert(self@[k].0 == self@[i as int].0);
                }
                return Some(action);
            }
            i = i + 1;
        }
        None
    }

    /// Gives an action a shortcut, unless the shortcut belongs to another one.
    pub fn register(&mut self, key: &str, action: HotkeyAction) -> (r: Result<(), String>)
        requires
            old(self).valid(),
        ensures
            final(self).valid(),
            match shortcut::normalized(key@) {
                Err(fault) => {
                    &&& r matches Err(e) && e@ == registry::fault_text(fault)
                    &&& final(self)@ == old(self)@
                },
                Ok(trigger) => if old(self)@.contains((trigger, action)) {
                    &&& r is Ok
                    &&& final(self)@ == old(self)@
                } else if registry::is_bound(old(self)@, trigger) {
                    &&& r matches Err(e) && e@ == "shortcut already registered: "@ + trigger
                    &&& final(self)@ == old(self)@
                } else {
                    &&& r is Ok
                    &&& final(self)@ == old(self)@.push((trigger, action))
                },
            },
    {
        let norm = match normalize_shortcut(key) {
            Ok(norm) => norm,
            Err(e) => {
                return Err(e.message());
            },
        };
        match self.action_of(norm.as_str()) {
            Some(existing) => {
                if existing == action {
                    Ok(())
                } else {
                    Err(concat("shortcut already registered: ", norm.as_str()))
                }
            },
            None => {
                let ghost before = self@;
                let ghost t = norm@;
                self.hotkeys.push((norm, action));
                proof {
                    assert(self@ =~= before.push((t, action)));
                    if before.contains((t, action)) {
                        let k = choose|k: int| 0 <= k < before.len() && before[k] == (t, action);
                        assert(before[k].0 == t);
                    }
                    assert forall|i: int, j: int| 0 <= i < j < self@.len() implies (
                    #[trigger] self@[i]).0 != (#[trigger] self@[j]).0 by {
                        assert(self@[i] == before[i]);
                        if j < before.len() {
                            assert(self@[j] == before[j]);
                        }
                    }
                }
                Ok(())
            },
        }
    }

    pub fn unregister_all(&mut self) -> (r: Result<(), String>)
        ensures
            final(self).valid(),
            r is Ok,
            final(self)@ == Seq::<(Seq<char>, HotkeyAction)>::empty(),
    {
        self.hotkeys = Vec::new();
        assert(self@ =~= Seq::empty());
        Ok(())
    }

    /// Replaces all shortcuts by one for the toggle. A shortcut that cannot be read changes
    /// nothing.
    pub fn refresh(&mut self, toggle_key: &str) -> (r: Result<(), String>)
        requires
            old(self).valid(),
        ensures
            final(self).valid(),
            match shortcut::normalized(toggle_key@) {
                Err(fault) => {
                    &&& r matches Err(e) && e@ == registry::fault_text(fault)
                    &&& final(self)@ == old(self)@
                },
                Ok(trigger) => {
                    &&& r is Ok
                    &&& final(self)@ == seq![(trigger, HotkeyAction::ToggleDetection)]
                },
            },
    {
        if let Err(e) = normalize_shortcut(toggle_key) {
            return Err(e.message());
        }
        let _ = self.unregister_all();
        self.register(toggle_key, HotkeyAction::ToggleDetection)
    }

    pub fn count(&self) -> (r: usize)
        ensures
            r == self@.len(),
    {
        self.hotkeys.len()
    }

    /// Whether some action has the shortcut, in whatever form it is written.
    pub fn is_registered(&self, key: &str) -> (r: bool)
        requires
            self.valid(),
        ensures
            r == match shortcut::normalized(key@) {
                Ok(trigger) => registry::is_bound(self@, trigger),
                Err(_) => false,
            },
    {
        match normalize_shortcut(key) {
            Ok(norm) => self.action_of(norm.as_str()).is_some(),
            Err(_) => false,
        }
    }
}

impl Default for HotkeyManager {
    fn default() -> (r: Self)
        ensures
            r.valid(),
            r@ == Seq::<(Seq<char>, HotkeyAction)>::empty(),
    {
        HotkeyManager::new()
    }
}

} // verus!
