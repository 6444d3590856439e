//! Which shortcut triggers which action.

use vstd::prelude::*;

use crate::platform::shortcut;
use crate::platform::shortcut::{normalize_shortcut, HotkeyError, ShortcutFault};
use crate::text::{concat, same};

verus! {

/// What a global shortcut can trigger.
#[derive(Debug, Clone, Copy, PartialEq, Eq, Structural)]
pub enum HotkeyAction {
    ToggleDetection,
}

/// Identifiers under which the toggle was known to the desktop in earlier releases.
pub open spec fn is_toggle_id(id: Seq<char>) -> bool {
    id == "porda_toggle_v2"@ || id == "porda_toggle"@ || id == "toggle"@
}

impl HotkeyAction {
    pub open spec fn id_text(self) -> Seq<char> {
        match self {
            HotkeyAction::ToggleDetection => "porda_toggle_v2"@,
        }
    }

    pub open spec fn description_text(self) -> Seq<char> {
        match self {
            HotkeyAction::ToggleDetection => "Toggle Detection"@,
        }
    }

    pub open spec fn name_text(self) -> Seq<char> {
        match self {
            HotkeyAction::ToggleDetection => "ToggleDetection"@,
        }
    }

    pub open spec fn of_id(id: Seq<char>) -> Option<HotkeyAction> {
        if is_toggle_id(id) {
            Some(HotkeyAction::ToggleDetection)
        } else {
            None
        }
    }

    /// The identifier under which the desktop knows the action.
    pub fn id(&self) -> (r: &'static str)
        ensures
            r@ == self.id_text(),
    {
        match self {
            HotkeyAction::ToggleDetection => "porda_toggle_v2",
        }
    }

    pub fn description(&self) -> (r: &'static str)
        ensures
            r@ == self.description_text(),
    {
        match self {
            HotkeyAction::ToggleDetection => "Toggle Detection",
        }
    }

    fn name(&self) -> (r: &'static str)
        ensures
            r@ == self.name_text(),
    {
        match self {
            HotkeyAction::ToggleDetection => "ToggleDetection",
        }
    }

    /// The action with an identifier, present or earlier.
    pub fn from_id(id: &str) -> (r: Option<HotkeyAction>)
        ensures
            r == HotkeyAction::of_id(id@),
    {
        if same(id, "porda_toggle_v2") || same(id, "porda_toggle") || same(id, "toggle") {
            Some(HotkeyAction::ToggleDetection)
        } else {
            None
        }
    }
}

/// Every action is found again by its identifier.
pub proof fn law_action_of_id(action: HotkeyAction)
    ensures
        HotkeyAction::of_id(action.id_text()) == Some(action),
{
}

/// The texts of shortcuts with their actions.
pub open spec fn bindings(v: Seq<(String, HotkeyAction)>) -> Seq<(Seq<char>, HotkeyAction)> {
    v.map_values(|b: (String, HotkeyAction)| (b.0@, b.1))
}

/// Some action has the shortcut.
pub open spec fn is_bound(bs: Seq<(Seq<char>, HotkeyAction)>, trigger: Seq<char>) -> bool {
    exists|i: int| 0 <= i < bs.len() && (#[trigger] bs[i]).0 == trigger
}

/// The bindings of other actions.
pub open spec fn without_action(
    bs: Seq<(Seq<char>, HotkeyAction)>,
    action: HotkeyAction,
) -> Seq<(Seq<char>, HotkeyAction)>
    decreases bs.len(),
{
    if bs.len() == 0 {
        bs
    } else {
        let before = without_action(bs.drop_last(), action);
        if bs.last().1 == action {
            before
        } else {
            before.push(bs.last())
        }
    }
}

/// No two bindings have a shortcut or an action in common.
pub open spec fn distinct(bs: Seq<(Seq<char>, HotkeyAction)>) -> bool {
    forall|i: int, j: int|
        0 <= i < j < bs.len() ==> (#[trigger] bs[i]).0 != (#[trigger] bs[j]).0 && bs[i].1
            != bs[j].1
}

/// The bindings after an action is given a shortcut in its uniform form.
pub open spec fn rebound(
    bs: Seq<(Seq<char>, HotkeyAction)>,
    trigger: Seq<char>,
    action: HotkeyAction,
) -> Seq<(Seq<char>, HotkeyAction)> {
    if is_bound(bs, trigger) {
        bs
    } else {
        without_action(bs, action).push((trigger, action))
    }
}

/// The words for a shortcut that cannot be read.
pub open spec fn fault_text(fault: ShortcutFault) -> Seq<char> {
    match fault {
        ShortcutFault::Empty => "shortcut is empty"@,
        ShortcutFault::Invalid(t) => "invalid shortcut: "@ + t,
    }
}

/// Shortcuts and their actions.
#[derive(Debug)]
pub struct HotkeyRegistry {
    bindings: Vec<(String, HotkeyAction)>,
}

impl View for HotkeyRegistry {
    type V = Seq<(Seq<char>, HotkeyAction)>;

    closed spec fn view(&self) -> Seq<(Seq<char>, HotkeyAction)> {
        bindings(self.bindings@)
    }
}

impl HotkeyRegistry {
    /// Nothing is bound twice.
    pub open spec fn valid(&self) -> bool {
        distinct(self@)
    }

    pub fn new() -> (r: Self)
        ensures
            r.valid(),
            r@ == Seq::<(Seq<char>, HotkeyAction)>::empty(),
    {
        let r = HotkeyRegistry { bindings: Vec::new() };
        assert(r@ =~= Seq::empty());
        r
    }

    fn action_of(&self, trigger: &str) -> (r: Option<HotkeyAction>)
        requires
            self.valid(),
        ensures
            match r {
                Some(action) => self@.contains((trigger@, action)) && is_bound(self@, trigger@),
                None => !is_bound(self@, trigger@),
            },
    {
        let mut i: usize = 0;
        while i < self.bindings.len()
            invariant
                i <= self.bindings@.len(),
                self@ == bindings(self.bindings@),
                forall|k: int| 0 <= k < i ==> (#[trigger] self@[k]).0 != trigger@,
            decreases self.bindings.len() - i,
        {
            assert(self@[i as int] == (self.bindings@[i as int].0@, self.bindings@[i as int].1));
            if same(self.bindings[i].0.as_str(), trigger) {
                assert(self@[i as int] == (trigger@, self.bindings@[i as int].1));
                return Some(self.bindings[i].1);
            }
            i = i + 1;
        }
        None
    }

    fn drop_action(&mut self, action: HotkeyAction)
        ensures
            final(self)@ == without_action(old(self)@, action),
    {
        let ghost all = self@;
        let mut kept: Vec<(String, HotkeyAction)> = Vec::new();
        let mut i: usize = 0;
        assert(bindings(kept@) =~= without_action(all.take(0), action));
        while i < self.bindings.len()
            invariant
                i <= self.bindings@.len(),
                all == self@,
                all == bindings(self.bindings@),
                bindings(kept@) == without_action(all.take(i as int), action),
            decreases self.bindings.len() - i,
        {
            assert(all.take(i + 1).drop_last() =~= all.take(i as int));
            let ghost before = kept@;
            if self.bindings[i].1 != action {
                let b = (self.bindings[i].0.clone(), self.bindings[i].1);
                kept.push(b);
                assert(bindings(kept@) =~= bindings(before).push(all[i as int]));
            }
            i = i + 1;
        }
        assert(all.take(i as int) =~= all);
        self.bindings = kept;
    }

    /// Gives an action a shortcut. A shortcut that the action has already stays; one that another
    /// action has is refused; otherwise the shortcut takes the place of the one that the action
    /// had.
    pub fn register(&mut self, shortcut: &str, action: HotkeyAction) -> (r: Result<
        String,
        HotkeyError,
    >)
        requires
            old(self).valid(),
        ensures
            final(self).valid(),
            match shortcut::normalized(shortcut@) {
                Err(fault) => {
                    &&& r matches Err(e) && e.text() == fault_text(fault)
                    &&& final(self)@ == old(self)@
                },
                Ok(trigger) => if old(self)@.contains((trigger, action)) || !is_bound(
                    old(self)@,
                    trigger,
                ) {
                    &&& r matches Ok(t) && t@ == trigger
                    &&& final(self)@ == rebound(old(self)@, trigger, action)
                } else {
                    &&& r matches Err(HotkeyError::AlreadyRegistered(t))
                    &&& exists|other: HotkeyAction| #[trigger]
                        old(self)@.contains((trigger, other)) && t@ == "'"@ + trigger
                            + "' already bound to "@ + other.name_text()
                    &&& final(self)@ == old(self)@
                },
            },
    {
        let norm = match normalize_shortcut(shortcut) {
            Ok(norm) => norm,
            Err(e) => {
                return Err(e);
            },
        };
        match self.action_of(norm.as_str()) {
            Some(existing) => {
                if existing == action {
                    Ok(norm)
                } else {
                    proof {
                        lemma_one_action(self@, norm@, existing, action);
                    }
                    let quoted = concat(concat("'", norm.as_str()).as_str(), "' already bound to ");
                    Err(HotkeyError::AlreadyRegistered(concat(quoted.as_str(), existing.name())))
                }
            },
            None => {
                let ghost before = self@;
                proof {
                    lemma_without_action(before, action);
                    if before.contains((norm@, action)) {
                        let i = choose|i: int|
                            0 <= i < before.len() && before[i] == (norm@, action);
                        assert(before[i].0 == norm@);
                    }
                }
                self.drop_action(action);
                self.bindings.push((norm.clone(), action));
                proof {
                    assert(self@ =~= without_action(before, action).push((norm@, action)));
                    let rest = without_action(before, action);
                    assert forall|i: int, j: int| 0 <= i < j < self@.len() implies (
                    #[trigger] self@[i]).0 != (#[trigger] self@[j]).0 && self@[i].1 != self@[j].1 by {
                        assert(self@[i] == rest[i]);
                        assert(before.contains(rest[i]));
                        if j < rest.len() {
                            assert(self@[j] == rest[j]);
                        } else {
                            let k = choose|k: int| 0 <= k < before.len() && before[k] == rest[i];
                            assert(before[k].0 != norm@);
                        }
                    }
                }
                Ok(norm)
            },
        }
    }

    pub fn unregister_all(&mut self)
        ensures
            final(self).valid(),
            final(self)@ == Seq::<(Seq<char>, HotkeyAction)>::empty(),
    {
        self.bindings = Vec::new();
        assert(self@ =~= Seq::empty());
    }

    /// Takes the shortcut of an action back.
    pub fn forget(&mut self, action: HotkeyAction)
        requires
            old(self).valid(),
        ensures
            final(self).valid(),
            final(self)@ == without_action(old(self)@, action),
    {
        proof {
            lemma_without_action(self@, action);
        }
        self.drop_action(action);
    }

    /// Whether some action has the shortcut, in whatever form it is written.
    pub fn contains(&self, shortcut: &str) -> (r: bool)
        requires
            self.valid(),
        ensures
            r == match shortcut::normalized(shortcut@) {
                Ok(trigger) => is_bound(self@, trigger),
                Err(_) => false,
            },
    {
        match normalize_shortcut(shortcut) {
            Ok(norm) => self.action_of(norm.as_str()).is_some(),
            Err(_) => false,
        }
    }

    pub fn len(&self) -> (r: usize)
        ensures
            r == self@.len(),
    {
        self.bindings.len()
    }

    /// The bindings, copied.
    pub fn entries(&self) -> (r: Vec<(String, HotkeyAction)>)
        ensures
            bindings(r@) == self@,
    {
        let mut r: Vec<(String, HotkeyAction)> = Vec::new();
        let mut i: usize = 0;
        while i < self.bindings.len()
            invariant
                i <= self.bindings@.len(),
                r@.len() == i,
                forall|k: int|
                    0 <= k < i ==> (#[trigger] r@[k]).0@ == self.bindings@[k].0@ && r@[k].1
                        == self.bindings@[k].1,
            decreases self.bindings.len() - i,
        {
            r.push((self.bindings[i].0.clone(), self.bindings[i].1));
            i = i + 1;
        }
        assert(bindings(r@) =~= self@);
        r
    }
}

proof fn lemma_one_action(
    bs: Seq<(Seq<char>, HotkeyAction)>,
    trigger: Seq<char>,
    a: HotkeyAction,
    b: HotkeyAction,
)
    requires
        distinct(bs),
        bs.contains((trigger, a)),
        a != b,
    ensures
        !bs.contains((trigger, b)),
{
}

proof fn lemma_without_action(bs: Seq<(Seq<char>, HotkeyAction)>, action: HotkeyAction)
    requires
        distinct(bs),
    ensures
        distinct(without_action(bs, action)),
        forall|b: (Seq<char>, HotkeyAction)| #[trigger]
            without_action(bs, action).contains(b) ==> bs.contains(b) && b.1 != action,
        forall|i: int|
            0 <= i < without_action(bs, action).len() ==> bs.contains(
                #[trigger] without_action(bs, action)[i],
            ) && without_action(bs, action)[i].1 != action,
    decreases bs.len(),
{
    if bs.len() > 0 {
        let front = bs.drop_last();
        assert forall|i: int, j: int| 0 <= i < j < front.len() implies (#[trigger] front[i]).0
            != (#[trigger] front[j]).0 && front[i].1 != front[j].1 by {
            assert(front[i] == bs[i] && front[j] == bs[j]);
        }
        lemma_without_action(front, action);
        let rest = without_action(front, action);
        let all = without_action(bs, action);
        let last = bs.last();
        assert(bs[bs.len() - 1] == last);
        assert forall|i: int| 0 <= i < all.len() implies bs.contains(#[trigger] all[i]) && all[i].1
            != action by {
            if i < rest.len() {
                assert(all[i] == rest[i]);
                assert(front.contains(rest[i]));
                let k = choose|k: int| 0 <= k < front.len() && front[k] == rest[i];
                assert(bs[k] == rest[i]);
            }
        }
        assert forall|b: (Seq<char>, HotkeyAction)| #[trigger] all.contains(b) implies bs.contains(
            b,
        ) && b.1 != action by {
            let k = choose|k: int| 0 <= k < all.len() && all[k] == b;
            assert(bs.contains(all[k]));
        }
        assert forall|i: int, j: int| 0 <= i < j < all.len() implies (#[trigger] all[i]).0 != (
        #[trigger] all[j]).0 && all[i].1 != all[j].1 by {
            assert(all[i] == rest[i]);
            if j < rest.len() {
                assert(all[j] == rest[j]);
            } else {
                assert(front.contains(rest[i]));
                let k = choose|k: int| 0 <= k < front.len() && front[k] == rest[i];
                assert(bs[k] == rest[i]);
                assert(bs[bs.len() - 1] == all[j]);
            }
        }
    }
}

/// There is at most one binding for each action, and so never more than one in all.
pub proof fn law_one_binding(bs: Seq<(Seq<char>, HotkeyAction)>)
    requires
        distinct(bs),
    ensures
        bs.len() <= 1,
{
    if bs.len() > 1 {
        assert(bs[0].1 != bs[1].1);
    }
}

/// Registering a shortcut leaves it as the only one, whatever was registered before.
pub proof fn law_registered_alone(
    bs: Seq<(Seq<char>, HotkeyAction)>,
    trigger: Seq<char>,
    action: HotkeyAction,
)
    requires
        distinct(bs),
    ensures
        rebound(bs, trigger, action) == seq![(trigger, action)],
{
    law_one_binding(bs);
    if is_bound(bs, trigger) {
        let i = choose|i: int| 0 <= i < bs.len() && (#[trigger] bs[i]).0 == trigger;
        assert(bs[i].1 is ToggleDetection && action is ToggleDetection);
        assert(bs[i] == (trigger, action));
        assert(bs =~= seq![(trigger, action)]);
    } else {
        lemma_without_action(bs, action);
        let rest = without_action(bs, action);
        if rest.len() > 0 {
            assert(rest[0].1 != action);
        }
        assert(rest.push((trigger, action)) =~= seq![(trigger, action)]);
    }
}

/// Registering the same shortcut a second time changes nothing.
pub proof fn law_register_idempotent(
    bs: Seq<(Seq<char>, HotkeyAction)>,
    trigger: Seq<char>,
    action: HotkeyAction,
)
    requires
        distinct(bs),
    ensures
        rebound(rebound(bs, trigger, action), trigger, action) == rebound(bs, trigger, action),
{
    law_registered_alone(bs, trigger, action);
    let once = rebound(bs, trigger, action);
    assert(once[0].0 == trigger);
}

} // verus!
