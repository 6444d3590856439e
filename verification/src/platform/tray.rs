//! The icon in the tray: its menu, its picture, and what was chosen.

use std::sync::mpsc::Sender;

use vstd::prelude::*;

use crate::channel;

verus! {

/// The words for the entry that turns detection on or off.
pub open spec fn toggle_text(is_active: bool) -> Seq<char> {
    if is_active {
        "Deactivate"@
    } else {
        "Activate"@
    }
}

/// The label of the entry that turns detection on or off.
pub fn toggle_label(is_active: bool) -> (r: &'static str)
    ensures
        r@ == toggle_text(is_active),
{
    if is_active {
        "Deactivate"
    } else {
        "Activate"
    }
}

/// Whether detection is on, as the tray knows it.
#[derive(Debug, Clone, Copy, PartialEq, Eq, Structural)]
pub struct TrayState {
    pub active: bool,
}

impl TrayState {
    pub fn new() -> (r: Self)
        ensures
            !r.active,
    {
        TrayState { active: false }
    }

    pub fn set_tray_is_active(&mut self, active: bool)
        ensures
            final(self).active == active,
    {
        self.active = active;
    }

    pub fn get_tray_is_active(&self) -> (r: bool)
        ensures
            r == self.active,
    {
        self.active
    }

    pub fn current_toggle_label(&self) -> (r: &'static str)
        ensures
            r@ == toggle_text(self.active),
    {
        toggle_label(self.active)
    }
}

/// What can be chosen in the tray.
#[derive(Debug, Clone, Copy, PartialEq, Eq, Structural)]
pub enum TrayAction {
    Show,
    Activate,
    Deactivate,
    ToggleDetection,
    TakeScreenshot,
    RefreshHotkeys,
    RefreshOverlay,
    Exit,
}

/// The actions in the menu, in order.
pub open spec fn menu() -> Seq<TrayAction> {
    seq![TrayAction::Show, TrayAction::ToggleDetection, TrayAction::Exit]
}

impl TrayAction {
    pub open spec fn text(self) -> Seq<char> {
        match self {
            TrayAction::Show => "Show"@,
            TrayAction::Activate => "Activate"@,
            TrayAction::Deactivate => "Deactivate"@,
            TrayAction::ToggleDetection => "Toggle Detection"@,
            TrayAction::TakeScreenshot => "Take Screenshot"@,
            TrayAction::RefreshHotkeys => "Refresh Hotkeys"@,
            TrayAction::RefreshOverlay => "Refresh Overlay"@,
            TrayAction::Exit => "Exit"@,
        }
    }

    /// The words for an action in a menu.
    pub fn label(&self) -> (r: &'static str)
        ensures
            r@ == self.text(),
    {
        match self {
            TrayAction::Show => "Show",
            TrayAction::Activate => "Activate",
            TrayAction::Deactivate => "Deactivate",
            TrayAction::ToggleDetection => "Toggle Detection",
            TrayAction::TakeScreenshot => "Take Screenshot",
            TrayAction::RefreshHotkeys => "Refresh Hotkeys",
            TrayAction::RefreshOverlay => "Refresh Overlay",
            TrayAction::Exit => "Exit",
        }
    }

    /// The actions in the menu: one entry turns detection on or off.
    pub fn menu_actions() -> (r: Vec<TrayAction>)
        ensures
            r@ == menu(),
    {
        let mut r: Vec<TrayAction> = Vec::new();
        r.push(TrayAction::Show);
        r.push(TrayAction::ToggleDetection);
        r.push(TrayAction::Exit);
        r
    }

    /// The label of the toggle, given the state of the tray.
    pub fn current_toggle_label(state: &TrayState) -> (r: &'static str)
        ensures
            r@ == toggle_text(state.active),
    {
        toggle_label(state.active)
    }
}

/// No action stands twice in the menu, and only one of them ends the program.
pub proof fn law_menu_distinct()
    ensures
        menu().no_duplicates(),
        forall|i: int| 0 <= i < menu().len() ==> ((#[trigger] menu()[i]) == TrayAction::Exit <==> i
            == menu().len() - 1),
{
}

/// The labels of the toggle differ.
pub proof fn law_toggle_labels_differ()
    ensures
        toggle_text(true) != toggle_text(false),
{
    reveal_strlit("Deactivate");
    reveal_strlit("Activate");
    assert("Deactivate"@.len() == 10);
    assert("Activate"@.len() == 8);
}

/// Sends on what was chosen.
pub struct TrayManager {
    pub action_tx: Sender<TrayAction>,
}

impl TrayManager {
    pub fn new(action_tx: Sender<TrayAction>) -> (r: Self)
        ensures
            r.action_tx == action_tx,
    {
        TrayManager { action_tx }
    }

    pub fn send_action(&self, action: TrayAction) -> (r: Result<(), String>)
        ensures
            channel::handed(self.action_tx, action, r is Ok),
    {
        channel::send(&self.action_tx, action)
    }
}

/// The place belongs to the letter in the picture.
pub open spec fn in_letter(x: int, y: int) -> bool {
    ||| 10 <= x <= 13 && 8 <= y <= 24
    ||| 14 <= x <= 20 && 8 <= y <= 10
    ||| 18 <= x <= 20 && 11 <= y <= 15
    ||| 14 <= x <= 19 && 16 <= y <= 18
}

/// The bytes of a pixel: alpha, red, green, blue.
pub open spec fn icon_pixel(x: int, y: int) -> Seq<u8> {
    if in_letter(x, y) {
        seq![255u8, 255u8, 255u8, 255u8]
    } else {
        seq![255u8, 106u8, 90u8, 205u8]
    }
}

/// The picture in the tray: 32 rows of 32 pixels, a white letter on purple.
pub open spec fn icon_bytes() -> Seq<u8> {
    Seq::new(4096, |k: int| icon_pixel(k / 4 % 32, k / 4 / 32)[k % 4])
}

/// The picture in the tray with its width and height.
pub fn generate_tray_icon_argb() -> (r: (i32, i32, Vec<u8>))
    ensures
        r.0 == 32,
        r.1 == 32,
        r.2@ == icon_bytes(),
{
    let mut argb: Vec<u8> = Vec::new();
    let mut p: i32 = 0;
    while p < 1024
        invariant
            0 <= p <= 1024,
            argb@.len() == 4 * p,
            forall|k: int| 0 <= k < 4 * p ==> argb@[k] == icon_bytes()[k],
        decreases 1024 - p,
    {
        let x: i32 = p % 32;
        let y: i32 = p / 32;
        let is_p = (x >= 10 && x <= 13 && y >= 8 && y <= 24) || (x >= 14 && x <= 20 && y >= 8 && y
            <= 10) || (x >= 18 && x <= 20 && y >= 11 && y <= 15) || (x >= 14 && x <= 19 && y >= 16
            && y <= 18);
        assert(is_p == in_letter(x as int, y as int));
        argb.push(255);
        if is_p {
            argb.push(255);
            argb.push(255);
            argb.push(255);
        } else {
            argb.push(106);
            argb.push(90);
            argb.push(205);
        }
        p = p + 1;
    }
    assert(argb@ =~= icon_bytes());
    (32, 32, argb)
}

/// Every pixel of the picture is opaque.
pub proof fn law_icon_opaque(x: int, y: int)
    requires
        0 <= x < 32,
        0 <= y < 32,
    ensures
        icon_bytes()[4 * (32 * y + x)] == 255,
{
}

/// The label of the toggle names the action that it would take.
pub proof fn law_toggle_names_action()
    ensures
        toggle_text(true) == TrayAction::Deactivate.text(),
        toggle_text(false) == TrayAction::Activate.text(),
{
}

/// The picture is a white letter, of one upright stroke and a bow to the right of its upper part,
/// on purple.
pub proof fn law_icon_letter(x: int, y: int)
    requires
        0 <= x < 32,
        0 <= y < 32,
    ensures
        ({
            let at = 4 * (32 * y + x);
            let p = icon_bytes().subrange(at, at + 4);
            let stroke = 10 <= x < 14 && 8 <= y < 25;
            let bow = (8 <= y < 11 && 14 <= x < 21) || (11 <= y < 16 && 18 <= x < 21) || (16 <= y
                < 19 && 14 <= x < 20);
            p == (if stroke || bow {
                seq![255u8, 255u8, 255u8, 255u8]
            } else {
                seq![255u8, 106u8, 90u8, 205u8]
            })
        }),
{
    let at = 4 * (32 * y + x);
    let p = icon_bytes().subrange(at, at + 4);
    assert forall|c: int| 0 <= c < 4 implies p[c] == #[trigger] icon_pixel(x, y)[c] by {
        assert((at + c) / 4 == 32 * y + x);
        assert((at + c) % 4 == c);
        assert((32 * y + x) % 32 == x && (32 * y + x) / 32 == y);
    }
    assert(p =~= icon_pixel(x, y));
}

} // verus!
