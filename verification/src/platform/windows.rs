//! The windows of the desktop, and which of them are left alone.

use vstd::prelude::*;

use crate::config::settings;
use crate::text;
use crate::text::{contains, lowercase};
use crate::vision::geometry::ScreenRect;

verus! {

/// A window.
#[derive(Debug)]
pub struct WindowInfo {
    pub id: u64,
    pub title: String,
    pub app_id: String,
    pub geometry: ScreenRect,
    pub focused: bool,
    pub minimized: bool,
}

/// What a window is, with its title and its application as texts.
pub struct Window {
    pub id: u64,
    pub title: Seq<char>,
    pub app_id: Seq<char>,
    pub geometry: ScreenRect,
    pub focused: bool,
    pub minimized: bool,
}

impl View for WindowInfo {
    type V = Window;

    open spec fn view(&self) -> Window {
        Window {
            id: self.id,
            title: self.title@,
            app_id: self.app_id@,
            geometry: self.geometry,
            focused: self.focused,
            minimized: self.minimized,
        }
    }
}

impl Clone for WindowInfo {
    fn clone(&self) -> (r: Self)
        ensures
            r@ == self@,
    {
        WindowInfo {
            id: self.id,
            title: self.title.clone(),
            app_id: self.app_id.clone(),
            geometry: self.geometry,
            focused: self.focused,
            minimized: self.minimized,
        }
    }
}

/// The windows of a list.
pub open spec fn windows(v: Seq<WindowInfo>) -> Seq<Window> {
    v.map_values(|w: WindowInfo| w@)
}

/// The first window with the focus.
pub open spec fn foreground(ws: Seq<Window>) -> Option<Window>
    decreases ws.len(),
{
    if ws.len() == 0 {
        None
    } else if ws.first().focused {
        Some(ws.first())
    } else {
        foreground(ws.drop_first())
    }
}

/// The window with the focus.
pub fn get_foreground_window(list: &Vec<WindowInfo>) -> (r: Option<WindowInfo>)
    ensures
        match r {
            Some(w) => foreground(windows(list@)) == Some(w@),
            None => foreground(windows(list@)) is None,
        },
{
    let ghost ws = windows(list@);
    let mut i: usize = 0;
    assert(ws.skip(0) =~= ws);
    while i < list.len()
        invariant
            i <= list@.len(),
            ws == windows(list@),
            foreground(ws) == foreground(ws.skip(i as int)),
        decreases list.len() - i,
    {
        assert(ws.skip(i as int).first() == list@[i as int]@);
        assert(ws.skip(i as int).drop_first() =~= ws.skip(i + 1));
        if list[i].focused {
            return Some(list[i].clone());
        }
        i = i + 1;
    }
    None
}

/// One of some texts is part of another one.
pub open spec fn holds_any(s: Seq<char>, parts: Seq<Seq<char>>) -> bool {
    exists|i: int| 0 <= i < parts.len() && text::holds(s, #[trigger] parts[i])
}

/// The texts of a list in small letters.
pub open spec fn all_lowercased(v: Seq<Seq<char>>) -> Seq<Seq<char>> {
    v.map_values(|s: Seq<char>| text::lowercased(s))
}

/// The first texts of pairs.
pub open spec fn first_texts(v: Seq<(Seq<char>, Seq<char>)>) -> Seq<Seq<char>> {
    v.map_values(|p: (Seq<char>, Seq<char>)| p.0)
}

/// An application is left alone if it holds one of the texts that are always skipped, if some
/// texts are asked for and it holds none of them, or if it holds one of the texts that are left
/// out.
pub open spec fn skips(
    app: Seq<char>,
    skip: Seq<Seq<char>>,
    only: Seq<Seq<char>>,
    except: Seq<Seq<char>>,
) -> bool {
    ||| holds_any(app, skip)
    ||| only.len() > 0 && !holds_any(app, only)
    ||| holds_any(app, except)
}

fn contains_any(s: &str, parts: &Vec<String>) -> (r: bool)
    ensures
        r == holds_any(s@, settings::texts(parts@)),
{
    let ghost all = settings::texts(parts@);
    let mut i: usize = 0;
    while i < parts.len()
        invariant
            i <= parts@.len(),
            all == settings::texts(parts@),
            forall|k: int| 0 <= k < i ==> !text::holds(s@, #[trigger] all[k]),
        decreases parts.len() - i,
    {
        assert(all[i as int] == parts@[i as int]@);
        if contains(s, parts[i].as_str()) {
            return true;
        }
        i = i + 1;
    }
    false
}

/// Whether an application is left alone, all texts being in small letters already.
pub fn should_skip_lowered(
    app: &str,
    skip: &Vec<String>,
    only: &Vec<String>,
    except: &Vec<String>,
) -> (r: bool)
    ensures
        r == skips(
            app@,
            settings::texts(skip@),
            settings::texts(only@),
            settings::texts(except@),
        ),
{
    if contains_any(app, skip) {
        return true;
    }
    if only.len() > 0 && !contains_any(app, only) {
        return true;
    }
    contains_any(app, except)
}

pub(crate) fn lowercase_all(v: &[String]) -> (r: Vec<String>)
    ensures
        settings::texts(r@) == all_lowercased(settings::texts(v@)),
{
    let mut r: Vec<String> = Vec::new();
    let mut i: usize = 0;
    while i < v.len()
        invariant
            i <= v@.len(),
            r@.len() == i,
            forall|k: int| 0 <= k < i ==> (#[trigger] r@[k])@ == text::lowercased(v@[k]@),
        decreases v.len() - i,
    {
        r.push(lowercase(v[i].as_str()));
        i = i + 1;
    }
    assert(settings::texts(r@) =~= all_lowercased(settings::texts(v@)));
    r
}

fn lowercase_first(v: &[(String, String)]) -> (r: Vec<String>)
    ensures
        settings::texts(r@) == all_lowercased(first_texts(settings::pairs(v@))),
{
    let mut r: Vec<String> = Vec::new();
    let mut i: usize = 0;
    while i < v.len()
        invariant
            i <= v@.len(),
            r@.len() == i,
            forall|k: int| 0 <= k < i ==> (#[trigger] r@[k])@ == text::lowercased(v@[k].0@),
        decreases v.len() - i,
    {
        r.push(lowercase(v[i].0.as_str()));
        i = i + 1;
    }
    assert(settings::texts(r@) =~= all_lowercased(first_texts(settings::pairs(v@))));
    r
}

/// Whether the windows of an application are left alone. The case of letters does not matter.
pub fn should_skip_window(
    app_id: &str,
    only: &[String],
    except: &[String],
    always_skip: &[(String, String)],
) -> (r: bool)
    ensures
        r == skips(
            text::lowercased(app_id@),
            all_lowercased(first_texts(settings::pairs(always_skip@))),
            all_lowercased(settings::texts(only@)),
            all_lowercased(settings::texts(except@)),
        ),
{
    let app = lowercase(app_id);
    let skip = lowercase_first(always_skip);
    let included = lowercase_all(only);
    let excluded = lowercase_all(except);
    should_skip_lowered(app.as_str(), &skip, &included, &excluded)
}

/// With nothing to be skipped, asked for or left out, no application is left alone.
pub proof fn law_no_lists_no_skip(app: Seq<char>)
    ensures
        !skips(app, Seq::empty(), Seq::empty(), Seq::empty()),
{
}

/// What is always skipped is skipped even if it is asked for.
pub proof fn law_always_skip_wins(
    app: Seq<char>,
    skip: Seq<Seq<char>>,
    only: Seq<Seq<char>>,
    except: Seq<Seq<char>>,
)
    requires
        holds_any(app, skip),
    ensures
        skips(app, skip, only, except),
{
}

/// What is left out is skipped even if it is asked for.
pub proof fn law_except_beats_only(
    app: Seq<char>,
    skip: Seq<Seq<char>>,
    only: Seq<Seq<char>>,
    except: Seq<Seq<char>>,
)
    requires
        holds_any(app, except),
    ensures
        skips(app, skip, only, except),
{
}

/// With some texts asked for, an application that holds none of them is left alone, and one that
/// holds one is not, unless it is to be skipped or left out.
pub proof fn law_asked_for(
    app: Seq<char>,
    skip: Seq<Seq<char>>,
    only: Seq<Seq<char>>,
    except: Seq<Seq<char>>,
)
    requires
        only.len() > 0,
    ensures
        skips(app, skip, only, except) ==> holds_any(app, skip) || holds_any(app, except)
            || forall|i: int| 0 <= i < only.len() ==> !text::holds(app, #[trigger] only[i]),
        (forall|i: int| 0 <= i < only.len() ==> !text::holds(app, #[trigger] only[i])) ==> skips(
            app,
            skip,
            only,
            except,
        ),
{
}

/// The window in the foreground is the first one with the focus; there is none exactly where no
/// window has it.
pub proof fn law_foreground_found(ws: Seq<Window>, i: int)
    requires
        0 <= i <= ws.len(),
        forall|j: int| 0 <= j < i ==> !(#[trigger] ws[j]).focused,
    ensures
        i == ws.len() ==> foreground(ws) is None,
        i < ws.len() && ws[i].focused ==> foreground(ws) == Some(ws[i]),
    decreases ws.len(),
{
    if ws.len() > 0 && i > 0 {
        let rest = ws.drop_first();
        assert(!ws[0].focused);
        assert forall|j: int| 0 <= j < i - 1 implies !(#[trigger] rest[j]).focused by {
            assert(rest[j] == ws[j + 1]);
        }
        law_foreground_found(rest, i - 1);
        assert(i < ws.len() ==> rest[i - 1] == ws[i]);
    }
}

} // verus!
