//! Windows by their handles, monitors, and where the model lies.

use vstd::prelude::*;

use crate::config::settings;
use crate::path;
use crate::path::{copied, from_text, join_text};
use crate::platform::outputs;
use crate::platform::outputs::{Output, OutputInfo};
use crate::platform::windows;
use crate::platform::windows::{Window, WindowInfo};
use crate::text;
use crate::vision::detection::FrameData;
use crate::vision::geometry::ScreenRect;

verus! {

/// A process.
#[derive(Debug, Clone)]
pub struct ProcessInfo {
    pub name: String,
    pub pid: u32,
}

/// A window by its number; zero stands for none.
#[derive(Debug, Clone, Copy, PartialEq, Eq, Structural, Hash)]
pub struct WindowHandle(pub usize);

impl WindowHandle {
    pub fn invalid() -> (r: Self)
        ensures
            r.0 == 0,
    {
        WindowHandle(0)
    }

    pub fn is_valid(self) -> (r: bool)
        ensures
            r == (self.0 != 0),
    {
        self.0 != 0
    }
}

/// The handle of a window.
pub open spec fn handle(w: Window) -> WindowHandle {
    WindowHandle(w.id as usize)
}

pub fn handle_of(w: &WindowInfo) -> (r: WindowHandle)
    ensures
        r == handle(w@),
{
    #[verifier::truncate]
    let id: usize = w.id as usize;
    WindowHandle(id)
}

/// The handle of the window with the focus.
pub fn get_foreground_window(list: &Vec<WindowInfo>) -> (r: Option<WindowHandle>)
    ensures
        r == match windows::foreground(windows::windows(list@)) {
            Some(w) => Some(handle(w)),
            None => None,
        },
{
    match windows::get_foreground_window(list) {
        Some(w) => Some(handle_of(&w)),
        None => None,
    }
}

/// The desktop does not say where a window is.
pub fn get_window_rect(_hwnd: WindowHandle) -> (r: Option<ScreenRect>)
    ensures
        r is None,
{
    None
}

/// The desktop does not say where the inner part of a window is.
pub fn get_client_rect(_hwnd: WindowHandle) -> (r: Option<ScreenRect>)
    ensures
        r is None,
{
    None
}

/// The first window with a handle.
pub open spec fn window_with(ws: Seq<Window>, h: WindowHandle) -> Option<Window>
    decreases ws.len(),
{
    if ws.len() == 0 {
        None
    } else if handle(ws.first()) == h {
        Some(ws.first())
    } else {
        window_with(ws.drop_first(), h)
    }
}

fn find_window<'a>(list: &'a Vec<WindowInfo>, h: WindowHandle) -> (r: Option<&'a WindowInfo>)
    ensures
        match r {
            Some(w) => window_with(windows::windows(list@), h) == Some(w@),
            None => window_with(windows::windows(list@), h) is None,
        },
{
    let ghost ws = windows::windows(list@);
    let mut i: usize = 0;
    assert(ws.skip(0) =~= ws);
    while i < list.len()
        invariant
            i <= list@.len(),
            ws == windows::windows(list@),
            window_with(ws, h) == window_with(ws.skip(i as int), h),
        decreases list.len() - i,
    {
        assert(ws.skip(i as int).first() == list@[i as int]@);
        assert(ws.skip(i as int).drop_first() =~= ws.skip(i + 1));
        if handle_of(&list[i]).0 == h.0 {
            return Some(&list[i]);
        }
        i = i + 1;
    }
    None
}

/// The application of a window.
pub fn get_window_process_name(list: &Vec<WindowInfo>, hwnd: WindowHandle) -> (r: Option<String>)
    ensures
        text::maybe(r) == match window_with(windows::windows(list@), hwnd) {
            Some(w) => Some(w.app_id),
            None => None,
        },
{
    match find_window(list, hwnd) {
        Some(w) => Some(w.app_id.clone()),
        None => None,
    }
}

/// The title of a window.
pub fn get_window_title(list: &Vec<WindowInfo>, hwnd: WindowHandle) -> (r: Option<String>)
    ensures
        text::maybe(r) == match window_with(windows::windows(list@), hwnd) {
            Some(w) => Some(w.title),
            None => None,
        },
{
    match find_window(list, hwnd) {
        Some(w) => Some(w.title.clone()),
        None => None,
    }
}

/// Every window counts as visible.
pub fn is_window_visible(_hwnd: WindowHandle) -> (r: bool)
    ensures
        r,
{
    true
}

/// No window counts as minimized.
pub fn is_window_minimized(_hwnd: WindowHandle) -> (r: bool)
    ensures
        !r,
{
    false
}

/// The desktop does not give out the picture of a single window.
pub fn capture_window(_hwnd: WindowHandle) -> (r: Option<FrameData>)
    ensures
        r is None,
{
    None
}

/// A monitor.
#[derive(Debug, Clone, Copy, PartialEq, Eq, Structural)]
pub struct MonitorInfo {
    pub bounds: ScreenRect,
    pub work_area: ScreenRect,
    pub is_primary: bool,
}

/// The monitor of an output: all of it can be worked on.
pub open spec fn monitor(o: Output) -> MonitorInfo {
    MonitorInfo { bounds: o.geometry, work_area: o.geometry, is_primary: true }
}

/// The monitors of the outputs.
pub fn get_monitors(list: &Vec<OutputInfo>) -> (r: Vec<MonitorInfo>)
    ensures
        r@ == outputs::outputs(list@).map_values(|o: Output| monitor(o)),
{
    let mut r: Vec<MonitorInfo> = Vec::new();
    let mut i: usize = 0;
    while i < list.len()
        invariant
            i <= list@.len(),
            r@.len() == i,
            forall|k: int| 0 <= k < i ==> (#[trigger] r@[k]) == monitor(list@[k]@),
        decreases list.len() - i,
    {
        let b = list[i].geometry;
        r.push(MonitorInfo { bounds: b, work_area: b, is_primary: true });
        i = i + 1;
    }
    assert(r@ =~= outputs::outputs(list@).map_values(|o: Output| monitor(o)));
    r
}

/// A listed window: its handle, application, title and place.
pub type Listed = (WindowHandle, Seq<char>, Seq<char>, ScreenRect);

/// The windows of a list that are not left alone.
pub open spec fn listed(
    ws: Seq<Window>,
    skip: Seq<Seq<char>>,
    only: Seq<Seq<char>>,
    except: Seq<Seq<char>>,
) -> Seq<Listed>
    decreases ws.len(),
{
    if ws.len() == 0 {
        Seq::empty()
    } else {
        let before = listed(ws.drop_last(), skip, only, except);
        let w = ws.last();
        if windows::skips(text::lowercased(w.app_id), skip, only, except) {
            before
        } else {
            before.push((handle(w), w.app_id, w.title, w.geometry))
        }
    }
}

pub open spec fn listed_texts(
    v: Seq<(WindowHandle, String, String, ScreenRect)>,
) -> Seq<Listed> {
    v.map_values(|l: (WindowHandle, String, String, ScreenRect)| (l.0, l.1@, l.2@, l.3))
}

/// The windows that are not left alone, with handle, application, title and place.
pub fn list_windows(
    list: &Vec<WindowInfo>,
    only: &[String],
    except: &[String],
    always_skip: &[(String, String)],
) -> (r: Vec<(WindowHandle, String, String, ScreenRect)>)
    ensures
        listed_texts(r@) == listed(
            windows::windows(list@),
            windows::all_lowercased(windows::first_texts(settings::pairs(always_skip@))),
            windows::all_lowercased(settings::texts(only@)),
            windows::all_lowercased(settings::texts(except@)),
        ),
{
    let ghost ws = windows::windows(list@);
    let ghost skip = windows::all_lowercased(windows::first_texts(settings::pairs(always_skip@)));
    let ghost inc = windows::all_lowercased(settings::texts(only@));
    let ghost exc = windows::all_lowercased(settings::texts(except@));
    let mut r: Vec<(WindowHandle, String, String, ScreenRect)> = Vec::new();
    let mut i: usize = 0;
    assert(listed_texts(r@) =~= listed(ws.take(0), skip, inc, exc));
    while i < list.len()
        invariant
            i <= list@.len(),
            ws == windows::windows(list@),
            skip == windows::all_lowercased(windows::first_texts(settings::pairs(always_skip@))),
            inc == windows::all_lowercased(settings::texts(only@)),
            exc == windows::all_lowercased(settings::texts(except@)),
            listed_texts(r@) == listed(ws.take(i as int), skip, inc, exc),
        decreases list.len() - i,
    {
        assert(ws.take(i + 1).drop_last() =~= ws.take(i as int));
        assert(ws.take(i + 1).last() == list@[i as int]@);
        let ghost before = r@;
        if !windows::should_skip_window(list[i].app_id.as_str(), only, except, always_skip) {
            let w = &list[i];
            r.push((handle_of(w), w.app_id.clone(), w.title.clone(), w.geometry));
            assert(listed_texts(r@) =~= listed_texts(before).push(
                (handle(w@), w@.app_id, w@.title, w@.geometry),
            ));
        }
        i = i + 1;
    }
    assert(ws.take(i as int) =~= ws);
    r
}

/// Where the model can lie: in the directory for models of the user, in the source tree, or
/// beside the program.
#[derive(Debug)]
pub struct ModelDirs {
    pub external: Vec<u8>,
    pub workspace: Vec<u8>,
    pub exe: Option<Vec<u8>>,
}

/// The directory of the program, or the current one.
pub open spec fn exe_dir(exe: Option<Seq<u8>>) -> Seq<u8> {
    match exe {
        Some(dir) => dir,
        None => path::of_text("."@),
    }
}

/// The directory for models beside the program.
pub open spec fn exe_models(dirs: ModelDirs) -> Seq<u8> {
    path::joined(exe_dir(path::maybe(dirs.exe)), path::of_text("model"@))
}

/// The model in the directory of the user.
pub open spec fn external_model(dirs: ModelDirs) -> Seq<u8> {
    path::joined(dirs.external@, path::of_text("porda.onnx"@))
}

/// The model in the source tree.
pub open spec fn workspace_model(dirs: ModelDirs) -> Seq<u8> {
    path::joined(dirs.workspace@, path::of_text("../../model/porda.onnx"@))
}

/// The model beside the program.
pub open spec fn exe_model(dirs: ModelDirs) -> Seq<u8> {
    path::joined(exe_models(dirs), path::of_text("porda.onnx"@))
}

impl ModelDirs {
    fn exe_models(&self) -> (r: Vec<u8>)
        ensures
            r@ == exe_models(*self),
    {
        match &self.exe {
            Some(dir) => join_text(dir.as_slice(), "model"),
            None => join_text(".".as_bytes(), "model"),
        }
    }

    /// The three files that may be the model, in the order in which they are looked for.
    pub fn candidates(&self) -> (r: (Vec<u8>, Vec<u8>, Vec<u8>))
        ensures
            r.0@ == external_model(*self),
            r.1@ == workspace_model(*self),
            r.2@ == exe_model(*self),
    {
        (
            join_text(self.external.as_slice(), "porda.onnx"),
            join_text(self.workspace.as_slice(), "../../model/porda.onnx"),
            join_text(self.exe_models().as_slice(), "porda.onnx"),
        )
    }
}

/// The model, given which of the three files exist: the first one that does, else the one in the
/// source tree.
pub fn onnx_model_path(dirs: &ModelDirs, external: bool, workspace: bool, beside: bool) -> (r: Vec<
    u8,
>)
    ensures
        r@ == if external {
            external_model(*dirs)
        } else if workspace || !beside {
            workspace_model(*dirs)
        } else {
            exe_model(*dirs)
        },
{
    let (a, b, c) = dirs.candidates();
    if external {
        a
    } else if workspace || !beside {
        b
    } else {
        c
    }
}

/// The files of the older format in a directory.
pub open spec fn legacy_files(dir: Seq<u8>) -> (Seq<u8>, Seq<u8>) {
    (
        path::joined(dir, path::of_text("pordav4x3.cfg"@)),
        path::joined(dir, path::of_text("porda-19200-lr-0005-909.weights"@)),
    )
}

pub fn legacy_paths(dir: &[u8]) -> (r: (Vec<u8>, Vec<u8>))
    ensures
        (r.0@, r.1@) == legacy_files(dir@),
{
    (join_text(dir, "pordav4x3.cfg"), join_text(dir, "porda-19200-lr-0005-909.weights"))
}

/// A list of paths, each with its file extension, by value.
pub open spec fn file_values(files: Seq<(Vec<u8>, Vec<u8>)>) -> Seq<(Seq<u8>, Seq<u8>)> {
    files.map_values(|f: (Vec<u8>, Vec<u8>)| (f.0@, f.1@))
}

/// The paths of a list, each with its file extension, that have a given extension.
pub open spec fn with_extension(
    files: Seq<(Seq<u8>, Seq<u8>)>,
    extension: Seq<u8>,
) -> Seq<Seq<u8>>
    decreases files.len(),
{
    if files.len() == 0 {
        Seq::empty()
    } else {
        let before = with_extension(files.drop_last(), extension);
        if files.last().1 == extension {
            before.push(files.last().0)
        } else {
            before
        }
    }
}

fn having_extension(files: &Vec<(Vec<u8>, Vec<u8>)>, extension: &[u8]) -> (r: Vec<Vec<u8>>)
    ensures
        path::all(r@) == with_extension(file_values(files@), extension@),
{
    let ghost all = file_values(files@);
    let mut r: Vec<Vec<u8>> = Vec::new();
    let mut i: usize = 0;
    assert(path::all(r@) =~= with_extension(all.take(0), extension@));
    while i < files.len()
        invariant
            i <= files@.len(),
            all == file_values(files@),
            path::all(r@) == with_extension(all.take(i as int), extension@),
        decreases files.len() - i,
    {
        assert(all.take(i + 1).drop_last() =~= all.take(i as int));
        assert(all.take(i + 1).last() == (files@[i as int].0@, files@[i as int].1@));
        let ghost before = r@;
        if path::same(files[i].1.as_slice(), extension) {
            r.push(copied(files[i].0.as_slice()));
            assert(path::all(r@) =~= path::all(before).push(files@[i as int].0@));
        }
        i = i + 1;
    }
    assert(all.take(i as int) =~= all);
    r
}

/// The directory where the older files are looked for on a machine for development.
pub open spec fn reference_dir() -> Seq<u8> {
    path::of_text("/home/torchi/Desktop/Porda-AI/Porda-AI/model"@)
}

/// The directory where they are looked for beside the source tree.
pub open spec fn workspace_dir(dirs: ModelDirs) -> Seq<u8> {
    path::joined(dirs.workspace@, path::of_text("../../Porda-AI/model"@))
}

/// The files of the older format: beside the model where there is one; else the only such files
/// in the directory of the user; else those of the first of two other directories that has both;
/// else those beside the program.
pub open spec fn model_files(
    onnx_dir: Option<Seq<u8>>,
    files: Seq<(Seq<u8>, Seq<u8>)>,
    reference: bool,
    workspace: bool,
    dirs: ModelDirs,
) -> (Seq<u8>, Seq<u8>) {
    let cfg = with_extension(files, path::of_text("cfg"@));
    let weights = with_extension(files, path::of_text("weights"@));
    match onnx_dir {
        Some(dir) => legacy_files(dir),
        None => if cfg.len() == 1 && weights.len() == 1 {
            (cfg[0], weights[0])
        } else if reference {
            legacy_files(reference_dir())
        } else if workspace {
            legacy_files(workspace_dir(dirs))
        } else {
            legacy_files(exe_models(dirs))
        },
    }
}

/// The two directories, besides that of the user, where the older files are looked for.
pub fn legacy_dirs(dirs: &ModelDirs) -> (r: (Vec<u8>, Vec<u8>))
    ensures
        r.0@ == reference_dir(),
        r.1@ == workspace_dir(*dirs),
{
    (
        from_text("/home/torchi/Desktop/Porda-AI/Porda-AI/model"),
        join_text(dirs.workspace.as_slice(), "../../Porda-AI/model"),
    )
}

/// The files of the older format, given the directory of the model if it exists, the files in the
/// directory of the user with their extensions, and whether two other directories have both files.
pub fn model_paths(
    onnx_dir: Option<&[u8]>,
    files: &Vec<(Vec<u8>, Vec<u8>)>,
    reference: bool,
    workspace: bool,
    dirs: &ModelDirs,
) -> (r: (Vec<u8>, Vec<u8>))
    ensures
        (r.0@, r.1@) == model_files(
            path::maybe_part(onnx_dir),
            file_values(files@),
            reference,
            workspace,
            *dirs,
        ),
{
    if let Some(dir) = onnx_dir {
        return legacy_paths(dir);
    }
    let cfg = having_extension(files, "cfg".as_bytes());
    let weights = having_extension(files, "weights".as_bytes());
    let ghost c = path::all(cfg@);
    let ghost w = path::all(weights@);
    assert(c.len() == cfg@.len() && w.len() == weights@.len());
    if cfg.len() == 1 && weights.len() == 1 {
        assert(c[0] == cfg@[0]@ && w[0] == weights@[0]@);
        return (copied(cfg[0].as_slice()), copied(weights[0].as_slice()));
    }
    let (first, second) = legacy_dirs(dirs);
    if reference {
        return legacy_paths(first.as_slice());
    }
    if workspace {
        return legacy_paths(second.as_slice());
    }
    legacy_paths(dirs.exe_models().as_slice())
}

/// The windows that are not left alone are listed, each with what is known of it, and no others.
pub proof fn law_listed_exact(
    ws: Seq<Window>,
    skip: Seq<Seq<char>>,
    only: Seq<Seq<char>>,
    except: Seq<Seq<char>>,
    entry: Listed,
)
    ensures
        listed(ws, skip, only, except).contains(entry) == exists|i: int|
            0 <= i < ws.len() && !windows::skips(
                text::lowercased((#[trigger] ws[i]).app_id),
                skip,
                only,
                except,
            ) && entry == (WindowHandle(ws[i].id as usize), ws[i].app_id, ws[i].title, ws[i].geometry),
    decreases ws.len(),
{
    let all = listed(ws, skip, only, except);
    if ws.len() == 0 {
        assert(all =~= Seq::empty());
    } else {
        let front = ws.drop_last();
        law_listed_exact(front, skip, only, except, entry);
        let before = listed(front, skip, only, except);
        let w = ws[ws.len() - 1];
        let own = (handle(w), w.app_id, w.title, w.geometry);
        let skipped = windows::skips(text::lowercased(w.app_id), skip, only, except);
        if !skipped {
            assert(all == before.push(own));
            assert(all[before.len() as int] == own);
            if before.contains(entry) {
                let j = choose|j: int| 0 <= j < before.len() && before[j] == entry;
                assert(all[j] == entry);
            }
            if all.contains(entry) && entry != own {
                let j = choose|j: int| 0 <= j < all.len() && all[j] == entry;
                assert(before[j] == entry);
            }
        }
        assert(forall|i: int| 0 <= i < front.len() ==> front[i] == ws[i]);
        if exists|i: int|
            0 <= i < front.len() && !windows::skips(
                text::lowercased((#[trigger] front[i]).app_id),
                skip,
                only,
                except,
            ) && entry == (
                WindowHandle(front[i].id as usize),
                front[i].app_id,
                front[i].title,
                front[i].geometry,
            ) {
            let i = choose|i: int|
                0 <= i < front.len() && !windows::skips(
                    text::lowercased((#[trigger] front[i]).app_id),
                    skip,
                    only,
                    except,
                ) && entry == (
                    WindowHandle(front[i].id as usize),
                    front[i].app_id,
                    front[i].title,
                    front[i].geometry,
                );
            assert(ws[i] == front[i]);
        }
    }
}

/// The windows that are listed keep their order: what is listed of a longer list begins with what
/// is listed of its beginning.
pub proof fn law_listed_in_order(
    a: Seq<Window>,
    b: Seq<Window>,
    skip: Seq<Seq<char>>,
    only: Seq<Seq<char>>,
    except: Seq<Seq<char>>,
)
    ensures
        listed(a + b, skip, only, except) == listed(a, skip, only, except) + listed(
            b,
            skip,
            only,
            except,
        ),
    decreases b.len(),
{
    if b.len() == 0 {
        assert(a + b =~= a);
        assert(listed(b, skip, only, except) =~= Seq::empty());
    } else {
        law_listed_in_order(a, b.drop_last(), skip, only, except);
        assert((a + b).drop_last() =~= a + b.drop_last());
        assert((a + b).last() == b.last());
        let (x, y) = (listed(a, skip, only, except), listed(b.drop_last(), skip, only, except));
        let w = b.last();
        let own = (handle(w), w.app_id, w.title, w.geometry);
        assert((x + y).push(own) =~= x + y.push(own));
    }
}

/// The window with a handle is the first that has it; there is none exactly where no window
/// has it.
pub proof fn law_window_found(ws: Seq<Window>, h: WindowHandle, i: int)
    requires
        0 <= i <= ws.len(),
        forall|j: int| 0 <= j < i ==> (#[trigger] ws[j]).id as usize != h.0,
    ensures
        i == ws.len() ==> window_with(ws, h) is None,
        i < ws.len() && ws[i].id as usize == h.0 ==> window_with(ws, h) == Some(ws[i]),
    decreases ws.len(),
{
    if ws.len() > 0 && i > 0 {
        let rest = ws.drop_first();
        assert(ws[0].id as usize != h.0);
        assert forall|j: int| 0 <= j < i - 1 implies (#[trigger] rest[j]).id as usize != h.0 by {
            assert(rest[j] == ws[j + 1]);
        }
        law_window_found(rest, h, i - 1);
        assert(i < ws.len() ==> rest[i - 1] == ws[i]);
    }
}

/// The files with an extension are kept in order, and the others left out.
pub proof fn law_with_extension(
    a: Seq<(Seq<u8>, Seq<u8>)>,
    b: Seq<(Seq<u8>, Seq<u8>)>,
    file: (Seq<u8>, Seq<u8>),
    extension: Seq<u8>,
)
    ensures
        with_extension(a + seq![file] + b, extension) == with_extension(a, extension) + (if file.1
            == extension {
            seq![file.0]
        } else {
            Seq::empty()
        }) + with_extension(b, extension),
    decreases b.len(),
{
    let x = with_extension(a, extension);
    if b.len() == 0 {
        assert(a + seq![file] + b =~= a.push(file));
        assert(a.push(file).drop_last() =~= a);
        assert(with_extension(b, extension) =~= Seq::empty());
        assert(x.push(file.0) =~= x + seq![file.0]);
        if file.1 == extension {
            assert(x + seq![file.0] + Seq::<Seq<u8>>::empty() =~= x + seq![file.0]);
        } else {
            assert(x + Seq::<Seq<u8>>::empty() + Seq::<Seq<u8>>::empty() =~= x);
        }
    } else {
        let front = b.drop_last();
        law_with_extension(a, front, file, extension);
        let all = a + seq![file] + b;
        assert(all.drop_last() =~= a + seq![file] + front);
        assert(all.last() == b.last());
        let mid = if file.1 == extension {
            seq![file.0]
        } else {
            Seq::<Seq<u8>>::empty()
        };
        let y = with_extension(front, extension);
        assert((x + mid + y).push(b.last().0) =~= x + mid + y.push(b.last().0));
    }
}

} // verus!
