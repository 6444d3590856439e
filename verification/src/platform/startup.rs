//! Starting with the desktop.

use vstd::prelude::*;

use crate::path;
use crate::path::{borrowed, join_text};
use crate::text::concat;

verus! {

/// The lines of the desktop entry before and after the program.
pub open spec fn desktop_entry(exe: Seq<char>) -> Seq<char> {
    "[Desktop Entry]\nType=Application\nName=Porda AI\nExec="@ + exe
        + " --startup\nIcon=pordaai\nTerminal=false\nCategories=Utility;\nComment=Real-time desktop privacy overlay\nX-GNOME-Autostart-enabled=true\n"@
}

/// The desktop entry that starts a program.
pub fn desktop_content(exe_path: &str) -> (r: String)
    ensures
        r@ == desktop_entry(exe_path@),
{
    let head = concat(
        "[Desktop Entry]\nType=Application\nName=Porda AI\nExec=",
        exe_path,
    );
    concat(
        head.as_str(),
        " --startup\nIcon=pordaai\nTerminal=false\nCategories=Utility;\nComment=Real-time desktop privacy overlay\nX-GNOME-Autostart-enabled=true\n",
    )
}

/// The directory of the entries for what is started, given the one for configuration.
pub open spec fn autostart(config: Option<Seq<u8>>) -> Seq<u8> {
    path::joined(
        match config {
            Some(dir) => dir,
            None => path::of_text("~/.config"@),
        },
        path::of_text("autostart"@),
    )
}

/// The desktop entry in that directory.
pub open spec fn autostart_entry(config: Option<Seq<u8>>) -> Seq<u8> {
    path::joined(autostart(config), path::of_text("pordaai.desktop"@))
}

pub fn autostart_dir_in(config: Option<&[u8]>) -> (r: Vec<u8>)
    ensures
        r@ == autostart(path::maybe_part(config)),
{
    match config {
        Some(dir) => join_text(dir, "autostart"),
        None => join_text("~/.config".as_bytes(), "autostart"),
    }
}

/// Where the desktop entry lies, given the directory for configuration.
pub fn desktop_path_in(config: Option<&[u8]>) -> (r: Vec<u8>)
    ensures
        r@ == autostart_entry(path::maybe_part(config)),
{
    join_text(autostart_dir_in(config).as_slice(), "pordaai.desktop")
}

/// `dirs::config_dir` gives the directory of the user for configuration, if there is one, here as
/// the bytes of its path. Nothing is claimed of the result: it depends on the environment that
/// the program runs in.
#[verifier::external_body]
fn config_dir() -> (r: Option<Vec<u8>>) {
    dirs::config_dir().map(|p| p.into_os_string().into_encoded_bytes())
}

/// This is what a call of `config_dir` gave.
pub closed spec fn given_config(config: Option<Vec<u8>>) -> bool {
    call_ensures(config_dir, (), config)
}

/// The directory of the entries for what is started with the desktop of the user.
pub fn autostart_dir() -> (r: Vec<u8>)
    ensures
        exists|config: Option<Vec<u8>>| #[trigger]
            given_config(config) && r@ == autostart(path::maybe(config)),
{
    let config = config_dir();
    assert(given_config(config));
    autostart_dir_in(borrowed(&config))
}

/// Where the desktop entry lies for the user.
pub fn desktop_path() -> (r: Vec<u8>)
    ensures
        exists|config: Option<Vec<u8>>| #[trigger]
            given_config(config) && r@ == autostart_entry(path::maybe(config)),
{
    let config = config_dir();
    assert(given_config(config));
    desktop_path_in(borrowed(&config))
}

} // verus!
