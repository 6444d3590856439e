//! A handle on the overlay.

use std::sync::mpsc::Sender;

use vstd::prelude::*;

use crate::channel;
use crate::overlay::compositor::copy_covers;
use crate::vision::cover;
use crate::vision::detection::CoverRect;

verus! {

/// What the overlay is told.
#[derive(Debug)]
pub enum OverlayCommand {
    UpdateCovers(Vec<CoverRect>),
    Clear,
    Shutdown,
}

impl Clone for OverlayCommand {
    fn clone(&self) -> (r: Self)
        ensures
            match (*self, r) {
                (OverlayCommand::UpdateCovers(a), OverlayCommand::UpdateCovers(b)) => cover::values(
                    a@,
                ) == cover::values(b@),
                (OverlayCommand::Clear, OverlayCommand::Clear) => true,
                (OverlayCommand::Shutdown, OverlayCommand::Shutdown) => true,
                _ => false,
            },
    {
        match self {
            OverlayCommand::UpdateCovers(covers) => OverlayCommand::UpdateCovers(
                copy_covers(covers),
            ),
            OverlayCommand::Clear => OverlayCommand::Clear,
            OverlayCommand::Shutdown => OverlayCommand::Shutdown,
        }
    }
}

pub struct OverlayWindow {
    pub command_tx: Sender<OverlayCommand>,
}

impl OverlayWindow {
    pub fn new(command_tx: Sender<OverlayCommand>) -> (r: Self)
        ensures
            r.command_tx == command_tx,
    {
        OverlayWindow { command_tx }
    }

    /// Hands a command to the overlay; fails with a message where the overlay is gone.
    pub fn send_command(&self, cmd: OverlayCommand) -> (r: Result<(), String>)
        ensures
            channel::handed(self.command_tx, cmd, r is Ok),
    {
        channel::send(&self.command_tx, cmd)
    }

    pub fn update_covers(&self, covers: Vec<CoverRect>) -> (r: Result<(), String>)
        ensures
            channel::handed(self.command_tx, OverlayCommand::UpdateCovers(covers), r is Ok),
    {
        self.send_command(OverlayCommand::UpdateCovers(covers))
    }

    pub fn clear(&self) -> (r: Result<(), String>)
        ensures
            channel::handed(self.command_tx, OverlayCommand::Clear, r is Ok),
    {
        self.send_command(OverlayCommand::Clear)
    }

    pub fn shutdown(&self) -> (r: Result<(), String>)
        ensures
            channel::handed(self.command_tx, OverlayCommand::Shutdown, r is Ok),
    {
        self.send_command(OverlayCommand::Shutdown)
    }
}

} // verus!
