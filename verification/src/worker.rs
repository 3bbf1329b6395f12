//! The decisions of the rendering thread: which document it works on, and
//! which render requests it carries out.

use vstd::prelude::*;

verus! {

/// A request to the rendering thread.
#[derive(Clone, Copy, PartialEq, Eq, Structural, Debug)]
pub enum WorkerCommand {
    /// Open a document; requests of earlier generations are void from now on.
    Open { doc_gen: u64 },
    /// Render a page of the document of the given generation.
    Render { doc_gen: u64 },
}

/// What the rendering thread knows: the generation of the document it was
/// last asked to open, and whether that document is loaded.
#[derive(Clone, Copy, PartialEq, Eq, Structural, Debug)]
pub struct WorkerState {
    pub doc_gen: u64,
    pub loaded: bool,
}

/// What the rendering thread does next.
#[derive(Clone, Copy, PartialEq, Eq, Structural, Debug)]
pub enum WorkerAction {
    /// Drop the loaded document and load the one asked for.
    Load,
    /// Render the requested page.
    Render,
    /// Ignore the request.
    Skip,
}

/// The state and action after a command: opening switches to the new
/// generation with nothing loaded yet; a render request is carried out only
/// for the current generation and when its document is loaded.
pub open spec fn worker_step(state: WorkerState, cmd: WorkerCommand) -> (WorkerState, WorkerAction) {
    match cmd {
        WorkerCommand::Open { doc_gen } => (WorkerState { doc_gen, loaded: false }, WorkerAction::Load),
        WorkerCommand::Render { doc_gen } => {
            if doc_gen == state.doc_gen && state.loaded {
                (state, WorkerAction::Render)
            } else {
                (state, WorkerAction::Skip)
            }
        },
    }
}

impl WorkerState {
    /// No document yet (generation 0).
    pub fn new() -> (s: WorkerState)
        ensures
            s.doc_gen == 0,
            !s.loaded,
    {
        WorkerState { doc_gen: 0, loaded: false }
    }

    /// Handles one command and says what to do.
    pub fn step(&mut self, cmd: WorkerCommand) -> (action: WorkerAction)
        ensures
            (*final(self), action) == worker_step(*old(self), cmd),
    {
        match cmd {
            WorkerCommand::Open { doc_gen } => {
                self.doc_gen = doc_gen;
                self.loaded = false;
                WorkerAction::Load
            },
            WorkerCommand::Render { doc_gen } => {
                if doc_gen == self.doc_gen && self.loaded {
                    WorkerAction::Render
                } else {
                    WorkerAction::Skip
                }
            },
        }
    }

    /// Records whether loading the current document succeeded.
    pub fn finish_load(&mut self, ok: bool)
        ensures
            final(self).doc_gen == old(self).doc_gen,
            final(self).loaded == ok,
    {
        self.loaded = ok;
    }
}

/// Whether a result of the rendering thread belongs to the document on screen.
pub fn is_current(shown_gen: u64, result_gen: u64) -> (r: bool)
    ensures
        r == (shown_gen == result_gen),
{
    shown_gen == result_gen
}

/// A render request made for an earlier document is never carried out once
/// another document has been asked for, whatever was loaded.
pub proof fn lemma_stale_requests_skipped(state: WorkerState, new_gen: u64, old_gen: u64, ok: bool)
    requires
        old_gen != new_gen,
    ensures
        ({
            let opened = worker_step(state, WorkerCommand::Open { doc_gen: new_gen }).0;
            let after = WorkerState { doc_gen: opened.doc_gen, loaded: ok };
            worker_step(after, WorkerCommand::Render { doc_gen: old_gen }).1 == WorkerAction::Skip
        }),
{
}

} // verus!
