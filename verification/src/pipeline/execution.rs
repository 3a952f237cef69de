use vstd::prelude::*;

verus! {

/// How a pipeline run ended.
#[derive(Clone, Copy, Debug, PartialEq, Eq, Structural)]
pub enum RunStatus {
    /// Every page was processed.
    Completed,
    /// A stop was asked for; the pages processed before it stay done.
    Stopped,
}

/// What the run does next.
#[derive(Clone, Copy, Debug, PartialEq, Eq, Structural)]
pub enum RunAction {
    /// Run the selected stages on page `index` and commit their output.
    RunPage(usize),
    /// End the run with this status.
    Finish(RunStatus),
}

/// The progress of a run over `total` pages: how many are done, and how the
/// run ended, once it has.
#[derive(Clone, Copy, Debug, PartialEq, Eq, Structural)]
pub struct RunState {
    pub total: usize,
    pub completed: usize,
    pub running: bool,
    pub finished: Option<RunStatus>,
}

impl RunState {
    /// What holds between steps: no more pages done than there are, a page
    /// under way only while the run goes on, and all pages done when the
    /// run completed.
    pub open spec fn well_formed(&self) -> bool {
        &&& self.completed <= self.total
        &&& self.running ==> self.finished is None && self.completed < self.total
        &&& self.finished == Some(RunStatus::Completed) ==> self.completed == self.total
    }

    /// A run over `total` pages, none done yet.
    pub fn new(total: usize) -> (state: Self)
        ensures
            state.well_formed(),
            state.total == total,
            state.completed == 0,
            !state.running,
            state.finished is None,
    {
        RunState { total, completed: 0, running: false, finished: None }
    }

    /// Decides the next step between pages: a stop asked for ends the run as
    /// stopped, keeping the pages done; with every page done the run
    /// completes; else the next page runs. A finished run stays finished.
    pub fn next(&mut self, stop_requested: bool) -> (action: RunAction)
        requires
            old(self).well_formed(),
            !old(self).running,
        ensures
            final(self).well_formed(),
            final(self).total == old(self).total,
            final(self).completed == old(self).completed,
            match old(self).finished {
                Some(status) => action == RunAction::Finish(status) && *final(self) == *old(self),
                None => if stop_requested {
                    &&& action == RunAction::Finish(RunStatus::Stopped)
                    &&& final(self).finished == Some(RunStatus::Stopped)
                    &&& !final(self).running
                } else if old(self).completed == old(self).total {
                    &&& action == RunAction::Finish(RunStatus::Completed)
                    &&& final(self).finished == Some(RunStatus::Completed)
                    &&& !final(self).running
                } else {
                    &&& action == RunAction::RunPage(old(self).completed)
                    &&& final(self).running
                    &&& final(self).finished is None
                },
            },
    {
        match self.finished {
            Some(status) => RunAction::Finish(status),
            None => {
                if stop_requested {
                    self.finished = Some(RunStatus::Stopped);
                    RunAction::Finish(RunStatus::Stopped)
                } else if self.completed == self.total {
                    self.finished = Some(RunStatus::Completed);
                    RunAction::Finish(RunStatus::Completed)
                } else {
                    self.running = true;
                    RunAction::RunPage(self.completed)
                }
            },
        }
    }

    /// Records that the page under way is done.
    pub fn page_done(&mut self)
        requires
            old(self).well_formed(),
            old(self).running,
        ensures
            final(self).well_formed(),
            final(self).total == old(self).total,
            final(self).completed == old(self).completed + 1,
            !final(self).running,
            final(self).finished is None,
    {
        self.completed = self.completed + 1;
        self.running = false;
    }
}

} // verus!
