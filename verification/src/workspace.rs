//! The life of the scratch directory in which a transaction file is run.
//!
//! The directory is reused where it exists and made where it does not, the
//! work is done inside it, and it is removed afterwards, whether the work
//! went well or not. The steps themselves touch the file system and belong to
//! the caller; which step comes next, and how the run ends, is decided here.

use vstd::prelude::*;
use crate::error::RunError;

verus! {

/// The name of the scratch directory, below the current directory.
pub const TEMP_DIR_NAME: &'static str = "___tmp_manifests___";

/// What the caller is to do next.
#[derive(Debug, Clone, Copy, PartialEq, Eq)]
pub enum Action {
    /// Find out whether the directory exists.
    Probe,
    /// Make the directory.
    Create,
    /// Do the work inside the directory.
    Run,
    /// Remove the directory and all that is in it.
    Remove,
    /// Stop, with this result.
    Finish { outcome: Result<(), RunError> },
}

/// What the caller found when it did what it was asked.
#[derive(Debug, Clone, Copy, PartialEq, Eq)]
pub enum Event {
    /// The answer to [`Action::Probe`].
    Probed { exists: bool },
    /// The answer to [`Action::Create`].
    Created { ok: bool },
    /// The answer to [`Action::Run`]: how the work ended.
    Ran { work: Result<(), RunError> },
    /// The answer to [`Action::Remove`].
    Removed { ok: bool },
}

/// How far a run has come.
#[derive(Debug, Clone, Copy, PartialEq, Eq)]
pub enum Workspace {
    /// Nothing is known of the directory yet.
    Probing,
    /// The directory was not there and is being made.
    Creating,
    /// The directory is there and the work is under way.
    InUse,
    /// The work is over and the directory is being removed.
    Releasing { work: Result<(), RunError> },
    /// The run is over.
    Finished { outcome: Result<(), RunError> },
}

/// How a run ends once the directory's removal has been tried: with the
/// failure of the work where it failed, else with that of the removal where
/// that failed, else well.
pub open spec fn verdict(work: Result<(), RunError>, removed: bool) -> Result<(), RunError> {
    match work {
        Err(failure) => Err(failure),
        Ok(_) => if removed {
            Ok(())
        } else {
            Err(RunError::WorkspaceRemoval)
        },
    }
}

/// The state that follows `state` on `event`. An event that does not answer
/// what the state asks for leaves it as it is.
pub open spec fn next(state: Workspace, event: Event) -> Workspace {
    match (state, event) {
        (Workspace::Probing, Event::Probed { exists }) => if exists {
            Workspace::InUse
        } else {
            Workspace::Creating
        },
        (Workspace::Creating, Event::Created { ok }) => if ok {
            Workspace::InUse
        } else {
            Workspace::Finished { outcome: Err(RunError::WorkspaceCreation) }
        },
        (Workspace::InUse, Event::Ran { work }) => Workspace::Releasing { work },
        (Workspace::Releasing { work }, Event::Removed { ok }) => Workspace::Finished {
            outcome: verdict(work, ok),
        },
        _ => state,
    }
}

/// The state reached from the start by `events`, in their order.
pub open spec fn state_after(events: Seq<Event>) -> Workspace
    decreases events.len(),
{
    if events.len() == 0 {
        Workspace::Probing
    } else {
        next(state_after(events.drop_last()), events.last())
    }
}

impl Workspace {
    /// What this state asks the caller to do.
    pub open spec fn pending(self) -> Action {
        match self {
            Workspace::Probing => Action::Probe,
            Workspace::Creating => Action::Create,
            Workspace::InUse => Action::Run,
            Workspace::Releasing { .. } => Action::Remove,
            Workspace::Finished { outcome } => Action::Finish { outcome },
        }
    }

    /// The state in which every run starts.
    pub fn new() -> (state: Self)
        ensures
            state == Workspace::Probing,
            state == state_after(Seq::<Event>::empty()),
    {
        Workspace::Probing
    }

    /// What the caller is to do in this state.
    pub fn action(&self) -> (action: Action)
        ensures
            action == self.pending(),
    {
        match self {
            Workspace::Probing => Action::Probe,
            Workspace::Creating => Action::Create,
            Workspace::InUse => Action::Run,
            Workspace::Releasing { .. } => Action::Remove,
            Workspace::Finished { outcome } => Action::Finish { outcome: *outcome },
        }
    }

    /// Takes in what the caller found and moves on.
    pub fn step(self, event: Event) -> (state: Self)
        ensures
            state == next(self, event),
    {
        match (self, event) {
            (Workspace::Probing, Event::Probed { exists }) => {
                if exists {
                    Workspace::InUse
                } else {
                    Workspace::Creating
                }
            },
            (Workspace::Creating, Event::Created { ok }) => {
                if ok {
                    Workspace::InUse
                } else {
                    Workspace::Finished { outcome: Err(RunError::WorkspaceCreation) }
                }
            },
            (Workspace::InUse, Event::Ran { work }) => Workspace::Releasing { work },
            (Workspace::Releasing { work }, Event::Removed { ok }) => {
                let outcome = match work {
                    Err(failure) => Err(failure),
                    Ok(_) => if ok {
                        Ok(())
                    } else {
                        Err(RunError::WorkspaceRemoval)
                    },
                };
                Workspace::Finished { outcome }
            },
            (state, _) => state,
        }
    }
}

/// Whether `events` led into the work at `ran`, where its end was reported,
/// and into the removal at `removed`, where its end was reported.
pub open spec fn released_at(events: Seq<Event>, ran: int, removed: int) -> bool {
    &&& 0 <= ran < removed < events.len()
    &&& state_after(events.take(ran)) == Workspace::InUse
    &&& events[ran] is Ran
    &&& state_after(events.take(removed)) == (Workspace::Releasing { work: events[ran]->work })
    &&& events[removed] is Removed
    &&& state_after(events) == (Workspace::Finished {
        outcome: verdict(events[ran]->work, events[removed]->Removed_ok),
    })
}

/// Whether the directory was found or made at `acquired`.
pub open spec fn acquired_at(events: Seq<Event>, acquired: int) -> bool {
    &&& 0 <= acquired < events.len()
    &&& state_after(events.take(acquired + 1)) == Workspace::InUse
    &&& (events[acquired] == (Event::Probed { exists: true })
        || events[acquired] == (Event::Created { ok: true }))
}

/// A state that is finished stays as it is.
pub proof fn lemma_finished_stays(events: Seq<Event>, upto: int)
    requires
        0 <= upto <= events.len(),
        state_after(events.take(upto)) is Finished,
    ensures
        state_after(events) == state_after(events.take(upto)),
    decreases events.len(),
{
    if upto == events.len() {
        assert(events.take(upto) =~= events);
    } else {
        assert(events.drop_last().take(upto) =~= events.take(upto));
        lemma_finished_stays(events.drop_last(), upto);
    }
}

/// The directory is removed on every path out of the work: a run that has
/// ended either failed to make the directory, and then never went into the
/// work, or went through the work and then through the removal, whether the
/// work went well or not. It ends well only when both went well.
pub proof fn lemma_removed_before_finish(events: Seq<Event>)
    requires
        state_after(events) is Finished,
    ensures
        state_after(events) == (Workspace::Finished { outcome: Err(RunError::WorkspaceCreation) })
            || exists|ran: int, removed: int| released_at(events, ran, removed),
    decreases events.len(),
{
    if events.len() > 0 {
        let shorter = events.drop_last();
        let before = state_after(shorter);
        assert(events.take(events.len() - 1) =~= shorter);
        if before is Finished {
            lemma_removed_before_finish(shorter);
            if before != (Workspace::Finished { outcome: Err(RunError::WorkspaceCreation) }) {
                let (ran, removed) = choose|ran: int, removed: int|
                    released_at(shorter, ran, removed);
                assert(shorter.take(ran) =~= events.take(ran));
                assert(shorter.take(removed) =~= events.take(removed));
                assert(released_at(events, ran, removed));
            }
        } else if before is Releasing {
            lemma_in_use_before_release(shorter);
            let ran = choose|ran: int| worked_at(shorter, ran);
            assert(shorter.take(ran) =~= events.take(ran));
            assert(released_at(events, ran, events.len() - 1));
        }
    }
}

/// Whether `events` led into the work at `ran`, where its end was reported,
/// and have asked for the removal since.
pub open spec fn worked_at(events: Seq<Event>, ran: int) -> bool {
    &&& 0 <= ran < events.len()
    &&& state_after(events.take(ran)) == Workspace::InUse
    &&& events[ran] is Ran
    &&& state_after(events) == (Workspace::Releasing { work: events[ran]->work })
}

/// The removal is asked for only after the work was done.
pub proof fn lemma_in_use_before_release(events: Seq<Event>)
    requires
        state_after(events) is Releasing,
    ensures
        exists|ran: int| worked_at(events, ran),
    decreases events.len(),
{
    if events.len() > 0 {
        let shorter = events.drop_last();
        let before = state_after(shorter);
        assert(events.take(events.len() - 1) =~= shorter);
        if before is Releasing {
            lemma_in_use_before_release(shorter);
            let ran = choose|ran: int| worked_at(shorter, ran);
            assert(shorter.take(ran) =~= events.take(ran));
            assert(worked_at(events, ran));
        } else {
            assert(worked_at(events, events.len() - 1));
        }
    }
}

/// The work is asked for only once the directory was found or made.
pub proof fn lemma_acquired_before_use(events: Seq<Event>)
    requires
        state_after(events) == Workspace::InUse,
    ensures
        exists|acquired: int| acquired_at(events, acquired),
    decreases events.len(),
{
    if events.len() > 0 {
        let shorter = events.drop_last();
        let before = state_after(shorter);
        assert(events.take(events.len() - 1 + 1) =~= events);
        if before == Workspace::InUse {
            lemma_acquired_before_use(shorter);
            let acquired = choose|acquired: int| acquired_at(shorter, acquired);
            assert(shorter.take(acquired + 1) =~= events.take(acquired + 1));
            assert(acquired_at(events, acquired));
        } else {
            assert(acquired_at(events, events.len() - 1));
        }
    }
}

} // verus!
