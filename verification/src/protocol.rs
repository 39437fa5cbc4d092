use vstd::prelude::*;

verus! {

/// The one error of a handle: the owner thread is gone, so a command could not be handed
/// over or its reply will never come.
pub type UiThreadExited = ();

/// One unit of work that a handle asks of the owner thread.
#[derive(Clone, Copy, Debug, PartialEq, Eq, Structural)]
pub enum Command {
    /// Run a callback on the owner thread; nothing comes back.
    RunOnOwner,
    /// Run a window factory; the id of the new window comes back, if it made one.
    CreateWindow,
    /// Run one delivery cycle; a signal comes back when the cycle is complete.
    DispatchEvents,
    /// Stop the owner loop.
    Exit,
}

/// Where the owner loop stands.
#[derive(Clone, Copy, Debug, PartialEq, Eq, Structural)]
pub enum OwnerState {
    /// The loop takes commands.
    Running,
    /// The loop has returned and released what it owned.
    Terminated,
}

impl OwnerState {
    /// The state after the loop has looked into its channel and found `received`, where
    /// `None` stands for a channel that every handle has let go of.
    pub open spec fn next(self, received: Option<Command>) -> OwnerState {
        match (self, received) {
            (OwnerState::Running, Some(command)) if command != Command::Exit => OwnerState::Running,
            _ => OwnerState::Terminated,
        }
    }

    /// Whether the loop executes `received`: it is running and got work to do.
    pub open spec fn executes(self, received: Option<Command>) -> bool {
        self == OwnerState::Running && received.is_some() && received != Some(Command::Exit)
    }

    /// The state after all of `inputs`, one after the other.
    pub open spec fn after_all(self, inputs: Seq<Option<Command>>) -> OwnerState
        decreases inputs.len(),
    {
        if inputs.len() == 0 {
            self
        } else {
            self.after_all(inputs.drop_last()).next(inputs.last())
        }
    }

    /// Whether the loop goes on taking commands.
    pub fn is_running(self) -> (running: bool)
        ensures
            running == (self == OwnerState::Running),
    {
        match self {
            OwnerState::Running => true,
            OwnerState::Terminated => false,
        }
    }

    /// One turn of the owner loop: where it stands after `received`, and whether it
    /// executes what it received.
    pub fn step(self, received: Option<Command>) -> (turn: (OwnerState, bool))
        ensures
            turn.0 == self.next(received),
            turn.1 == self.executes(received),
    {
        match self {
            OwnerState::Terminated => (OwnerState::Terminated, false),
            OwnerState::Running => match received {
                None | Some(Command::Exit) => (OwnerState::Terminated, false),
                Some(_) => (OwnerState::Running, true),
            },
        }
    }
}

/// Every failure to reach the owner thread is the same to the caller.
pub fn map_ute<T>(_cause: T) -> (error: UiThreadExited)
    ensures
        error == (),
{
    ()
}

/// What a handle reports for one exchange with the owner thread, be it the handing over
/// of a command or the wait for its reply: what came back, or that the owner is gone.
pub fn owner_result<T, X>(outcome: Result<T, X>) -> (report: Result<T, UiThreadExited>)
    ensures
        match outcome {
            Ok(value) => report == Ok::<T, UiThreadExited>(value),
            Err(_) => report == Err::<T, UiThreadExited>(()),
        },
{
    match outcome {
        Ok(value) => Ok(value),
        Err(cause) => Err(map_ute(cause)),
    }
}

} // verus!
