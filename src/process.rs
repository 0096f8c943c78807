//! A small model of an operating system's process tree.
use vstd::prelude::*;

verus! {

/// Why a process was stopped.
#[derive(Debug, PartialEq, Eq, Structural, PartialOrd, Ord)]
pub enum StopKind {
    /// Cannot be ignored (Linux `SIGSTOP`).
    Mandatory,
    /// May be ignored (Linux `SIGTSTP`).
    Ignorable,
}

/// A process state with the detail that goes with it.
pub enum DetailedState {
    Running,
    Stopped { reason: StopKind },
    Sleeping { start_time: u64 },
}

/// A process state.
#[derive(Debug)]
pub enum State {
    Running,
    Stopped,
    Sleeping,
}

/// A process that owns its children.
#[derive(Debug)]
pub struct Proc {
    name: &'static str,
    state: State,
    children: Vec<Proc>,
}

impl Proc {
    /// Makes a process from its name, its state and the children it takes over.
    pub fn new(name: &'static str, state: State, children: Vec<Proc>) -> (p: Proc)
        ensures
            p.name() == name,
            p.state() == state,
            p.children() == children,
    {
        Proc { name, state, children }
    }

    pub closed spec fn name(&self) -> &'static str {
        self.name
    }

    pub closed spec fn state(&self) -> State {
        self.state
    }

    pub closed spec fn children(&self) -> Vec<Proc> {
        self.children
    }
}

} // verus!
