use vstd::prelude::*;

verus! {

/// The result vocabulary shared by every node of the tree.
///
/// `Invalid` marks a node that has not been started; `Running` a node whose
/// work is in progress; `Success`, `Failure` and `Aborted` are terminal.
/// `Aborted` is only ever produced by external cancellation.
#[derive(Clone, Copy, Debug, PartialEq, Eq, Structural)]
pub enum Status {
    Invalid,
    Running,
    Success,
    Failure,
    Aborted,
}

impl Status {
    /// A status from which a node never moves on by itself.
    pub open spec fn is_terminal(self) -> bool {
        self == Status::Success || self == Status::Failure || self == Status::Aborted
    }

    /// Executable counterpart of [`Status::is_terminal`].
    pub fn terminal(self) -> (r: bool)
        ensures
            r == self.is_terminal(),
    {
        match self {
            Status::Success => true,
            Status::Failure => true,
            Status::Aborted => true,
            _ => false,
        }
    }
}

} // verus!
