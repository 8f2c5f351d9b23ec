//! What the user of the library supplies.

use vstd::prelude::*;

verus! {

/// The outcome of a command or a restore, as a mathematical value.
pub open spec fn outcome_view(outcome: Result<Vec<u8>, String>) -> Result<Seq<u8>, Seq<char>> {
    match outcome {
        Ok(bytes) => Ok(bytes@),
        Err(text) => Err(text@),
    }
}

/// The application that the log drives.
///
/// `applies`, `serialises` and `restores` name what the methods may do and give; they put
/// no condition on a state machine.
pub trait StateMachine: Sized + Send + Sync + 'static {
    /// Applying `command` to `self` may end in `after` with this outcome.
    open spec fn applies(
        self,
        command: Seq<u8>,
        outcome: Result<Seq<u8>, Seq<char>>,
        after: Self,
    ) -> bool {
        true
    }

    /// `snapshot` may be what serialising `self` gives.
    open spec fn serialises(self, snapshot: Seq<u8>) -> bool {
        true
    }

    /// Restoring `snapshot` over `self` may end in `after`, successful or not.
    open spec fn restores(self, snapshot: Seq<u8>, error: Option<Seq<char>>, after: Self) -> bool {
        true
    }

    /// Applies the command of a committed entry and returns its result.
    fn apply(&mut self, command: &[u8]) -> (r: Result<Vec<u8>, String>)
        ensures
            old(self).applies(command@, outcome_view(r), *final(self)),
    ;

    /// Serialises the state.
    fn snapshot(&self) -> (r: Result<Vec<u8>, String>)
        ensures
            r matches Ok(bytes) ==> self.serialises(bytes@),
    ;

    fn restore(&mut self, snapshot: &[u8]) -> (r: Result<(), String>)
        ensures
            old(self).restores(
                snapshot@,
                match r {
                    Ok(_) => None,
                    Err(text) => Some(text@),
                },
                *final(self),
            ),
    ;
}

} // verus!
