use vstd::prelude::*;

pub mod lazylock;
pub mod once;

verus! {

#[derive(PartialEq, Eq, Structural, Clone, Copy, Debug)]
pub enum LockError {
    Poisoned,
    WouldBlock,
}

/// The outcome of trying a spin lock whose flag was `was_locked` before the attempt set it.
pub fn try_lock_outcome(was_locked: bool) -> (r: Result<(), LockError>)
    ensures
        was_locked ==> r == Err::<(), LockError>(LockError::WouldBlock),
        !was_locked ==> r == Ok::<(), LockError>(()),
{
    if was_locked {
        Err(LockError::WouldBlock)
    } else {
        Ok(())
    }
}

} // verus!
