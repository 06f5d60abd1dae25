use vstd::prelude::*;

verus! {

/// The contents of a lazily made value: not made yet, or made.
pub enum State<T> {
    Uninit,
    Init(T),
}

impl<T> State<T> {
    /// The value made.
    pub fn unwrap(&self) -> (r: &T)
        requires
            self is Init,
        ensures
            *self == State::Init(*r),
    {
        match self {
            State::Init(v) => v,
            State::Uninit => vstd::pervasive::unreached(),
        }
    }
}

} // verus!
