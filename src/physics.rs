use vstd::prelude::*;

verus! {

/// Marker for physics objects that carry no user data.
#[derive(Clone, Copy, Debug, Default, PartialEq, Eq, Structural)]
pub struct NoUserData;

} // verus!
