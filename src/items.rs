use vstd::prelude::*;

verus! {

/// The result of using an item on a block.
#[derive(PartialEq, Eq, Structural, Copy, Clone, Debug)]
pub enum ActionResult {
    Success,
    Pass,
}

impl ActionResult {
    /// Whether the use succeeded.
    pub fn is_success(self) -> (r: bool)
        ensures
            r <==> self == ActionResult::Success,
    {
        self == ActionResult::Success
    }
}

} // verus!
