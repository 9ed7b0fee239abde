use vstd::prelude::*;

verus! {

/// What to do with an HTTP response, by its status code.
#[derive(PartialEq, Eq, Structural, Clone, Copy, Debug)]
pub enum StatusAction {
    /// A 2xx answer: decode the body.
    Proceed,
    /// 404: the source holds no data for this key.
    Empty,
    /// Any other status: a network error.
    Fail,
}

pub open spec fn status_action_spec(code: u16) -> StatusAction {
    if 200 <= code && code <= 299 {
        StatusAction::Proceed
    } else if code == 404 {
        StatusAction::Empty
    } else {
        StatusAction::Fail
    }
}

/// Decides how a response with status `code` is handled.
pub fn classify_status(code: u16) -> (r: StatusAction)
    ensures
        r == status_action_spec(code),
{
    if 200 <= code && code <= 299 {
        StatusAction::Proceed
    } else if code == 404 {
        StatusAction::Empty
    } else {
        StatusAction::Fail
    }
}

} // verus!
