//! Outcomes of steps that may fail, fatal or not; the caller decides what a fatal one
//! ends.
use vstd::prelude::*;

verus! {

/// A failed step: what went wrong, and whether the whole run must stop.
#[derive(Debug, Clone)]
pub struct Failure {
    pub message: String,
    pub fatal: bool,
}

impl Failure {
    /// The failure as it is reported: `Fatal error: <message>` or `Error: <message>`.
    pub fn to_string(&self) -> (r: String)
        ensures
            r@ == (if self.fatal {
                "Fatal error: "@
            } else {
                "Error: "@
            }) + self.message@,
    {
        let head = if self.fatal {
            "Fatal error: ".to_owned()
        } else {
            "Error: ".to_owned()
        };
        head.concat(self.message.as_str())
    }
}

/// The value, or a failure with `message` where there is none.
pub fn unwrap_or_err<T>(result: Option<T>, message: &str, fatal: bool) -> (r: Result<T, Failure>)
    ensures
        result matches Some(v) ==> r == Ok::<T, Failure>(v),
        result is None ==> (r matches Err(e) && e.message@ == message@ && e.fatal == fatal),
{
    match result {
        Some(v) => Ok(v),
        None => Err(Failure { message: message.to_owned(), fatal }),
    }
}

/// The value, or a failure with `message` in place of the error.
pub fn unwrap_result_or_err<T, E>(result: Result<T, E>, message: &str, fatal: bool) -> (r: Result<
    T,
    Failure,
>)
    ensures
        result matches Ok(v) ==> r == Ok::<T, Failure>(v),
        result is Err ==> (r matches Err(e) && e.message@ == message@ && e.fatal == fatal),
{
    match result {
        Ok(v) => Ok(v),
        Err(_) => Err(Failure { message: message.to_owned(), fatal }),
    }
}

} // verus!
