use vstd::prelude::*;

verus! {

/// The liveness states a probe can report.
#[derive(Clone, Copy, PartialEq, Eq, Structural, Debug)]
pub enum Status {
    Up,
    Warn,
    Fail,
}

/// The body of a liveness probe's answer.
#[derive(Clone, Copy, PartialEq, Eq, Structural, Debug)]
pub struct HealthCheck {
    pub status: Status,
}

impl HealthCheck {
    /// The HTTP status code the probe answers with: a warning still counts
    /// as alive; only failure does not.
    pub fn status_code(&self) -> (r: u16)
        ensures
            r == 200 <==> (self.status == Status::Up || self.status == Status::Warn),
            r == 200 || r == 500,
    {
        match self.status {
            Status::Up => 200,
            Status::Warn => 200,
            Status::Fail => 500,
        }
    }
}

/// A live process reports itself up.
pub fn health_check() -> (r: HealthCheck)
    ensures
        r.status == Status::Up,
{
    HealthCheck { status: Status::Up }
}

} // verus!
