use vstd::prelude::*;

verus! {

/// The three ways a leaderboard operation can fail.
#[derive(Clone, Copy, Debug, PartialEq, Eq, Structural)]
pub enum LeaderboardError {
    /// Caller input breaks a precondition (a blank name); no storage was touched.
    ValidationError,
    /// No connection became available in time; the caller may retry.
    PoolExhaustedOrTimeout,
    /// The backing store failed (I/O, corrupt row, constraint violation).
    StorageError,
}

impl LeaderboardError {
    /// The HTTP status a transport reports for this error.
    pub fn status_code(&self) -> (r: u16)
        ensures
            *self == LeaderboardError::ValidationError ==> r == 400,
            *self == LeaderboardError::PoolExhaustedOrTimeout ==> r == 503,
            *self == LeaderboardError::StorageError ==> r == 500,
    {
        match self {
            LeaderboardError::ValidationError => 400,
            LeaderboardError::PoolExhaustedOrTimeout => 503,
            LeaderboardError::StorageError => 500,
        }
    }

    /// A short human-readable description of the error.
    pub fn message(&self) -> (r: &'static str)
        ensures
            *self == LeaderboardError::ValidationError ==> r@ == "name must not be blank"@,
            *self == LeaderboardError::PoolExhaustedOrTimeout ==> r@
                == "no storage connection available"@,
            *self == LeaderboardError::StorageError ==> r@ == "storage failure"@,
    {
        match self {
            LeaderboardError::ValidationError => "name must not be blank",
            LeaderboardError::PoolExhaustedOrTimeout => "no storage connection available",
            LeaderboardError::StorageError => "storage failure",
        }
    }
}

} // verus!
