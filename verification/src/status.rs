//! The verdict a run settles on, decided in one place.

use vstd::prelude::*;

verus! {

/// What a run amounted to.
#[derive(Debug, Clone, Copy, PartialEq, Eq, Structural)]
pub enum Status {
    /// Macros were placed and committed to the database.
    Applied,
    /// The run did nothing. Never `Applied`.
    Vacuous,
    /// The engine declined.
    Refused,
}

/// The verdict word of each status.
pub open spec fn status_word(s: Status) -> Seq<char> {
    match s {
        Status::Applied => "applied"@,
        Status::Vacuous => "vacuous"@,
        Status::Refused => "refused"@,
    }
}

/// The exit code of each status: `0` applied, `1` refused, `3` vacuous.
pub open spec fn status_code(s: Status) -> u8 {
    match s {
        Status::Applied => 0,
        Status::Refused => 1,
        Status::Vacuous => 3,
    }
}

/// The verdict for `placed` committed macros and an optional refusal.
pub open spec fn settled(placed: nat, refused: bool) -> Status {
    if refused {
        Status::Refused
    } else if placed == 0 {
        Status::Vacuous
    } else {
        Status::Applied
    }
}

impl Status {
    pub fn as_str(self) -> (r: &'static str)
        ensures
            r@ == status_word(self),
    {
        match self {
            Status::Applied => "applied",
            Status::Vacuous => "vacuous",
            Status::Refused => "refused",
        }
    }

    /// Exit code. A pass and a failure never share one.
    pub fn exit_code(self) -> (r: u8)
        ensures
            r == status_code(self),
    {
        match self {
            Status::Applied => 0,
            Status::Refused => 1,
            Status::Vacuous => 3,
        }
    }
}

/// The one place the verdict is decided: a refusal outranks any count, and placing
/// nothing is vacuous rather than applied.
pub fn settle_status(placed: usize, refusal: Option<&str>) -> (r: Status)
    ensures
        r == settled(placed as nat, refusal is Some),
{
    if refusal.is_some() {
        return Status::Refused;
    }
    if placed == 0 {
        return Status::Vacuous;
    }
    Status::Applied
}

/// Placing nothing is never reported as applied, and a refusal always reads as refused.
pub proof fn lemma_nothing_placed_is_never_applied(placed: nat, refused: bool)
    ensures
        placed == 0 ==> settled(placed, refused) != Status::Applied,
        refused ==> settled(placed, refused) == Status::Refused,
        settled(placed, refused) == Status::Applied <==> (!refused && placed > 0),
{
}

/// No two verdicts share an exit code, and only `Applied` exits zero.
pub proof fn lemma_exit_codes_distinguish(a: Status, b: Status)
    ensures
        a != b ==> status_code(a) != status_code(b),
        status_code(a) == 0 <==> a == Status::Applied,
{
}

} // verus!
