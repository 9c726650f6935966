use vstd::prelude::*;
use crate::models::Status;
use crate::text::{parse_u32, parse_u32_spec};

verus! {

/// What a deletion confirmation makes of one line of input: an empty line
/// counts as consent, an explicit Y or y counts as consent, and anything
/// else declines.
pub open spec fn confirmation_spec(input: Seq<char>) -> bool {
    input.len() == 0 || input == seq!['Y'] || input == seq!['y']
}

pub fn parse_confirmation(input: &str) -> (r: bool)
    ensures
        r == confirmation_spec(input@),
{
    if input.is_empty() {
        true
    } else if input.unicode_len() == 1 {
        let c = input.get_char(0);
        let r = c == 'Y' || c == 'y';
        proof {
            if c == 'Y' {
                assert(input@ =~= seq!['Y']);
            } else if c == 'y' {
                assert(input@ =~= seq!['y']);
            } else {
                assert(input@[0] != seq!['Y'][0]);
                assert(input@[0] != seq!['y'][0]);
            }
        }
        r
    } else {
        proof {
            assert(input@.len() != seq!['Y'].len());
            assert(input@.len() != seq!['y'].len());
        }
        false
    }
}

/// What the status prompt makes of one line of input: the numbers one to
/// four name the four statuses in order, and anything else cancels.
pub open spec fn status_choice_spec(input: Seq<char>) -> Option<Status> {
    match parse_u32_spec(input) {
        Some(n) => if n == 1 {
            Some(Status::Open)
        } else if n == 2 {
            Some(Status::InProgress)
        } else if n == 3 {
            Some(Status::Resolved)
        } else if n == 4 {
            Some(Status::Closed)
        } else {
            None
        },
        None => None,
    }
}

pub fn parse_status_choice(input: &str) -> (r: Option<Status>)
    ensures
        r == status_choice_spec(input@),
{
    match parse_u32(input) {
        Some(1) => Some(Status::Open),
        Some(2) => Some(Status::InProgress),
        Some(3) => Some(Status::Resolved),
        Some(4) => Some(Status::Closed),
        _ => None,
    }
}

} // verus!
