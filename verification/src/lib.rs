use vstd::prelude::*;

pub mod intake;
pub mod laws;
pub mod lookup;
pub mod queue;
pub mod records;
pub mod registry;
pub mod royalty;
pub mod state;
pub mod tables;
pub mod tracks;

pub use records::{
    Artist, ContractEvent, JukeboxTable, TableMembership, Track, TrackRequest, User,
};
pub use state::MetaJuke;

verus! {

/// Why an operation was refused.
#[derive(Clone, Copy, PartialEq, Eq, Structural, Debug)]
pub enum Error {
    NotFound,
    AlreadyExists,
    Unauthorized,
    InvalidState,
    ValidationError,
    PaymentFailed,
    Conflict,
}

} // verus!
