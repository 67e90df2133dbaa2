//! A travel request record.
use vstd::prelude::*;

verus! {

/// Where a travel request stands.
#[derive(Debug, Clone, Copy, PartialEq, Eq, Structural)]
pub enum TravelRequestStatus {
    Draft,
    Submitted,
    Approved,
    Rejected,
    Settled,
}

/// The name a status is stored under (snake case).
pub open spec fn status_name(s: TravelRequestStatus) -> Seq<char> {
    match s {
        TravelRequestStatus::Draft => "draft"@,
        TravelRequestStatus::Submitted => "submitted"@,
        TravelRequestStatus::Approved => "approved"@,
        TravelRequestStatus::Rejected => "rejected"@,
        TravelRequestStatus::Settled => "settled"@,
    }
}

impl TravelRequestStatus {
    /// The name the status is stored under.
    pub fn as_str(&self) -> (r: &'static str)
        ensures
            r@ == status_name(*self),
    {
        match self {
            TravelRequestStatus::Draft => "draft",
            TravelRequestStatus::Submitted => "submitted",
            TravelRequestStatus::Approved => "approved",
            TravelRequestStatus::Rejected => "rejected",
            TravelRequestStatus::Settled => "settled",
        }
    }
}

/// One travel request.
#[derive(Debug)]
pub struct TravelRequest {
    pub id: String,
    pub employee_id: String,
    pub trip_number: String,
    pub status: TravelRequestStatus,
    pub start_date: String,
    pub end_date: String,
    pub destination: String,
    pub purpose: String,
}

} // verus!
