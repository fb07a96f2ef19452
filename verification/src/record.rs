use vstd::prelude::*;

verus! {

/// A stored travel experience: the one persisted entity of this store.
/// `id` is assigned once at creation and never changes afterwards.
#[derive(Debug)]
pub struct TravelExperience {
    pub id: u64,
    pub destination: String,
    pub date: u64,
    pub notes: String,
    pub historical_events: Vec<String>,
}

/// Mathematical model of a stored record.
#[verifier::ext_equal]
pub ghost struct RecordView {
    pub id: u64,
    pub destination: Seq<char>,
    pub date: u64,
    pub notes: Seq<char>,
    pub historical_events: Seq<Seq<char>>,
}

impl View for TravelExperience {
    type V = RecordView;

    open spec fn view(&self) -> RecordView {
        RecordView {
            id: self.id,
            destination: self.destination@,
            date: self.date,
            notes: self.notes@,
            historical_events: self.historical_events.deep_view(),
        }
    }
}

impl TravelExperience {
    /// An independent copy: mutating the copy never affects the original.
    pub fn duplicate(&self) -> (r: TravelExperience)
        ensures
            r@ == self@,
    {
        let events: Vec<String> = self.historical_events.clone();
        proof {
            assert forall|i: int| 0 <= i < events@.len() implies events@[i] == self.historical_events@[i] by {
                assert(cloned::<String>(self.historical_events[i], events[i]));
            }
            assert(events.deep_view() =~= self.historical_events.deep_view());
        }
        let r = TravelExperience {
            id: self.id,
            destination: self.destination.clone(),
            date: self.date,
            notes: self.notes.clone(),
            historical_events: events,
        };
        assert(r@ =~= self@);
        r
    }
}

/// The transient input shape for create and replace: a record without an id.
pub struct TravelExperiencePayload {
    pub destination: String,
    pub date: u64,
    pub notes: String,
    pub historical_events: Vec<String>,
}

/// Mathematical model of a payload.
#[verifier::ext_equal]
pub ghost struct PayloadView {
    pub destination: Seq<char>,
    pub date: u64,
    pub notes: Seq<char>,
    pub historical_events: Seq<Seq<char>>,
}

impl View for TravelExperiencePayload {
    type V = PayloadView;

    open spec fn view(&self) -> PayloadView {
        PayloadView {
            destination: self.destination@,
            date: self.date,
            notes: self.notes@,
            historical_events: self.historical_events.deep_view(),
        }
    }
}

/// The record that a given id and payload describe.
pub open spec fn record_of(id: u64, p: PayloadView) -> RecordView {
    RecordView {
        id: id,
        destination: p.destination,
        date: p.date,
        notes: p.notes,
        historical_events: p.historical_events,
    }
}

/// Outcome of an operation that can miss, and the two unrecoverable faults.
#[derive(Debug)]
pub enum Error {
    /// The given id has no live record; the message names the operation and id.
    NotFound { msg: String },
    /// A record's serialized form exceeds the fixed size bound.
    EncodingFault,
    /// The id counter is at its maximum representable value.
    AllocatorOverflow,
}

pub open spec fn dec_digit(n: int) -> char {
    if n == 0 { '0' }
    else if n == 1 { '1' }
    else if n == 2 { '2' }
    else if n == 3 { '3' }
    else if n == 4 { '4' }
    else if n == 5 { '5' }
    else if n == 6 { '6' }
    else if n == 7 { '7' }
    else if n == 8 { '8' }
    else { '9' }
}

/// Decimal representation of a number, most significant digit first.
pub open spec fn dec_rep(n: nat) -> Seq<char>
    decreases n,
{
    if n < 10 {
        seq![dec_digit(n as int)]
    } else {
        dec_rep(n / 10) + seq![dec_digit((n % 10) as int)]
    }
}

/// Renders a number in decimal.
pub(crate) fn u64_to_dec(n: u64) -> (s: String)
    ensures
        s@ == dec_rep(n as nat),
    decreases n,
{
    let digits = "0123456789";
    proof {
        reveal_strlit("0123456789");
    }
    let d: usize = (n % 10) as usize;
    let dstr = digits.substring_char(d, d + 1);
    assert(dstr@ =~= seq![dec_digit((n % 10) as int)]);
    if n < 10 {
        String::from_str(dstr)
    } else {
        let head = u64_to_dec(n / 10);
        head.concat(dstr)
    }
}

pub open spec fn not_found_read_msg(id: u64) -> Seq<char> {
    "travel experience with id="@ + dec_rep(id as nat) + " not found"@
}

pub open spec fn not_found_update_msg(id: u64) -> Seq<char> {
    "couldn't update travel experience with id="@ + dec_rep(id as nat) + ". item not found"@
}

pub open spec fn not_found_delete_msg(id: u64) -> Seq<char> {
    "couldn't delete travel experience with id="@ + dec_rep(id as nat) + ". item not found."@
}

pub open spec fn not_found_update_date_msg(id: u64) -> Seq<char> {
    "couldn't update date for travel experience with id="@ + dec_rep(id as nat) + ". item not found"@
}

pub(crate) fn make_not_found_read_msg(id: u64) -> (s: String)
    ensures
        s@ == not_found_read_msg(id),
{
    String::from_str("travel experience with id=").concat(u64_to_dec(id).as_str()).concat(
        " not found",
    )
}

pub(crate) fn make_not_found_update_msg(id: u64) -> (s: String)
    ensures
        s@ == not_found_update_msg(id),
{
    String::from_str("couldn't update travel experience with id=").concat(
        u64_to_dec(id).as_str(),
    ).concat(". item not found")
}

pub(crate) fn make_not_found_delete_msg(id: u64) -> (s: String)
    ensures
        s@ == not_found_delete_msg(id),
{
    String::from_str("couldn't delete travel experience with id=").concat(
        u64_to_dec(id).as_str(),
    ).concat(". item not found.")
}

pub(crate) fn make_not_found_update_date_msg(id: u64) -> (s: String)
    ensures
        s@ == not_found_update_date_msg(id),
{
    String::from_str("couldn't update date for travel experience with id=").concat(
        u64_to_dec(id).as_str(),
    ).concat(". item not found")
}

} // verus!
