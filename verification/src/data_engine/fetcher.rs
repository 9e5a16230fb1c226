//! The raw records that the government open-data API returns.

use vstd::prelude::*;

verus! {

/// One raw record as the government API returned it.
///
/// `value` holds what the record's JSON value denotes as a double: the IEEE-754
/// bit pattern of the number it is (a JSON number, or a JSON string holding a
/// float literal with optional surrounding whitespace), or `None` when it
/// denotes no number (another JSON type, or text that is no float literal).
pub struct RawRecord {
    pub id: String,
    pub name: String,
    pub value: Option<u64>,
}

/// What a raw record holds, as mathematical values.
pub struct RawRecordView {
    pub id: Seq<char>,
    pub name: Seq<char>,
    pub value: Option<u64>,
}

impl View for RawRecord {
    type V = RawRecordView;

    open spec fn view(&self) -> RawRecordView {
        RawRecordView { id: self.id@, name: self.name@, value: self.value }
    }
}

impl RawRecord {
    /// Builds a raw record from its three fields.
    pub fn new(id: String, name: String, value: Option<u64>) -> (r: RawRecord)
        ensures
            r@ == (RawRecordView { id: id@, name: name@, value: value }),
    {
        RawRecord { id, name, value }
    }
}

} // verus!
