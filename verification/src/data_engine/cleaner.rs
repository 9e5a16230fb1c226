//! Validation and cleaning of raw records: whitespace around the text fields
//! is removed, and records with an empty id, an empty name, or a value that is
//! not a finite number are discarded.

use vstd::prelude::*;

use crate::text::{
    all_whitespace, is_trimmed, lemma_trim_is_trimmed, lemma_trim_of_trimmed, lemma_trim_split, trim, trim_str,
};
use super::fetcher::{RawRecord, RawRecordView};

verus! {

/// A validated record, ready for serialization. `value` is the IEEE-754 bit
/// pattern of a finite double.
pub struct CleanRecord {
    pub id: String,
    pub name: String,
    pub value: u64,
}

/// What a clean record holds, as mathematical values.
pub struct CleanRecordView {
    pub id: Seq<char>,
    pub name: Seq<char>,
    pub value: u64,
}

impl View for CleanRecord {
    type V = CleanRecordView;

    open spec fn view(&self) -> CleanRecordView {
        CleanRecordView { id: self.id@, name: self.name@, value: self.value }
    }
}

/// The 11 exponent bits of an IEEE-754 double given by its bit pattern.
pub open spec fn exponent_bits(bits: u64) -> u64 {
    (bits >> 52u64) & 0x7ffu64
}

/// A double is finite (neither infinite nor NaN) exactly when its exponent
/// bits are not all ones.
pub open spec fn is_finite_bits(bits: u64) -> bool {
    exponent_bits(bits) != 0x7ffu64
}

/// The required text field `s` after cleaning, or `None` when it is blank.
pub open spec fn required_text(s: Seq<char>) -> Option<Seq<char>> {
    if trim(s).len() == 0 {
        None
    } else {
        Some(trim(s))
    }
}

/// The value of a raw record after cleaning, or `None` when it is not a
/// finite number.
pub open spec fn finite_value(value: Option<u64>) -> Option<u64> {
    match value {
        Some(bits) => if is_finite_bits(bits) {
            Some(bits)
        } else {
            None
        },
        None => None,
    }
}

/// The clean form of one raw record, or `None` when the record is discarded.
pub open spec fn clean_record(r: RawRecordView) -> Option<CleanRecordView> {
    match (required_text(r.id), required_text(r.name), finite_value(r.value)) {
        (Some(id), Some(name), Some(value)) => Some(CleanRecordView { id, name, value }),
        _ => None,
    }
}

/// The clean forms of the records of `raw` that are kept, in their order.
pub open spec fn clean_records(raw: Seq<RawRecordView>) -> Seq<CleanRecordView>
    decreases raw.len(),
{
    if raw.len() == 0 {
        Seq::empty()
    } else {
        let rest = clean_records(raw.drop_last());
        match clean_record(raw.last()) {
            Some(c) => rest.push(c),
            None => rest,
        }
    }
}

/// A clean record has non-empty trimmed text fields and a finite value.
pub open spec fn is_valid_clean(c: CleanRecordView) -> bool {
    &&& c.id.len() > 0
    &&& c.name.len() > 0
    &&& is_trimmed(c.id)
    &&& is_trimmed(c.name)
    &&& is_finite_bits(c.value)
}

/// The raw record that carries exactly what a clean record holds.
pub open spec fn as_raw(c: CleanRecordView) -> RawRecordView {
    RawRecordView { id: c.id, name: c.name, value: Some(c.value) }
}

/// Trims a required text field; `None` when nothing but whitespace is left.
pub fn sanitize_required_text(input: String) -> (r: Option<String>)
    ensures
        r matches Some(s) ==> required_text(input@) == Some(s@),
        r is None <==> required_text(input@) is None,
{
    let trimmed = trim_str(input.as_str());
    if trimmed.is_empty() {
        None
    } else {
        Some(trimmed.to_owned())
    }
}

/// Whether the double with bit pattern `bits` is finite.
pub fn is_finite(bits: u64) -> (r: bool)
    ensures
        r == is_finite_bits(bits),
{
    (bits >> 52u64) & 0x7ffu64 != 0x7ffu64
}

/// The value of a record when it is a finite number.
pub fn parse_finite_value(value: Option<u64>) -> (r: Option<u64>)
    ensures
        r == finite_value(value),
{
    match value {
        Some(bits) => if is_finite(bits) {
            Some(bits)
        } else {
            None
        },
        None => None,
    }
}

/// Validate and clean raw records, discarding malformed entries.
pub fn clean(raw: Vec<RawRecord>) -> (out: Vec<CleanRecord>)
    ensures
        out@.map_values(|c: CleanRecord| c@) == clean_records(raw@.map_values(|r: RawRecord| r@)),
        forall|i: int| 0 <= i < out@.len() ==> is_valid_clean(#[trigger] out@[i]@),
{
    let ghost raw_view = raw@.map_values(|r: RawRecord| r@);
    let mut out: Vec<CleanRecord> = Vec::with_capacity(raw.len());
    let n = raw.len();
    let mut i: usize = 0;
    while i < n
        invariant
            n == raw.len(),
            i <= n,
            raw_view == raw@.map_values(|r: RawRecord| r@),
            out@.map_values(|c: CleanRecord| c@) == clean_records(raw_view.take(i as int)),
        decreases n - i,
    {
        proof {
            assert(raw_view.take(i + 1).drop_last() =~= raw_view.take(i as int));
            assert(raw_view.take(i + 1).last() == raw_view[i as int]);
        }
        let ghost before = out@.map_values(|c: CleanRecord| c@);
        let record = &raw[i];
        i = i + 1;
        let id = match sanitize_required_text(record.id.clone()) {
            Some(v) => v,
            None => {
                continue;
            },
        };
        let name = match sanitize_required_text(record.name.clone()) {
            Some(v) => v,
            None => {
                continue;
            },
        };
        let value = match parse_finite_value(record.value) {
            Some(v) => v,
            None => {
                continue;
            },
        };
        out.push(CleanRecord { id, name, value });
        proof {
            assert(out@.map_values(|c: CleanRecord| c@) =~= before.push(
                CleanRecordView { id: id@, name: name@, value },
            ));
        }
    }
    proof {
        assert(raw_view.take(n as int) =~= raw_view);
        lemma_clean_records_valid(raw_view);
        assert forall|k: int| 0 <= k < out@.len() implies is_valid_clean(#[trigger] out@[k]@) by {
            assert(out@.map_values(|c: CleanRecord| c@)[k] == out@[k]@);
        }
    }
    out
}

/// Every record that cleaning keeps has a non-empty trimmed id and name and a
/// finite value.
pub proof fn lemma_clean_records_valid(raw: Seq<RawRecordView>)
    ensures
        forall|i: int| 0 <= i < clean_records(raw).len() ==> is_valid_clean(#[trigger] clean_records(raw)[i]),
        clean_records(raw).len() <= raw.len(),
    decreases raw.len(),
{
    if raw.len() > 0 {
        lemma_clean_records_valid(raw.drop_last());
        let r = raw.last();
        lemma_trim_is_trimmed(r.id);
        lemma_trim_is_trimmed(r.name);
    }
}

/// A record that is already clean passes cleaning unchanged.
pub proof fn lemma_clean_keeps_valid(c: CleanRecordView)
    requires
        is_valid_clean(c),
    ensures
        clean_record(as_raw(c)) == Some(c),
{
    lemma_trim_of_trimmed(c.id);
    lemma_trim_of_trimmed(c.name);
}

/// Cleaning is idempotent: cleaning the output of cleaning again keeps every
/// record and changes none.
pub proof fn lemma_clean_idempotent(raw: Seq<RawRecordView>)
    ensures
        clean_records(clean_records(raw).map_values(|c: CleanRecordView| as_raw(c))) == clean_records(raw),
{
    let out = clean_records(raw);
    lemma_clean_records_valid(raw);
    lemma_clean_all_valid(out);
}

/// Cleaning a sequence of records that are all clean gives them back.
pub proof fn lemma_clean_all_valid(cs: Seq<CleanRecordView>)
    requires
        forall|i: int| 0 <= i < cs.len() ==> is_valid_clean(#[trigger] cs[i]),
    ensures
        clean_records(cs.map_values(|c: CleanRecordView| as_raw(c))) == cs,
    decreases cs.len(),
{
    if cs.len() > 0 {
        let raws = cs.map_values(|c: CleanRecordView| as_raw(c));
        assert(raws.drop_last() =~= cs.drop_last().map_values(|c: CleanRecordView| as_raw(c)));
        lemma_clean_all_valid(cs.drop_last());
        lemma_clean_keeps_valid(cs.last());
        assert(cs.drop_last().push(cs.last()) =~= cs);
    }
}

/// A required text field is kept as the text between its leading and
/// trailing whitespace, which is non-empty and neither starts nor ends with
/// whitespace; it is refused exactly when it is whitespace only.
pub proof fn lemma_required_text_meaning(s: Seq<char>)
    ensures
        required_text(s) is None <==> all_whitespace(s),
        required_text(s) matches Some(t) ==> {
            &&& t.len() > 0
            &&& is_trimmed(t)
            &&& exists|a: Seq<char>, b: Seq<char>| all_whitespace(a) && all_whitespace(b) && s == a + t + b
        },
{
    lemma_trim_split(s);
    let (a, b) = choose|a: Seq<char>, b: Seq<char>|
        all_whitespace(a) && all_whitespace(b) && s == a + #[trigger] trim(s) + b;
    if trim(s).len() == 0 {
        assert(s =~= a + b);
        assert forall|i: int| 0 <= i < s.len() implies crate::text::is_unicode_whitespace(#[trigger] s[i]) by {
            if i < a.len() {
                assert(s[i] == a[i]);
            } else {
                assert(s[i] == b[i - a.len()]);
            }
        }
    } else {
        let t = trim(s);
        assert(s[a.len() as int] == t[0]);
        assert(s == a + t + b);
    }
}

/// Cleaning works record by record: cleaning two batches one after the other
/// gives what cleaning them together gives.
pub proof fn lemma_clean_records_concat(a: Seq<RawRecordView>, b: Seq<RawRecordView>)
    ensures
        clean_records(a + b) == clean_records(a) + clean_records(b),
    decreases b.len(),
{
    if b.len() == 0 {
        assert(a + b =~= a);
        assert(clean_records(a) + clean_records(b) =~= clean_records(a));
    } else {
        lemma_clean_records_concat(a, b.drop_last());
        assert((a + b).drop_last() =~= a + b.drop_last());
        assert((a + b).last() == b.last());
        match clean_record(b.last()) {
            Some(c) => {
                assert(clean_records(a) + clean_records(b) =~= (clean_records(a) + clean_records(b.drop_last())).push(c));
            },
            None => {},
        }
    }
}

/// One record is kept exactly when its trimmed id and trimmed name are
/// non-empty and its value is a double whose exponent bits are not all ones;
/// it is then kept with trimmed text and its value unchanged.
pub proof fn lemma_clean_one_record(r: RawRecordView)
    ensures
        clean_records(seq![r]) == if trim(r.id).len() > 0 && trim(r.name).len() > 0 && r.value is Some && ((
        r.value->0 >> 52u64) & 0x7ffu64) != 0x7ffu64 {
            seq![CleanRecordView { id: trim(r.id), name: trim(r.name), value: r.value->0 }]
        } else {
            Seq::<CleanRecordView>::empty()
        },
{
    assert(seq![r].drop_last() =~= Seq::<RawRecordView>::empty());
    assert(seq![r].last() == r);
    assert(clean_records(Seq::<RawRecordView>::empty()) == Seq::<CleanRecordView>::empty());
    assert(Seq::<CleanRecordView>::empty().push(
        CleanRecordView { id: trim(r.id), name: trim(r.name), value: r.value->0 },
    ) =~= seq![CleanRecordView { id: trim(r.id), name: trim(r.name), value: r.value->0 }]);
}

} // verus!
