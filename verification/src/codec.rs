//! The two-line, fixed-column text form of a [`Knot`].
//!
//! Each field has its line, its columns and its kind. Reading takes the
//! fields in the order of their columns, first line first, and reports the
//! first that cannot be read. Writing a valid knot and reading the two lines
//! back gives the knot again.

use crate::knot::{Knot, KnotView};
use crate::scientific::{
    convert_scientific, lemma_column_round_trip, scientific_field, Scientific,
};
use crate::text::{
    blank_leading, fixed_field, fixed_text, fixed_text_zero_padded, is_trimmed, left_justified,
    lemma_blank_leading_len, lemma_fixed_round_trip, lemma_fixed_zero_padded_round_trip,
    lemma_left_justified_round_trip, lemma_pow10_values, lemma_signed_fraction_round_trip,
    lemma_unit_fraction_round_trip, lemma_zero_padded_round_trip, lemma_zero_padded_shape,
    lemma_trimmed_shape, parse_fixed, pow10, parse_signed_fixed, parse_uint, push_blanked, push_fixed,
    push_fixed_zero_padded, push_left_justified, push_signed_fraction, push_zero_padded,
    signed_fixed_field, signed_fraction_text, trim, trimmed, uint_field, zero_padded,
};
use vstd::prelude::*;
use vstd::slice::{slice_subrange, slice_to_vec};

verus! {

/// The fields of an element record, in the order of their columns.
#[derive(Clone, Copy, Debug, PartialEq, Eq, Structural)]
pub enum Field {
    LineOne,
    CatalogNumber,
    Designator,
    EpochYear,
    EpochDay,
    MeanMotionDot,
    MeanMotionDdot,
    Bstar,
    EphemerisType,
    ElementNumber,
    LineTwo,
    Inclination,
    Raan,
    Eccentricity,
    ArgOfPerigee,
    MeanAnomaly,
    MeanMotion,
    RevNumber,
}

/// How the text of a field is read.
#[derive(Clone, Copy, Debug, PartialEq, Eq, Structural)]
pub enum FieldKind {
    /// The digit that numbers the line.
    LineMark,
    /// An unsigned whole number.
    Whole,
    /// An unsigned fixed-point number.
    Fixed,
    /// A fixed-point number with an optional sign.
    Signed,
    /// The digits behind a decimal point that is not written.
    UnitFraction,
    /// A number of the exponential sub-format.
    Exponent,
    /// Text, taken as it stands.
    Text,
}

/// What is wrong with a field.
#[derive(Clone, Copy, Debug, PartialEq, Eq, Structural)]
pub enum Fault {
    /// The line does not start with the digit of its number.
    WrongLine,
    /// The line ends before the last column of the field.
    Missing,
    /// The text is no number of the field's kind, or one that is out of the
    /// field's range.
    Malformed,
}

/// Why two lines are no element record: the first field that could not be
/// read, its text as far as the line has it, and the two lines.
#[derive(Debug, PartialEq, Eq)]
pub struct FormatError {
    pub field: Field,
    pub fault: Fault,
    pub raw: Vec<u8>,
    pub line1: Vec<u8>,
    pub line2: Vec<u8>,
}

/// What reading a field gives.
pub enum Reading {
    Number(int),
    Exponent(Scientific),
    Text(Seq<u8>),
}

impl Field {
    /// The field stands on the second line.
    pub open spec fn on_line_two(self) -> bool {
        match self {
            Field::LineTwo
            | Field::Inclination
            | Field::Raan
            | Field::Eccentricity
            | Field::ArgOfPerigee
            | Field::MeanAnomaly
            | Field::MeanMotion
            | Field::RevNumber => true,
            _ => false,
        }
    }

    /// The first column of the field, counted from 0.
    pub open spec fn start(self) -> int {
        match self {
            Field::LineOne => 0,
            Field::CatalogNumber => 2,
            Field::Designator => 9,
            Field::EpochYear => 18,
            Field::EpochDay => 20,
            Field::MeanMotionDot => 33,
            Field::MeanMotionDdot => 44,
            Field::Bstar => 53,
            Field::EphemerisType => 62,
            Field::ElementNumber => 64,
            Field::LineTwo => 0,
            Field::Inclination => 8,
            Field::Raan => 17,
            Field::Eccentricity => 26,
            Field::ArgOfPerigee => 34,
            Field::MeanAnomaly => 43,
            Field::MeanMotion => 52,
            Field::RevNumber => 63,
        }
    }

    /// The column behind the last of the field.
    pub open spec fn end(self) -> int {
        match self {
            Field::LineOne => 1,
            Field::CatalogNumber => 7,
            Field::Designator => 17,
            Field::EpochYear => 20,
            Field::EpochDay => 32,
            Field::MeanMotionDot => 43,
            Field::MeanMotionDdot => 52,
            Field::Bstar => 61,
            Field::EphemerisType => 63,
            Field::ElementNumber => 68,
            Field::LineTwo => 1,
            Field::Inclination => 16,
            Field::Raan => 25,
            Field::Eccentricity => 33,
            Field::ArgOfPerigee => 42,
            Field::MeanAnomaly => 51,
            Field::MeanMotion => 63,
            Field::RevNumber => 68,
        }
    }

    /// How the field is read.
    pub open spec fn kind(self) -> FieldKind {
        match self {
            Field::LineOne | Field::LineTwo => FieldKind::LineMark,
            Field::CatalogNumber
            | Field::EpochYear
            | Field::EphemerisType
            | Field::ElementNumber
            | Field::RevNumber => FieldKind::Whole,
            Field::Designator => FieldKind::Text,
            Field::EpochDay
            | Field::Inclination
            | Field::Raan
            | Field::ArgOfPerigee
            | Field::MeanAnomaly
            | Field::MeanMotion => FieldKind::Fixed,
            Field::MeanMotionDot => FieldKind::Signed,
            Field::MeanMotionDdot | Field::Bstar => FieldKind::Exponent,
            Field::Eccentricity => FieldKind::UnitFraction,
        }
    }

    /// The digits behind the decimal point of a field that has one.
    pub open spec fn decimals(self) -> nat {
        match self {
            Field::EpochDay | Field::MeanMotionDot | Field::MeanMotion => 8,
            Field::Eccentricity => 7,
            Field::Inclination | Field::Raan | Field::ArgOfPerigee | Field::MeanAnomaly => 4,
            _ => 0,
        }
    }

    /// The largest count that the field's columns can hold; for a line mark,
    /// the number of the line.
    pub open spec fn largest(self) -> int {
        match self {
            Field::LineOne => 1,
            Field::LineTwo => 2,
            Field::CatalogNumber | Field::RevNumber => 99_999,
            Field::EpochYear => 99,
            Field::EpochDay => 99_999_999_999,
            Field::MeanMotionDot => 99_999_999,
            Field::EphemerisType => 9,
            Field::ElementNumber => 9_999,
            Field::Inclination
            | Field::Raan
            | Field::Eccentricity
            | Field::ArgOfPerigee
            | Field::MeanAnomaly => 9_999_999,
            Field::MeanMotion => 9_999_999_999,
            _ => 0,
        }
    }

    /// The smallest count that the field may hold.
    pub open spec fn smallest(self) -> int {
        match self {
            Field::LineOne => 1,
            Field::LineTwo => 2,
            Field::MeanMotionDot => -99_999_999,
            Field::MeanMotion => 1,
            _ => 0,
        }
    }

    /// Tells whether the field stands on the second line.
    pub fn is_on_line_two(&self) -> (r: bool)
        ensures
            r == self.on_line_two(),
    {
        match self {
            Field::LineTwo
            | Field::Inclination
            | Field::Raan
            | Field::Eccentricity
            | Field::ArgOfPerigee
            | Field::MeanAnomaly
            | Field::MeanMotion
            | Field::RevNumber => true,
            _ => false,
        }
    }

    /// The columns of the field: the first, and the one behind the last.
    pub fn span(&self) -> (r: (usize, usize))
        ensures
            r.0 == self.start(),
            r.1 == self.end(),
            r.0 < r.1 <= 68,
    {
        match self {
            Field::LineOne => (0, 1),
            Field::CatalogNumber => (2, 7),
            Field::Designator => (9, 17),
            Field::EpochYear => (18, 20),
            Field::EpochDay => (20, 32),
            Field::MeanMotionDot => (33, 43),
            Field::MeanMotionDdot => (44, 52),
            Field::Bstar => (53, 61),
            Field::EphemerisType => (62, 63),
            Field::ElementNumber => (64, 68),
            Field::LineTwo => (0, 1),
            Field::Inclination => (8, 16),
            Field::Raan => (17, 25),
            Field::Eccentricity => (26, 33),
            Field::ArgOfPerigee => (34, 42),
            Field::MeanAnomaly => (43, 51),
            Field::MeanMotion => (52, 63),
            Field::RevNumber => (63, 68),
        }
    }

    /// How the field is read.
    pub fn field_kind(&self) -> (r: FieldKind)
        ensures
            r == self.kind(),
    {
        match self {
            Field::LineOne | Field::LineTwo => FieldKind::LineMark,
            Field::CatalogNumber
            | Field::EpochYear
            | Field::EphemerisType
            | Field::ElementNumber
            | Field::RevNumber => FieldKind::Whole,
            Field::Designator => FieldKind::Text,
            Field::EpochDay
            | Field::Inclination
            | Field::Raan
            | Field::ArgOfPerigee
            | Field::MeanAnomaly
            | Field::MeanMotion => FieldKind::Fixed,
            Field::MeanMotionDot => FieldKind::Signed,
            Field::MeanMotionDdot | Field::Bstar => FieldKind::Exponent,
            Field::Eccentricity => FieldKind::UnitFraction,
        }
    }

    /// The digits behind the decimal point, the smallest and the largest
    /// count of the field.
    pub fn range(&self) -> (r: (usize, i64, i64))
        ensures
            r.0 == self.decimals(),
            r.1 == self.smallest(),
            r.2 == self.largest(),
    {
        match self {
            Field::LineOne => (0, 1, 1),
            Field::LineTwo => (0, 2, 2),
            Field::CatalogNumber | Field::RevNumber => (0, 0, 99_999),
            Field::EpochYear => (0, 0, 99),
            Field::EpochDay => (8, 0, 99_999_999_999),
            Field::MeanMotionDot => (8, -99_999_999, 99_999_999),
            Field::EphemerisType => (0, 0, 9),
            Field::ElementNumber => (0, 0, 9_999),
            Field::Inclination | Field::Raan | Field::ArgOfPerigee | Field::MeanAnomaly => (
                4,
                0,
                9_999_999,
            ),
            Field::Eccentricity => (7, 0, 9_999_999),
            Field::MeanMotion => (8, 1, 9_999_999_999),
            _ => (0, 0, 0),
        }
    }
}

/// The line on which a field stands.
pub open spec fn line_of(line1: Seq<u8>, line2: Seq<u8>, field: Field) -> Seq<u8> {
    if field.on_line_two() {
        line2
    } else {
        line1
    }
}

/// The columns of a field as far as its line has them.
pub open spec fn raw_text(line1: Seq<u8>, line2: Seq<u8>, field: Field) -> Seq<u8> {
    let line = line_of(line1, line2, field);
    let start = if field.start() <= line.len() {
        field.start()
    } else {
        line.len() as int
    };
    let end = if field.end() <= line.len() {
        field.end()
    } else {
        line.len() as int
    };
    line.subrange(start, end)
}

/// The count that the trimmed text of a field spells, by the field's kind.
pub open spec fn count_of(text: Seq<u8>, field: Field) -> Option<int> {
    match field.kind() {
        FieldKind::Whole => match uint_field(text) {
            Some(v) => Some(v as int),
            None => None,
        },
        FieldKind::Fixed => match fixed_field(text, field.decimals()) {
            Some(v) => Some(v as int),
            None => None,
        },
        FieldKind::UnitFraction => match fixed_field(
            seq![0x30u8, 0x2eu8] + text,
            field.decimals(),
        ) {
            Some(v) => Some(v as int),
            None => None,
        },
        FieldKind::Signed => signed_fixed_field(text, field.decimals()),
        _ => None,
    }
}

/// What reading a field of two lines gives.
///
/// The field is missing where its line ends before it. Text is trimmed. A
/// number must lie in the range of its field, and a number of the
/// exponential sub-format must have a column form. A line mark that is
/// another character than the line's number marks the wrong line.
#[verifier::opaque]
pub open spec fn reading(line1: Seq<u8>, line2: Seq<u8>, field: Field) -> Result<
    Reading,
    Fault,
> {
    let line = line_of(line1, line2, field);
    if line.len() < field.end() {
        Err(Fault::Missing)
    } else {
        let raw = line.subrange(field.start(), field.end());
        match field.kind() {
            FieldKind::Text => Ok(Reading::Text(trimmed(raw))),
            FieldKind::Exponent => match scientific_field(raw) {
                Ok(value) => match value.canonical_form() {
                    Some(canonical) => Ok(Reading::Exponent(canonical)),
                    None => Err(Fault::Malformed),
                },
                Err(_) => Err(Fault::Malformed),
            },
            FieldKind::LineMark => if raw[0] == 0x30 + field.largest() {
                Ok(Reading::Number(field.largest()))
            } else {
                Err(Fault::WrongLine)
            },
            _ => match count_of(trimmed(raw), field) {
                Some(v) => if field.smallest() <= v <= field.largest() {
                    Ok(Reading::Number(v))
                } else {
                    Err(Fault::Malformed)
                },
                None => Err(Fault::Malformed),
            },
        }
    }
}

/// The number read from a field, where it holds one.
pub open spec fn number_at(line1: Seq<u8>, line2: Seq<u8>, field: Field) -> int {
    match reading(line1, line2, field) {
        Ok(Reading::Number(v)) => v,
        _ => 0,
    }
}

/// The number of the exponential sub-format read from a field, where it
/// holds one.
pub open spec fn exponent_at(line1: Seq<u8>, line2: Seq<u8>, field: Field) -> Scientific {
    match reading(line1, line2, field) {
        Ok(Reading::Exponent(v)) => v,
        _ => Scientific { negative: false, mantissa: 0, digits: 5, exponent: 0 },
    }
}

/// The text read from a field, where it holds text.
pub open spec fn text_at(line1: Seq<u8>, line2: Seq<u8>, field: Field) -> Seq<u8> {
    match reading(line1, line2, field) {
        Ok(Reading::Text(t)) => t,
        _ => Seq::empty(),
    }
}

/// The year that the two digits of an epoch name: 57 to 99 are the years
/// from 1957, 00 to 56 those from 2000.
pub open spec fn full_year(two_digits: int) -> int {
    if two_digits < 57 {
        2000 + two_digits
    } else {
        1900 + two_digits
    }
}

/// The fault of `field`, or else what `rest` says.
pub open spec fn fault_or(
    line1: Seq<u8>,
    line2: Seq<u8>,
    field: Field,
    rest: Option<(Field, Fault)>,
) -> Option<(Field, Fault)> {
    match reading(line1, line2, field) {
        Err(fault) => Some((field, fault)),
        Ok(_) => rest,
    }
}

/// The first field, in the order of the columns, that cannot be read, with
/// its fault; `None` where every field can.
pub open spec fn first_fault(line1: Seq<u8>, line2: Seq<u8>) -> Option<(Field, Fault)> {
    let l1 = line1;
    let l2 = line2;
    fault_or(l1, l2, Field::LineOne,
    fault_or(l1, l2, Field::CatalogNumber,
    fault_or(l1, l2, Field::Designator,
    fault_or(l1, l2, Field::EpochYear,
    fault_or(l1, l2, Field::EpochDay,
    fault_or(l1, l2, Field::MeanMotionDot,
    fault_or(l1, l2, Field::MeanMotionDdot,
    fault_or(l1, l2, Field::Bstar,
    fault_or(l1, l2, Field::EphemerisType,
    fault_or(l1, l2, Field::ElementNumber,
    fault_or(l1, l2, Field::LineTwo,
    fault_or(l1, l2, Field::Inclination,
    fault_or(l1, l2, Field::Raan,
    fault_or(l1, l2, Field::Eccentricity,
    fault_or(l1, l2, Field::ArgOfPerigee,
    fault_or(l1, l2, Field::MeanAnomaly,
    fault_or(l1, l2, Field::MeanMotion,
    fault_or(l1, l2, Field::RevNumber, None))))))))))))))))))
}

/// The knot that two lines hold, where every field of them can be read.
pub open spec fn decoded(line1: Seq<u8>, line2: Seq<u8>) -> KnotView {
    KnotView {
        catalog_number: number_at(line1, line2, Field::CatalogNumber) as u32,
        designator: text_at(line1, line2, Field::Designator),
        epoch_year: full_year(number_at(line1, line2, Field::EpochYear)) as u16,
        epoch_day: number_at(line1, line2, Field::EpochDay) as u64,
        mean_motion_dot: number_at(line1, line2, Field::MeanMotionDot) as i64,
        mean_motion_ddot: exponent_at(line1, line2, Field::MeanMotionDdot),
        bstar: exponent_at(line1, line2, Field::Bstar),
        ephemeris_type: number_at(line1, line2, Field::EphemerisType) as u8,
        element_number: number_at(line1, line2, Field::ElementNumber) as u16,
        inclination: number_at(line1, line2, Field::Inclination) as u32,
        raan: number_at(line1, line2, Field::Raan) as u32,
        eccentricity: number_at(line1, line2, Field::Eccentricity) as u32,
        arg_of_perigee: number_at(line1, line2, Field::ArgOfPerigee) as u32,
        mean_anomaly: number_at(line1, line2, Field::MeanAnomaly) as u32,
        mean_motion: number_at(line1, line2, Field::MeanMotion) as u64,
        rev_number: number_at(line1, line2, Field::RevNumber) as u32,
    }
}

/// The columns of a field, or `None` where the line ends before them.
fn columns<'a>(line1: &'a [u8], line2: &'a [u8], field: Field) -> (r: Option<&'a [u8]>)
    ensures
        match r {
            Some(raw) => {
                let line = line_of(line1@, line2@, field);
                &&& field.end() <= line.len()
                &&& raw@ == line.subrange(field.start(), field.end())
            },
            None => line_of(line1@, line2@, field).len() < field.end(),
        },
{
    let line = if field.is_on_line_two() {
        line2
    } else {
        line1
    };
    let (start, end) = field.span();
    if line.len() < end {
        None
    } else {
        Some(slice_subrange(line, start, end))
    }
}

/// Reads a field that holds a count.
#[verifier::rlimit(50)]
fn read_number(line1: &[u8], line2: &[u8], field: Field) -> (r: Result<i64, Fault>)
    requires
        field.kind() != FieldKind::Text,
        field.kind() != FieldKind::Exponent,
    ensures
        match r {
            Ok(v) => {
                &&& reading(line1@, line2@, field) == Ok::<Reading, Fault>(
                    Reading::Number(v as int),
                )
                &&& field.smallest() <= v <= field.largest()
            },
            Err(fault) => reading(line1@, line2@, field) == Err::<Reading, Fault>(fault),
        },
{
    reveal(reading);
    let raw = match columns(line1, line2, field) {
        Some(raw) => raw,
        None => {
            return Err(Fault::Missing);
        },
    };
    let (decimals, smallest, largest) = field.range();
    let kind = field.field_kind();
    if let FieldKind::LineMark = kind {
        return if raw[0] as i64 == 0x30 + largest {
            Ok(largest)
        } else {
            Err(Fault::WrongLine)
        };
    }
    let text = trim(raw);
    let count: Option<i64> = match kind {
        FieldKind::Whole => match parse_uint(text) {
            Some(v) => if v <= i64::MAX as u64 {
                Some(v as i64)
            } else {
                None
            },
            None => None,
        },
        FieldKind::Fixed => match parse_fixed(text, decimals) {
            Some(v) => if v <= i64::MAX as u64 {
                Some(v as i64)
            } else {
                None
            },
            None => None,
        },
        FieldKind::UnitFraction => {
            let mut whole: Vec<u8> = Vec::new();
            whole.push(0x30);
            whole.push(0x2e);
            whole.extend_from_slice(text);
            proof {
                assert(whole@ =~= seq![0x30u8, 0x2eu8] + text@);
            }
            match parse_fixed(whole.as_slice(), decimals) {
                Some(v) => if v <= i64::MAX as u64 {
                    Some(v as i64)
                } else {
                    None
                },
                None => None,
            }
        },
        _ => parse_signed_fixed(text, decimals),
    };
    match count {
        Some(v) => if smallest <= v && v <= largest {
            Ok(v)
        } else {
            Err(Fault::Malformed)
        },
        None => Err(Fault::Malformed),
    }
}

/// Reads a field of the exponential sub-format.
fn read_exponent(line1: &[u8], line2: &[u8], field: Field) -> (r: Result<Scientific, Fault>)
    requires
        field.kind() == FieldKind::Exponent,
    ensures
        match r {
            Ok(v) => reading(line1@, line2@, field) == Ok::<Reading, Fault>(Reading::Exponent(v))
                && v.is_canonical(),
            Err(fault) => reading(line1@, line2@, field) == Err::<Reading, Fault>(fault),
        },
{
    reveal(reading);
    let raw = match columns(line1, line2, field) {
        Some(raw) => raw,
        None => {
            return Err(Fault::Missing);
        },
    };
    match convert_scientific(raw) {
        Ok(value) => match value.to_canonical() {
            Some(canonical) => Ok(canonical),
            None => Err(Fault::Malformed),
        },
        Err(_) => Err(Fault::Malformed),
    }
}

/// Reads a field of text.
fn read_text(line1: &[u8], line2: &[u8], field: Field) -> (r: Result<Vec<u8>, Fault>)
    requires
        field.kind() == FieldKind::Text,
    ensures
        match r {
            Ok(v) => {
                &&& reading(line1@, line2@, field) == Ok::<Reading, Fault>(Reading::Text(v@))
                &&& is_trimmed(v@)
                &&& v@.len() <= field.end() - field.start()
            },
            Err(fault) => reading(line1@, line2@, field) == Err::<Reading, Fault>(fault),
        },
{
    reveal(reading);
    match columns(line1, line2, field) {
        Some(raw) => {
            proof {
                lemma_trimmed_shape(raw@);
            }
            Ok(slice_to_vec(trim(raw)))
        },
        None => Err(Fault::Missing),
    }
}

/// What a field of a record holds.
#[derive(Debug, PartialEq, Eq)]
pub enum FieldValue {
    Number(i64),
    Exponent(Scientific),
    Text(Vec<u8>),
}

impl View for FieldValue {
    type V = Reading;

    open spec fn view(&self) -> Reading {
        match self {
            FieldValue::Number(v) => Reading::Number(*v as int),
            FieldValue::Exponent(v) => Reading::Exponent(*v),
            FieldValue::Text(t) => Reading::Text(t@),
        }
    }
}

/// Reads one field of the two lines of a record.
pub fn read_field(line1: &[u8], line2: &[u8], field: Field) -> (r: Result<FieldValue, Fault>)
    ensures
        match r {
            Ok(value) => reading(line1@, line2@, field) == Ok::<Reading, Fault>(value@),
            Err(fault) => reading(line1@, line2@, field) == Err::<Reading, Fault>(fault),
        },
{
    match field.field_kind() {
        FieldKind::Text => match read_text(line1, line2, field) {
            Ok(text) => Ok(FieldValue::Text(text)),
            Err(fault) => Err(fault),
        },
        FieldKind::Exponent => match read_exponent(line1, line2, field) {
            Ok(value) => Ok(FieldValue::Exponent(value)),
            Err(fault) => Err(fault),
        },
        _ => match read_number(line1, line2, field) {
            Ok(count) => Ok(FieldValue::Number(count)),
            Err(fault) => Err(fault),
        },
    }
}

/// The error for a field that could not be read.
pub fn format_error(field: Field, fault: Fault, line1: &[u8], line2: &[u8]) -> (e: FormatError)
    ensures
        e.field == field,
        e.fault == fault,
        e.raw@ == raw_text(line1@, line2@, field),
        e.line1@ == line1@,
        e.line2@ == line2@,
{
    let line = if field.is_on_line_two() {
        line2
    } else {
        line1
    };
    let (start, end) = field.span();
    let n = line.len();
    let from = if start <= n {
        start
    } else {
        n
    };
    let to = if end <= n {
        end
    } else {
        n
    };
    FormatError {
        field,
        fault,
        raw: slice_to_vec(slice_subrange(line, from, to)),
        line1: slice_to_vec(line1),
        line2: slice_to_vec(line2),
    }
}

/// Reads a field that holds a count, and says which field it was where it
/// cannot be read.
fn number(line1: &[u8], line2: &[u8], field: Field) -> (r: Result<i64, FormatError>)
    requires
        field.kind() != FieldKind::Text,
        field.kind() != FieldKind::Exponent,
    ensures
        match r {
            Ok(v) => {
                &&& reading(line1@, line2@, field) == Ok::<Reading, Fault>(
                    Reading::Number(v as int),
                )
                &&& field.smallest() <= v <= field.largest()
            },
            Err(e) => {
                &&& reading(line1@, line2@, field) == Err::<Reading, Fault>(e.fault)
                &&& e.field == field
                &&& e.raw@ == raw_text(line1@, line2@, field)
                &&& e.line1@ == line1@
                &&& e.line2@ == line2@
            },
        },
{
    match read_number(line1, line2, field) {
        Ok(v) => Ok(v),
        Err(fault) => Err(format_error(field, fault, line1, line2)),
    }
}

/// Reads a field of the exponential sub-format, and says which field it was
/// where it cannot be read.
fn exponent(line1: &[u8], line2: &[u8], field: Field) -> (r: Result<Scientific, FormatError>)
    requires
        field.kind() == FieldKind::Exponent,
    ensures
        match r {
            Ok(v) => reading(line1@, line2@, field) == Ok::<Reading, Fault>(Reading::Exponent(v))
                && v.is_canonical(),
            Err(e) => {
                &&& reading(line1@, line2@, field) == Err::<Reading, Fault>(e.fault)
                &&& e.field == field
                &&& e.raw@ == raw_text(line1@, line2@, field)
                &&& e.line1@ == line1@
                &&& e.line2@ == line2@
            },
        },
{
    match read_exponent(line1, line2, field) {
        Ok(v) => Ok(v),
        Err(fault) => Err(format_error(field, fault, line1, line2)),
    }
}

/// The year that the two digits of an epoch name.
pub fn year_of(two_digits: u8) -> (year: u16)
    ensures
        year == full_year(two_digits as int),
        two_digits <= 99 ==> 1957 <= year <= 2056,
{
    if two_digits < 57 {
        2000 + two_digits as u16
    } else {
        1900 + two_digits as u16
    }
}

/// Reads a knot from the two lines of an element record.
///
/// Succeeds exactly where every field can be read, and then the knot is
/// valid. Otherwise the error names the first field, in the order of the
/// columns, that cannot be read.
#[verifier::rlimit(50)]
pub fn decode(line1: &[u8], line2: &[u8]) -> (r: Result<Knot, FormatError>)
    ensures
        match r {
            Ok(knot) => {
                &&& first_fault(line1@, line2@) is None
                &&& knot@ == decoded(line1@, line2@)
                &&& knot@.is_valid()
            },
            Err(e) => {
                &&& first_fault(line1@, line2@) == Some((e.field, e.fault))
                &&& e.raw@ == raw_text(line1@, line2@, e.field)
                &&& e.line1@ == line1@
                &&& e.line2@ == line2@
            },
        },
{
    match number(line1, line2, Field::LineOne) {
        Ok(_) => {},
        Err(e) => {
            return Err(e);
        },
    }
    let catalog_number = match number(line1, line2, Field::CatalogNumber) {
        Ok(v) => v as u32,
        Err(e) => {
            return Err(e);
        },
    };
    let designator = match read_text(line1, line2, Field::Designator) {
        Ok(v) => v,
        Err(fault) => {
            return Err(format_error(Field::Designator, fault, line1, line2));
        },
    };
    let epoch_year = match number(line1, line2, Field::EpochYear) {
        Ok(v) => year_of(v as u8),
        Err(e) => {
            return Err(e);
        },
    };
    let epoch_day = match number(line1, line2, Field::EpochDay) {
        Ok(v) => v as u64,
        Err(e) => {
            return Err(e);
        },
    };
    let mean_motion_dot = match number(line1, line2, Field::MeanMotionDot) {
        Ok(v) => v,
        Err(e) => {
            return Err(e);
        },
    };
    let mean_motion_ddot = match exponent(line1, line2, Field::MeanMotionDdot) {
        Ok(v) => v,
        Err(e) => {
            return Err(e);
        },
    };
    let bstar = match exponent(line1, line2, Field::Bstar) {
        Ok(v) => v,
        Err(e) => {
            return Err(e);
        },
    };
    let ephemeris_type = match number(line1, line2, Field::EphemerisType) {
        Ok(v) => v as u8,
        Err(e) => {
            return Err(e);
        },
    };
    let element_number = match number(line1, line2, Field::ElementNumber) {
        Ok(v) => v as u16,
        Err(e) => {
            return Err(e);
        },
    };
    match number(line1, line2, Field::LineTwo) {
        Ok(_) => {},
        Err(e) => {
            return Err(e);
        },
    }
    let inclination = match number(line1, line2, Field::Inclination) {
        Ok(v) => v as u32,
        Err(e) => {
            return Err(e);
        },
    };
    let raan = match number(line1, line2, Field::Raan) {
        Ok(v) => v as u32,
        Err(e) => {
            return Err(e);
        },
    };
    let eccentricity = match number(line1, line2, Field::Eccentricity) {
        Ok(v) => v as u32,
        Err(e) => {
            return Err(e);
        },
    };
    let arg_of_perigee = match number(line1, line2, Field::ArgOfPerigee) {
        Ok(v) => v as u32,
        Err(e) => {
            return Err(e);
        },
    };
    let mean_anomaly = match number(line1, line2, Field::MeanAnomaly) {
        Ok(v) => v as u32,
        Err(e) => {
            return Err(e);
        },
    };
    let mean_motion = match number(line1, line2, Field::MeanMotion) {
        Ok(v) => v as u64,
        Err(e) => {
            return Err(e);
        },
    };
    let rev_number = match number(line1, line2, Field::RevNumber) {
        Ok(v) => v as u32,
        Err(e) => {
            return Err(e);
        },
    };
    Ok(
        Knot {
            catalog_number,
            designator,
            epoch_year,
            epoch_day,
            mean_motion_dot,
            mean_motion_ddot,
            bstar,
            ephemeris_type,
            element_number,
            inclination,
            raan,
            eccentricity,
            arg_of_perigee,
            mean_anomaly,
            mean_motion,
            rev_number,
        },
    )
}

/// A knot that is not valid has no text form: a field of it does not fit
/// its columns.
#[derive(Clone, Copy, Debug, PartialEq, Eq, Structural)]
pub struct InvalidKnot;

/// The first line of the record of a knot, in 68 columns: the line number,
/// the catalog number in five digits, the class `U`, the designator filled
/// up with spaces, the epoch as two digits of the year and the day of the
/// year, the first derivative of the mean motion with its sign, the second
/// derivative and the drag term in the exponential sub-format, the
/// ephemeris type and the number of the element set.
pub open spec fn line_one(k: KnotView) -> Seq<u8> {
    seq![0x31u8, 0x20u8] + zero_padded(k.catalog_number as nat, 5) + seq![0x55u8, 0x20u8]
        + left_justified(k.designator, 8) + seq![0x20u8] + zero_padded(
        (k.epoch_year % 100) as nat,
        2,
    ) + fixed_text_zero_padded(k.epoch_day as nat, 3, 8) + seq![0x20u8] + signed_fraction_text(
        k.mean_motion_dot as int,
        8,
    ) + seq![0x20u8] + k.mean_motion_ddot.column_text(0x2b) + seq![0x20u8] + k.bstar.column_text(
        0x20,
    ) + seq![0x20u8] + zero_padded(k.ephemeris_type as nat, 1) + seq![0x20u8] + zero_padded(
        k.element_number as nat,
        4,
    )
}

/// The second line of the record of a knot, in 68 columns: the line number,
/// the catalog number, the inclination, the right ascension of the
/// ascending node, the seven digits of the eccentricity, the argument of
/// perigee, the mean anomaly, the mean motion and the revolution number.
pub open spec fn line_two(k: KnotView) -> Seq<u8> {
    seq![0x32u8, 0x20u8] + blank_leading(zero_padded(k.catalog_number as nat, 5)) + seq![0x20u8]
        + fixed_text(k.inclination as nat, 3, 4) + seq![0x20u8] + fixed_text(k.raan as nat, 3, 4)
        + seq![0x20u8] + zero_padded(k.eccentricity as nat, 7) + seq![0x20u8] + fixed_text(
        k.arg_of_perigee as nat,
        3,
        4,
    ) + seq![0x20u8] + fixed_text(k.mean_anomaly as nat, 3, 4) + seq![0x20u8] + fixed_text(
        k.mean_motion as nat,
        2,
        8,
    ) + zero_padded(k.rev_number as nat, 5)
}

/// The record of a knot as it is written out: each of the two lines,
/// followed by a space in the column of the check digit and a line feed.
pub open spec fn record_text(k: KnotView) -> Seq<u8> {
    line_one(k) + seq![0x20u8, 0x0au8] + line_two(k) + seq![0x20u8, 0x0au8]
}

/// Writes the first line of the record of a knot.
///
/// Fails exactly where the knot is not valid.
#[verifier::rlimit(50)]
pub fn write_line1(knot: &Knot) -> (r: Result<Vec<u8>, InvalidKnot>)
    ensures
        match r {
            Ok(line) => knot@.is_valid() && line@ == line_one(knot@),
            Err(_) => !knot@.is_valid(),
        },
{
    if !knot.is_valid() {
        return Err(InvalidKnot);
    }
    let mut out: Vec<u8> = Vec::new();
    out.push(0x31);
    out.push(0x20);
    push_zero_padded(&mut out, knot.catalog_number as u64, 5);
    out.push(0x55);
    out.push(0x20);
    push_left_justified(&mut out, knot.designator.as_slice(), 8);
    out.push(0x20);
    push_zero_padded(&mut out, (knot.epoch_year % 100) as u64, 2);
    push_fixed_zero_padded(&mut out, knot.epoch_day, 3, 8);
    out.push(0x20);
    push_signed_fraction(&mut out, knot.mean_motion_dot, 8);
    out.push(0x20);
    knot.mean_motion_ddot.push_column(&mut out, 0x2b);
    out.push(0x20);
    knot.bstar.push_column(&mut out, 0x20);
    out.push(0x20);
    push_zero_padded(&mut out, knot.ephemeris_type as u64, 1);
    out.push(0x20);
    push_zero_padded(&mut out, knot.element_number as u64, 4);
    proof {
        assert(out@ =~= line_one(knot@));
    }
    Ok(out)
}

/// Writes the second line of the record of a knot.
///
/// Fails exactly where the knot is not valid.
#[verifier::rlimit(50)]
pub fn write_line2(knot: &Knot) -> (r: Result<Vec<u8>, InvalidKnot>)
    ensures
        match r {
            Ok(line) => knot@.is_valid() && line@ == line_two(knot@),
            Err(_) => !knot@.is_valid(),
        },
{
    if !knot.is_valid() {
        return Err(InvalidKnot);
    }
    let mut out: Vec<u8> = Vec::new();
    out.push(0x32);
    out.push(0x20);
    push_blanked(&mut out, knot.catalog_number as u64, 5);
    out.push(0x20);
    push_fixed(&mut out, knot.inclination as u64, 3, 4);
    out.push(0x20);
    push_fixed(&mut out, knot.raan as u64, 3, 4);
    out.push(0x20);
    push_zero_padded(&mut out, knot.eccentricity as u64, 7);
    out.push(0x20);
    push_fixed(&mut out, knot.arg_of_perigee as u64, 3, 4);
    out.push(0x20);
    push_fixed(&mut out, knot.mean_anomaly as u64, 3, 4);
    out.push(0x20);
    push_fixed(&mut out, knot.mean_motion, 2, 8);
    push_zero_padded(&mut out, knot.rev_number as u64, 5);
    proof {
        assert(out@ =~= line_two(knot@));
    }
    Ok(out)
}

/// Appends the record of a knot: its two lines, each followed by a space
/// and a line feed.
///
/// Fails exactly where the knot is not valid, and then appends nothing.
#[verifier::rlimit(50)]
pub fn write_tle_data(out: &mut Vec<u8>, knot: &Knot) -> (r: Result<(), InvalidKnot>)
    ensures
        match r {
            Ok(_) => knot@.is_valid() && final(out)@ == old(out)@ + record_text(knot@),
            Err(_) => !knot@.is_valid() && final(out)@ == old(out)@,
        },
{
    let line1 = match write_line1(knot) {
        Ok(line) => line,
        Err(e) => {
            return Err(e);
        },
    };
    let line2 = match write_line2(knot) {
        Ok(line) => line,
        Err(e) => {
            return Err(e);
        },
    };
    out.extend_from_slice(line1.as_slice());
    out.push(0x20);
    out.push(0x0a);
    out.extend_from_slice(line2.as_slice());
    out.push(0x20);
    out.push(0x0a);
    proof {
        assert(out@ =~= old(out)@ + record_text(knot@));
    }
    Ok(())
}

/// Where the fields of the first line stand, whatever follows the line.
#[verifier::rlimit(50)]
pub proof fn lemma_line_one_columns(k: KnotView, tail: Seq<u8>)
    requires
        k.is_valid(),
    ensures
        line_one(k).len() == 68,
        (line_one(k) + tail).subrange(0, 1) == seq![0x31u8],
        (line_one(k) + tail).subrange(2, 7) == zero_padded(k.catalog_number as nat, 5),
        (line_one(k) + tail).subrange(9, 17) == left_justified(k.designator, 8),
        (line_one(k) + tail).subrange(18, 20) == zero_padded((k.epoch_year % 100) as nat, 2),
        (line_one(k) + tail).subrange(20, 32) == fixed_text_zero_padded(k.epoch_day as nat, 3, 8),
        (line_one(k) + tail).subrange(33, 43) == signed_fraction_text(
            k.mean_motion_dot as int,
            8,
        ),
        (line_one(k) + tail).subrange(44, 52) == k.mean_motion_ddot.column_text(0x2b),
        (line_one(k) + tail).subrange(53, 61) == k.bstar.column_text(0x20),
        (line_one(k) + tail).subrange(62, 63) == zero_padded(k.ephemeris_type as nat, 1),
        (line_one(k) + tail).subrange(64, 68) == zero_padded(k.element_number as nat, 4),
{
    let l = line_one(k) + tail;
    lemma_pow10_values();
    lemma_zero_padded_shape(k.catalog_number as nat, 5);
    lemma_zero_padded_shape((k.epoch_year % 100) as nat, 2);
    lemma_zero_padded_shape(k.epoch_day as nat, 11);
    lemma_zero_padded_shape(
        (if k.mean_motion_dot < 0 {
            -k.mean_motion_dot
        } else {
            k.mean_motion_dot as int
        }) as nat,
        8,
    );
    lemma_zero_padded_shape(k.mean_motion_ddot.mantissa as nat, 5);
    lemma_zero_padded_shape(k.bstar.mantissa as nat, 5);
    lemma_zero_padded_shape(k.ephemeris_type as nat, 1);
    lemma_zero_padded_shape(k.element_number as nat, 4);
    assert(left_justified(k.designator, 8).len() == 8);
    assert(fixed_text_zero_padded(k.epoch_day as nat, 3, 8).len() == 12);
    assert(signed_fraction_text(k.mean_motion_dot as int, 8).len() == 10);
    assert(k.mean_motion_ddot.column_text(0x2b).len() == 8);
    assert(k.bstar.column_text(0x20).len() == 8);
    assert(l.subrange(0, 1) =~= seq![0x31u8]);
    assert(l.subrange(2, 7) =~= zero_padded(k.catalog_number as nat, 5));
    assert(l.subrange(9, 17) =~= left_justified(k.designator, 8));
    assert(l.subrange(18, 20) =~= zero_padded((k.epoch_year % 100) as nat, 2));
    assert(l.subrange(20, 32) =~= fixed_text_zero_padded(k.epoch_day as nat, 3, 8));
    assert(l.subrange(33, 43) =~= signed_fraction_text(k.mean_motion_dot as int, 8));
    assert(l.subrange(44, 52) =~= k.mean_motion_ddot.column_text(0x2b));
    assert(l.subrange(53, 61) =~= k.bstar.column_text(0x20));
    assert(l.subrange(62, 63) =~= zero_padded(k.ephemeris_type as nat, 1));
    assert(l.subrange(64, 68) =~= zero_padded(k.element_number as nat, 4));
}

/// Where the fields of the second line stand, whatever follows the line.
#[verifier::rlimit(50)]
pub proof fn lemma_line_two_columns(k: KnotView, tail: Seq<u8>)
    requires
        k.is_valid(),
    ensures
        line_two(k).len() == 68,
        (line_two(k) + tail).subrange(0, 1) == seq![0x32u8],
        (line_two(k) + tail).subrange(8, 16) == fixed_text(k.inclination as nat, 3, 4),
        (line_two(k) + tail).subrange(17, 25) == fixed_text(k.raan as nat, 3, 4),
        (line_two(k) + tail).subrange(26, 33) == zero_padded(k.eccentricity as nat, 7),
        (line_two(k) + tail).subrange(34, 42) == fixed_text(k.arg_of_perigee as nat, 3, 4),
        (line_two(k) + tail).subrange(43, 51) == fixed_text(k.mean_anomaly as nat, 3, 4),
        (line_two(k) + tail).subrange(52, 63) == fixed_text(k.mean_motion as nat, 2, 8),
        (line_two(k) + tail).subrange(63, 68) == zero_padded(k.rev_number as nat, 5),
{
    let l = line_two(k) + tail;
    lemma_pow10_values();
    lemma_zero_padded_shape(k.catalog_number as nat, 5);
    lemma_blank_leading_len(zero_padded(k.catalog_number as nat, 5));
    lemma_fixed_round_trip(k.inclination as nat, 3, 4);
    lemma_fixed_round_trip(k.raan as nat, 3, 4);
    lemma_zero_padded_shape(k.eccentricity as nat, 7);
    lemma_fixed_round_trip(k.arg_of_perigee as nat, 3, 4);
    lemma_fixed_round_trip(k.mean_anomaly as nat, 3, 4);
    lemma_fixed_round_trip(k.mean_motion as nat, 2, 8);
    lemma_zero_padded_shape(k.rev_number as nat, 5);
    assert(l.subrange(0, 1) =~= seq![0x32u8]);
    assert(l.subrange(8, 16) =~= fixed_text(k.inclination as nat, 3, 4));
    assert(l.subrange(17, 25) =~= fixed_text(k.raan as nat, 3, 4));
    assert(l.subrange(26, 33) =~= zero_padded(k.eccentricity as nat, 7));
    assert(l.subrange(34, 42) =~= fixed_text(k.arg_of_perigee as nat, 3, 4));
    assert(l.subrange(43, 51) =~= fixed_text(k.mean_anomaly as nat, 3, 4));
    assert(l.subrange(52, 63) =~= fixed_text(k.mean_motion as nat, 2, 8));
    assert(l.subrange(63, 68) =~= zero_padded(k.rev_number as nat, 5));
}

/// A whole number that was written with zeros in front reads as the number.
pub proof fn lemma_reads_whole(l1: Seq<u8>, l2: Seq<u8>, field: Field, v: nat, width: nat)
    requires
        field.kind() == FieldKind::Whole,
        line_of(l1, l2, field).len() >= field.end(),
        line_of(l1, l2, field).subrange(field.start(), field.end()) == zero_padded(v, width),
        width > 0,
        v < pow10(width),
        v <= field.largest(),
    ensures
        reading(l1, l2, field) == Ok::<Reading, Fault>(Reading::Number(v as int)),
{
    reveal(reading);
    lemma_zero_padded_round_trip(v, width);
}

/// A fixed-point number that was written right justified reads as the number.
pub proof fn lemma_reads_fixed(l1: Seq<u8>, l2: Seq<u8>, field: Field, v: nat, whole: nat)
    requires
        field.kind() == FieldKind::Fixed,
        line_of(l1, l2, field).len() >= field.end(),
        line_of(l1, l2, field).subrange(field.start(), field.end()) == fixed_text(
            v,
            whole,
            field.decimals(),
        ),
        whole > 0,
        v < pow10(whole + field.decimals()),
        field.smallest() <= v <= field.largest(),
    ensures
        reading(l1, l2, field) == Ok::<Reading, Fault>(Reading::Number(v as int)),
{
    reveal(reading);
    lemma_fixed_round_trip(v, whole, field.decimals());
}

/// A fixed-point number that was written with zeros in front reads as the
/// number.
pub proof fn lemma_reads_fixed_zero_padded(
    l1: Seq<u8>,
    l2: Seq<u8>,
    field: Field,
    v: nat,
    whole: nat,
)
    requires
        field.kind() == FieldKind::Fixed,
        line_of(l1, l2, field).len() >= field.end(),
        line_of(l1, l2, field).subrange(field.start(), field.end()) == fixed_text_zero_padded(
            v,
            whole,
            field.decimals(),
        ),
        field.decimals() > 0,
        v < pow10(whole + field.decimals()),
        field.smallest() <= v <= field.largest(),
    ensures
        reading(l1, l2, field) == Ok::<Reading, Fault>(Reading::Number(v as int)),
{
    reveal(reading);
    lemma_fixed_zero_padded_round_trip(v, whole, field.decimals());
}

/// A signed fraction that was written reads as the number.
pub proof fn lemma_reads_signed(l1: Seq<u8>, l2: Seq<u8>, field: Field, v: int)
    requires
        field.kind() == FieldKind::Signed,
        line_of(l1, l2, field).len() >= field.end(),
        line_of(l1, l2, field).subrange(field.start(), field.end()) == signed_fraction_text(
            v,
            field.decimals(),
        ),
        field.decimals() > 0,
        -pow10(field.decimals()) < v < pow10(field.decimals()),
        field.smallest() <= v <= field.largest(),
    ensures
        reading(l1, l2, field) == Ok::<Reading, Fault>(Reading::Number(v)),
{
    reveal(reading);
    lemma_signed_fraction_round_trip(v, field.decimals());
}

/// The digits of a fraction that were written read as the number.
pub proof fn lemma_reads_unit_fraction(l1: Seq<u8>, l2: Seq<u8>, field: Field, v: nat)
    requires
        field.kind() == FieldKind::UnitFraction,
        line_of(l1, l2, field).len() >= field.end(),
        line_of(l1, l2, field).subrange(field.start(), field.end()) == zero_padded(
            v,
            field.decimals(),
        ),
        field.decimals() > 0,
        v < pow10(field.decimals()),
        v <= field.largest(),
    ensures
        reading(l1, l2, field) == Ok::<Reading, Fault>(Reading::Number(v as int)),
{
    reveal(reading);
    lemma_unit_fraction_round_trip(v, field.decimals());
}

/// A number of the exponential sub-format that was written in its columns
/// reads as the number.
pub proof fn lemma_reads_exponent(
    l1: Seq<u8>,
    l2: Seq<u8>,
    field: Field,
    v: Scientific,
    plus: u8,
)
    requires
        field.kind() == FieldKind::Exponent,
        line_of(l1, l2, field).len() >= field.end(),
        line_of(l1, l2, field).subrange(field.start(), field.end()) == v.column_text(plus),
        v.is_canonical(),
        plus == 0x20 || plus == 0x2b,
    ensures
        reading(l1, l2, field) == Ok::<Reading, Fault>(Reading::Exponent(v)),
{
    reveal(reading);
    lemma_column_round_trip(v, plus);
    lemma_canonical_fixpoint(v);
}

/// Text that was written left justified reads as the text.
pub proof fn lemma_reads_text(l1: Seq<u8>, l2: Seq<u8>, field: Field, text: Seq<u8>, width: nat)
    requires
        field.kind() == FieldKind::Text,
        line_of(l1, l2, field).len() >= field.end(),
        line_of(l1, l2, field).subrange(field.start(), field.end()) == left_justified(
            text,
            width,
        ),
        is_trimmed(text),
    ensures
        reading(l1, l2, field) == Ok::<Reading, Fault>(Reading::Text(text)),
{
    reveal(reading);
    lemma_left_justified_round_trip(text, width);
}

/// The mark of a line reads where the line starts with its number.
pub proof fn lemma_reads_mark(l1: Seq<u8>, l2: Seq<u8>, field: Field)
    requires
        field.kind() == FieldKind::LineMark,
        line_of(l1, l2, field).len() >= 1,
        line_of(l1, l2, field)[0] == 0x30 + field.largest(),
    ensures
        reading(l1, l2, field) is Ok,
{
    reveal(reading);
    assert(line_of(l1, l2, field).subrange(0, 1)[0] == line_of(l1, l2, field)[0]);
}

/// Every field of the first line of a written knot reads as the knot has it.
#[verifier::rlimit(50)]
pub proof fn lemma_line_one_readings(k: KnotView, l1: Seq<u8>, l2: Seq<u8>)
    requires
        k.is_valid(),
        l1.len() >= 68,
        l1.subrange(0, 68) == line_one(k),
    ensures
        reading(l1, l2, Field::LineOne) is Ok,
        reading(l1, l2, Field::CatalogNumber) == Ok::<Reading, Fault>(
            Reading::Number(k.catalog_number as int),
        ),
        reading(l1, l2, Field::Designator) == Ok::<Reading, Fault>(Reading::Text(k.designator)),
        reading(l1, l2, Field::EpochYear) == Ok::<Reading, Fault>(
            Reading::Number((k.epoch_year % 100) as int),
        ),
        reading(l1, l2, Field::EpochDay) == Ok::<Reading, Fault>(
            Reading::Number(k.epoch_day as int),
        ),
        reading(l1, l2, Field::MeanMotionDot) == Ok::<Reading, Fault>(
            Reading::Number(k.mean_motion_dot as int),
        ),
        reading(l1, l2, Field::MeanMotionDdot) == Ok::<Reading, Fault>(
            Reading::Exponent(k.mean_motion_ddot),
        ),
        reading(l1, l2, Field::Bstar) == Ok::<Reading, Fault>(Reading::Exponent(k.bstar)),
        reading(l1, l2, Field::EphemerisType) == Ok::<Reading, Fault>(
            Reading::Number(k.ephemeris_type as int),
        ),
        reading(l1, l2, Field::ElementNumber) == Ok::<Reading, Fault>(
            Reading::Number(k.element_number as int),
        ),
{
    let tail = l1.subrange(68, l1.len() as int);
    assert(l1 =~= line_one(k) + tail);
    lemma_line_one_columns(k, tail);
    lemma_pow10_values();
    assert(l1[0] == l1.subrange(0, 1)[0]);
    lemma_reads_mark(l1, l2, Field::LineOne);
    lemma_reads_whole(l1, l2, Field::CatalogNumber, k.catalog_number as nat, 5);
    lemma_reads_text(l1, l2, Field::Designator, k.designator, 8);
    lemma_reads_whole(l1, l2, Field::EpochYear, (k.epoch_year % 100) as nat, 2);
    lemma_reads_fixed_zero_padded(l1, l2, Field::EpochDay, k.epoch_day as nat, 3);
    lemma_reads_signed(l1, l2, Field::MeanMotionDot, k.mean_motion_dot as int);
    lemma_reads_exponent(l1, l2, Field::MeanMotionDdot, k.mean_motion_ddot, 0x2b);
    lemma_reads_exponent(l1, l2, Field::Bstar, k.bstar, 0x20);
    lemma_reads_whole(l1, l2, Field::EphemerisType, k.ephemeris_type as nat, 1);
    lemma_reads_whole(l1, l2, Field::ElementNumber, k.element_number as nat, 4);
}

/// Every field of the second line of a written knot reads as the knot has it.
#[verifier::rlimit(50)]
pub proof fn lemma_line_two_readings(k: KnotView, l1: Seq<u8>, l2: Seq<u8>)
    requires
        k.is_valid(),
        l2.len() >= 68,
        l2.subrange(0, 68) == line_two(k),
    ensures
        reading(l1, l2, Field::LineTwo) is Ok,
        reading(l1, l2, Field::Inclination) == Ok::<Reading, Fault>(
            Reading::Number(k.inclination as int),
        ),
        reading(l1, l2, Field::Raan) == Ok::<Reading, Fault>(Reading::Number(k.raan as int)),
        reading(l1, l2, Field::Eccentricity) == Ok::<Reading, Fault>(
            Reading::Number(k.eccentricity as int),
        ),
        reading(l1, l2, Field::ArgOfPerigee) == Ok::<Reading, Fault>(
            Reading::Number(k.arg_of_perigee as int),
        ),
        reading(l1, l2, Field::MeanAnomaly) == Ok::<Reading, Fault>(
            Reading::Number(k.mean_anomaly as int),
        ),
        reading(l1, l2, Field::MeanMotion) == Ok::<Reading, Fault>(
            Reading::Number(k.mean_motion as int),
        ),
        reading(l1, l2, Field::RevNumber) == Ok::<Reading, Fault>(
            Reading::Number(k.rev_number as int),
        ),
{
    let tail = l2.subrange(68, l2.len() as int);
    assert(l2 =~= line_two(k) + tail);
    lemma_line_two_columns(k, tail);
    lemma_pow10_values();
    assert(l2[0] == l2.subrange(0, 1)[0]);
    lemma_reads_mark(l1, l2, Field::LineTwo);
    lemma_reads_fixed(l1, l2, Field::Inclination, k.inclination as nat, 3);
    lemma_reads_fixed(l1, l2, Field::Raan, k.raan as nat, 3);
    lemma_reads_unit_fraction(l1, l2, Field::Eccentricity, k.eccentricity as nat);
    lemma_reads_fixed(l1, l2, Field::ArgOfPerigee, k.arg_of_perigee as nat, 3);
    lemma_reads_fixed(l1, l2, Field::MeanAnomaly, k.mean_anomaly as nat, 3);
    lemma_reads_fixed(l1, l2, Field::MeanMotion, k.mean_motion as nat, 2);
    lemma_reads_whole(l1, l2, Field::RevNumber, k.rev_number as nat, 5);
}

/// A number in column form is its own column form.
pub proof fn lemma_canonical_fixpoint(v: Scientific)
    requires
        v.is_canonical(),
    ensures
        v.canonical_form() == Some(v),
{
    lemma_pow10_values();
    assert(v.mantissa * 1 == v.mantissa);
}

/// Reading the two lines that were written for a valid knot gives the knot
/// back, field for field, whatever stands behind the 68 columns of each
/// line.
#[verifier::rlimit(50)]
pub proof fn lemma_decode_encode(k: KnotView, l1: Seq<u8>, l2: Seq<u8>)
    requires
        k.is_valid(),
        l1.len() >= 68,
        l2.len() >= 68,
        l1.subrange(0, 68) == line_one(k),
        l2.subrange(0, 68) == line_two(k),
    ensures
        first_fault(l1, l2) is None,
        decoded(l1, l2) == k,
{
    lemma_line_one_readings(k, l1, l2);
    lemma_line_two_readings(k, l1, l2);
    assert(decoded(l1, l2).designator == k.designator);
}

} // verus!
