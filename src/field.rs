//! Typed field values and their self-describing binary encoding.
use vstd::prelude::*;
use vstd::slice::slice_to_vec;
use vstd::utf8::*;

verus! {

broadcast use vstd::seq::group_seq_axioms;

/// The type of a field value.
#[derive(Clone, Copy, Debug, PartialEq, Eq, Structural)]
pub enum FieldType {
    UInt,
    Int,
    Float,
    Boolean,
    String,
    Text,
    Binary,
    Decimal,
    Timestamp,
    Date,
    Bson,
    Null,
}

/// A calendar date.
#[derive(Clone, Copy, Debug, PartialEq, Eq, Structural)]
pub struct Date {
    pub year: u16,
    pub month: u8,
    pub day: u8,
}

/// A typed value.
///
/// `Float` holds the IEEE-754 bit pattern of the number, `Decimal` the 16-byte
/// serialised form of the decimal, and `Timestamp` the instant in milliseconds
/// since the Unix epoch.
#[derive(Clone, Debug)]
pub enum Field {
    UInt(u64),
    Int(i64),
    Float(u64),
    Boolean(bool),
    String(String),
    Text(String),
    Binary(Vec<u8>),
    Decimal(Vec<u8>),
    Timestamp(i64),
    Date(Date),
    Bson(Vec<u8>),
    Null,
}

/// A field value that borrows its variable-length payload.
#[derive(Clone, Copy, Debug)]
pub enum FieldBorrow<'a> {
    UInt(u64),
    Int(i64),
    Float(u64),
    Boolean(bool),
    String(&'a str),
    Text(&'a str),
    Binary(&'a [u8]),
    Decimal(&'a [u8]),
    Timestamp(i64),
    Date(Date),
    Bson(&'a [u8]),
    Null,
}

/// The mathematical value of a field.
pub enum FieldView {
    UInt(u64),
    Int(i64),
    Float(u64),
    Boolean(bool),
    String(Seq<char>),
    Text(Seq<char>),
    Binary(Seq<u8>),
    Decimal(Seq<u8>),
    Timestamp(i64),
    Date(Date),
    Bson(Seq<u8>),
    Null,
}

/// Why a byte string is not the encoding of a field.
#[derive(Clone, Copy, Debug, PartialEq, Eq, Structural)]
pub enum DeserializationError {
    EmptyInput,
    UnknownTypeTag(u8),
    BadDataLength,
    BadUtf8,
    BadDate,
}

impl View for Field {
    type V = FieldView;

    open spec fn view(&self) -> FieldView {
        match self {
            Field::UInt(x) => FieldView::UInt(*x),
            Field::Int(x) => FieldView::Int(*x),
            Field::Float(x) => FieldView::Float(*x),
            Field::Boolean(x) => FieldView::Boolean(*x),
            Field::String(s) => FieldView::String(s@),
            Field::Text(s) => FieldView::Text(s@),
            Field::Binary(b) => FieldView::Binary(b@),
            Field::Decimal(b) => FieldView::Decimal(b@),
            Field::Timestamp(x) => FieldView::Timestamp(*x),
            Field::Date(d) => FieldView::Date(*d),
            Field::Bson(b) => FieldView::Bson(b@),
            Field::Null => FieldView::Null,
        }
    }
}

impl<'a> View for FieldBorrow<'a> {
    type V = FieldView;

    open spec fn view(&self) -> FieldView {
        match self {
            FieldBorrow::UInt(x) => FieldView::UInt(*x),
            FieldBorrow::Int(x) => FieldView::Int(*x),
            FieldBorrow::Float(x) => FieldView::Float(*x),
            FieldBorrow::Boolean(x) => FieldView::Boolean(*x),
            FieldBorrow::String(s) => FieldView::String(s@),
            FieldBorrow::Text(s) => FieldView::Text(s@),
            FieldBorrow::Binary(b) => FieldView::Binary(b@),
            FieldBorrow::Decimal(b) => FieldView::Decimal(b@),
            FieldBorrow::Timestamp(x) => FieldView::Timestamp(*x),
            FieldBorrow::Date(d) => FieldView::Date(*d),
            FieldBorrow::Bson(b) => FieldView::Bson(b@),
            FieldBorrow::Null => FieldView::Null,
        }
    }
}

pub open spec fn is_leap_year(y: int) -> bool {
    (y % 4 == 0 && y % 100 != 0) || y % 400 == 0
}

pub open spec fn days_in_month(y: int, m: int) -> int {
    if m == 2 {
        if is_leap_year(y) { 29 } else { 28 }
    } else if m == 4 || m == 6 || m == 9 || m == 11 {
        30
    } else {
        31
    }
}

/// A date that exists and that four decimal digits can write.
pub open spec fn date_valid(d: Date) -> bool {
    d.year <= 9999 && 1 <= d.month <= 12 && 1 <= d.day <= days_in_month(d.year as int, d.month as int)
}

/// What a field must satisfy to have an encoding that decodes back to it.
pub open spec fn field_wf(f: FieldView) -> bool {
    match f {
        FieldView::Decimal(b) => b.len() == 16,
        FieldView::Date(d) => date_valid(d),
        _ => true,
    }
}

pub open spec fn type_of(f: FieldView) -> FieldType {
    match f {
        FieldView::UInt(_) => FieldType::UInt,
        FieldView::Int(_) => FieldType::Int,
        FieldView::Float(_) => FieldType::Float,
        FieldView::Boolean(_) => FieldType::Boolean,
        FieldView::String(_) => FieldType::String,
        FieldView::Text(_) => FieldType::Text,
        FieldView::Binary(_) => FieldType::Binary,
        FieldView::Decimal(_) => FieldType::Decimal,
        FieldView::Timestamp(_) => FieldType::Timestamp,
        FieldView::Date(_) => FieldType::Date,
        FieldView::Bson(_) => FieldType::Bson,
        FieldView::Null => FieldType::Null,
    }
}

/// The one-byte tag that starts the encoding of a value of type `t`.
pub open spec fn type_tag(t: FieldType) -> u8 {
    match t {
        FieldType::Int => 0,
        FieldType::UInt => 1,
        FieldType::Float => 2,
        FieldType::Boolean => 3,
        FieldType::String => 4,
        FieldType::Text => 5,
        FieldType::Binary => 6,
        FieldType::Decimal => 7,
        FieldType::Timestamp => 8,
        FieldType::Date => 9,
        FieldType::Bson => 10,
        FieldType::Null => 11,
    }
}

/// The type whose tag is `b`, if any.
pub open spec fn type_of_tag(b: u8) -> Option<FieldType> {
    if b == 0 { Some(FieldType::Int) }
    else if b == 1 { Some(FieldType::UInt) }
    else if b == 2 { Some(FieldType::Float) }
    else if b == 3 { Some(FieldType::Boolean) }
    else if b == 4 { Some(FieldType::String) }
    else if b == 5 { Some(FieldType::Text) }
    else if b == 6 { Some(FieldType::Binary) }
    else if b == 7 { Some(FieldType::Decimal) }
    else if b == 8 { Some(FieldType::Timestamp) }
    else if b == 9 { Some(FieldType::Date) }
    else if b == 10 { Some(FieldType::Bson) }
    else if b == 11 { Some(FieldType::Null) }
    else { None }
}

/// The eight big-endian bytes of `x`.
pub open spec fn be_bytes(x: u64) -> Seq<u8> {
    seq![
        (x >> 56u64) as u8, (x >> 48u64) as u8, (x >> 40u64) as u8, (x >> 32u64) as u8,
        (x >> 24u64) as u8, (x >> 16u64) as u8, (x >> 8u64) as u8, x as u8,
    ]
}

/// The integer whose big-endian bytes are the eight bytes `b`.
pub open spec fn from_be_bytes(b: Seq<u8>) -> u64 {
    ((b[0] as u64) << 56u64) | ((b[1] as u64) << 48u64) | ((b[2] as u64) << 40u64)
        | ((b[3] as u64) << 32u64) | ((b[4] as u64) << 24u64) | ((b[5] as u64) << 16u64)
        | ((b[6] as u64) << 8u64) | (b[7] as u64)
}

pub open spec fn digit(n: int) -> u8 {
    (48 + n % 10) as u8
}

/// A date written as ASCII `YYYY-MM-DD`.
pub open spec fn date_text(d: Date) -> Seq<u8> {
    seq![
        digit(d.year as int / 1000), digit(d.year as int / 100), digit(d.year as int / 10), digit(d.year as int),
        45u8, digit(d.month as int / 10), digit(d.month as int), 45u8,
        digit(d.day as int / 10), digit(d.day as int),
    ]
}

pub open spec fn is_digit(b: u8) -> bool {
    48 <= b <= 57
}

pub open spec fn digit_value(b: u8) -> int {
    b - 48
}

/// The date that ten bytes `YYYY-MM-DD` write, if they write one.
pub open spec fn parse_date(p: Seq<u8>) -> Option<Date> {
    if p.len() == 10 && is_digit(p[0]) && is_digit(p[1]) && is_digit(p[2]) && is_digit(p[3])
        && p[4] == 45 && is_digit(p[5]) && is_digit(p[6]) && p[7] == 45 && is_digit(p[8])
        && is_digit(p[9]) {
        let d = Date {
            year: (digit_value(p[0]) * 1000 + digit_value(p[1]) * 100 + digit_value(p[2]) * 10
                + digit_value(p[3])) as u16,
            month: (digit_value(p[5]) * 10 + digit_value(p[6])) as u8,
            day: (digit_value(p[8]) * 10 + digit_value(p[9])) as u8,
        };
        if date_valid(d) { Some(d) } else { None }
    } else {
        None
    }
}

/// The bytes after the tag.
pub open spec fn payload(f: FieldView) -> Seq<u8> {
    match f {
        FieldView::UInt(x) => be_bytes(x),
        FieldView::Int(x) => be_bytes(x as u64),
        FieldView::Float(x) => be_bytes(x),
        FieldView::Boolean(b) => if b { seq![1u8] } else { seq![0u8] },
        FieldView::String(s) => encode_utf8(s),
        FieldView::Text(s) => encode_utf8(s),
        FieldView::Binary(b) => b,
        FieldView::Decimal(b) => b,
        FieldView::Timestamp(x) => be_bytes(x as u64),
        FieldView::Date(d) => date_text(d),
        FieldView::Bson(b) => b,
        FieldView::Null => seq![],
    }
}

/// The encoding of a field: its type tag, then its payload.
pub open spec fn encoding(f: FieldView) -> Seq<u8> {
    seq![type_tag(type_of(f))] + payload(f)
}

pub open spec fn encoding_len_spec(f: FieldView) -> int {
    1 + payload(f).len() as int
}

pub open spec fn decode_payload(t: FieldType, p: Seq<u8>) -> Result<FieldView, DeserializationError> {
    match t {
        FieldType::Int => if p.len() == 8 { Ok(FieldView::Int(from_be_bytes(p) as i64)) } else { Err(DeserializationError::BadDataLength) },
        FieldType::UInt => if p.len() == 8 { Ok(FieldView::UInt(from_be_bytes(p))) } else { Err(DeserializationError::BadDataLength) },
        FieldType::Float => if p.len() == 8 { Ok(FieldView::Float(from_be_bytes(p))) } else { Err(DeserializationError::BadDataLength) },
        FieldType::Boolean => if p.len() == 1 { Ok(FieldView::Boolean(p[0] == 1)) } else { Err(DeserializationError::BadDataLength) },
        FieldType::String => if valid_utf8(p) { Ok(FieldView::String(decode_utf8(p))) } else { Err(DeserializationError::BadUtf8) },
        FieldType::Text => if valid_utf8(p) { Ok(FieldView::Text(decode_utf8(p))) } else { Err(DeserializationError::BadUtf8) },
        FieldType::Binary => Ok(FieldView::Binary(p)),
        FieldType::Decimal => if p.len() == 16 { Ok(FieldView::Decimal(p)) } else { Err(DeserializationError::BadDataLength) },
        FieldType::Timestamp => if p.len() == 8 { Ok(FieldView::Timestamp(from_be_bytes(p) as i64)) } else { Err(DeserializationError::BadDataLength) },
        FieldType::Date => if p.len() != 10 {
            Err(DeserializationError::BadDataLength)
        } else {
            match parse_date(p) {
                Some(d) => Ok(FieldView::Date(d)),
                None => Err(DeserializationError::BadDate),
            }
        },
        FieldType::Bson => Ok(FieldView::Bson(p)),
        FieldType::Null => if p.len() == 0 { Ok(FieldView::Null) } else { Err(DeserializationError::BadDataLength) },
    }
}

/// What decoding the bytes `b` gives.
pub open spec fn decode_spec(b: Seq<u8>) -> Result<FieldView, DeserializationError> {
    if b.len() == 0 {
        Err(DeserializationError::EmptyInput)
    } else {
        match type_of_tag(b[0]) {
            None => Err(DeserializationError::UnknownTypeTag(b[0])),
            Some(t) => decode_payload(t, b.drop_first()),
        }
    }
}


proof fn lemma_be_bytes_round_trip(x: u64)
    ensures
        from_be_bytes(be_bytes(x)) == x,
        be_bytes(x).len() == 8,
{
    let b = be_bytes(x);
    assert(b[0] == (x >> 56u64) as u8 && b[1] == (x >> 48u64) as u8 && b[2] == (x >> 40u64) as u8
        && b[3] == (x >> 32u64) as u8 && b[4] == (x >> 24u64) as u8 && b[5] == (x >> 16u64) as u8
        && b[6] == (x >> 8u64) as u8 && b[7] == x as u8);
    assert(((((x >> 56u64) as u8) as u64) << 56u64) | ((((x >> 48u64) as u8) as u64) << 48u64)
        | ((((x >> 40u64) as u8) as u64) << 40u64) | ((((x >> 32u64) as u8) as u64) << 32u64)
        | ((((x >> 24u64) as u8) as u64) << 24u64) | ((((x >> 16u64) as u8) as u64) << 16u64)
        | ((((x >> 8u64) as u8) as u64) << 8u64) | ((x as u8) as u64) == x) by (bit_vector);
}

proof fn lemma_signed_round_trip(x: i64)
    ensures
        (x as u64) as i64 == x,
{
    assert((x as u64) as i64 == x) by (bit_vector);
}

proof fn lemma_date_round_trip(d: Date)
    requires
        date_valid(d),
    ensures
        parse_date(date_text(d)) == Some(d),
{
    let y = d.year as int;
    let m = d.month as int;
    let dd = d.day as int;
    let t = date_text(d);
    assert(digit_value(t[0]) == y / 1000 % 10);
    assert(digit_value(t[1]) == y / 100 % 10);
    assert(digit_value(t[2]) == y / 10 % 10);
    assert(digit_value(t[3]) == y % 10);
    assert(digit_value(t[5]) == m / 10 % 10);
    assert(digit_value(t[6]) == m % 10);
    assert(digit_value(t[8]) == dd / 10 % 10);
    assert(digit_value(t[9]) == dd % 10);
    assert((y / 1000 % 10) * 1000 + (y / 100 % 10) * 100 + (y / 10 % 10) * 10 + y % 10 == y) by (nonlinear_arith)
        requires 0 <= y <= 9999;
    assert((m / 10 % 10) * 10 + m % 10 == m) by (nonlinear_arith)
        requires 0 <= m <= 12;
    assert((dd / 10 % 10) * 10 + dd % 10 == dd) by (nonlinear_arith)
        requires 0 <= dd <= 31;
}

/// Decoding the encoding of a well-formed field gives the field back, and the
/// encoding is one byte longer than the payload.
pub proof fn lemma_decode_encode(f: FieldView)
    requires
        field_wf(f),
    ensures
        decode_spec(encoding(f)) == Ok::<FieldView, DeserializationError>(f),
        encoding(f).len() == encoding_len_spec(f),
{
    let e = encoding(f);
    assert(e.drop_first() =~= payload(f));
    match f {
        FieldView::UInt(x) => lemma_be_bytes_round_trip(x),
        FieldView::Int(x) => {
            lemma_be_bytes_round_trip(x as u64);
            lemma_signed_round_trip(x);
        },
        FieldView::Float(x) => lemma_be_bytes_round_trip(x),
        FieldView::Timestamp(x) => {
            lemma_be_bytes_round_trip(x as u64);
            lemma_signed_round_trip(x);
        },
        FieldView::String(s) => {
            encode_utf8_valid_utf8(s);
            encode_utf8_decode_utf8(s);
        },
        FieldView::Text(s) => {
            encode_utf8_valid_utf8(s);
            encode_utf8_decode_utf8(s);
        },
        FieldView::Date(d) => lemma_date_round_trip(d),
        _ => {},
    }
}

/// Relies on `std::str::from_utf8`: it accepts exactly the valid UTF-8 byte
/// strings and reads the characters they encode.
#[verifier::external_body]
fn utf8_str(b: &[u8]) -> (r: Option<&str>)
    ensures
        r is Some <==> valid_utf8(b@),
        r matches Some(s) ==> s@ == decode_utf8(b@),
{
    std::str::from_utf8(b).ok()
}

fn push_be_bytes(out: &mut Vec<u8>, x: u64)
    ensures
        final(out)@ == old(out)@ + be_bytes(x),
{
    out.push((x >> 56u64) as u8);
    out.push((x >> 48u64) as u8);
    out.push((x >> 40u64) as u8);
    out.push((x >> 32u64) as u8);
    out.push((x >> 24u64) as u8);
    out.push((x >> 16u64) as u8);
    out.push((x >> 8u64) as u8);
    out.push(x as u8);
    assert(final(out)@ =~= old(out)@ + be_bytes(x));
}

fn read_be_bytes(b: &[u8]) -> (r: u64)
    requires
        b@.len() == 8,
    ensures
        r == from_be_bytes(b@),
{
    ((b[0] as u64) << 56u64) | ((b[1] as u64) << 48u64) | ((b[2] as u64) << 40u64)
        | ((b[3] as u64) << 32u64) | ((b[4] as u64) << 24u64) | ((b[5] as u64) << 16u64)
        | ((b[6] as u64) << 8u64) | (b[7] as u64)
}

/// Appends the bytes `b` to `out`.
pub fn push_bytes(out: &mut Vec<u8>, b: &[u8])
    ensures
        final(out)@ == old(out)@ + b@,
{
    let mut i: usize = 0;
    while i < b.len()
        invariant
            i <= b@.len(),
            out@ == old(out)@ + b@.subrange(0, i as int),
        decreases b@.len() - i,
    {
        out.push(b[i]);
        i = i + 1;
        assert(out@ =~= old(out)@ + b@.subrange(0, i as int));
    }
    assert(b@.subrange(0, b@.len() as int) =~= b@);
}

fn push_date(out: &mut Vec<u8>, d: Date)
    requires
        date_valid(d),
    ensures
        final(out)@ == old(out)@ + date_text(d),
{
    let y = d.year;
    let m = d.month;
    let dd = d.day;
    out.push(48u8 + (y / 1000 % 10) as u8);
    out.push(48u8 + (y / 100 % 10) as u8);
    out.push(48u8 + (y / 10 % 10) as u8);
    out.push(48u8 + (y % 10) as u8);
    out.push(45u8);
    out.push(48u8 + (m / 10 % 10) as u8);
    out.push(48u8 + (m % 10) as u8);
    out.push(45u8);
    out.push(48u8 + (dd / 10 % 10) as u8);
    out.push(48u8 + (dd % 10) as u8);
    assert(final(out)@ =~= old(out)@ + date_text(d));
}

fn days_in_month_exec(y: u16, m: u8) -> (r: u8)
    ensures
        r as int == days_in_month(y as int, m as int),
{
    if m == 2 {
        if (y % 4 == 0 && y % 100 != 0) || y % 400 == 0 { 29 } else { 28 }
    } else if m == 4 || m == 6 || m == 9 || m == 11 {
        30
    } else {
        31
    }
}

fn is_digit_exec(b: u8) -> (r: bool)
    ensures
        r == is_digit(b),
{
    48 <= b && b <= 57
}

fn parse_date_exec(p: &[u8]) -> (r: Option<Date>)
    requires
        p@.len() == 10,
    ensures
        r == parse_date(p@),
{
    if is_digit_exec(p[0]) && is_digit_exec(p[1]) && is_digit_exec(p[2]) && is_digit_exec(p[3])
        && p[4] == 45 && is_digit_exec(p[5]) && is_digit_exec(p[6]) && p[7] == 45
        && is_digit_exec(p[8]) && is_digit_exec(p[9]) {
        let year: u16 = (p[0] - 48) as u16 * 1000 + (p[1] - 48) as u16 * 100 + (p[2] - 48) as u16 * 10
            + (p[3] - 48) as u16;
        let month: u8 = (p[5] - 48) * 10 + (p[6] - 48);
        let day: u8 = (p[8] - 48) * 10 + (p[9] - 48);
        let d = Date { year, month, day };
        if year <= 9999 && 1 <= month && month <= 12 && 1 <= day && day <= days_in_month_exec(year, month) {
            Some(d)
        } else {
            None
        }
    } else {
        None
    }
}

fn type_from_prefix(prefix: u8) -> (r: Option<FieldType>)
    ensures
        r == type_of_tag(prefix),
{
    match prefix {
        0 => Some(FieldType::Int),
        1 => Some(FieldType::UInt),
        2 => Some(FieldType::Float),
        3 => Some(FieldType::Boolean),
        4 => Some(FieldType::String),
        5 => Some(FieldType::Text),
        6 => Some(FieldType::Binary),
        7 => Some(FieldType::Decimal),
        8 => Some(FieldType::Timestamp),
        9 => Some(FieldType::Date),
        10 => Some(FieldType::Bson),
        11 => Some(FieldType::Null),
        _ => None,
    }
}

impl Field {
    /// The length of the payload of this field.
    pub fn data_encoding_len(&self) -> (r: usize)
        ensures
            r == payload(self@).len(),
    {
        match self {
            Field::Int(_) => 8,
            Field::UInt(_) => 8,
            Field::Float(_) => 8,
            Field::Boolean(_) => 1,
            Field::String(s) => s.as_str().as_bytes().len(),
            Field::Text(s) => s.as_str().as_bytes().len(),
            Field::Binary(b) => b.len(),
            Field::Decimal(b) => b.len(),
            Field::Timestamp(_) => 8,
            Field::Date(_) => 10,
            Field::Bson(b) => b.len(),
            Field::Null => 0,
        }
    }

    /// The payload of this field: its encoding without the type tag.
    pub fn encode_data(&self) -> (r: Vec<u8>)
        requires
            field_wf(self@),
        ensures
            r@ == payload(self@),
    {
        let mut out: Vec<u8> = Vec::new();
        self.encode_data_into(&mut out);
        assert(out@ =~= payload(self@));
        out
    }

    /// Appends the payload of this field to `out`.
    fn encode_data_into(&self, out: &mut Vec<u8>)
        requires
            field_wf(self@),
        ensures
            final(out)@ == old(out)@ + payload(self@),
    {
        match self {
            Field::Int(i) => push_be_bytes(out, *i as u64),
            Field::UInt(i) => push_be_bytes(out, *i),
            Field::Float(f) => push_be_bytes(out, *f),
            Field::Boolean(b) => {
                if *b { out.push(1u8); } else { out.push(0u8); }
                assert(out@ =~= old(out)@ + payload(self@));
            },
            Field::String(s) => push_bytes(out, s.as_str().as_bytes()),
            Field::Text(s) => push_bytes(out, s.as_str().as_bytes()),
            Field::Binary(b) => push_bytes(out, b.as_slice()),
            Field::Decimal(b) => push_bytes(out, b.as_slice()),
            Field::Timestamp(t) => push_be_bytes(out, *t as u64),
            Field::Date(d) => push_date(out, *d),
            Field::Bson(b) => push_bytes(out, b.as_slice()),
            Field::Null => {
                assert(out@ =~= old(out)@ + payload(self@));
            },
        }
    }

    pub fn get_type(&self) -> (r: FieldType)
        ensures
            r == type_of(self@),
    {
        match self {
            Field::Int(_) => FieldType::Int,
            Field::UInt(_) => FieldType::UInt,
            Field::Float(_) => FieldType::Float,
            Field::Boolean(_) => FieldType::Boolean,
            Field::String(_) => FieldType::String,
            Field::Text(_) => FieldType::Text,
            Field::Binary(_) => FieldType::Binary,
            Field::Decimal(_) => FieldType::Decimal,
            Field::Timestamp(_) => FieldType::Timestamp,
            Field::Date(_) => FieldType::Date,
            Field::Bson(_) => FieldType::Bson,
            Field::Null => FieldType::Null,
        }
    }

    fn get_type_prefix(&self) -> (r: u8)
        ensures
            r == type_tag(type_of(self@)),
    {
        match self.get_type() {
            FieldType::Int => 0,
            FieldType::UInt => 1,
            FieldType::Float => 2,
            FieldType::Boolean => 3,
            FieldType::String => 4,
            FieldType::Text => 5,
            FieldType::Binary => 6,
            FieldType::Decimal => 7,
            FieldType::Timestamp => 8,
            FieldType::Date => 9,
            FieldType::Bson => 10,
            FieldType::Null => 11,
        }
    }

    /// Appends the encoding of this field to `out`.
    pub fn encode_into(&self, out: &mut Vec<u8>)
        requires
            field_wf(self@),
        ensures
            final(out)@ == old(out)@ + encoding(self@),
    {
        out.push(self.get_type_prefix());
        self.encode_data_into(out);
        assert(final(out)@ =~= old(out)@ + encoding(self@));
    }

    /// Writes the encoding of this field into `destination`, which has exactly
    /// its length.
    pub fn encode_buf(&self, destination: &mut [u8])
        requires
            field_wf(self@),
            old(destination)@.len() == encoding_len_spec(self@),
        ensures
            final(destination)@ == encoding(self@),
    {
        let bytes = self.encode();
        let mut i: usize = 0;
        while i < bytes.len()
            invariant
                bytes@ == encoding(self@),
                destination@.len() == bytes@.len(),
                i <= bytes@.len(),
                forall|j: int| 0 <= j < i ==> destination@[j] == bytes@[j],
            decreases bytes@.len() - i,
        {
            destination[i] = bytes[i];
            i = i + 1;
        }
        assert(destination@ =~= encoding(self@));
    }

    /// The length of the encoding of this field.
    pub fn encoding_len(&self) -> (r: usize)
        requires
            encoding_len_spec(self@) <= usize::MAX,
        ensures
            r == encoding_len_spec(self@),
            r == encoding(self@).len(),
    {
        self.data_encoding_len() + 1
    }

    /// The encoding of this field: its type tag, then its payload.
    pub fn encode(&self) -> (r: Vec<u8>)
        requires
            field_wf(self@),
        ensures
            r@ == encoding(self@),
    {
        let mut result: Vec<u8> = Vec::new();
        self.encode_into(&mut result);
        assert(result@ =~= encoding(self@));
        result
    }

    pub fn borrow(&self) -> (r: FieldBorrow<'_>)
        ensures
            r@ == self@,
    {
        match self {
            Field::Int(i) => FieldBorrow::Int(*i),
            Field::UInt(i) => FieldBorrow::UInt(*i),
            Field::Float(f) => FieldBorrow::Float(*f),
            Field::Boolean(b) => FieldBorrow::Boolean(*b),
            Field::String(s) => FieldBorrow::String(s.as_str()),
            Field::Text(s) => FieldBorrow::Text(s.as_str()),
            Field::Binary(b) => FieldBorrow::Binary(b.as_slice()),
            Field::Decimal(d) => FieldBorrow::Decimal(d.as_slice()),
            Field::Timestamp(t) => FieldBorrow::Timestamp(*t),
            Field::Date(t) => FieldBorrow::Date(*t),
            Field::Bson(b) => FieldBorrow::Bson(b.as_slice()),
            Field::Null => FieldBorrow::Null,
        }
    }

    /// Decodes a field from its encoding.
    pub fn decode(buf: &[u8]) -> (r: Result<Field, DeserializationError>)
        ensures
            match r {
                Ok(f) => decode_spec(buf@) == Ok::<FieldView, DeserializationError>(f@),
                Err(e) => decode_spec(buf@) == Err::<FieldView, DeserializationError>(e),
            },
    {
        match Self::decode_borrow(buf) {
            Ok(f) => Ok(f.to_owned()),
            Err(e) => Err(e),
        }
    }

    /// Decodes a field from its encoding, borrowing its payload from `buf`.
    pub fn decode_borrow(buf: &[u8]) -> (r: Result<FieldBorrow<'_>, DeserializationError>)
        ensures
            match r {
                Ok(f) => decode_spec(buf@) == Ok::<FieldView, DeserializationError>(f@),
                Err(e) => decode_spec(buf@) == Err::<FieldView, DeserializationError>(e),
            },
    {
        let n = buf.len();
        if n == 0 {
            return Err(DeserializationError::EmptyInput);
        }
        let first_byte = buf[0];
        let return_type = match type_from_prefix(first_byte) {
            Some(t) => t,
            None => return Err(DeserializationError::UnknownTypeTag(first_byte)),
        };
        let val = &buf[1..n];
        assert(val@ =~= buf@.drop_first());
        let m = val.len();
        match return_type {
            FieldType::Int => if m == 8 {
                Ok(FieldBorrow::Int(read_be_bytes(val) as i64))
            } else {
                Err(DeserializationError::BadDataLength)
            },
            FieldType::UInt => if m == 8 {
                Ok(FieldBorrow::UInt(read_be_bytes(val)))
            } else {
                Err(DeserializationError::BadDataLength)
            },
            FieldType::Float => if m == 8 {
                Ok(FieldBorrow::Float(read_be_bytes(val)))
            } else {
                Err(DeserializationError::BadDataLength)
            },
            FieldType::Boolean => if m == 1 {
                Ok(FieldBorrow::Boolean(val[0] == 1))
            } else {
                Err(DeserializationError::BadDataLength)
            },
            FieldType::String => match utf8_str(val) {
                Some(s) => Ok(FieldBorrow::String(s)),
                None => Err(DeserializationError::BadUtf8),
            },
            FieldType::Text => match utf8_str(val) {
                Some(s) => Ok(FieldBorrow::Text(s)),
                None => Err(DeserializationError::BadUtf8),
            },
            FieldType::Binary => Ok(FieldBorrow::Binary(val)),
            FieldType::Decimal => if m == 16 {
                Ok(FieldBorrow::Decimal(val))
            } else {
                Err(DeserializationError::BadDataLength)
            },
            FieldType::Timestamp => if m == 8 {
                Ok(FieldBorrow::Timestamp(read_be_bytes(val) as i64))
            } else {
                Err(DeserializationError::BadDataLength)
            },
            FieldType::Date => if m != 10 {
                Err(DeserializationError::BadDataLength)
            } else {
                match parse_date_exec(val) {
                    Some(d) => Ok(FieldBorrow::Date(d)),
                    None => Err(DeserializationError::BadDate),
                }
            },
            FieldType::Bson => Ok(FieldBorrow::Bson(val)),
            FieldType::Null => if m == 0 {
                Ok(FieldBorrow::Null)
            } else {
                Err(DeserializationError::BadDataLength)
            },
        }
    }
}

impl<'a> FieldBorrow<'a> {
    pub fn to_owned(self) -> (r: Field)
        ensures
            r@ == self@,
    {
        match self {
            FieldBorrow::Int(i) => Field::Int(i),
            FieldBorrow::UInt(i) => Field::UInt(i),
            FieldBorrow::Float(f) => Field::Float(f),
            FieldBorrow::Boolean(b) => Field::Boolean(b),
            FieldBorrow::String(s) => Field::String(s.to_owned()),
            FieldBorrow::Text(s) => Field::Text(s.to_owned()),
            FieldBorrow::Binary(b) => Field::Binary(slice_to_vec(b)),
            FieldBorrow::Decimal(d) => Field::Decimal(slice_to_vec(d)),
            FieldBorrow::Timestamp(t) => Field::Timestamp(t),
            FieldBorrow::Date(d) => Field::Date(d),
            FieldBorrow::Bson(b) => Field::Bson(slice_to_vec(b)),
            FieldBorrow::Null => Field::Null,
        }
    }
}

/// A sample of each kind of field, including edge values.
pub fn field_test_cases() -> (r: Vec<Field>)
    ensures
        forall|i: int| 0 <= i < r@.len() ==> field_wf((#[trigger] r@[i])@),
{
    let mut v: Vec<Field> = Vec::new();
    v.push(Field::Int(0));
    v.push(Field::Int(1));
    v.push(Field::UInt(0));
    v.push(Field::UInt(1));
    // The bit patterns of 0.0 and 1.0.
    v.push(Field::Float(0));
    v.push(Field::Float(0x3ff0_0000_0000_0000));
    v.push(Field::Boolean(true));
    v.push(Field::Boolean(false));
    v.push(Field::String(String::new()));
    v.push(Field::String(string_of_digit_one()));
    v.push(Field::Text(String::new()));
    v.push(Field::Text(string_of_digit_one()));
    v.push(Field::Binary(Vec::new()));
    v.push(Field::Binary(vec![1u8]));
    // The serialised decimals 0 and 1.
    v.push(Field::Decimal(vec![0u8, 0, 0, 0, 0, 0, 0, 0, 0, 0, 0, 0, 0, 0, 0, 0]));
    v.push(Field::Decimal(vec![0u8, 0, 0, 0, 1, 0, 0, 0, 0, 0, 0, 0, 0, 0, 0, 0]));
    v.push(Field::Timestamp(0));
    // 2020-01-01T00:00:00Z.
    v.push(Field::Timestamp(1_577_836_800_000));
    v.push(Field::Date(Date { year: 1970, month: 1, day: 1 }));
    v.push(Field::Date(Date { year: 2020, month: 1, day: 1 }));
    // The BSON representation of `{"abc":"foo"}`.
    v.push(Field::Bson(vec![123u8, 34, 97, 98, 99, 34, 58, 34, 102, 111, 111, 34, 125]));
    v.push(Field::Null);
    v
}

fn string_of_digit_one() -> (r: String)
    ensures
        r@ == seq!['1'],
{
    let s = "1".to_string();
    proof {
        reveal_strlit("1");
    }
    s
}

} // verus!
