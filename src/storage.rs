//! How keys and values are laid out as bytes in the key/value store.
use vstd::prelude::*;
use vstd::slice::slice_to_vec;
use vstd::string::StringSliceAdditionalSpecFns;

verus! {

broadcast use vstd::seq::group_seq_axioms;

/// The bytes of an encoded key or value, owned or borrowed.
pub enum Encoded<'a> {
    U8([u8; 1]),
    U8x4([u8; 4]),
    U8x8([u8; 8]),
    U8x16([u8; 16]),
    Vec(Vec<u8>),
    Borrowed(&'a [u8]),
}

impl<'a> View for Encoded<'a> {
    type V = Seq<u8>;

    open spec fn view(&self) -> Seq<u8> {
        match self {
            Encoded::U8(v) => v@,
            Encoded::U8x4(v) => v@,
            Encoded::U8x8(v) => v@,
            Encoded::U8x16(v) => v@,
            Encoded::Vec(v) => v@,
            Encoded::Borrowed(v) => v@,
        }
    }
}

impl<'a> Encoded<'a> {
    /// The encoded bytes.
    pub fn as_ref(&self) -> (r: &[u8])
        ensures
            r@ == self@,
    {
        match self {
            Encoded::U8(v) => v.as_slice(),
            Encoded::U8x4(v) => v.as_slice(),
            Encoded::U8x8(v) => v.as_slice(),
            Encoded::U8x16(v) => v.as_slice(),
            Encoded::Vec(v) => v.as_slice(),
            Encoded::Borrowed(v) => v,
        }
    }
}

/// How the store compares the keys of a sub-database.
///
/// Integer keys are written big-endian but compared by the store as native
/// integers.
#[derive(Clone, Copy, Debug, PartialEq, Eq, Structural)]
pub enum LmdbValType {
    U32,
    U64,
    FixedSizeOtherThanU32OrUsize,
    VariableSize,
}

/// A value with a byte encoding.
pub trait Encode {
    spec fn encoded_view(&self) -> Seq<u8>;

    fn encode(&self) -> (r: Encoded<'_>)
        ensures
            r@ == self.encoded_view(),
    ;
}

/// A value that can be read back from its byte encoding.
pub trait Decode: Sized + Encode {
    spec fn decodable(bytes: Seq<u8>) -> bool;

    fn decode(bytes: &[u8]) -> (r: Self)
        requires
            Self::decodable(bytes@),
        ensures
            r.encoded_view() == bytes@,
    ;
}

/// A type that can key a sub-database, with the comparison the store uses.
pub trait LmdbKey: Encode {
    const TYPE: LmdbValType;
}

/// A type that can be stored as a value and read back.
pub trait LmdbValue: Encode + Decode {}

impl<T: Encode + Decode> LmdbValue for T {}

/// A type that can be both a key and one of several values under a key.
pub trait LmdbDupValue: LmdbKey + LmdbValue {}

impl<T: LmdbKey + LmdbValue> LmdbDupValue for T {}

/// The flags a sub-database is created with.
#[derive(Clone, Copy, Debug, PartialEq, Eq, Structural)]
pub struct DatabaseFlags {
    /// Keys are compared as native integers.
    pub integer_key: bool,
}

/// The flags for a sub-database keyed by `K`: integer keys of four or eight
/// bytes use the store's integer comparison.
pub fn database_key_flag<K: LmdbKey + ?Sized>() -> (r: DatabaseFlags)
    ensures
        r.integer_key == (K::TYPE == LmdbValType::U32 || K::TYPE == LmdbValType::U64),
{
    match K::TYPE {
        LmdbValType::U32 => DatabaseFlags { integer_key: true },
        LmdbValType::U64 => DatabaseFlags { integer_key: true },
        LmdbValType::FixedSizeOtherThanU32OrUsize | LmdbValType::VariableSize => DatabaseFlags { integer_key: false },
    }
}

pub open spec fn be_bytes_u32(x: u32) -> Seq<u8> {
    seq![(x >> 24u32) as u8, (x >> 16u32) as u8, (x >> 8u32) as u8, x as u8]
}

pub open spec fn be_bytes_u64(x: u64) -> Seq<u8> {
    seq![
        (x >> 56u64) as u8, (x >> 48u64) as u8, (x >> 40u64) as u8, (x >> 32u64) as u8,
        (x >> 24u64) as u8, (x >> 16u64) as u8, (x >> 8u64) as u8, x as u8,
    ]
}

fn u64_to_be(x: u64) -> (r: [u8; 8])
    ensures
        r@ == be_bytes_u64(x),
{
    let r = [
        (x >> 56u64) as u8, (x >> 48u64) as u8, (x >> 40u64) as u8, (x >> 32u64) as u8,
        (x >> 24u64) as u8, (x >> 16u64) as u8, (x >> 8u64) as u8, x as u8,
    ];
    assert(r@ =~= be_bytes_u64(x));
    r
}

fn u64_from_be(b: &[u8]) -> (r: u64)
    requires
        b@.len() == 8,
    ensures
        be_bytes_u64(r) == b@,
{
    let r = ((b[0] as u64) << 56u64) | ((b[1] as u64) << 48u64) | ((b[2] as u64) << 40u64)
        | ((b[3] as u64) << 32u64) | ((b[4] as u64) << 24u64) | ((b[5] as u64) << 16u64)
        | ((b[6] as u64) << 8u64) | (b[7] as u64);
    let (b0, b1, b2, b3, b4, b5, b6, b7) = (b[0], b[1], b[2], b[3], b[4], b[5], b[6], b[7]);
    assert(((r >> 56u64) as u8) == b0 && ((r >> 48u64) as u8) == b1 && ((r >> 40u64) as u8) == b2
        && ((r >> 32u64) as u8) == b3 && ((r >> 24u64) as u8) == b4 && ((r >> 16u64) as u8) == b5
        && ((r >> 8u64) as u8) == b6 && (r as u8) == b7) by (bit_vector)
        requires
            r == ((b0 as u64) << 56u64) | ((b1 as u64) << 48u64) | ((b2 as u64) << 40u64)
                | ((b3 as u64) << 32u64) | ((b4 as u64) << 24u64) | ((b5 as u64) << 16u64)
                | ((b6 as u64) << 8u64) | (b7 as u64);
    assert(be_bytes_u64(r) =~= b@);
    r
}

impl Encode for u8 {
    open spec fn encoded_view(&self) -> Seq<u8> {
        seq![*self]
    }

    fn encode(&self) -> (r: Encoded<'_>) {
        let r = Encoded::U8([*self]);
        assert(r@ =~= seq![*self]);
        r
    }
}

impl Decode for u8 {
    open spec fn decodable(bytes: Seq<u8>) -> bool {
        bytes.len() == 1
    }

    fn decode(bytes: &[u8]) -> (r: u8) {
        let r = bytes[0];
        assert(seq![r] =~= bytes@);
        r
    }
}

impl LmdbKey for u8 {
    const TYPE: LmdbValType = LmdbValType::FixedSizeOtherThanU32OrUsize;
}

impl Encode for u32 {
    open spec fn encoded_view(&self) -> Seq<u8> {
        be_bytes_u32(*self)
    }

    fn encode(&self) -> (r: Encoded<'_>) {
        let x = *self;
        let r = Encoded::U8x4([(x >> 24u32) as u8, (x >> 16u32) as u8, (x >> 8u32) as u8, x as u8]);
        assert(r@ =~= be_bytes_u32(x));
        r
    }
}

impl Decode for u32 {
    open spec fn decodable(bytes: Seq<u8>) -> bool {
        bytes.len() == 4
    }

    fn decode(bytes: &[u8]) -> (r: u32) {
        let r = ((bytes[0] as u32) << 24u32) | ((bytes[1] as u32) << 16u32) | ((bytes[2] as u32) << 8u32)
            | (bytes[3] as u32);
        let (b0, b1, b2, b3) = (bytes[0], bytes[1], bytes[2], bytes[3]);
        assert(((r >> 24u32) as u8) == b0 && ((r >> 16u32) as u8) == b1 && ((r >> 8u32) as u8) == b2
            && (r as u8) == b3) by (bit_vector)
            requires
                r == ((b0 as u32) << 24u32) | ((b1 as u32) << 16u32) | ((b2 as u32) << 8u32) | (b3 as u32);
        assert(be_bytes_u32(r) =~= bytes@);
        r
    }
}

impl LmdbKey for u32 {
    const TYPE: LmdbValType = LmdbValType::U32;
}

impl Encode for u64 {
    open spec fn encoded_view(&self) -> Seq<u8> {
        be_bytes_u64(*self)
    }

    fn encode(&self) -> (r: Encoded<'_>) {
        Encoded::U8x8(u64_to_be(*self))
    }
}

impl Decode for u64 {
    open spec fn decodable(bytes: Seq<u8>) -> bool {
        bytes.len() == 8
    }

    fn decode(bytes: &[u8]) -> (r: u64) {
        u64_from_be(bytes)
    }
}

impl LmdbKey for u64 {
    const TYPE: LmdbValType = LmdbValType::U64;
}

impl Encode for [u8] {
    open spec fn encoded_view(&self) -> Seq<u8> {
        self@
    }

    fn encode(&self) -> (r: Encoded<'_>) {
        Encoded::Borrowed(self)
    }
}

impl LmdbKey for [u8] {
    const TYPE: LmdbValType = LmdbValType::VariableSize;
}

impl Encode for str {
    open spec fn encoded_view(&self) -> Seq<u8> {
        self.spec_bytes()
    }

    fn encode(&self) -> (r: Encoded<'_>) {
        Encoded::Borrowed(self.as_bytes())
    }
}

impl LmdbKey for str {
    const TYPE: LmdbValType = LmdbValType::VariableSize;
}

/// Identifies a pipeline source.
#[derive(Clone, Debug, PartialEq, Eq)]
pub struct NodeHandle {
    pub bytes: Vec<u8>,
}

/// A position in a source's stream of operations.
#[derive(Clone, Copy, Debug, PartialEq, Eq, Structural)]
pub struct OpIdentifier {
    pub txid: u64,
    pub seq_in_tx: u64,
}

impl Encode for NodeHandle {
    open spec fn encoded_view(&self) -> Seq<u8> {
        self.bytes@
    }

    fn encode(&self) -> (r: Encoded<'_>) {
        Encoded::Borrowed(self.bytes.as_slice())
    }
}

impl Decode for NodeHandle {
    open spec fn decodable(bytes: Seq<u8>) -> bool {
        true
    }

    fn decode(bytes: &[u8]) -> (r: NodeHandle) {
        NodeHandle { bytes: slice_to_vec(bytes) }
    }
}

impl LmdbKey for NodeHandle {
    const TYPE: LmdbValType = LmdbValType::VariableSize;
}

impl Encode for OpIdentifier {
    open spec fn encoded_view(&self) -> Seq<u8> {
        be_bytes_u64(self.txid) + be_bytes_u64(self.seq_in_tx)
    }

    fn encode(&self) -> (r: Encoded<'_>) {
        let a = u64_to_be(self.txid);
        let b = u64_to_be(self.seq_in_tx);
        let r = [a[0], a[1], a[2], a[3], a[4], a[5], a[6], a[7], b[0], b[1], b[2], b[3], b[4], b[5], b[6], b[7]];
        assert(r@ =~= be_bytes_u64(self.txid) + be_bytes_u64(self.seq_in_tx));
        Encoded::U8x16(r)
    }
}

impl Decode for OpIdentifier {
    open spec fn decodable(bytes: Seq<u8>) -> bool {
        bytes.len() == 16
    }

    fn decode(bytes: &[u8]) -> (r: OpIdentifier) {
        let txid = u64_from_be(&bytes[0..8]);
        let seq_in_tx = u64_from_be(&bytes[8..16]);
        assert(bytes@ =~= bytes@.subrange(0, 8) + bytes@.subrange(8, 16));
        OpIdentifier { txid, seq_in_tx }
    }
}

impl LmdbKey for OpIdentifier {
    const TYPE: LmdbValType = LmdbValType::FixedSizeOtherThanU32OrUsize;
}

} // verus!
