//! How keys and values become bytes, and bytes become keys and values again.
//!
//! The encoding is that of the `bincode` crate: fixed-width little-endian
//! integers, and strings with their length in front. Reading takes as many
//! bytes from the front as the value has, and ignores what follows them.
use vstd::prelude::*;
use vstd::utf8::{decode_utf8, encode_utf8, valid_utf8};
use crate::memory::{le_bytes, le_value, lemma_le_bounds, lemma_le_bytes, lemma_le_four};

verus! {

/// A type whose values can be stored in the map as bytes and read back.
pub trait Storable: Sized {
    /// What a value is, mathematically.
    type Model;

    spec fn model(&self) -> Self::Model;

    /// The bytes that stand for a value.
    spec fn encode(v: Self::Model) -> Seq<u8>;

    /// The value that is read from some bytes, if they are those of a value.
    spec fn decoded(bytes: Seq<u8>) -> Option<Self::Model>;

    /// What is encoded decodes to itself.
    proof fn decoded_encode(v: Self::Model)
        requires
            Self::encode(v).len() <= usize::MAX,
        ensures
            Self::decoded(Self::encode(v)) == Some(v),
    ;

    /// How many bytes `serialize` gives.
    fn serialized_size(&self) -> (n: u64)
        ensures
            n == Self::encode(self.model()).len(),
    ;

    /// The value as bytes.
    fn serialize(&self) -> (bytes: Vec<u8>)
        ensures
            bytes@ == Self::encode(self.model()),
    ;

    /// The value that is read from some bytes, if they are those of a value.
    fn deserialize(bytes: &[u8]) -> (r: Option<Self>)
        ensures
            match Self::decoded(bytes@) {
                Some(v) => r is Some && r->Some_0.model() == v,
                None => r is None,
            },
    ;

    /// Whether the two are the same value.
    fn same(&self, other: &Self) -> (r: bool)
        ensures
            r == (self.model() == other.model()),
    ;
}

/// Two different values never have the same bytes.
pub proof fn law_encode_injective<T: Storable>(a: T::Model, b: T::Model)
    requires
        T::encode(a).len() <= usize::MAX,
        T::encode(a) == T::encode(b),
    ensures
        a == b,
{
    T::decoded_encode(a);
    T::decoded_encode(b);
}

/// The two's complement of a 32-bit integer in four bytes.
pub open spec fn encode_i32(v: i32) -> Seq<u8> {
    le_bytes(
        (if v < 0 {
            v + 0x1_0000_0000
        } else {
            v as int
        }) as nat,
        4,
    )
}

/// The integer whose two's complement is `x`.
pub open spec fn signed(x: nat) -> i32 {
    (if x >= 0x8000_0000 {
        x - 0x1_0000_0000
    } else {
        x as int
    }) as i32
}

/// The integer in the first four bytes.
pub open spec fn decode_i32(bytes: Seq<u8>) -> Option<i32> {
    if bytes.len() < 4 {
        None
    } else {
        Some(signed(le_value(bytes.subrange(0, 4))))
    }
}

/// Three 32-bit integers one after the other.
pub open spec fn encode_i32_triple(v: (i32, i32, i32)) -> Seq<u8> {
    encode_i32(v.0) + encode_i32(v.1) + encode_i32(v.2)
}

/// The three integers in the first twelve bytes.
pub open spec fn decode_i32_triple(bytes: Seq<u8>) -> Option<(i32, i32, i32)> {
    if bytes.len() < 12 {
        None
    } else {
        Some(
            (
                signed(le_value(bytes.subrange(0, 4))),
                signed(le_value(bytes.subrange(4, 8))),
                signed(le_value(bytes.subrange(8, 12))),
            ),
        )
    }
}

/// The number of UTF-8 bytes in eight bytes, and then the UTF-8 bytes.
pub open spec fn encode_string(v: Seq<char>) -> Seq<u8> {
    le_bytes(encode_utf8(v).len(), 8) + encode_utf8(v)
}

/// The text in the bytes behind the first eight, as many of them as those say.
pub open spec fn decode_string(bytes: Seq<u8>) -> Option<Seq<char>> {
    if bytes.len() < 8 || bytes.len() - 8 < le_value(bytes.subrange(0, 8)) {
        None
    } else {
        let text = bytes.subrange(8, 8int + le_value(bytes.subrange(0, 8)));
        if valid_utf8(text) {
            Some(decode_utf8(text))
        } else {
            None
        }
    }
}

/// A 32-bit integer takes four bytes, which decode to it.
pub proof fn law_encode_i32(v: i32)
    ensures
        encode_i32(v).len() == 4,
        signed(le_value(encode_i32(v))) == v,
{
    let x: int = if v < 0 {
        v + 0x1_0000_0000
    } else {
        v as int
    };
    lemma_le_bytes(x as nat, 4);
    lemma_le_bounds();
}

impl Storable for i32 {
    type Model = i32;

    open spec fn model(&self) -> i32 {
        *self
    }

    open spec fn encode(v: i32) -> Seq<u8> {
        encode_i32(v)
    }

    open spec fn decoded(bytes: Seq<u8>) -> Option<i32> {
        decode_i32(bytes)
    }

    proof fn decoded_encode(v: i32) {
        law_encode_i32(v);
        assert(encode_i32(v).subrange(0, 4) =~= encode_i32(v));
    }

    fn serialized_size(&self) -> (n: u64) {
        bincode_size_i32(self)
    }

    fn serialize(&self) -> (bytes: Vec<u8>) {
        bincode_serialize_i32(self)
    }

    fn deserialize(bytes: &[u8]) -> (r: Option<i32>) {
        bincode_deserialize_i32(bytes)
    }

    fn same(&self, other: &i32) -> (r: bool) {
        *self == *other
    }
}

impl Storable for [i32; 3] {
    type Model = (i32, i32, i32);

    open spec fn model(&self) -> (i32, i32, i32) {
        (self@[0], self@[1], self@[2])
    }

    open spec fn encode(v: (i32, i32, i32)) -> Seq<u8> {
        encode_i32_triple(v)
    }

    open spec fn decoded(bytes: Seq<u8>) -> Option<(i32, i32, i32)> {
        decode_i32_triple(bytes)
    }

    proof fn decoded_encode(v: (i32, i32, i32)) {
        law_encode_i32(v.0);
        law_encode_i32(v.1);
        law_encode_i32(v.2);
        let bytes = encode_i32_triple(v);
        assert(bytes.subrange(0, 4) =~= encode_i32(v.0));
        assert(bytes.subrange(4, 8) =~= encode_i32(v.1));
        assert(bytes.subrange(8, 12) =~= encode_i32(v.2));
    }

    fn serialized_size(&self) -> (n: u64) {
        bincode_size_i32_triple(self)
    }

    fn serialize(&self) -> (bytes: Vec<u8>) {
        bincode_serialize_i32_triple(self)
    }

    fn deserialize(bytes: &[u8]) -> (r: Option<[i32; 3]>) {
        bincode_deserialize_i32_triple(bytes)
    }

    fn same(&self, other: &[i32; 3]) -> (r: bool) {
        self[0] == other[0] && self[1] == other[1] && self[2] == other[2]
    }
}

impl Storable for String {
    type Model = Seq<char>;

    open spec fn model(&self) -> Seq<char> {
        self@
    }

    open spec fn encode(v: Seq<char>) -> Seq<u8> {
        encode_string(v)
    }

    open spec fn decoded(bytes: Seq<u8>) -> Option<Seq<char>> {
        decode_string(bytes)
    }

    proof fn decoded_encode(v: Seq<char>) {
        let text = encode_utf8(v);
        lemma_le_bytes(text.len(), 8);
        lemma_le_bounds();
        assert(encode_string(v).subrange(0, 8) =~= le_bytes(text.len(), 8));
        assert(encode_string(v).subrange(8, (8 + text.len()) as int) =~= text);
        vstd::utf8::encode_utf8_valid_utf8(v);
        vstd::utf8::encode_utf8_decode_utf8(v);
    }

    fn serialized_size(&self) -> (n: u64) {
        bincode_size_string(self)
    }

    fn serialize(&self) -> (bytes: Vec<u8>) {
        bincode_serialize_string(self)
    }

    fn deserialize(bytes: &[u8]) -> (r: Option<String>) {
        bincode_deserialize_string(bytes)
    }

    fn same(&self, other: &String) -> (r: bool) {
        *self == *other
    }
}

/// A key or a value that its owner has already turned into bytes. It is stored
/// as it is.
#[derive(Debug)]
pub struct Encoded(pub Vec<u8>);

impl Storable for Encoded {
    type Model = Seq<u8>;

    open spec fn model(&self) -> Seq<u8> {
        self.0@
    }

    open spec fn encode(v: Seq<u8>) -> Seq<u8> {
        v
    }

    open spec fn decoded(bytes: Seq<u8>) -> Option<Seq<u8>> {
        Some(bytes)
    }

    proof fn decoded_encode(v: Seq<u8>) {
    }

    fn serialized_size(&self) -> (n: u64) {
        self.0.len() as u64
    }

    fn serialize(&self) -> (bytes: Vec<u8>) {
        let mut bytes: Vec<u8> = Vec::new();
        bytes.extend_from_slice(self.0.as_slice());
        assert(bytes@ =~= self.0@);
        bytes
    }

    fn deserialize(bytes: &[u8]) -> (r: Option<Encoded>) {
        let mut copy: Vec<u8> = Vec::new();
        copy.extend_from_slice(bytes);
        assert(copy@ =~= bytes@);
        Some(Encoded(copy))
    }

    fn same(&self, other: &Encoded) -> (r: bool) {
        if self.0.len() != other.0.len() {
            return false;
        }
        let mut i: usize = 0;
        while i < self.0.len()
            invariant
                self.0@.len() == other.0@.len(),
                i <= self.0@.len(),
                forall|j: int| 0 <= j < i ==> self.0@[j] == #[trigger] other.0@[j],
            decreases self.0@.len() - i,
        {
            if self.0[i] != other.0[i] {
                return false;
            }
            i = i + 1;
        }
        assert(self.0@ =~= other.0@);
        true
    }
}

/// `bincode::serialized_size` of a 32-bit integer: the length of its encoding.
#[verifier::external_body]
fn bincode_size_i32(v: &i32) -> (n: u64)
    ensures
        n == encode_i32(*v).len(),
{
    bincode::serialized_size(v).unwrap()
}

/// `bincode::serialize` of a 32-bit integer: its two's complement in four
/// bytes, least significant byte first. It does not fail.
#[verifier::external_body]
fn bincode_serialize_i32(v: &i32) -> (bytes: Vec<u8>)
    ensures
        bytes@ == encode_i32(*v),
{
    bincode::serialize(v).unwrap()
}

/// `bincode::deserialize` to a 32-bit integer: reads the first four bytes and
/// ignores what follows them. It fails if there are fewer.
#[verifier::external_body]
fn bincode_deserialize_i32(bytes: &[u8]) -> (r: Option<i32>)
    ensures
        r == decode_i32(bytes@),
{
    bincode::deserialize(bytes).ok()
}

/// `bincode::serialized_size` of three 32-bit integers: the length of their
/// encoding.
#[verifier::external_body]
fn bincode_size_i32_triple(v: &[i32; 3]) -> (n: u64)
    ensures
        n == encode_i32_triple((v@[0], v@[1], v@[2])).len(),
{
    bincode::serialized_size(v).unwrap()
}

/// `bincode::serialize` of three 32-bit integers: one after the other, with
/// nothing between them and no length in front. It does not fail.
#[verifier::external_body]
fn bincode_serialize_i32_triple(v: &[i32; 3]) -> (bytes: Vec<u8>)
    ensures
        bytes@ == encode_i32_triple((v@[0], v@[1], v@[2])),
{
    bincode::serialize(v).unwrap()
}

/// `bincode::deserialize` to three 32-bit integers: reads the first twelve
/// bytes and ignores what follows them. It fails if there are fewer.
#[verifier::external_body]
fn bincode_deserialize_i32_triple(bytes: &[u8]) -> (r: Option<[i32; 3]>)
    ensures
        match decode_i32_triple(bytes@) {
            Some(v) => r is Some && v == (r->Some_0@[0], r->Some_0@[1], r->Some_0@[2]),
            None => r is None,
        },
{
    bincode::deserialize(bytes).ok()
}

/// `bincode::serialized_size` of a string: the length of its encoding.
#[verifier::external_body]
fn bincode_size_string(v: &String) -> (n: u64)
    ensures
        n == encode_string(v@).len(),
{
    bincode::serialized_size(v).unwrap()
}

/// `bincode::serialize` of a string: the number of its UTF-8 bytes in eight
/// bytes, least significant byte first, and then those bytes. It does not
/// fail.
#[verifier::external_body]
fn bincode_serialize_string(v: &String) -> (bytes: Vec<u8>)
    ensures
        bytes@ == encode_string(v@),
{
    bincode::serialize(v).unwrap()
}

/// `bincode::deserialize` to a string: reads the length in the first eight
/// bytes and that many bytes behind them, and ignores what follows. It fails
/// if there are fewer bytes, or if they are not UTF-8.
#[verifier::external_body]
fn bincode_deserialize_string(bytes: &[u8]) -> (r: Option<String>)
    ensures
        match decode_string(bytes@) {
            Some(v) => r is Some && r->Some_0@ == v,
            None => r is None,
        },
{
    bincode::deserialize(bytes).ok()
}

/// A 32-bit integer is stored as its two's complement in four bytes, and is read
/// from the first four bytes of whatever is there.
pub proof fn law_i32_in_full(v: i32, bytes: Seq<u8>)
    ensures
        v.model() == v,
        ({
            let b = <i32 as Storable>::encode(v);
            &&& b.len() == 4
            &&& b[0] + 0x100 * b[1] + 0x1_0000 * b[2] + 0x100_0000 * b[3] == (if v < 0 {
                v + 0x1_0000_0000
            } else {
                v as int
            })
        }),
        <i32 as Storable>::decoded(bytes) is Some <==> bytes.len() >= 4,
        bytes.len() >= 4 ==> (<i32 as Storable>::decoded(bytes) == Some(v) <==> bytes[0] + 0x100
            * bytes[1] + 0x1_0000 * bytes[2] + 0x100_0000 * bytes[3] == (if v < 0 {
            v + 0x1_0000_0000
        } else {
            v as int
        })),
{
    law_encode_i32(v);
    let x: int = if v < 0 {
        v + 0x1_0000_0000
    } else {
        v as int
    };
    lemma_le_bytes(x as nat, 4);
    lemma_le_bounds();
    lemma_le_four(encode_i32(v));
    if bytes.len() >= 4 {
        lemma_le_four(bytes.subrange(0, 4));
    }
}

/// Three 32-bit integers are stored and read one after the other.
pub proof fn law_i32_triple_in_full(v: [i32; 3], bytes: Seq<u8>)
    ensures
        v.model() == (v@[0], v@[1], v@[2]),
        <[i32; 3] as Storable>::encode((v@[0], v@[1], v@[2])) == <i32 as Storable>::encode(v@[0])
            + <i32 as Storable>::encode(v@[1]) + <i32 as Storable>::encode(v@[2]),
        <[i32; 3] as Storable>::decoded(bytes) is Some <==> bytes.len() >= 12,
        <[i32; 3] as Storable>::decoded(bytes) matches Some(t) ==> {
            &&& <i32 as Storable>::decoded(bytes.subrange(0, 4)) == Some(t.0)
            &&& <i32 as Storable>::decoded(bytes.subrange(4, 8)) == Some(t.1)
            &&& <i32 as Storable>::decoded(bytes.subrange(8, 12)) == Some(t.2)
        },
{
    if bytes.len() >= 12 {
        assert(bytes.subrange(0, 4).subrange(0, 4) =~= bytes.subrange(0, 4));
        assert(bytes.subrange(4, 8).subrange(0, 4) =~= bytes.subrange(4, 8));
        assert(bytes.subrange(8, 12).subrange(0, 4) =~= bytes.subrange(8, 12));
    }
}

/// A text is stored as its UTF-8 bytes, once, behind eight bytes that say how
/// many they are, and is read from as many bytes as those say.
pub proof fn law_string_in_full(s: String, v: Seq<char>, bytes: Seq<u8>)
    ensures
        s.model() == s@,
        <String as Storable>::encode(v).len() == 8 + encode_utf8(v).len(),
        <String as Storable>::encode(v).skip(8) == encode_utf8(v),
        encode_utf8(v).len() <= u64::MAX ==> le_value(
            <String as Storable>::encode(v).subrange(0, 8),
        ) == encode_utf8(v).len(),
        <String as Storable>::decoded(bytes) == Some(v) <==> {
            let n = le_value(bytes.subrange(0, 8));
            let text = bytes.subrange(8, 8int + n);
            &&& bytes.len() >= 8
            &&& n <= bytes.len() - 8
            &&& valid_utf8(text)
            &&& decode_utf8(text) == v
        },
        <String as Storable>::decoded(bytes) is Some <==> {
            let n = le_value(bytes.subrange(0, 8));
            &&& bytes.len() >= 8
            &&& n <= bytes.len() - 8
            &&& valid_utf8(bytes.subrange(8, 8int + n))
        },
{
    let text = encode_utf8(v);
    lemma_le_bytes(text.len(), 8);
    lemma_le_bounds();
    assert(encode_string(v).subrange(0, 8) =~= le_bytes(text.len(), 8));
    assert(encode_string(v).skip(8) =~= text);
}

/// What is already encoded is stored and read as it is.
pub proof fn law_encoded_in_full(e: Encoded, bytes: Seq<u8>)
    ensures
        e.model() == e.0@,
        <Encoded as Storable>::encode(bytes) == bytes,
        <Encoded as Storable>::decoded(bytes) == Some(bytes),
{
}

} // verus!
