//! Keys: what a key type offers, and the composite of prefix and key that orders a blockfile.

use crate::order::{text_before, text_irreflexive, text_precedes, text_total, text_transitive};
use crate::size::saturate;
use vstd::prelude::*;
use vstd::utf8::encode_utf8;

verus! {

/// A type of keys: totally ordered, with a known width in a block's key column.
pub trait ArrowWriteableKey: View + Sized {
    /// The strict order of the keys.
    spec fn precedes(a: Self::V, b: Self::V) -> bool;

    /// How many bytes the key takes in the data of the key column.
    spec fn data_bytes(k: Self::V) -> nat;

    /// Whether the key column holds offsets: it does where keys differ in width.
    spec fn has_offsets() -> bool;

    proof fn irreflexive(a: Self::V)
        ensures
            !Self::precedes(a, a),
    ;

    proof fn transitive(a: Self::V, b: Self::V, c: Self::V)
        requires
            Self::precedes(a, b),
            Self::precedes(b, c),
        ensures
            Self::precedes(a, c),
    ;

    proof fn total(a: Self::V, b: Self::V)
        ensures
            a == b || Self::precedes(a, b) || Self::precedes(b, a),
    ;

    /// Whether this key comes strictly before `other`.
    fn before(&self, other: &Self) -> (r: bool)
        ensures
            r == Self::precedes(self@, other@),
    ;

    /// The key's size in bytes.
    fn get_size(&self) -> (r: usize)
        ensures
            r == saturate(Self::data_bytes(self@)),
    ;

    /// Whether keys of this type differ in width.
    fn variable_width() -> (r: bool)
        ensures
            r == Self::has_offsets(),
    ;

    /// An equal key.
    fn duplicate(&self) -> (r: Self)
        ensures
            r@ == self@,
    ;
}

impl ArrowWriteableKey for String {
    open spec fn precedes(a: Seq<char>, b: Seq<char>) -> bool {
        text_precedes(a, b)
    }

    open spec fn data_bytes(k: Seq<char>) -> nat {
        encode_utf8(k).len()
    }

    open spec fn has_offsets() -> bool {
        true
    }

    proof fn irreflexive(a: Seq<char>) {
        text_irreflexive(a);
    }

    proof fn transitive(a: Seq<char>, b: Seq<char>, c: Seq<char>) {
        text_transitive(a, b, c);
    }

    proof fn total(a: Seq<char>, b: Seq<char>) {
        text_total(a, b);
    }

    fn before(&self, other: &Self) -> (r: bool) {
        text_before(self.as_str(), other.as_str())
    }

    fn get_size(&self) -> (r: usize)
        ensures
            r == encode_utf8(self@).len(),
    {
        self.as_str().as_bytes().len()
    }

    fn variable_width() -> (r: bool) {
        true
    }

    fn duplicate(&self) -> (r: Self) {
        self.clone()
    }
}

impl ArrowWriteableKey for u32 {
    open spec fn precedes(a: u32, b: u32) -> bool {
        a < b
    }

    open spec fn data_bytes(k: u32) -> nat {
        4
    }

    open spec fn has_offsets() -> bool {
        false
    }

    proof fn irreflexive(a: u32) {
    }

    proof fn transitive(a: u32, b: u32, c: u32) {
    }

    proof fn total(a: u32, b: u32) {
    }

    fn before(&self, other: &Self) -> (r: bool)
        ensures
            r == (*self < *other),
    {
        *self < *other
    }

    fn get_size(&self) -> (r: usize)
        ensures
            r == 4,
    {
        4
    }

    fn variable_width() -> (r: bool) {
        false
    }

    fn duplicate(&self) -> (r: Self) {
        *self
    }
}

/// A 32-bit floating-point key, held by the bits of its IEEE 754 form. No key is a NaN.
#[derive(Clone, Copy, Debug)]
pub struct Float32Key {
    pub bits: u32,
}

/// The magnitude of the float with these bits: all but the sign.
pub open spec fn float_magnitude(bits: u32) -> int {
    if bits >= 0x8000_0000 {
        bits - 0x8000_0000
    } else {
        bits as int
    }
}

impl View for Float32Key {
    type V = int;

    /// The rank of the number among the floats: its magnitude under its sign, so that the two
    /// zeros are one key.
    open spec fn view(&self) -> int {
        if self.bits >= 0x8000_0000 {
            -float_magnitude(self.bits)
        } else {
            float_magnitude(self.bits)
        }
    }
}

impl Float32Key {
    /// The key for the float with the given bits, or `None` where they are those of a NaN.
    pub fn from_bits(bits: u32) -> (r: Option<Float32Key>)
        ensures
            r is None <==> float_magnitude(bits) > 0x7f80_0000,
            r is None <==> bits % 0x8000_0000 > 0x7f80_0000,
            r matches Some(k) ==> k.bits == bits,
    {
        let magnitude: u32 = if bits >= 0x8000_0000 {
            bits - 0x8000_0000
        } else {
            bits
        };
        if magnitude > 0x7f80_0000 {
            None
        } else {
            Some(Float32Key { bits })
        }
    }
}

impl ArrowWriteableKey for Float32Key {
    open spec fn precedes(a: int, b: int) -> bool {
        a < b
    }

    open spec fn data_bytes(k: int) -> nat {
        4
    }

    open spec fn has_offsets() -> bool {
        false
    }

    proof fn irreflexive(a: int) {
    }

    proof fn transitive(a: int, b: int, c: int) {
    }

    proof fn total(a: int, b: int) {
    }

    fn before(&self, other: &Self) -> (r: bool)
        ensures
            self.bits < 0x8000_0000 && other.bits < 0x8000_0000 ==> r == (self.bits < other.bits),
            self.bits >= 0x8000_0000 && other.bits >= 0x8000_0000 ==> r == (self.bits > other.bits),
            self.bits >= 0x8000_0000 && other.bits < 0x8000_0000 ==> r == (self.bits > 0x8000_0000
                || other.bits > 0),
            self.bits < 0x8000_0000 && other.bits >= 0x8000_0000 ==> !r,
    {
        if self.bits >= 0x8000_0000 {
            if other.bits >= 0x8000_0000 {
                other.bits < self.bits
            } else {
                self.bits > 0x8000_0000 || other.bits > 0
            }
        } else {
            other.bits < 0x8000_0000 && self.bits < other.bits
        }
    }

    fn get_size(&self) -> (r: usize)
        ensures
            r == 4,
    {
        4
    }

    fn variable_width() -> (r: bool) {
        false
    }

    fn duplicate(&self) -> (r: Self)
        ensures
            r.bits == self.bits,
    {
        *self
    }
}

/// What a composite key stands for: the prefix and the key.
pub type KeyModel<K> = (Seq<char>, <K as View>::V);

/// The order of a blockfile: by prefix, and within a prefix by key.
pub open spec fn key_precedes<K: ArrowWriteableKey>(a: KeyModel<K>, b: KeyModel<K>) -> bool {
    text_precedes(a.0, b.0) || (a.0 == b.0 && K::precedes(a.1, b.1))
}

/// Under one prefix, keys that are numbers come in the order of the numbers.
pub proof fn numbers_are_ordered_by_value(prefix: Seq<char>, a: u32, b: u32)
    ensures
        key_precedes::<u32>((prefix, a), (prefix, b)) <==> a < b,
{
    text_irreflexive(prefix);
}

/// Under one prefix, keys that are texts come in the order of the texts.
pub proof fn texts_are_ordered_by_bytes(prefix: Seq<char>, a: Seq<char>, b: Seq<char>)
    ensures
        key_precedes::<String>((prefix, a), (prefix, b)) <==> text_precedes(a, b),
{
    text_irreflexive(prefix);
}

/// Under one prefix, keys that are floats come in the order of their values: a float with the sign
/// bit before one without it unless both are zero, and two of one sign by the bits of their
/// magnitudes. Two floats are one key where they have the same bits or are both zero.
pub proof fn floats_are_ordered_by_value(prefix: Seq<char>, a: Float32Key, b: Float32Key)
    ensures
        ({
            let (s, m) = (a.bits >= 0x8000_0000, a.bits % 0x8000_0000);
            let (t, n) = (b.bits >= 0x8000_0000, b.bits % 0x8000_0000);
            &&& key_precedes::<Float32Key>((prefix, a@), (prefix, b@)) <==> {
                ||| s && !t && (m > 0 || n > 0)
                ||| s && t && m > n
                ||| !s && !t && m < n
            }
            &&& a@ == b@ <==> a.bits == b.bits || (m == 0 && n == 0)
        }),
{
    text_irreflexive(prefix);
}

/// A key comes before another one with a different prefix where its prefix does, whatever the keys
/// are.
pub proof fn prefixes_are_ordered_first<K: ArrowWriteableKey>(a: KeyModel<K>, b: KeyModel<K>)
    requires
        a.0 != b.0,
    ensures
        key_precedes::<K>(a, b) <==> text_precedes(a.0, b.0),
{
}

/// A text takes the bytes of its UTF-8 form in the key column, which then has offsets, and a number
/// takes four bytes in a column without them.
pub proof fn widths_of_keys(text: Seq<char>, number: u32, float: int)
    ensures
        <String as ArrowWriteableKey>::data_bytes(text) == encode_utf8(text).len(),
        <u32 as ArrowWriteableKey>::data_bytes(number) == 4,
        <Float32Key as ArrowWriteableKey>::data_bytes(float) == 4,
        <String as ArrowWriteableKey>::has_offsets(),
        !<u32 as ArrowWriteableKey>::has_offsets(),
        !<Float32Key as ArrowWriteableKey>::has_offsets(),
{
}

/// No key precedes itself.
pub broadcast proof fn key_irreflexive<K: ArrowWriteableKey>(a: KeyModel<K>)
    ensures
        !#[trigger] key_precedes::<K>(a, a),
{
    text_irreflexive(a.0);
    K::irreflexive(a.1);
}

/// The order of a blockfile is transitive.
pub broadcast proof fn key_transitive<K: ArrowWriteableKey>(
    a: KeyModel<K>,
    b: KeyModel<K>,
    c: KeyModel<K>,
)
    requires
        #[trigger] key_precedes::<K>(a, b),
        #[trigger] key_precedes::<K>(b, c),
    ensures
        key_precedes::<K>(a, c),
{
    if text_precedes(a.0, b.0) && text_precedes(b.0, c.0) {
        text_transitive(a.0, b.0, c.0);
    } else if a.0 == b.0 && b.0 == c.0 {
        K::transitive(a.1, b.1, c.1);
    }
}

/// Two different keys are ordered one way or the other.
pub broadcast proof fn key_total<K: ArrowWriteableKey>(a: KeyModel<K>, b: KeyModel<K>)
    ensures
        a == b || #[trigger] key_precedes::<K>(a, b) || key_precedes::<K>(b, a),
{
    text_total(a.0, b.0);
    K::total(a.1, b.1);
}

pub broadcast group group_key_order {
    key_irreflexive,
    key_transitive,
    key_total,
}

/// A key of a blockfile: a prefix and a key under it.
pub struct CompositeKey<K> {
    pub prefix: String,
    pub key: K,
}

impl<K: ArrowWriteableKey> View for CompositeKey<K> {
    type V = KeyModel<K>;

    open spec fn view(&self) -> KeyModel<K> {
        (self.prefix@, self.key@)
    }
}

impl<K: ArrowWriteableKey> CompositeKey<K> {
    /// The composite of a prefix and a key.
    pub fn new(prefix: String, key: K) -> (r: Self)
        ensures
            r@ == (prefix@, key@),
    {
        CompositeKey { prefix, key }
    }

    /// Whether this key comes strictly before `other`.
    pub fn before(&self, other: &Self) -> (r: bool)
        ensures
            r == key_precedes::<K>(self@, other@),
    {
        if text_before(self.prefix.as_str(), other.prefix.as_str()) {
            true
        } else if self.prefix == other.prefix {
            self.key.before(&other.key)
        } else {
            false
        }
    }

    /// An equal key.
    pub fn duplicate(&self) -> (r: Self)
        ensures
            r@ == self@,
    {
        CompositeKey { prefix: self.prefix.clone(), key: self.key.duplicate() }
    }
}

} // verus!
