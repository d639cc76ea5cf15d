//! Values: what a value type offers to the blocks that hold its values.

use crate::size::{saturate, times_four};
use vstd::prelude::*;
use vstd::utf8::encode_utf8;

verus! {

/// A type of values with a known width in a block's value column.
pub trait ArrowWriteableValue: View + Sized {
    /// How many bytes the value takes in the data of the value column.
    spec fn data_bytes(v: Self::V) -> nat;

    /// Whether the value column holds offsets: it does where values differ in width.
    spec fn has_offsets() -> bool;

    /// The value's size in bytes.
    fn get_size(&self) -> (r: usize)
        ensures
            r == saturate(Self::data_bytes(self@)),
    ;

    /// Whether values of this type differ in width.
    fn variable_width() -> (r: bool)
        ensures
            r == Self::has_offsets(),
    ;

    /// An equal value.
    fn duplicate(&self) -> (r: Self)
        ensures
            r@ == self@,
    ;
}

impl ArrowWriteableValue for String {
    open spec fn data_bytes(v: Seq<char>) -> nat {
        encode_utf8(v).len()
    }

    open spec fn has_offsets() -> bool {
        true
    }

    fn get_size(&self) -> (r: usize)
        ensures
            r == encode_utf8(self@).len(),
    {
        self.as_str().as_bytes().len()
    }

    fn variable_width() -> (r: bool) {
        true
    }

    fn duplicate(&self) -> (r: Self) {
        self.clone()
    }
}

impl ArrowWriteableValue for u32 {
    open spec fn data_bytes(v: u32) -> nat {
        4
    }

    open spec fn has_offsets() -> bool {
        false
    }

    fn get_size(&self) -> (r: usize)
        ensures
            r == 4,
    {
        4
    }

    fn variable_width() -> (r: bool) {
        false
    }

    fn duplicate(&self) -> (r: Self) {
        *self
    }
}

/// A list of 32-bit integers.
impl ArrowWriteableValue for Vec<i32> {
    open spec fn data_bytes(v: Seq<i32>) -> nat {
        4 * v.len()
    }

    open spec fn has_offsets() -> bool {
        true
    }

    fn get_size(&self) -> (r: usize)
        ensures
            4 * self@.len() <= usize::MAX ==> r == 4 * self@.len(),
    {
        times_four(self.len())
    }

    fn variable_width() -> (r: bool) {
        true
    }

    fn duplicate(&self) -> (r: Self) {
        let r = self.clone();
        assert(r@ =~= self@);
        r
    }
}

/// A value already in its binary form.
impl ArrowWriteableValue for Vec<u8> {
    open spec fn data_bytes(v: Seq<u8>) -> nat {
        v.len()
    }

    open spec fn has_offsets() -> bool {
        true
    }

    fn get_size(&self) -> (r: usize)
        ensures
            r == self@.len(),
    {
        self.len()
    }

    fn variable_width() -> (r: bool) {
        true
    }

    fn duplicate(&self) -> (r: Self) {
        let r = self.clone();
        assert(r@ =~= self@);
        r
    }
}

/// A text takes the bytes of its UTF-8 form in the value column, a list four bytes for each of its
/// integers, and a value in binary form its bytes. Their columns have offsets. A number takes four
/// bytes in a column without them.
pub proof fn widths_of_values(text: Seq<char>, number: u32, list: Seq<i32>, bytes: Seq<u8>)
    ensures
        <String as ArrowWriteableValue>::data_bytes(text) == encode_utf8(text).len(),
        <u32 as ArrowWriteableValue>::data_bytes(number) == 4,
        <Vec<i32> as ArrowWriteableValue>::data_bytes(list) == 4 * list.len(),
        <Vec<u8> as ArrowWriteableValue>::data_bytes(bytes) == bytes.len(),
        <String as ArrowWriteableValue>::has_offsets(),
        !<u32 as ArrowWriteableValue>::has_offsets(),
        <Vec<i32> as ArrowWriteableValue>::has_offsets(),
        <Vec<u8> as ArrowWriteableValue>::has_offsets(),
{
}

} // verus!
