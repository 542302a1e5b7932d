//! The columnar side of a flush: the value strings of a delta buffer are
//! appended, in order, into an arrow string builder and finished into the
//! "value" column of a block. Only the arrow calls themselves are trusted;
//! what they accumulate is named and tracked exactly.

use vstd::prelude::*;

use arrow::array::{Array, StringArray, StringBuilder};
use arrow::datatypes::{DataType, Field};

verus! {

#[verifier::external_type_specification]
#[verifier::external_body]
pub struct ExField(Field);

/// An arrow string builder, held behind one opaque field because its own
/// generics cannot be declared to the verifier.
#[verifier::external_body]
pub struct ValueColumnBuilder {
    inner: StringBuilder,
}

/// A finished arrow string array: the "value" column of a block.
#[verifier::external_body]
pub struct ValueColumn {
    inner: StringArray,
}

/// The strings the builder has accumulated so far, in order.
pub uninterp spec fn builder_contents(b: ValueColumnBuilder) -> Seq<Seq<char>>;

/// The total encoded byte length of a sequence of strings.
pub open spec fn contents_bytes(s: Seq<Seq<char>>) -> int
    decreases s.len(),
{
    if s.len() == 0 {
        0
    } else {
        contents_bytes(s.drop_last()) + vstd::utf8::encode_utf8(s.last()).len()
    }
}

/// The strings the column holds, in order.
pub uninterp spec fn column_contents(a: ValueColumn) -> Seq<Seq<char>>;

impl ValueColumnBuilder {
    /// Relies on StringBuilder::new: a fresh builder holds nothing.
    #[verifier::external_body]
    pub fn new() -> (b: Self)
        ensures
            builder_contents(b) == Seq::<Seq<char>>::empty(),
    {
        ValueColumnBuilder { inner: StringBuilder::new() }
    }

    /// Relies on StringBuilder::with_capacity: capacity hints change nothing
    /// of the contents, which start empty.
    #[verifier::external_body]
    pub fn with_capacity(item_capacity: usize, data_capacity: usize) -> (b: Self)
        ensures
            builder_contents(b) == Seq::<Seq<char>>::empty(),
    {
        ValueColumnBuilder { inner: StringBuilder::with_capacity(item_capacity, data_capacity) }
    }

    /// Relies on GenericByteBuilder::append_value: appends one string after
    /// those already accumulated. The builder's 4-byte offsets panic once
    /// the accumulated value bytes pass `i32::MAX`; that total is ruled out
    /// by precondition.
    #[verifier::external_body]
    pub fn append_value(&mut self, value: &str)
        requires
            contents_bytes(builder_contents(*old(self))) + vstd::utf8::encode_utf8(value@).len()
                <= i32::MAX,
        ensures
            builder_contents(*final(self)) == builder_contents(*old(self)).push(value@),
    {
        self.inner.append_value(value);
    }

    /// Relies on GenericByteBuilder::finish: hands the accumulated strings
    /// over into an array and resets the builder.
    #[verifier::external_body]
    pub fn finish(&mut self) -> (a: ValueColumn)
        ensures
            column_contents(a) == builder_contents(*old(self)),
            builder_contents(*final(self)) == Seq::<Seq<char>>::empty(),
    {
        ValueColumn { inner: self.inner.finish() }
    }
}

impl ValueColumn {
    /// Relies on Array::len: how many strings the column holds.
    #[verifier::external_body]
    pub fn len(&self) -> (n: usize)
        ensures
            n == column_contents(*self).len(),
    {
        self.inner.len()
    }

    /// Relies on GenericByteArray::value: the string at `i`.
    #[verifier::external_body]
    pub fn value(&self, i: usize) -> (r: String)
        requires
            i < column_contents(*self).len(),
        ensures
            r@ == column_contents(*self)[i as int],
    {
        self.inner.value(i).to_owned()
    }
}

/// Relies on Field::new: describes a non-nullable Utf8 column of the given
/// name.
#[verifier::external_body]
pub fn utf8_field(name: &str) -> (f: Field) {
    Field::new(name.to_owned(), DataType::Utf8, false)
}

} // verus!
