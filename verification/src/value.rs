//! The decoded reply model: one variant per frame shape of the wire grammar.

use vstd::prelude::*;

verus! {

/// A decoded server reply.
///
/// A bulk string carries a declared byte length and is binary safe; a
/// declared length of -1 on the wire denotes an absent value, held here as
/// `None` and distinct from an empty string. An array declared with count -1
/// is likewise held as `None`, distinct from an empty array.
#[derive(Debug, PartialEq, Eq)]
pub enum Values {
    SimpleString(Vec<u8>),
    Errors(Vec<u8>),
    Integers(i64),
    BulkString(Option<Vec<u8>>),
    Arrays(Option<Vec<Values>>),
}

/// The mathematical model of a decoded reply: payloads as byte sequences,
/// integers unbounded, arrays as sequences of models.
pub enum SpecValue {
    SimpleString(Seq<u8>),
    Errors(Seq<u8>),
    Integers(int),
    BulkString(Option<Seq<u8>>),
    Arrays(Option<Seq<SpecValue>>),
}

/// The model of one decoded reply.
pub open spec fn value_model(v: Values) -> SpecValue
    decreases v, 0nat,
{
    match v {
        Values::SimpleString(s) => SpecValue::SimpleString(s@),
        Values::Errors(s) => SpecValue::Errors(s@),
        Values::Integers(n) => SpecValue::Integers(n as int),
        Values::BulkString(None) => SpecValue::BulkString(None),
        Values::BulkString(Some(s)) => SpecValue::BulkString(Some(s@)),
        Values::Arrays(None) => SpecValue::Arrays(None),
        Values::Arrays(Some(items)) => SpecValue::Arrays(Some(values_model(items@))),
    }
}

/// The models of a sequence of decoded replies, in order.
pub open spec fn values_model(items: Seq<Values>) -> Seq<SpecValue>
    decreases items, 1nat,
{
    if items.len() == 0 {
        Seq::empty()
    } else {
        values_model(items.drop_last()).push(value_model(items.last()))
    }
}

impl View for Values {
    type V = SpecValue;

    open spec fn view(&self) -> SpecValue {
        value_model(*self)
    }
}

impl DeepView for Values {
    type V = SpecValue;

    open spec fn deep_view(&self) -> SpecValue {
        self.view()
    }
}

} // verus!
