//! Reading the values of JFR events: each function here makes one call
//! into jfrs and hands back plain values or accessors for the next step.
//! The events themselves come from the caller, which walks the chunk.
use vstd::prelude::*;

use jfrs::reader::event::{Accessor, Event};
use jfrs::reader::value_descriptor::{Primitive, ValueDescriptor};
use jfrs::reader::Chunk;

verus! {

#[verifier::external_type_specification]
#[verifier::external_body]
pub struct ExAccessor<'a>(Accessor<'a>);

#[verifier::external_type_specification]
#[verifier::external_body]
pub struct ExEvent<'a>(Event<'a>);

/// The name of the type of an event.
pub uninterp spec fn event_class(event: Event) -> Seq<char>;

/// Where an event starts in the body of its chunk.
pub uninterp spec fn event_start(event: Event) -> u64;

/// The value of an event.
pub uninterp spec fn event_value_of(event: Event) -> Accessor;

/// The name of the type of an event (`TypeDescriptor::name`). Trusted: it
/// is what `event_class` names.
#[verifier::external_body]
pub(crate) fn event_class_name(event: &Event) -> (r: String)
    ensures
        r@ == event_class(*event),
{
    event.class.name().to_string()
}

/// Where an event starts in the body of its chunk (the field
/// `byte_offset`). Trusted: it is what `event_start` names.
#[verifier::external_body]
pub(crate) fn event_offset(event: &Event) -> (r: u64)
    ensures
        r == event_start(*event),
{
    event.byte_offset
}

/// The value of an event (`Event::value`). Trusted: it is what
/// `event_value_of` names.
#[verifier::external_body]
pub(crate) fn event_value<'a>(event: &'a Event<'a>) -> (r: Accessor<'a>)
    ensures
        r == event_value_of(*event),
{
    event.value()
}

/// The kind of a decoded value, before constants are resolved.
#[derive(Debug, Clone, Copy, PartialEq, Eq, Structural)]
pub enum ValueKind {
    Primitive,
    Object,
    Array,
    /// A reference to an entry of the chunk's constant pool.
    Constant(i64),
}

/// A primitive JFR value. Floating-point numbers are carried as their bits.
#[derive(Debug, Clone, PartialEq, Eq)]
pub enum PrimitiveValue {
    Integer(i32),
    Long(i64),
    Float(u32),
    Double(u64),
    Character(String),
    Boolean(bool),
    Short(i16),
    Byte(i8),
    NullString,
    Text(String),
}

/// The field `name` of an object value, with constants resolved.
pub uninterp spec fn field_at(value: Accessor, name: Seq<char>) -> Option<Accessor>;

/// The field `name` of an object value, as it is stored.
pub uninterp spec fn raw_field_at(value: Accessor, name: Seq<char>) -> Option<Accessor>;

/// The value that a constant refers to, or the value itself.
pub uninterp spec fn resolved(value: Accessor) -> Option<Accessor>;

/// The elements of an array value, where it is one or refers to one.
pub uninterp spec fn elements_of(value: Accessor) -> Option<Seq<Accessor>>;

/// The text of a string value.
pub uninterp spec fn value_text(value: Accessor) -> Option<Seq<char>>;

/// The number of an `int` value.
pub uninterp spec fn value_int(value: Accessor) -> Option<i32>;

/// The kind of a value.
pub uninterp spec fn value_kind(value: Accessor) -> ValueKind;

/// The primitive that a value holds.
pub uninterp spec fn value_primitive(value: Accessor) -> Option<PrimitiveValue>;

/// The `i`-th field value of an object value of `chunk`.
pub uninterp spec fn object_field_at(chunk: Chunk, value: Accessor, i: usize) -> Option<Accessor>;

/// The elements of an array value of `chunk`.
pub uninterp spec fn array_elements_of(chunk: Chunk, value: Accessor) -> Option<Seq<Accessor>>;

/// The field `name` of an object value, with constants resolved
/// (`Accessor::get_field`). Trusted: it is what `field_at` names.
#[verifier::external_body]
pub(crate) fn get_field<'a>(value: &Accessor<'a>, name: &str) -> (r: Option<Accessor<'a>>)
    ensures
        r == field_at(*value, name@),
{
    value.get_field(name)
}

/// The field `name` of an object value, as it is stored
/// (`Accessor::get_field_raw`). Trusted: it is what `raw_field_at` names.
#[verifier::external_body]
pub(crate) fn get_field_raw<'a>(value: &Accessor<'a>, name: &str) -> (r: Option<Accessor<'a>>)
    ensures
        r == raw_field_at(*value, name@),
{
    value.get_field_raw(name)
}

/// The value that a constant refers to, or the value itself
/// (`Accessor::resolve`); none where the constant pool lacks the entry.
/// Trusted: it is what `resolved` names.
#[verifier::external_body]
pub(crate) fn resolve<'a>(value: Accessor<'a>) -> (r: Option<Accessor<'a>>)
    ensures
        r == resolved(value),
{
    value.resolve()
}

/// The elements of an array value, where it is one, or is a constant that
/// refers to one (`Accessor::as_iter`). Trusted: they are what
/// `elements_of` names.
#[verifier::external_body]
pub(crate) fn as_elements<'a>(value: Accessor<'a>) -> (r: Option<Vec<Accessor<'a>>>)
    ensures
        elements_of(value) == match r {
            Some(v) => Some(v@),
            None => None,
        },
{
    value.as_iter().map(|it| it.collect())
}

/// The text of a string value (`<&str>::try_from`). Trusted: it is what
/// `value_text` names.
#[verifier::external_body]
pub(crate) fn as_text(value: &Accessor) -> (r: Option<String>)
    ensures
        value_text(*value) == match r {
            Some(t) => Some(t@),
            None => None,
        },
{
    <&str>::try_from(value.value).ok().map(|s| s.to_string())
}

/// The number of an `int` value (`<i32>::try_from`). Trusted: it is what
/// `value_int` names.
#[verifier::external_body]
pub(crate) fn as_int(value: &Accessor) -> (r: Option<i32>)
    ensures
        r == value_int(*value),
{
    <i32>::try_from(value.value).ok()
}

/// The kind of a value (the variant of its `ValueDescriptor`). Trusted: it
/// is what `value_kind` names.
#[verifier::external_body]
pub(crate) fn kind_of(value: &Accessor) -> (r: ValueKind)
    ensures
        r == value_kind(*value),
{
    match value.value {
        ValueDescriptor::Primitive(_) => ValueKind::Primitive,
        ValueDescriptor::Object(_) => ValueKind::Object,
        ValueDescriptor::Array(_) => ValueKind::Array,
        ValueDescriptor::ConstantPool { constant_index, .. } => ValueKind::Constant(*constant_index),
    }
}

/// The primitive that a value holds, as a plain value. Trusted: it is what
/// `value_primitive` names.
#[verifier::external_body]
pub(crate) fn primitive_of(value: &Accessor) -> (r: Option<PrimitiveValue>)
    ensures
        r == value_primitive(*value),
{
    match value.value {
        ValueDescriptor::Primitive(p) => Some(match p {
            Primitive::Integer(v) => PrimitiveValue::Integer(*v),
            Primitive::Long(v) => PrimitiveValue::Long(*v),
            Primitive::Float(v) => PrimitiveValue::Float(v.to_bits()),
            Primitive::Double(v) => PrimitiveValue::Double(v.to_bits()),
            Primitive::Character(c) => PrimitiveValue::Character(c.to_string()),
            Primitive::Boolean(v) => PrimitiveValue::Boolean(*v),
            Primitive::Short(v) => PrimitiveValue::Short(*v),
            Primitive::Byte(v) => PrimitiveValue::Byte(*v),
            Primitive::NullString => PrimitiveValue::NullString,
            Primitive::String(s) => PrimitiveValue::Text(s.clone()),
        }),
        _ => None,
    }
}

/// The `i`-th field value of an object value (`Accessor::new` on it).
/// Trusted: it is what `object_field_at` names.
#[verifier::external_body]
pub(crate) fn object_field<'a>(chunk: &'a Chunk, value: &Accessor<'a>, i: usize) -> (r: Option<Accessor<'a>>)
    ensures
        r == object_field_at(*chunk, *value, i),
{
    match value.value {
        ValueDescriptor::Object(o) => o.fields.get(i).map(|v| Accessor::new(chunk, v)),
        _ => None,
    }
}

/// The elements of an array value (`Accessor::new` on each). Trusted: they
/// are what `array_elements_of` names.
#[verifier::external_body]
pub(crate) fn array_elements<'a>(chunk: &'a Chunk, value: &Accessor<'a>) -> (r: Option<Vec<Accessor<'a>>>)
    ensures
        array_elements_of(*chunk, *value) == match r {
            Some(v) => Some(v@),
            None => None,
        },
{
    match value.value {
        ValueDescriptor::Array(a) => Some(a.iter().map(|v| Accessor::new(chunk, v)).collect()),
        _ => None,
    }
}

} // verus!
