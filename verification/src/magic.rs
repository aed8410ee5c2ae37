use crate::error::DecodeError;
use crate::heap::Heap;
use crate::heap::ObjectKind;
use crate::heap::Value;
use crate::text::to_utf8;
use crate::text::utf16_chars;
use vstd::prelude::*;
use vstd::string::StringExecFns;

verus! {

/// The native types that are decoded straight from bytes or code units, never by
/// walking properties. A struct is one of them when it bears that type's name.
#[derive(Clone, Copy, Debug, PartialEq, Eq, Structural)]
pub enum MagicType {
    /// The bytes of a buffer or of a view of one.
    ZeroCopyBuf,
    /// The bytes of a buffer that is taken from its owner.
    DetachedBuffer,
    /// A string of single-byte characters, as bytes.
    ByteString,
    /// A string as its UTF-16 code units.
    U16String,
    /// Bytes where the value is a buffer, text where it is a string.
    StringOrBuffer,
    /// The heap value itself, not decoded.
    Value,
}

/// What decoding one of the magic types yields.
pub enum MagicValue {
    ZeroCopyBuf(Vec<u8>),
    DetachedBuffer(Vec<u8>),
    ByteString(Vec<u8>),
    U16String(Vec<u16>),
    StringOrBuffer(StringOrBuffer),
    Value(Value),
}

/// Either bytes or text.
pub enum StringOrBuffer {
    Buffer(Vec<u8>),
    String(String),
}

/// The magic type that a struct name stands for, if it is one of the reserved names.
pub open spec fn registered(name: Seq<char>) -> Option<MagicType> {
    if name == "$__v8_magic_ZeroCopyBuf"@ {
        Some(MagicType::ZeroCopyBuf)
    } else if name == "$__v8_magic_DetachedBuffer"@ {
        Some(MagicType::DetachedBuffer)
    } else if name == "$__v8_magic_ByteString"@ {
        Some(MagicType::ByteString)
    } else if name == "$__v8_magic_U16String"@ {
        Some(MagicType::U16String)
    } else if name == "$__v8_magic_StringOrBuffer"@ {
        Some(MagicType::StringOrBuffer)
    } else if name == "$__v8_magic_Value"@ {
        Some(MagicType::Value)
    } else {
        None
    }
}

/// Whether `v` is a buffer or a view of one.
pub open spec fn is_buffer(scope: &Heap, v: Value) -> bool {
    v is Object && (scope.kind_of(v) == ObjectKind::ArrayBuffer || scope.kind_of(v)
        == ObjectKind::ArrayBufferView)
}

/// The bytes behind the object that `v` names.
pub open spec fn bytes_of(scope: &Heap, v: Value) -> Seq<u8> {
    scope.objects@[v->Object_0 as int].bytes@
}

/// Whether every code unit is a single byte.
pub open spec fn single_byte(units: Seq<u16>) -> bool {
    forall|i: int| 0 <= i < units.len() ==> (#[trigger] units[i]) <= 0xff
}

/// Looks a struct name up in the registry of magic types.
pub fn magic_type(name: &str) -> (r: Option<MagicType>)
    ensures
        r == registered(name@),
{
    let name = String::from_str(name);
    if name == String::from_str("$__v8_magic_ZeroCopyBuf") {
        Some(MagicType::ZeroCopyBuf)
    } else if name == String::from_str("$__v8_magic_DetachedBuffer") {
        Some(MagicType::DetachedBuffer)
    } else if name == String::from_str("$__v8_magic_ByteString") {
        Some(MagicType::ByteString)
    } else if name == String::from_str("$__v8_magic_U16String") {
        Some(MagicType::U16String)
    } else if name == String::from_str("$__v8_magic_StringOrBuffer") {
        Some(MagicType::StringOrBuffer)
    } else if name == String::from_str("$__v8_magic_Value") {
        Some(MagicType::Value)
    } else {
        None
    }
}

/// A copy of `bytes`.
fn copy_bytes(bytes: &Vec<u8>) -> (copy: Vec<u8>)
    ensures
        copy@ == bytes@,
{
    let mut copy: Vec<u8> = Vec::new();
    let mut at: usize = 0;
    while at < bytes.len()
        invariant
            at <= bytes@.len(),
            copy@ == bytes@.take(at as int),
        decreases bytes@.len() - at,
    {
        copy.push(bytes[at]);
        assert(bytes@.take(at + 1) == bytes@.take(at as int).push(bytes@[at as int]));
        at = at + 1;
    }
    assert(bytes@.take(bytes@.len() as int) == bytes@);
    copy
}

/// The bytes behind a buffer or a view of one. Any other value fails with
/// `ExpectedBuffer`.
pub fn zero_copy_buf(scope: &Heap, v: Value) -> (r: Result<Vec<u8>, DecodeError>)
    requires
        scope.valid(v),
    ensures
        is_buffer(scope, v) ==> r is Ok && r->Ok_0@ == bytes_of(scope, v),
        !is_buffer(scope, v) ==> r == Err::<Vec<u8>, DecodeError>(DecodeError::ExpectedBuffer),
{
    match v {
        Value::Object(o) => match scope.objects[o].kind {
            ObjectKind::ArrayBuffer => Ok(copy_bytes(&scope.objects[o].bytes)),
            ObjectKind::ArrayBufferView => Ok(copy_bytes(&scope.objects[o].bytes)),
            _ => Err(DecodeError::ExpectedBuffer),
        },
        _ => Err(DecodeError::ExpectedBuffer),
    }
}

/// The bytes of a buffer that is taken from its owner. A view, and any other value,
/// fails with `ExpectedBuffer`.
pub fn detached_buffer(scope: &Heap, v: Value) -> (r: Result<Vec<u8>, DecodeError>)
    requires
        scope.valid(v),
    ensures
        v is Object && scope.kind_of(v) == ObjectKind::ArrayBuffer ==> r is Ok && r->Ok_0@
            == bytes_of(scope, v),
        !(v is Object && scope.kind_of(v) == ObjectKind::ArrayBuffer) ==> r == Err::<
            Vec<u8>,
            DecodeError,
        >(DecodeError::ExpectedBuffer),
{
    match v {
        Value::Object(o) => match scope.objects[o].kind {
            ObjectKind::ArrayBuffer => Ok(copy_bytes(&scope.objects[o].bytes)),
            _ => Err(DecodeError::ExpectedBuffer),
        },
        _ => Err(DecodeError::ExpectedBuffer),
    }
}

/// The code units of a string. Any other value fails with `ExpectedString`.
pub fn u16_string(scope: &Heap, v: Value) -> (r: Result<Vec<u16>, DecodeError>)
    requires
        scope.valid(v),
    ensures
        v is String ==> r is Ok && r->Ok_0@ == scope.units(v->String_0 as int),
        !(v is String) ==> r == Err::<Vec<u16>, DecodeError>(DecodeError::ExpectedString),
{
    match v {
        Value::String(i) => {
            let units = &scope.strings[i].units;
            let mut copy: Vec<u16> = Vec::new();
            let mut at: usize = 0;
            while at < units.len()
                invariant
                    at <= units@.len(),
                    copy@ == units@.take(at as int),
                decreases units@.len() - at,
            {
                copy.push(units[at]);
                assert(units@.take(at + 1) == units@.take(at as int).push(units@[at as int]));
                at = at + 1;
            }
            assert(units@.take(units@.len() as int) == units@);
            Ok(copy)
        },
        _ => Err(DecodeError::ExpectedString),
    }
}

/// A string of single-byte characters, as one byte for each code unit. A value that
/// is not a string, and a string with a wider code unit, fail with `ExpectedString`.
pub fn byte_string(scope: &Heap, v: Value) -> (r: Result<Vec<u8>, DecodeError>)
    requires
        scope.valid(v),
    ensures
        v is String && single_byte(scope.units(v->String_0 as int)) ==> {
            &&& r is Ok
            &&& r->Ok_0@.len() == scope.units(v->String_0 as int).len()
            &&& forall|i: int|
                0 <= i < r->Ok_0@.len() ==> #[trigger] r->Ok_0@[i] == scope.units(
                    v->String_0 as int,
                )[i]
        },
        !(v is String && single_byte(scope.units(v->String_0 as int))) ==> r == Err::<
            Vec<u8>,
            DecodeError,
        >(DecodeError::ExpectedString),
{
    match v {
        Value::String(i) => {
            let units = &scope.strings[i].units;
            let mut bytes: Vec<u8> = Vec::new();
            let mut at: usize = 0;
            while at < units.len()
                invariant
                    at <= units@.len(),
                    bytes@.len() == at,
                    v == Value::String(i),
                    units@ == scope.units(i as int),
                    forall|k: int| 0 <= k < at ==> (#[trigger] units@[k]) <= 0xff,
                    forall|k: int| 0 <= k < at ==> #[trigger] bytes@[k] == units@[k],
                decreases units@.len() - at,
            {
                let unit = units[at];
                if unit > 0xff {
                    assert(scope.units(i as int)[at as int] > 0xff);
                    return Err(DecodeError::ExpectedString);
                }
                bytes.push(unit as u8);
                at = at + 1;
            }
            Ok(bytes)
        },
        _ => Err(DecodeError::ExpectedString),
    }
}

/// The bytes of a buffer or of a view of one, else the text of a string or of a
/// boxed string. Any other value fails with `ExpectedBuffer`.
pub fn string_or_buffer(scope: &Heap, v: Value) -> (r: Result<StringOrBuffer, DecodeError>)
    requires
        scope.wf(),
        scope.valid(v),
    ensures
        is_buffer(scope, v) ==> (r matches Ok(StringOrBuffer::Buffer(bytes)) && bytes@ == bytes_of(
            scope,
            v,
        )),
        v is String || scope.is_string_object(v) ==> (r matches Ok(StringOrBuffer::String(text))
            && text@ == utf16_chars(scope.units(scope.text_of(v)))),
        !is_buffer(scope, v) && !(v is String || scope.is_string_object(v)) ==> (r matches Err(e)
            && e == DecodeError::ExpectedBuffer),
{
    match v {
        Value::String(i) => Ok(StringOrBuffer::String(to_utf8(&scope.strings[i].units))),
        Value::Object(o) => {
            assert(scope.cell_wf(scope.objects@[o as int]));
            match scope.objects[o].kind {
                ObjectKind::ArrayBuffer => Ok(
                    StringOrBuffer::Buffer(copy_bytes(&scope.objects[o].bytes)),
                ),
                ObjectKind::ArrayBufferView => Ok(
                    StringOrBuffer::Buffer(copy_bytes(&scope.objects[o].bytes)),
                ),
                ObjectKind::BoxedString => Ok(
                    StringOrBuffer::String(to_utf8(&scope.strings[scope.objects[o].text].units)),
                ),
                _ => Err(DecodeError::ExpectedBuffer),
            }
        },
        _ => Err(DecodeError::ExpectedBuffer),
    }
}

/// Whether `r` is what decoding `v` as the magic type `kind` yields.
pub open spec fn decodes_magic(
    scope: &Heap,
    kind: MagicType,
    v: Value,
    r: Result<MagicValue, DecodeError>,
) -> bool {
        match kind {
            MagicType::ZeroCopyBuf => if is_buffer(scope, v) {
                r matches Ok(MagicValue::ZeroCopyBuf(bytes)) && bytes@ == bytes_of(scope, v)
            } else {
                r matches Err(e) && e == DecodeError::ExpectedBuffer
            },
            MagicType::DetachedBuffer => if v is Object && scope.kind_of(v)
                == ObjectKind::ArrayBuffer {
                r matches Ok(MagicValue::DetachedBuffer(bytes)) && bytes@ == bytes_of(scope, v)
            } else {
                r matches Err(e) && e == DecodeError::ExpectedBuffer
            },
            MagicType::ByteString => if v is String && single_byte(
                scope.units(v->String_0 as int),
            ) {
                r matches Ok(MagicValue::ByteString(bytes)) && bytes@.len() == scope.units(
                    v->String_0 as int,
                ).len() && forall|i: int|
                    0 <= i < bytes@.len() ==> #[trigger] bytes@[i] == scope.units(
                        v->String_0 as int,
                    )[i]
            } else {
                r matches Err(e) && e == DecodeError::ExpectedString
            },
            MagicType::U16String => if v is String {
                r matches Ok(MagicValue::U16String(units)) && units@ == scope.units(
                    v->String_0 as int,
                )
            } else {
                r matches Err(e) && e == DecodeError::ExpectedString
            },
            MagicType::StringOrBuffer => if is_buffer(scope, v) {
                r matches Ok(MagicValue::StringOrBuffer(StringOrBuffer::Buffer(bytes))) && bytes@
                    == bytes_of(scope, v)
            } else if v is String || scope.is_string_object(v) {
                r matches Ok(MagicValue::StringOrBuffer(StringOrBuffer::String(text))) && text@
                    == utf16_chars(scope.units(scope.text_of(v)))
            } else {
                r matches Err(e) && e == DecodeError::ExpectedBuffer
            },
            MagicType::Value => r matches Ok(MagicValue::Value(same)) && same == v,
        }
}

/// Decodes `v` as the magic type `kind`, by that type's own routine.
pub fn visit_magic(scope: &Heap, kind: MagicType, v: Value) -> (r: Result<MagicValue, DecodeError>)
    requires
        scope.wf(),
        scope.valid(v),
    ensures
        decodes_magic(scope, kind, v, r),
{
    match kind {
        MagicType::ZeroCopyBuf => match zero_copy_buf(scope, v) {
            Ok(bytes) => Ok(MagicValue::ZeroCopyBuf(bytes)),
            Err(e) => Err(e),
        },
        MagicType::DetachedBuffer => match detached_buffer(scope, v) {
            Ok(bytes) => Ok(MagicValue::DetachedBuffer(bytes)),
            Err(e) => Err(e),
        },
        MagicType::ByteString => match byte_string(scope, v) {
            Ok(bytes) => Ok(MagicValue::ByteString(bytes)),
            Err(e) => Err(e),
        },
        MagicType::U16String => match u16_string(scope, v) {
            Ok(units) => Ok(MagicValue::U16String(units)),
            Err(e) => Err(e),
        },
        MagicType::StringOrBuffer => match string_or_buffer(scope, v) {
            Ok(either) => Ok(MagicValue::StringOrBuffer(either)),
            Err(e) => Err(e),
        },
        MagicType::Value => Ok(MagicValue::Value(v)),
    }
}

} // verus!
