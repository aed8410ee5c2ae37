use crate::access::MapAccess;
use crate::access::MapObjectAccess;
use crate::access::MapPairsAccess;
use crate::access::ObjectReference;
use crate::access::SeqAccess;
use crate::access::StructAccess;
use crate::magic::bytes_of;
use crate::magic::decodes_magic;
use crate::magic::is_buffer;
use crate::magic::magic_type;
use crate::magic::registered;
use crate::magic::visit_magic;
use crate::magic::zero_copy_buf;
use crate::magic::MagicValue;
use crate::double::bigint_double;
use crate::double::bigint_to_f64;
use crate::number::is_int32;
use crate::number::is_uint32;
use crate::number::number_is_int32;
use crate::number::number_is_uint32;
use crate::payload::ValueType;
use crate::bigint::bigint_low_bits;
use crate::bigint::low_bits;
use crate::bigint::wrap_signed;
use crate::bigint::wrap_unsigned;
use crate::error::DecodeError;
use crate::heap::Heap;
use crate::heap::ObjectKind;
use crate::heap::Value;
use crate::keys::KeyCache;
use crate::number::clamp;
use crate::number::number_to_i64;
use crate::number::number_to_u64;
use crate::number::truncated;
use crate::text::to_utf8;
use crate::text::utf16_chars;
use vstd::prelude::*;

verus! {

/// What a graph session knows: the identity index it hands out next, and the index
/// of each object of the heap that it has given one.
pub ghost struct Session {
    pub next: u32,
    pub identity: Seq<Option<u32>>,
}

/// A graph session: the counter of identity indices, and the identity slot of each
/// object of the heap. An object gets its index on its first visit and keeps it.
pub struct Ramson {
    pub next: u32,
    pub identity: Vec<Option<u32>>,
}

impl View for Ramson {
    type V = Session;

    open spec fn view(&self) -> Session {
        Session { next: self.next, identity: self.identity@ }
    }
}

/// What is known of an optional graph session.
pub open spec fn session_of(ramson: Option<Ramson>) -> Option<Session> {
    match ramson {
        Some(session) => Some(session@),
        None => None,
    }
}

impl Ramson {
    /// A fresh session for the heap `scope`: the counter at zero, every slot unset.
    pub fn new(scope: &Heap) -> (session: Ramson)
        ensures
            session.next == 0,
            session.identity@.len() == scope.objects@.len(),
            forall|i: int| 0 <= i < session.identity@.len() ==> session.identity@[i] is None,
    {
        let mut identity: Vec<Option<u32>> = Vec::new();
        let mut at: usize = 0;
        while at < scope.objects.len()
            invariant
                at <= scope.objects@.len(),
                identity@.len() == at,
                forall|i: int| 0 <= i < identity@.len() ==> identity@[i] is None,
            decreases scope.objects@.len() - at,
        {
            identity.push(None);
            at = at + 1;
        }
        Ramson { next: 0, identity }
    }
}

/// Where an integer is read from: a double, or the lowest 64 bits of a big integer.
#[derive(Clone, Copy, Debug, PartialEq, Eq, Structural)]
pub enum IntegerSource {
    Number(u64),
    BigInt(u64),
}

impl IntegerSource {
    /// The value of a signed integer type that runs from `min` to `max`: a double is
    /// cut off toward zero and held to the range, a big integer is cut to the width.
    pub open spec fn signed(self, min: int, max: int) -> int {
        match self {
            IntegerSource::Number(bits) => clamp(truncated(bits), min, max),
            IntegerSource::BigInt(raw) => wrap_signed(raw, min, max),
        }
    }

    /// The value of an unsigned integer type whose largest value is `max`: a double
    /// is cut off toward zero and held to the range, a big integer is cut to the
    /// width.
    pub open spec fn unsigned(self, max: int) -> int {
        match self {
            IntegerSource::Number(bits) => clamp(truncated(bits), 0, max),
            IntegerSource::BigInt(raw) => wrap_unsigned(raw, max),
        }
    }
}

/// Where an integer is read from in `v`. The readings are tried in this order: a
/// number as it is; a big integer as it is; the engine's coercion to a number; the
/// engine's coercion to a big integer. `None` where none of them exists.
pub open spec fn integer_source(scope: &Heap, v: Value) -> Option<IntegerSource> {
    match v {
        Value::Number(bits) => Some(IntegerSource::Number(bits)),
        Value::BigInt(i) => Some(
            IntegerSource::BigInt(low_bits(scope.bigints@[i as int].negative, scope.bigints@[i as int].words@)),
        ),
        _ => match scope.number_of(v) {
            Some(bits) => Some(IntegerSource::Number(bits)),
            None => match scope.big_int_of(v) {
                Some(i) => Some(
                    IntegerSource::BigInt(
                        low_bits(scope.bigints@[i as int].negative, scope.bigints@[i as int].words@),
                    ),
                ),
                None => None,
            },
        },
    }
}

/// What decoding `input` as a map works with, and the graph session after it.
///
/// Without a session every object is walked. Under a session an object that has an
/// identity index is not walked again: a reference to it stands in its place. An
/// object without one is given the next index and walked. A native map is walked by
/// its entries, any other object by its properties.
pub open spec fn map_plan(scope: &Heap, input: Value, ramson: Option<Session>) -> (
    Result<MapAccess, DecodeError>,
    Option<Session>,
) {
    match input {
        Value::Object(o) => match ramson {
            Some(session) => match session.identity[o as int] {
                Some(index) => (
                    Ok(
                        MapAccess::Reference(
                            ObjectReference { index, key_pending: true, value_pending: true },
                        ),
                    ),
                    ramson,
                ),
                None => (
                    Ok(first_visit(scope, o, true, Some(session.next))),
                    Some(
                        Session {
                            next: if session.next == u32::MAX {
                                0u32
                            } else {
                                (session.next + 1) as u32
                            },
                            identity: session.identity.update(o as int, Some(session.next)),
                        },
                    ),
                ),
            },
            None => (Ok(first_visit(scope, o, false, None)), None),
        },
        _ => (Err(DecodeError::ExpectedObject), ramson),
    }
}

/// The cursor for an object that is walked: over the entries of a native map, over
/// the properties of any other object.
pub open spec fn first_visit(scope: &Heap, o: usize, ramson: bool, index: Option<u32>) -> MapAccess {
    if scope.objects@[o as int].kind == ObjectKind::NativeMap {
        MapAccess::Pairs(
            MapPairsAccess {
                obj: o,
                pos: 0,
                len: scope.objects@[o as int].elements@.len() as u32,
                ramson_include_index: index,
                announced: false,
            },
        )
    } else {
        MapAccess::Object(
            MapObjectAccess {
                obj: o,
                pos: 0,
                len: scope.objects@[o as int].properties@.len() as u32,
                next_value: None,
                ramson,
                ramson_include_index: index,
            },
        )
    }
}

/// What decoding `input` as a tuple of `len` parts works with.
///
/// An array must have exactly `len` elements, or the call fails with
/// `LengthMismatch`. Any other object is read at the positions `0..len`, whatever it
/// holds and however many properties it has. A value that is no object fails with
/// `ExpectedArray`.
pub open spec fn tuple_plan(scope: &Heap, input: Value, len: usize) -> Result<SeqAccess, DecodeError> {
    match input {
        Value::Object(o) => if scope.objects@[o as int].kind == ObjectKind::Array
            && scope.objects@[o as int].elements@.len() != len {
            Err(DecodeError::LengthMismatch)
        } else {
            Ok(SeqAccess { obj: o, pos: 0, end: len })
        },
        _ => Err(DecodeError::ExpectedArray),
    }
}

/// What decoding the object `o` as a struct without field names works with, and the
/// graph session after it.
///
/// The object is walked by its properties. Under a session its identity slot
/// decides, as it does for a map: an object that has an identity index is not
/// walked again, and an object without one is given the next index and walked, with
/// the definition and the prototype behind its properties.
pub open spec fn struct_object_plan(scope: &Heap, o: usize, ramson: Option<Session>) -> (
    MapAccess,
    Option<Session>,
) {
    match ramson {
        Some(session) => match session.identity[o as int] {
            Some(index) => (
                MapAccess::Reference(
                    ObjectReference { index, key_pending: true, value_pending: true },
                ),
                ramson,
            ),
            None => (
                MapAccess::Object(
                    MapObjectAccess {
                        obj: o,
                        pos: 0,
                        len: scope.objects@[o as int].properties@.len() as u32,
                        next_value: None,
                        ramson: true,
                        ramson_include_index: Some(session.next),
                    },
                ),
                Some(
                    Session {
                        next: if session.next == u32::MAX {
                            0u32
                        } else {
                            (session.next + 1) as u32
                        },
                        identity: session.identity.update(o as int, Some(session.next)),
                    },
                ),
            ),
        },
        None => (
            MapAccess::Object(
                MapObjectAccess {
                    obj: o,
                    pos: 0,
                    len: scope.objects@[o as int].properties@.len() as u32,
                    next_value: None,
                    ramson: false,
                    ramson_include_index: None,
                },
            ),
            None,
        ),
    }
}

/// A tuple of any arity is taken from any object: an array of another length fails
/// with `LengthMismatch`, an array of that length and any object that is no array
/// are read at the positions from zero up to the arity, no length compared. Nothing
/// but an object is taken.
pub proof fn lemma_tuple_plan(scope: &Heap, input: Value, len: usize)
    ensures
        match input {
            Value::Object(o) => {
                let cell = scope.objects@[o as int];
                if cell.kind == ObjectKind::Array && cell.elements@.len() != len {
                    tuple_plan(scope, input, len) == Err::<SeqAccess, DecodeError>(
                        DecodeError::LengthMismatch,
                    )
                } else {
                    &&& tuple_plan(scope, input, len) == Ok::<SeqAccess, DecodeError>(
                        SeqAccess { obj: o, pos: 0, end: len },
                    )
                    &&& forall|at: usize|
                        at < len ==> (#[trigger] SeqAccess { obj: o, pos: at, end: len }.after_next(
                            scope,
                        )) == (
                            Some(scope.element(o as int, at as int)),
                            SeqAccess { obj: o, pos: (at + 1) as usize, end: len },
                        )
                }
            },
            _ => tuple_plan(scope, input, len) == Err::<SeqAccess, DecodeError>(
                DecodeError::ExpectedArray,
            ),
        },
{
}

/// The decoder of one heap value. It borrows the heap for one decode call and
/// carries the call's graph session, if there is one.
pub struct Deserializer<'b> {
    pub input: Value,
    pub scope: &'b Heap,
    pub key_cache: Option<&'b KeyCache>,
    pub ramson: Option<Ramson>,
}

impl<'b> Deserializer<'b> {
    /// Whether the decoder fits its heap: the input names a cell of it, and the
    /// session has a slot for each of its objects.
    pub open spec fn wf(&self) -> bool {
        &&& self.scope.wf()
        &&& self.scope.valid(self.input)
        &&& self.ramson matches Some(session) ==> session.identity@.len()
            == self.scope.objects@.len()
    }

    /// A decoder for `input`.
    pub fn new(
        scope: &'b Heap,
        input: Value,
        key_cache: Option<&'b KeyCache>,
        ramson: Option<Ramson>,
    ) -> (de: Deserializer<'b>)
        ensures
            de.input == input,
            de.scope == scope,
            de.key_cache == key_cache,
            de.ramson == ramson,
    {
        Deserializer { input, scope, key_cache, ramson }
    }

    /// Decodes a boolean, leniently: true for the literal true value, false for any
    /// other value.
    pub fn deserialize_bool(&self) -> (r: bool)
        ensures
            r == (self.input == Value::Bool(true)),
    {
        match self.input {
            Value::Bool(b) => b,
            _ => false,
        }
    }

    /// Where an integer is read from in the input, or `ExpectedInteger`.
    pub fn integer(&self) -> (r: Result<IntegerSource, DecodeError>)
        requires
            self.wf(),
        ensures
            match integer_source(self.scope, self.input) {
                Some(source) => r == Ok::<IntegerSource, DecodeError>(source),
                None => r == Err::<IntegerSource, DecodeError>(DecodeError::ExpectedInteger),
            },
    {
        match self.input {
            Value::Number(bits) => Ok(IntegerSource::Number(bits)),
            Value::BigInt(i) => Ok(IntegerSource::BigInt(bigint_low_bits(&self.scope.bigints[i]))),
            _ => match self.scope.number_value(self.input) {
                Some(bits) => Ok(IntegerSource::Number(bits)),
                None => match self.scope.to_big_int(self.input) {
                    Some(i) => Ok(IntegerSource::BigInt(bigint_low_bits(&self.scope.bigints[i]))),
                    None => Err(DecodeError::ExpectedInteger),
                },
            },
        }
    }

    /// Decodes a signed 64-bit integer.
    pub fn deserialize_i64(&self) -> (r: Result<i64, DecodeError>)
        requires
            self.wf(),
        ensures
            match integer_source(self.scope, self.input) {
                Some(source) => r is Ok && r->Ok_0 == source.signed(i64::MIN as int, i64::MAX as int),
                None => r == Err::<i64, DecodeError>(DecodeError::ExpectedInteger),
            },
    {
        match self.integer() {
            Ok(IntegerSource::Number(bits)) => Ok(number_to_i64(bits)),
            Ok(IntegerSource::BigInt(raw)) => {
                assert(i64::MAX as int - i64::MIN as int + 1 == 0x1_0000_0000_0000_0000);
                assert(raw as int % 0x1_0000_0000_0000_0000 == raw as int);
                Ok(
                    if raw > 0x7fff_ffff_ffff_ffff {
                        let below: u64 = u64::MAX - raw;
                        -1 - (below as i64)
                    } else {
                        raw as i64
                    },
                )
            },
            Err(e) => Err(e),
        }
    }

    /// Decodes a signed 32-bit integer.
    pub fn deserialize_i32(&self) -> (r: Result<i32, DecodeError>)
        requires
            self.wf(),
        ensures
            match integer_source(self.scope, self.input) {
                Some(source) => r is Ok && r->Ok_0 == source.signed(i32::MIN as int, i32::MAX as int),
                None => r == Err::<i32, DecodeError>(DecodeError::ExpectedInteger),
            },
    {
        match self.integer() {
            Ok(IntegerSource::Number(bits)) => {
                let wide = number_to_i64(bits);
                Ok(
                    if wide < -0x8000_0000 {
                        i32::MIN
                    } else if wide > 0x7fff_ffff {
                        i32::MAX
                    } else {
                        wide as i32
                    },
                )
            },
            Ok(IntegerSource::BigInt(raw)) => {
                let cut: u64 = raw % 0x1_0000_0000;
                Ok(
                    if cut > 0x7fff_ffff {
                        (cut as i64 - 0x1_0000_0000) as i32
                    } else {
                        cut as i32
                    },
                )
            },
            Err(e) => Err(e),
        }
    }

    /// Decodes a signed 16-bit integer.
    pub fn deserialize_i16(&self) -> (r: Result<i16, DecodeError>)
        requires
            self.wf(),
        ensures
            match integer_source(self.scope, self.input) {
                Some(source) => r is Ok && r->Ok_0 == source.signed(i16::MIN as int, i16::MAX as int),
                None => r == Err::<i16, DecodeError>(DecodeError::ExpectedInteger),
            },
    {
        match self.integer() {
            Ok(IntegerSource::Number(bits)) => {
                let wide = number_to_i64(bits);
                Ok(
                    if wide < -0x8000 {
                        i16::MIN
                    } else if wide > 0x7fff {
                        i16::MAX
                    } else {
                        wide as i16
                    },
                )
            },
            Ok(IntegerSource::BigInt(raw)) => {
                let cut: u64 = raw % 0x1_0000;
                Ok(
                    if cut > 0x7fff {
                        (cut as i64 - 0x1_0000) as i16
                    } else {
                        cut as i16
                    },
                )
            },
            Err(e) => Err(e),
        }
    }

    /// Decodes a signed 8-bit integer.
    pub fn deserialize_i8(&self) -> (r: Result<i8, DecodeError>)
        requires
            self.wf(),
        ensures
            match integer_source(self.scope, self.input) {
                Some(source) => r is Ok && r->Ok_0 == source.signed(i8::MIN as int, i8::MAX as int),
                None => r == Err::<i8, DecodeError>(DecodeError::ExpectedInteger),
            },
    {
        match self.integer() {
            Ok(IntegerSource::Number(bits)) => {
                let wide = number_to_i64(bits);
                Ok(
                    if wide < -0x80 {
                        i8::MIN
                    } else if wide > 0x7f {
                        i8::MAX
                    } else {
                        wide as i8
                    },
                )
            },
            Ok(IntegerSource::BigInt(raw)) => {
                let cut: u64 = raw % 0x100;
                Ok(
                    if cut > 0x7f {
                        (cut as i64 - 0x100) as i8
                    } else {
                        cut as i8
                    },
                )
            },
            Err(e) => Err(e),
        }
    }

    /// Decodes an unsigned 64-bit integer.
    pub fn deserialize_u64(&self) -> (r: Result<u64, DecodeError>)
        requires
            self.wf(),
        ensures
            match integer_source(self.scope, self.input) {
                Some(source) => r is Ok && r->Ok_0 == source.unsigned(u64::MAX as int),
                None => r == Err::<u64, DecodeError>(DecodeError::ExpectedInteger),
            },
    {
        match self.integer() {
            Ok(IntegerSource::Number(bits)) => Ok(number_to_u64(bits)),
            Ok(IntegerSource::BigInt(raw)) => {
                assert(raw as int % 0x1_0000_0000_0000_0000 == raw as int);
                Ok(raw)
            },
            Err(e) => Err(e),
        }
    }

    /// Decodes an unsigned 32-bit integer.
    pub fn deserialize_u32(&self) -> (r: Result<u32, DecodeError>)
        requires
            self.wf(),
        ensures
            match integer_source(self.scope, self.input) {
                Some(source) => r is Ok && r->Ok_0 == source.unsigned(u32::MAX as int),
                None => r == Err::<u32, DecodeError>(DecodeError::ExpectedInteger),
            },
    {
        match self.integer() {
            Ok(IntegerSource::Number(bits)) => {
                let wide = number_to_u64(bits);
                Ok(
                    if wide > 0xffff_ffff {
                        u32::MAX
                    } else {
                        wide as u32
                    },
                )
            },
            Ok(IntegerSource::BigInt(raw)) => Ok((raw % 0x1_0000_0000) as u32),
            Err(e) => Err(e),
        }
    }

    /// Decodes an unsigned 16-bit integer.
    pub fn deserialize_u16(&self) -> (r: Result<u16, DecodeError>)
        requires
            self.wf(),
        ensures
            match integer_source(self.scope, self.input) {
                Some(source) => r is Ok && r->Ok_0 == source.unsigned(u16::MAX as int),
                None => r == Err::<u16, DecodeError>(DecodeError::ExpectedInteger),
            },
    {
        match self.integer() {
            Ok(IntegerSource::Number(bits)) => {
                let wide = number_to_u64(bits);
                Ok(
                    if wide > 0xffff {
                        u16::MAX
                    } else {
                        wide as u16
                    },
                )
            },
            Ok(IntegerSource::BigInt(raw)) => Ok((raw % 0x1_0000) as u16),
            Err(e) => Err(e),
        }
    }

    /// Decodes an unsigned 8-bit integer.
    pub fn deserialize_u8(&self) -> (r: Result<u8, DecodeError>)
        requires
            self.wf(),
        ensures
            match integer_source(self.scope, self.input) {
                Some(source) => r is Ok && r->Ok_0 == source.unsigned(u8::MAX as int),
                None => r == Err::<u8, DecodeError>(DecodeError::ExpectedInteger),
            },
    {
        match self.integer() {
            Ok(IntegerSource::Number(bits)) => {
                let wide = number_to_u64(bits);
                Ok(
                    if wide > 0xff {
                        u8::MAX
                    } else {
                        wide as u8
                    },
                )
            },
            Ok(IntegerSource::BigInt(raw)) => Ok((raw % 0x100) as u8),
            Err(e) => Err(e),
        }
    }

    /// Decodes a string: the text of a string or of a boxed string. Any other value
    /// fails with `ExpectedString`.
    pub fn deserialize_string(&self) -> (r: Result<String, DecodeError>)
        requires
            self.wf(),
        ensures
            self.input is String || self.scope.is_string_object(self.input) ==> r is Ok
                && r->Ok_0@ == utf16_chars(self.scope.units(self.scope.text_of(self.input))),
            !(self.input is String || self.scope.is_string_object(self.input)) ==> r == Err::<
                String,
                DecodeError,
            >(DecodeError::ExpectedString),
    {
        match self.input {
            Value::String(i) => Ok(to_utf8(&self.scope.strings[i].units)),
            Value::Object(o) => {
                assert(self.scope.cell_wf(self.scope.objects@[o as int]));
                match self.scope.objects[o].kind {
                    ObjectKind::BoxedString => Ok(
                        to_utf8(&self.scope.strings[self.scope.objects[o].text].units),
                    ),
                    _ => Err(DecodeError::ExpectedString),
                }
            },
            _ => Err(DecodeError::ExpectedString),
        }
    }

    /// Decodes an optional value: absent for null and for the missing sentinel,
    /// present with the input itself for any other value.
    pub fn deserialize_option(&self) -> (r: Option<Value>)
        ensures
            r == (if self.input is Null || self.input is Undefined {
                None
            } else {
                Some(self.input)
            }),
    {
        match self.input {
            Value::Null => None,
            Value::Undefined => None,
            _ => Some(self.input),
        }
    }

    /// Decodes a sequence: a cursor over all elements of an array. Any other value
    /// fails with `ExpectedArray`.
    pub fn deserialize_seq(&self) -> (r: Result<SeqAccess, DecodeError>)
        requires
            self.wf(),
        ensures
            r == (if self.input is Object && self.scope.kind_of(self.input) == ObjectKind::Array {
                Ok::<SeqAccess, DecodeError>(
                    SeqAccess {
                        obj: self.input->Object_0,
                        pos: 0,
                        end: self.scope.objects@[self.input->Object_0 as int].elements@.len() as usize,
                    },
                )
            } else {
                Err::<SeqAccess, DecodeError>(DecodeError::ExpectedArray)
            }),
    {
        if self.scope.has_kind(self.input, ObjectKind::Array) {
            match self.input {
                Value::Object(o) => Ok(SeqAccess::new(o, 0, self.scope.length(o) as usize)),
                _ => Err(DecodeError::ExpectedArray),
            }
        } else {
            Err(DecodeError::ExpectedArray)
        }
    }

    /// Decodes a tuple of `len` parts: a cursor over the positions `0..len` of the
    /// input object. An array must have exactly `len` elements, or the call fails
    /// with `LengthMismatch`; any other object is read by position whatever it holds.
    /// A value that is no object fails with `ExpectedArray`.
    pub fn deserialize_tuple(&self, len: usize) -> (r: Result<SeqAccess, DecodeError>)
        requires
            self.wf(),
        ensures
            r == tuple_plan(self.scope, self.input, len),
    {
        match self.input {
            Value::Object(o) => {
                if self.scope.has_kind(self.input, ObjectKind::Array) {
                    if self.scope.length(o) as usize != len {
                        return Err(DecodeError::LengthMismatch);
                    }
                }
                Ok(SeqAccess::new(o, 0, len))
            },
            _ => Err(DecodeError::ExpectedArray),
        }
    }

    /// Decodes a map: the cursor to walk the input object with. Any value that is not
    /// an object fails with `ExpectedObject`. Under a graph session the object's
    /// identity slot decides: an object seen before is not walked again, an object
    /// seen for the first time takes the session's next index.
    pub fn deserialize_map(&mut self) -> (r: Result<MapAccess, DecodeError>)
        requires
            old(self).wf(),
        ensures
            final(self).wf(),
            final(self).input == old(self).input,
            final(self).scope == old(self).scope,
            final(self).key_cache == old(self).key_cache,
            (r, session_of(final(self).ramson)) == map_plan(
                old(self).scope,
                old(self).input,
                session_of(old(self).ramson),
            ),
            r matches Ok(access) ==> access.wf(old(self).scope) && access.settled(),
    {
        let obj = match self.input {
            Value::Object(o) => o,
            _ => {
                return Err(DecodeError::ExpectedObject);
            },
        };
        assert(self.scope.cell_wf(self.scope.objects@[obj as int]));
        let ramson_include_index = match &mut self.ramson {
            Some(session) => {
                match session.identity[obj] {
                    Some(existing) => {
                        return Ok(MapAccess::Reference(ObjectReference::new(existing)));
                    },
                    None => {
                        let index = session.next;
                        session.next = if index == u32::MAX {
                            0
                        } else {
                            index + 1
                        };
                        session.identity.set(obj, Some(index));
                        Some(index)
                    },
                }
            },
            None => None,
        };
        let active = ramson_include_index.is_some();
        if self.scope.has_kind(self.input, ObjectKind::NativeMap) {
            Ok(MapAccess::Pairs(MapPairsAccess::new(obj, self.scope, ramson_include_index)))
        } else {
            Ok(MapAccess::Object(MapObjectAccess::new(obj, self.scope, active, ramson_include_index)))
        }
    }
}

/// The double that is read from `v`, as its bit pattern. The readings are tried in
/// this order: a number as it is; a big integer, converted; the engine's coercion to
/// a number; the engine's coercion to a big integer, converted. `None` where none
/// of them exists.
pub open spec fn double_source(scope: &Heap, v: Value) -> Option<u64> {
    match v {
        Value::Number(bits) => Some(bits),
        Value::BigInt(i) => Some(
            bigint_double(scope.bigints@[i as int].negative, scope.bigints@[i as int].words@),
        ),
        _ => match scope.number_of(v) {
            Some(bits) => Some(bits),
            None => match scope.big_int_of(v) {
                Some(i) => Some(
                    bigint_double(scope.bigints@[i as int].negative, scope.bigints@[i as int].words@),
                ),
                None => None,
            },
        },
    }
}

/// What decoding a value without a target shape yields at its top: a scalar, or the
/// cursor to walk a container with.
pub enum Described {
    Unit,
    Bool(bool),
    U32(u32),
    I32(i32),
    /// A double, as its bit pattern.
    F64(u64),
    String(String),
    /// An array: the cursor over its elements.
    Array(SeqAccess),
    /// An object: the cursor that decoding a map works with.
    Object(MapAccess),
    Bytes(Vec<u8>),
}

/// Whether `r` is what decoding `input` without a target shape yields, and `after`
/// the graph session after it.
///
/// The value's structural kind decides. Null and the missing sentinel give the unit.
/// A number gives an unsigned 32-bit integer where it is one, else a signed 32-bit
/// integer where it is one, else a double. A string gives its text, an array a
/// cursor over its elements, a buffer or a view of one its bytes, and any other
/// object the cursor that decoding a map works with.
pub open spec fn describes(
    scope: &Heap,
    input: Value,
    before: Option<Session>,
    r: Result<Described, DecodeError>,
    after: Option<Session>,
) -> bool {
    match ValueType::of(scope, input) {
        ValueType::Null => r matches Ok(Described::Unit) && after == before,
        ValueType::Bool => r matches Ok(Described::Bool(b)) && b == (input == Value::Bool(true))
            && after == before,
        ValueType::Number => {
            let bits = input->Number_0;
            &&& after == before
            &&& if is_uint32(bits) {
                r matches Ok(Described::U32(n)) && n == truncated(bits)
            } else if is_int32(bits) {
                r matches Ok(Described::I32(n)) && n == truncated(bits)
            } else {
                r matches Ok(Described::F64(same)) && same == bits
            }
        },
        ValueType::String => r matches Ok(Described::String(text)) && text@ == utf16_chars(
            scope.units(input->String_0 as int),
        ) && after == before,
        ValueType::Array => r matches Ok(Described::Array(access)) && access == (SeqAccess {
            obj: input->Object_0,
            pos: 0,
            end: scope.objects@[input->Object_0 as int].elements@.len() as usize,
        }) && after == before,
        ValueType::ArrayBuffer | ValueType::ArrayBufferView => r matches Ok(Described::Bytes(bytes))
            && bytes@ == bytes_of(scope, input) && after == before,
        ValueType::Object => r matches Ok(Described::Object(access)) && (
            Ok::<MapAccess, DecodeError>(access),
            after,
        ) == map_plan(scope, input, before),
    }
}

/// What decoding a struct works with.
pub enum StructPlan<'a> {
    /// The struct bears the name of a magic type: its decoded value.
    Magic(MagicValue),
    /// No field names were given: the cursor over all properties of the object, or
    /// under a graph session the reference to an object walked before.
    Object(MapAccess),
    /// Field names were given: a cursor over those fields.
    Fields(StructAccess<'a>),
}

/// The tag and the payload of an enum value.
#[derive(Clone, Copy, Debug, PartialEq, Eq, Structural)]
pub struct EnumAccess {
    /// The value that names the variant.
    pub tag: Value,
    /// The value that holds the variant's content; the missing sentinel for a unit
    /// variant.
    pub payload: Value,
}

/// The payload of an enum value, to be decoded as the variant's content.
#[derive(Clone, Copy, Debug, PartialEq, Eq, Structural)]
pub struct VariantDeserializer {
    pub value: Value,
}

/// The tag and the payload that `input` holds as an enum value.
///
/// A string or a boxed string is a unit variant: the string is the tag, the payload
/// is the missing sentinel. A value whose structural kind is object must have
/// exactly one own enumerable property: its name is the tag, its value the payload.
/// An object with no property or with several fails with `LengthMismatch`. Any
/// other value, an array and a buffer among them, fails with `ExpectedEnum`.
pub open spec fn enum_plan(scope: &Heap, input: Value) -> Result<EnumAccess, DecodeError> {
    if input is String || scope.is_string_object(input) {
        Ok(EnumAccess { tag: input, payload: Value::Undefined })
    } else if input is Object && ValueType::of(scope, input) == ValueType::Object {
        let properties = scope.objects@[input->Object_0 as int].properties@;
        if properties.len() != 1 {
            Err(DecodeError::LengthMismatch)
        } else {
            Ok(EnumAccess { tag: Value::String(properties[0].key), payload: properties[0].value })
        }
    } else {
        Err(DecodeError::ExpectedEnum)
    }
}

/// An enum is taken from two shapes and from no other: a string or a boxed string is
/// always a unit variant, and a value that classifies as an object is a variant
/// exactly when it has one own enumerable property. Every other value fails with
/// `ExpectedEnum`: null, a boolean, a number, an array, a buffer.
pub proof fn lemma_enum_plan(scope: &Heap, input: Value)
    ensures
        input is String || scope.is_string_object(input) ==> enum_plan(scope, input) == Ok::<
            EnumAccess,
            DecodeError,
        >(EnumAccess { tag: input, payload: Value::Undefined }),
        !(input is String || scope.is_string_object(input)) && !input.kindless() ==> (match ValueType::of(
            scope,
            input,
        ) {
            ValueType::Object => {
                let properties = scope.objects@[input->Object_0 as int].properties@;
                if properties.len() == 1 {
                    enum_plan(scope, input) == Ok::<EnumAccess, DecodeError>(
                        EnumAccess {
                            tag: Value::String(properties[0].key),
                            payload: properties[0].value,
                        },
                    )
                } else {
                    enum_plan(scope, input) == Err::<EnumAccess, DecodeError>(
                        DecodeError::LengthMismatch,
                    )
                }
            },
            _ => enum_plan(scope, input) == Err::<EnumAccess, DecodeError>(
                DecodeError::ExpectedEnum,
            ),
        }),
        input.kindless() ==> enum_plan(scope, input) == Err::<EnumAccess, DecodeError>(
            DecodeError::ExpectedEnum,
        ),
{
}

impl EnumAccess {
    /// The tag, to be decoded as the variant's name, and the decoder of the payload.
    pub fn variant_seed(self) -> (r: (Value, VariantDeserializer))
        ensures
            r == (self.tag, VariantDeserializer { value: self.payload }),
    {
        (self.tag, VariantDeserializer { value: self.payload })
    }
}

impl VariantDeserializer {
    /// Decodes the payload of a newtype variant: the payload itself is the value to
    /// decode. `de` is left at the payload.
    pub fn newtype_variant_seed<'b>(self, de: &mut Deserializer<'b>) -> (v: Value)
        ensures
            v == self.value,
            *final(de) == (Deserializer { input: self.value, ..*old(de) }),
    {
        de.input = self.value;
        self.value
    }

    /// Decodes the payload of a tuple variant with `len` parts, as a tuple of its
    /// own. `de` is left at the payload.
    pub fn tuple_variant<'b>(self, de: &mut Deserializer<'b>, len: usize) -> (r: Result<
        SeqAccess,
        DecodeError,
    >)
        requires
            old(de).wf(),
            old(de).scope.valid(self.value),
        ensures
            *final(de) == (Deserializer { input: self.value, ..*old(de) }),
            final(de).wf(),
            r == tuple_plan(old(de).scope, self.value, len),
    {
        de.input = self.value;
        de.deserialize_tuple(len)
    }

    /// Decodes the payload of a struct variant with the given field names, as a
    /// struct of its own without a name. `de` is left at the payload.
    pub fn struct_variant<'a, 'b>(self, de: &mut Deserializer<'b>, fields: &'a Vec<String>) -> (r:
        Result<StructPlan<'a>, DecodeError>)
        requires
            old(de).wf(),
            old(de).scope.valid(self.value),
        ensures
            final(de).input == self.value,
            final(de).scope == old(de).scope,
            final(de).key_cache == old(de).key_cache,
            final(de).wf(),
            struct_plan(
                old(de).scope,
                self.value,
                session_of(old(de).ramson),
                ""@,
                fields,
                r,
                session_of(final(de).ramson),
            ),
    {
        de.input = self.value;
        de.deserialize_struct("", fields)
    }
}

/// Whether `r` is what decoding `input` as the struct `name` with the field names
/// `fields` works with.
///
/// A struct that bears the name of a magic type is decoded by that type's routine.
/// Any other struct needs an object, or the call fails with `ExpectedObject`; with
/// field names it is read field by field, without them property by property. Only
/// the walk without field names reads and writes the graph session `before`, which
/// is `after` when the call has returned.
pub open spec fn struct_plan<'a>(
    scope: &Heap,
    input: Value,
    before: Option<Session>,
    name: Seq<char>,
    fields: &'a Vec<String>,
    r: Result<StructPlan<'a>, DecodeError>,
    after: Option<Session>,
) -> bool {
    match registered(name) {
        Some(kind) => after == before && match r {
            Ok(StructPlan::Magic(value)) => decodes_magic(scope, kind, input, Ok(value)),
            Ok(_) => false,
            Err(e) => decodes_magic(scope, kind, input, Err(e)),
        },
        None => match input {
            Value::Object(o) => if fields@.len() == 0 {
                r matches Ok(StructPlan::Object(access)) && (access, after) == struct_object_plan(
                    scope,
                    o,
                    before,
                )
            } else {
                r matches Ok(StructPlan::Fields(access)) && access == (StructAccess {
                    obj: o,
                    keys: fields,
                    pos: 0,
                    next_value: None,
                }) && after == before
            },
            _ => r matches Err(e) && e == DecodeError::ExpectedObject && after == before,
        },
    }
}

impl<'b> Deserializer<'b> {
    /// Decodes a struct named `name` with the field names `fields`.
    pub fn deserialize_struct<'a>(&mut self, name: &str, fields: &'a Vec<String>) -> (r: Result<
        StructPlan<'a>,
        DecodeError,
    >)
        requires
            old(self).wf(),
        ensures
            final(self).wf(),
            final(self).input == old(self).input,
            final(self).scope == old(self).scope,
            final(self).key_cache == old(self).key_cache,
            struct_plan(
                old(self).scope,
                old(self).input,
                session_of(old(self).ramson),
                name@,
                fields,
                r,
                session_of(final(self).ramson),
            ),
            r matches Ok(StructPlan::Object(access)) ==> access.wf(old(self).scope)
                && access.settled(),
            r matches Ok(StructPlan::Fields(access)) ==> access.wf(old(self).scope),
    {
        match magic_type(name) {
            Some(kind) => match visit_magic(self.scope, kind, self.input) {
                Ok(value) => Ok(StructPlan::Magic(value)),
                Err(e) => Err(e),
            },
            None => match self.input {
                Value::Object(obj) => {
                    if fields.len() == 0 {
                        assert(self.scope.cell_wf(self.scope.objects@[obj as int]));
                        let index = match &mut self.ramson {
                            Some(session) => {
                                match session.identity[obj] {
                                    Some(existing) => {
                                        return Ok(
                                            StructPlan::Object(
                                                MapAccess::Reference(ObjectReference::new(existing)),
                                            ),
                                        );
                                    },
                                    None => {
                                        let index = session.next;
                                        session.next = if index == u32::MAX {
                                            0
                                        } else {
                                            index + 1
                                        };
                                        session.identity.set(obj, Some(index));
                                        Some(index)
                                    },
                                }
                            },
                            None => None,
                        };
                        Ok(
                            StructPlan::Object(
                                MapAccess::Object(
                                    MapObjectAccess::new(obj, self.scope, index.is_some(), index),
                                ),
                            ),
                        )
                    } else {
                        Ok(StructPlan::Fields(StructAccess::new(obj, fields)))
                    }
                },
                _ => Err(DecodeError::ExpectedObject),
            },
        }
    }

    /// Decodes an enum: the tag and the payload that the input holds.
    pub fn deserialize_enum(&self) -> (r: Result<EnumAccess, DecodeError>)
        requires
            self.wf(),
        ensures
            r == enum_plan(self.scope, self.input),
            r matches Ok(access) ==> self.scope.valid(access.tag) && self.scope.valid(
                access.payload,
            ),
    {
        match self.input {
            Value::String(_) => Ok(EnumAccess { tag: self.input, payload: Value::Undefined }),
            Value::Object(obj) => {
                assert(self.scope.cell_wf(self.scope.objects@[obj as int]));
                match self.scope.objects[obj].kind {
                    ObjectKind::BoxedString => {
                        return Ok(EnumAccess { tag: self.input, payload: Value::Undefined });
                    },
                    ObjectKind::Array => {
                        return Err(DecodeError::ExpectedEnum);
                    },
                    ObjectKind::ArrayBuffer => {
                        return Err(DecodeError::ExpectedEnum);
                    },
                    ObjectKind::ArrayBufferView => {
                        return Err(DecodeError::ExpectedEnum);
                    },
                    _ => {},
                }
                if self.scope.property_count(obj) != 1 {
                    return Err(DecodeError::LengthMismatch);
                }
                let property = self.scope.objects[obj].properties[0];
                Ok(EnumAccess { tag: Value::String(property.key), payload: property.value })
            },
            _ => Err(DecodeError::ExpectedEnum),
        }
    }

    /// Decodes a double, as its bit pattern. `ExpectedNumber` where the input has no
    /// numeric reading.
    pub fn deserialize_f64(&self) -> (r: Result<u64, DecodeError>)
        requires
            self.wf(),
        ensures
            match double_source(self.scope, self.input) {
                Some(bits) => r == Ok::<u64, DecodeError>(bits),
                None => r == Err::<u64, DecodeError>(DecodeError::ExpectedNumber),
            },
    {
        match self.input {
            Value::Number(bits) => Ok(bits),
            Value::BigInt(i) => Ok(bigint_to_f64(&self.scope.bigints[i])),
            _ => match self.scope.number_value(self.input) {
                Some(bits) => Ok(bits),
                None => match self.scope.to_big_int(self.input) {
                    Some(i) => Ok(bigint_to_f64(&self.scope.bigints[i])),
                    None => Err(DecodeError::ExpectedNumber),
                },
            },
        }
    }

    /// Decodes the input without a target shape, by its structural kind alone. A big
    /// integer and a symbol have no structural kind and are not taken.
    pub fn deserialize_any(&mut self) -> (r: Result<Described, DecodeError>)
        requires
            old(self).wf(),
            !old(self).input.kindless(),
        ensures
            final(self).wf(),
            final(self).input == old(self).input,
            final(self).scope == old(self).scope,
            final(self).key_cache == old(self).key_cache,
            describes(
                old(self).scope,
                old(self).input,
                session_of(old(self).ramson),
                r,
                session_of(final(self).ramson),
            ),
            r matches Ok(Described::Object(access)) ==> access.wf(old(self).scope) && access.settled(),
    {
        match ValueType::from_v8(self.scope, self.input) {
            ValueType::Null => Ok(Described::Unit),
            ValueType::Bool => Ok(Described::Bool(self.deserialize_bool())),
            ValueType::Number => {
                let bits = match self.input {
                    Value::Number(bits) => bits,
                    _ => 0,
                };
                if number_is_uint32(bits) {
                    match self.deserialize_u32() {
                        Ok(n) => Ok(Described::U32(n)),
                        Err(e) => Err(e),
                    }
                } else if number_is_int32(bits) {
                    match self.deserialize_i32() {
                        Ok(n) => Ok(Described::I32(n)),
                        Err(e) => Err(e),
                    }
                } else {
                    match self.deserialize_f64() {
                        Ok(n) => Ok(Described::F64(n)),
                        Err(e) => Err(e),
                    }
                }
            },
            ValueType::String => match self.deserialize_string() {
                Ok(text) => Ok(Described::String(text)),
                Err(e) => Err(e),
            },
            ValueType::Array => match self.deserialize_seq() {
                Ok(access) => Ok(Described::Array(access)),
                Err(e) => Err(e),
            },
            ValueType::Object => match self.deserialize_map() {
                Ok(access) => Ok(Described::Object(access)),
                Err(e) => Err(e),
            },
            ValueType::ArrayBuffer | ValueType::ArrayBufferView => match self.deserialize_bytes() {
                Ok(bytes) => Ok(Described::Bytes(bytes)),
                Err(e) => Err(e),
            },
        }
    }

    /// Decodes bytes: those behind a buffer or a view of one. Any other value fails
    /// with `ExpectedBuffer`.
    pub fn deserialize_bytes(&self) -> (r: Result<Vec<u8>, DecodeError>)
        requires
            self.wf(),
        ensures
            is_buffer(self.scope, self.input) ==> r is Ok && r->Ok_0@ == bytes_of(
                self.scope,
                self.input,
            ),
            !is_buffer(self.scope, self.input) ==> r == Err::<Vec<u8>, DecodeError>(
                DecodeError::ExpectedBuffer,
            ),
    {
        zero_copy_buf(self.scope, self.input)
    }
}

} // verus!
