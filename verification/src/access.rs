use crate::error::DecodeError;
use crate::heap::Heap;
use crate::heap::Property;
use crate::heap::Value;
use vstd::prelude::*;

verus! {

/// The structural tags of a captured graph. They stand where an ordinary key would
/// stand, and no ordinary key is one of them.
#[derive(Clone, Copy, Debug, PartialEq, Eq, Structural)]
pub enum Marker {
    /// Announces the identity index of the object being walked.
    Definition,
    /// Announces the prototype of the object being walked.
    Prototype,
    /// Announces the identity index of an object walked before, in place of walking
    /// it again.
    Reference,
    /// Reserved for a slot that is to be read as a plain value. No cursor of this
    /// library hands it out.
    Value,
}

/// What a map cursor hands out in key position.
#[derive(Clone, Copy, Debug, PartialEq, Eq, Structural)]
pub enum MapKey {
    /// A heap value to decode as the key.
    Value(Value),
    Marker(Marker),
}

/// What a map cursor hands out in value position.
#[derive(Clone, Copy, Debug, PartialEq, Eq, Structural)]
pub enum MapSlot {
    /// A heap value to decode as the value.
    Value(Value),
    /// An identity index, after a definition or a reference marker.
    Index(u32),
}

/// The first position from `from` on whose property has a value other than the
/// missing sentinel; the number of properties where there is none.
pub open spec fn next_defined(properties: Seq<Property>, from: int) -> int
    decreases properties.len() - from,
{
    if from < 0 || from >= properties.len() {
        properties.len() as int
    } else if properties[from].value != Value::Undefined {
        from
    } else {
        next_defined(properties, from + 1)
    }
}

/// What a graph session records as the prototype of the object `o`: its prototype,
/// or the missing sentinel where that is the universal root.
pub open spec fn recorded_prototype(scope: &Heap, o: int) -> Value {
    if scope.objects@[o].prototype == scope.root {
        Value::Undefined
    } else {
        scope.objects@[o].prototype
    }
}

/// The first position from `from` on whose field the object `o` holds with a value
/// other than the missing sentinel; the number of fields where there is none.
pub open spec fn next_present(scope: &Heap, o: int, keys: Seq<String>, from: int) -> int
    decreases keys.len() - from,
{
    if from < 0 || from >= keys.len() {
        keys.len() as int
    } else if scope.lookup(o, keys[from]@) != Value::Undefined {
        from
    } else {
        next_present(scope, o, keys, from + 1)
    }
}

/// A cursor over the positions `pos..end` of an object.
#[derive(Clone, Copy, Debug, PartialEq, Eq, Structural)]
pub struct SeqAccess {
    pub obj: usize,
    pub pos: usize,
    pub end: usize,
}

impl SeqAccess {
    /// A cursor over the positions `start..end` of the object at `obj`.
    pub fn new(obj: usize, start: usize, end: usize) -> (access: SeqAccess)
        ensures
            access == (SeqAccess { obj, pos: start, end }),
    {
        SeqAccess { obj, pos: start, end }
    }

    /// What the next step hands out, and the cursor after it.
    pub open spec fn after_next(self, scope: &Heap) -> (Option<Value>, SeqAccess) {
        if self.pos < self.end {
            (
                Some(scope.element(self.obj as int, self.pos as int)),
                SeqAccess { pos: (self.pos + 1) as usize, ..self },
            )
        } else {
            (None, self)
        }
    }

    /// The element at the cursor, and the cursor moves on; `None` at the end of the
    /// range.
    pub fn next_element(&mut self, scope: &Heap) -> (r: Option<Value>)
        requires
            scope.wf(),
            old(self).obj < scope.objects@.len(),
        ensures
            (r, *final(self)) == old(self).after_next(scope),
            r matches Some(v) ==> scope.valid(v),
    {
        if self.pos < self.end {
            assert(scope.cell_wf(scope.objects@[self.obj as int]));
            let v = if self.pos <= 0xffff_ffff {
                scope.get_index(self.obj, self.pos as u32)
            } else {
                Value::Undefined
            };
            self.pos = self.pos + 1;
            Some(v)
        } else {
            None
        }
    }

    /// The number of positions left.
    pub fn size_hint(&self) -> (r: Option<usize>)
        ensures
            r == Some(
                (if self.pos < self.end {
                    self.end - self.pos
                } else {
                    0
                }) as usize,
            ),
    {
        if self.pos < self.end {
            Some(self.end - self.pos)
        } else {
            Some(0)
        }
    }
}

/// A cursor over the own enumerable properties of an object, in enumeration order.
/// Properties whose value is the missing sentinel are passed over. Under a graph
/// session two more entries follow the last property: the definition marker with the
/// object's identity index, then the prototype marker with the object's prototype.
#[derive(Clone, Copy, Debug, PartialEq, Eq, Structural)]
pub struct MapObjectAccess {
    pub obj: usize,
    /// The next property to look at.
    pub pos: u32,
    /// The number of properties.
    pub len: u32,
    /// The value that belongs to the key handed out last.
    pub next_value: Option<Value>,
    /// Whether the prototype entry is still to come.
    pub ramson: bool,
    /// The identity index that the definition entry is still to announce.
    pub ramson_include_index: Option<u32>,
}

impl MapObjectAccess {
    /// A cursor at the first property of the object at `obj`.
    pub fn new(obj: usize, scope: &Heap, ramson: bool, ramson_include_index: Option<u32>) -> (access:
        MapObjectAccess)
        requires
            scope.wf(),
            obj < scope.objects@.len(),
        ensures
            access == (MapObjectAccess {
                obj,
                pos: 0,
                len: scope.objects@[obj as int].properties@.len() as u32,
                next_value: None,
                ramson,
                ramson_include_index,
            }),
            access.wf(scope),
    {
        MapObjectAccess {
            obj,
            pos: 0,
            len: scope.property_count(obj),
            next_value: None,
            ramson,
            ramson_include_index,
        }
    }

    /// Whether the cursor fits the heap it walks.
    pub open spec fn wf(self, scope: &Heap) -> bool {
        &&& self.obj < scope.objects@.len()
        &&& self.len == scope.objects@[self.obj as int].properties@.len()
        &&& self.pos <= self.len
        &&& self.next_value matches Some(v) ==> scope.valid(v)
    }

    /// The entries still to come, at most.
    pub open spec fn remaining(self) -> nat {
        ((self.len - self.pos) + (if self.ramson_include_index is Some {
            1int
        } else {
            0int
        }) + (if self.ramson {
            1int
        } else {
            0int
        })) as nat
    }

    /// What asking for the next key hands out, and the cursor after it.
    pub open spec fn after_key(self, scope: &Heap) -> (Option<MapKey>, MapObjectAccess) {
        let properties = scope.objects@[self.obj as int].properties@;
        let at = next_defined(properties, self.pos as int);
        if at < self.len {
            (
                Some(MapKey::Value(Value::String(properties[at].key))),
                MapObjectAccess {
                    pos: (at + 1) as u32,
                    next_value: Some(properties[at].value),
                    ..self
                },
            )
        } else if self.ramson_include_index is Some {
            (Some(MapKey::Marker(Marker::Definition)), MapObjectAccess { pos: self.len, ..self })
        } else if self.ramson {
            (Some(MapKey::Marker(Marker::Prototype)), MapObjectAccess { pos: self.len, ..self })
        } else {
            (None, MapObjectAccess { pos: self.len, ..self })
        }
    }

    /// What asking for the next value hands out, and the cursor after it.
    pub open spec fn after_value(self, scope: &Heap) -> (Result<MapSlot, DecodeError>, MapObjectAccess) {
        if let Some(v) = self.next_value {
            (Ok(MapSlot::Value(v)), MapObjectAccess { next_value: None, ..self })
        } else if let Some(index) = self.ramson_include_index {
            (Ok(MapSlot::Index(index)), MapObjectAccess { ramson_include_index: None, ..self })
        } else if self.ramson {
            (
                Ok(MapSlot::Value(recorded_prototype(scope, self.obj as int))),
                MapObjectAccess { ramson: false, ..self },
            )
        } else {
            (Err(DecodeError::ExpectedMap), self)
        }
    }

    /// The next key: the name of the next property whose value is not the missing
    /// sentinel; after the last one the markers of a graph session, if one is
    /// active; then `None`.
    pub fn next_key(&mut self, scope: &Heap) -> (r: Option<MapKey>)
        requires
            scope.wf(),
            old(self).wf(scope),
        ensures
            (r, *final(self)) == old(self).after_key(scope),
            final(self).wf(scope),
            r matches Some(MapKey::Value(v)) ==> scope.valid(v) && v is String,
    {
        let cell = &scope.objects[self.obj];
        assert(scope.cell_wf(scope.objects@[self.obj as int]));
        while self.pos < self.len
            invariant
                scope.wf(),
                self.wf(scope),
                *cell == scope.objects@[self.obj as int],
                self.obj == old(self).obj,
                self.len == old(self).len,
                self.next_value == old(self).next_value,
                self.ramson == old(self).ramson,
                self.ramson_include_index == old(self).ramson_include_index,
                old(self).pos <= self.pos,
                next_defined(cell.properties@, old(self).pos as int) == next_defined(
                    cell.properties@,
                    self.pos as int,
                ),
            decreases self.len - self.pos,
        {
            let property = cell.properties[self.pos as usize];
            assert(scope.cell_wf(scope.objects@[self.obj as int]));
            self.pos = self.pos + 1;
            match property.value {
                Value::Undefined => {},
                _ => {
                    self.next_value = Some(property.value);
                    return Some(MapKey::Value(Value::String(property.key)));
                },
            }
        }
        if self.ramson_include_index.is_some() {
            return Some(MapKey::Marker(Marker::Definition));
        }
        if self.ramson {
            return Some(MapKey::Marker(Marker::Prototype));
        }
        None
    }

    /// The value that belongs to the key handed out last: the property's value, the
    /// identity index after the definition marker, the prototype after the prototype
    /// marker. `ExpectedMap` where no key is open.
    pub fn next_value(&mut self, scope: &Heap) -> (r: Result<MapSlot, DecodeError>)
        requires
            scope.wf(),
            old(self).wf(scope),
        ensures
            (r, *final(self)) == old(self).after_value(scope),
            final(self).wf(scope),
            r matches Ok(MapSlot::Value(v)) ==> scope.valid(v),
    {
        if let Some(v) = self.next_value {
            self.next_value = None;
            Ok(MapSlot::Value(v))
        } else if let Some(index) = self.ramson_include_index {
            self.ramson_include_index = None;
            Ok(MapSlot::Index(index))
        } else if self.ramson {
            assert(scope.cell_wf(scope.objects@[self.obj as int]));
            let mut prototype = scope.objects[self.obj].prototype;
            if prototype == scope.root {
                prototype = Value::Undefined;
            }
            self.ramson = false;
            Ok(MapSlot::Value(prototype))
        } else {
            Err(DecodeError::ExpectedMap)
        }
    }

    /// The number of properties not yet looked at.
    pub fn size_hint(&self) -> (r: Option<usize>)
        ensures
            r == Some(
                (if self.pos < self.len {
                    self.len - self.pos
                } else {
                    0
                }) as usize,
            ),
    {
        if self.pos < self.len {
            Some((self.len - self.pos) as usize)
        } else {
            Some(0)
        }
    }
}

/// A cursor over the entries of a native map: its keys and values in turn, in
/// insertion order. Under a graph session one more entry follows: the definition
/// marker with the map's identity index.
#[derive(Clone, Copy, Debug, PartialEq, Eq, Structural)]
pub struct MapPairsAccess {
    pub obj: usize,
    pub pos: u32,
    pub len: u32,
    /// The identity index that the definition entry is still to announce.
    pub ramson_include_index: Option<u32>,
    /// Whether the definition marker has been handed out.
    pub announced: bool,
}

impl MapPairsAccess {
    /// A cursor at the first entry of the native map at `obj`.
    pub fn new(obj: usize, scope: &Heap, ramson_include_index: Option<u32>) -> (access:
        MapPairsAccess)
        requires
            scope.wf(),
            obj < scope.objects@.len(),
        ensures
            access == (MapPairsAccess {
                obj,
                pos: 0,
                len: scope.objects@[obj as int].elements@.len() as u32,
                ramson_include_index,
                announced: false,
            }),
            access.wf(scope),
    {
        MapPairsAccess { obj, pos: 0, len: scope.length(obj), ramson_include_index, announced: false }
    }

    /// Whether the cursor fits the heap it walks.
    pub open spec fn wf(self, scope: &Heap) -> bool {
        &&& self.obj < scope.objects@.len()
        &&& self.len == scope.objects@[self.obj as int].elements@.len()
        &&& self.pos <= self.len
    }

    /// The steps still to come, at most.
    pub open spec fn remaining(self) -> nat {
        ((self.len - self.pos) + (if self.ramson_include_index is Some {
            1int
        } else {
            0int
        })) as nat
    }

    /// What asking for the next key hands out, and the cursor after it.
    pub open spec fn after_key(self, scope: &Heap) -> (Option<MapKey>, MapPairsAccess) {
        if self.pos < self.len {
            (
                Some(MapKey::Value(scope.element(self.obj as int, self.pos as int))),
                MapPairsAccess { pos: (self.pos + 1) as u32, ..self },
            )
        } else if self.ramson_include_index is Some && !self.announced {
            (Some(MapKey::Marker(Marker::Definition)), MapPairsAccess { announced: true, ..self })
        } else {
            (None, self)
        }
    }

    /// What asking for the next value hands out, and the cursor after it.
    pub open spec fn after_value(self, scope: &Heap) -> (Result<MapSlot, DecodeError>, MapPairsAccess) {
        if self.pos < self.len {
            (
                Ok(MapSlot::Value(scope.element(self.obj as int, self.pos as int))),
                MapPairsAccess { pos: (self.pos + 1) as u32, ..self },
            )
        } else if self.announced && self.ramson_include_index is Some {
            (
                Ok(MapSlot::Index(self.ramson_include_index->0)),
                MapPairsAccess { ramson_include_index: None, ..self },
            )
        } else {
            (Err(DecodeError::ExpectedExternal), self)
        }
    }

    /// The next key: the entry at the cursor; after the last one the definition
    /// marker, once, if a graph session gave the map an identity index; then `None`.
    pub fn next_key(&mut self, scope: &Heap) -> (r: Option<MapKey>)
        requires
            scope.wf(),
            old(self).wf(scope),
        ensures
            (r, *final(self)) == old(self).after_key(scope),
            final(self).wf(scope),
            r matches Some(MapKey::Value(v)) ==> scope.valid(v),
    {
        if self.pos < self.len {
            let key = scope.get_index(self.obj, self.pos);
            self.pos = self.pos + 1;
            Some(MapKey::Value(key))
        } else if self.ramson_include_index.is_some() && !self.announced {
            self.announced = true;
            Some(MapKey::Marker(Marker::Definition))
        } else {
            None
        }
    }

    /// The next value: the entry at the cursor, or the identity index after the
    /// definition marker. `ExpectedExternal` past the last entry.
    pub fn next_value(&mut self, scope: &Heap) -> (r: Result<MapSlot, DecodeError>)
        requires
            scope.wf(),
            old(self).wf(scope),
        ensures
            (r, *final(self)) == old(self).after_value(scope),
            final(self).wf(scope),
            r matches Ok(MapSlot::Value(v)) ==> scope.valid(v),
    {
        if self.pos < self.len {
            let v = scope.get_index(self.obj, self.pos);
            self.pos = self.pos + 1;
            Ok(MapSlot::Value(v))
        } else if self.announced && self.ramson_include_index.is_some() {
            let index = self.ramson_include_index.unwrap();
            self.ramson_include_index = None;
            Ok(MapSlot::Index(index))
        } else {
            Err(DecodeError::ExpectedExternal)
        }
    }

    /// The number of key and value pairs not yet handed out.
    pub fn size_hint(&self) -> (r: Option<usize>)
        ensures
            r == Some(
                (if self.pos < self.len {
                    (self.len - self.pos) / 2
                } else {
                    0
                }) as usize,
            ),
    {
        if self.pos < self.len {
            Some(((self.len - self.pos) / 2) as usize)
        } else {
            Some(0)
        }
    }
}

/// A cursor over the fields of a struct, in the order the caller names them, read
/// from an object by name. Fields that the object does not hold, or holds with the
/// missing sentinel for a value, are passed over.
pub struct StructAccess<'a> {
    pub obj: usize,
    /// The field names, in the order they are read.
    pub keys: &'a Vec<String>,
    /// The next field to look at.
    pub pos: usize,
    /// The value that belongs to the field handed out last.
    pub next_value: Option<Value>,
}

impl<'a> StructAccess<'a> {
    /// A cursor at the first of the fields `keys` of the object at `obj`.
    pub fn new(obj: usize, keys: &'a Vec<String>) -> (access: StructAccess<'a>)
        ensures
            access == (StructAccess { obj, keys, pos: 0, next_value: None }),
    {
        StructAccess { obj, keys, pos: 0, next_value: None }
    }

    /// Whether the cursor fits the heap it walks.
    pub open spec fn wf(self, scope: &Heap) -> bool {
        &&& self.obj < scope.objects@.len()
        &&& self.pos <= self.keys@.len()
        &&& self.next_value matches Some(v) ==> scope.valid(v)
    }

    /// What asking for the next key hands out, as a position in the field names, and
    /// the cursor after it.
    pub open spec fn after_key(self, scope: &Heap) -> (Option<usize>, StructAccess<'a>) {
        let at = next_present(scope, self.obj as int, self.keys@, self.pos as int);
        if at < self.keys@.len() {
            (
                Some(at as usize),
                StructAccess {
                    pos: (at + 1) as usize,
                    next_value: Some(scope.lookup(self.obj as int, self.keys@[at]@)),
                    ..self
                },
            )
        } else {
            (None, StructAccess { pos: self.keys@.len() as usize, ..self })
        }
    }

    /// The next field that the object holds with a value other than the missing
    /// sentinel, as its position in the field names; `None` after the last.
    pub fn next_key(&mut self, scope: &Heap) -> (r: Option<usize>)
        requires
            scope.wf(),
            old(self).wf(scope),
        ensures
            (r, *final(self)) == old(self).after_key(scope),
            final(self).wf(scope),
            r matches Some(at) ==> at < old(self).keys@.len() && final(self).next_value is Some,
    {
        while self.pos < self.keys.len()
            invariant
                scope.wf(),
                self.wf(scope),
                self.obj == old(self).obj,
                self.keys == old(self).keys,
                self.next_value == old(self).next_value,
                old(self).pos <= self.pos,
                next_present(scope, self.obj as int, self.keys@, old(self).pos as int)
                    == next_present(scope, self.obj as int, self.keys@, self.pos as int),
            decreases self.keys@.len() - self.pos,
        {
            let at = self.pos;
            let val = scope.get(self.obj, &self.keys[at]);
            self.pos = self.pos + 1;
            match val {
                Value::Undefined => {},
                _ => {
                    self.next_value = Some(val);
                    return Some(at);
                },
            }
        }
        None
    }

    /// The value of the field handed out last.
    pub fn next_value(&mut self) -> (v: Value)
        requires
            old(self).next_value is Some,
        ensures
            Some(v) == old(self).next_value,
            *final(self) == (StructAccess { next_value: None, ..*old(self) }),
    {
        let v = self.next_value.unwrap();
        self.next_value = None;
        v
    }
}

/// The cursor that decoding a map works with: one of the three ways an object is
/// walked as a map.
#[derive(Clone, Copy, Debug, PartialEq, Eq, Structural)]
pub enum MapAccess {
    Reference(ObjectReference),
    Pairs(MapPairsAccess),
    Object(MapObjectAccess),
}

impl MapAccess {
    /// Whether the cursor fits the heap it walks.
    pub open spec fn wf(self, scope: &Heap) -> bool {
        match self {
            MapAccess::Reference(_) => true,
            MapAccess::Pairs(access) => access.wf(scope),
            MapAccess::Object(access) => access.wf(scope),
        }
    }

    /// Whether no key is open: every key handed out has had its value asked for.
    pub open spec fn settled(self) -> bool {
        match self {
            MapAccess::Object(access) => access.next_value is None,
            _ => true,
        }
    }

    /// The entries still to come, at most.
    pub open spec fn remaining(self) -> nat {
        match self {
            MapAccess::Reference(access) => access.remaining(),
            MapAccess::Pairs(access) => access.remaining(),
            MapAccess::Object(access) => access.remaining(),
        }
    }

    /// What asking for the next key hands out, and the cursor after it.
    pub open spec fn after_key(self, scope: &Heap) -> (Option<MapKey>, MapAccess) {
        match self {
            MapAccess::Reference(access) => (
                access.after_key().0,
                MapAccess::Reference(access.after_key().1),
            ),
            MapAccess::Pairs(access) => (
                access.after_key(scope).0,
                MapAccess::Pairs(access.after_key(scope).1),
            ),
            MapAccess::Object(access) => (
                access.after_key(scope).0,
                MapAccess::Object(access.after_key(scope).1),
            ),
        }
    }

    /// What asking for the next value hands out, and the cursor after it.
    pub open spec fn after_value(self, scope: &Heap) -> (Result<MapSlot, DecodeError>, MapAccess) {
        match self {
            MapAccess::Reference(access) => (
                access.after_value().0,
                MapAccess::Reference(access.after_value().1),
            ),
            MapAccess::Pairs(access) => (
                access.after_value(scope).0,
                MapAccess::Pairs(access.after_value(scope).1),
            ),
            MapAccess::Object(access) => (
                access.after_value(scope).0,
                MapAccess::Object(access.after_value(scope).1),
            ),
        }
    }

    /// The next key of the map, or `None` after its last entry.
    pub fn next_key(&mut self, scope: &Heap) -> (r: Option<MapKey>)
        requires
            scope.wf(),
            old(self).wf(scope),
        ensures
            (r, *final(self)) == old(self).after_key(scope),
            final(self).wf(scope),
            r matches Some(MapKey::Value(v)) ==> scope.valid(v),
    {
        match self {
            MapAccess::Reference(access) => access.next_key(),
            MapAccess::Pairs(access) => access.next_key(scope),
            MapAccess::Object(access) => access.next_key(scope),
        }
    }

    /// The value that belongs to the key handed out last.
    pub fn next_value(&mut self, scope: &Heap) -> (r: Result<MapSlot, DecodeError>)
        requires
            scope.wf(),
            old(self).wf(scope),
        ensures
            (r, *final(self)) == old(self).after_value(scope),
            final(self).wf(scope),
            r matches Ok(MapSlot::Value(v)) ==> scope.valid(v),
    {
        match self {
            MapAccess::Reference(access) => access.next_value(),
            MapAccess::Pairs(access) => access.next_value(scope),
            MapAccess::Object(access) => access.next_value(scope),
        }
    }
}

/// Each entry brings a map cursor nearer its end: where no key is open, and the
/// cursor hands out a key and then a value, fewer entries remain after them, and
/// again no key is open. A cursor with no entries remaining hands out no key.
pub proof fn lemma_entry_consumed(access: MapAccess, scope: &Heap)
    requires
        access.wf(scope),
        access.settled(),
    ensures
        access.remaining() == 0 ==> access.after_key(scope).0 is None,
        access.after_key(scope).0 is Some ==> {
            let keyed = access.after_key(scope).1;
            let valued = keyed.after_value(scope);
            valued.0 is Ok ==> valued.1.remaining() < access.remaining() && valued.1.settled()
        },
{
    match access {
        MapAccess::Object(inner) => {
            let properties = scope.objects@[inner.obj as int].properties@;
            lemma_next_defined_bounds(properties, inner.pos as int);
        },
        _ => {},
    }
}

/// The next property with a value lies at or after the starting position and within
/// the properties, or there is none.
pub proof fn lemma_next_defined_bounds(properties: Seq<Property>, from: int)
    requires
        0 <= from <= properties.len(),
    ensures
        from <= next_defined(properties, from) <= properties.len(),
        next_defined(properties, from) < properties.len() ==> properties[next_defined(
            properties,
            from,
        )].value != Value::Undefined,
        forall|i: int|
            from <= i < next_defined(properties, from) ==> (#[trigger] properties[i]).value
                == Value::Undefined,
    decreases properties.len() - from,
{
    if from < properties.len() && properties[from].value == Value::Undefined {
        lemma_next_defined_bounds(properties, from + 1);
    }
}

/// A map cursor that fits its heap still fits it after each step, and the values it
/// hands out name cells of that heap.
pub proof fn lemma_map_access_steps(access: MapAccess, scope: &Heap)
    requires
        scope.wf(),
        access.wf(scope),
    ensures
        access.after_key(scope).1.wf(scope),
        access.after_key(scope).0 matches Some(MapKey::Value(key)) ==> scope.valid(key),
        access.after_value(scope).1.wf(scope),
        access.after_value(scope).0 matches Ok(MapSlot::Value(v)) ==> scope.valid(v),
{
    match access {
        MapAccess::Object(inner) => {
            let cell = scope.objects@[inner.obj as int];
            assert(scope.cell_wf(cell));
            lemma_next_defined_bounds(cell.properties@, inner.pos as int);
            let at = next_defined(cell.properties@, inner.pos as int);
            if at < inner.len {
                assert(scope.valid(cell.properties@[at].value));
            }
        },
        MapAccess::Pairs(inner) => {
            let cell = scope.objects@[inner.obj as int];
            assert(scope.cell_wf(cell));
            if inner.pos < inner.len {
                assert(scope.valid(cell.elements@[inner.pos as int]));
            }
        },
        MapAccess::Reference(_) => {},
    }
}

/// The next field that an object holds lies at or after the starting position and
/// within the field names, or there is none; every field before it is missing.
pub proof fn lemma_next_present_bounds(scope: &Heap, o: int, keys: Seq<String>, from: int)
    requires
        0 <= from <= keys.len(),
    ensures
        from <= next_present(scope, o, keys, from) <= keys.len(),
        next_present(scope, o, keys, from) < keys.len() ==> scope.lookup(
            o,
            keys[next_present(scope, o, keys, from)]@,
        ) != Value::Undefined,
        forall|i: int|
            from <= i < next_present(scope, o, keys, from) ==> scope.lookup(o, (#[trigger] keys[i])@)
                == Value::Undefined,
    decreases keys.len() - from,
{
    if from < keys.len() && scope.lookup(o, keys[from]@) == Value::Undefined {
        lemma_next_present_bounds(scope, o, keys, from + 1);
    }
}

/// A cursor over an object's properties never hands out a missing value: the key it
/// hands out is the name of the first property, from the cursor on, whose value is
/// not the missing sentinel, and the value that follows is that property's. The
/// properties it passes over are exactly those with the missing sentinel for a
/// value.
pub proof fn lemma_object_entries_are_present(access: MapObjectAccess, scope: &Heap)
    requires
        access.wf(scope),
    ensures
        access.after_key(scope).0 matches Some(MapKey::Value(key)) ==> {
            let properties = scope.objects@[access.obj as int].properties@;
            let keyed = access.after_key(scope).1;
            let at = keyed.pos - 1;
            &&& access.pos <= at < access.len
            &&& key == Value::String(properties[at].key)
            &&& properties[at].value != Value::Undefined
            &&& keyed.after_value(scope).0 == Ok::<MapSlot, DecodeError>(
                MapSlot::Value(properties[at].value),
            )
            &&& forall|i: int|
                access.pos <= i < at ==> (#[trigger] properties[i]).value == Value::Undefined
        },
        !(access.after_key(scope).0 matches Some(MapKey::Value(_))) ==> {
            let properties = scope.objects@[access.obj as int].properties@;
            forall|i: int|
                access.pos <= i < access.len ==> (#[trigger] properties[i]).value
                    == Value::Undefined
        },
{
    let properties = scope.objects@[access.obj as int].properties@;
    lemma_next_defined_bounds(properties, access.pos as int);
}

/// A cursor over the fields of a struct never hands out a missing value: the field
/// it hands out is the first, from the cursor on, that the object holds with a value
/// other than the missing sentinel, and the value that follows is that field's. The
/// fields it passes over are exactly those that the object lacks or holds with the
/// missing sentinel.
pub proof fn lemma_struct_entries_are_present(access: StructAccess, scope: &Heap)
    requires
        access.wf(scope),
    ensures
        access.after_key(scope).0 matches Some(at) ==> {
            let keyed = access.after_key(scope).1;
            &&& access.pos <= at < access.keys@.len()
            &&& keyed.next_value == Some(scope.lookup(access.obj as int, access.keys@[at as int]@))
            &&& scope.lookup(access.obj as int, access.keys@[at as int]@) != Value::Undefined
            &&& forall|i: int|
                access.pos <= i < at ==> scope.lookup(access.obj as int, (#[trigger] access.keys@[i])@)
                    == Value::Undefined
        },
        access.after_key(scope).0 is None ==> forall|i: int|
            access.pos <= i < access.keys@.len() ==> scope.lookup(
                access.obj as int,
                (#[trigger] access.keys@[i])@,
            ) == Value::Undefined,
{
    lemma_next_present_bounds(scope, access.obj as int, access.keys@, access.pos as int);
    assert(access.keys.len() == access.keys@.len());
}

/// The stand-in for an object that a graph session has walked before: one entry, the
/// reference marker with the object's identity index.
#[derive(Clone, Copy, Debug, PartialEq, Eq, Structural)]
pub struct ObjectReference {
    pub index: u32,
    /// Whether the marker is still to be handed out.
    pub key_pending: bool,
    /// Whether the index is still to be handed out.
    pub value_pending: bool,
}

impl ObjectReference {
    /// The stand-in for the object with identity index `index`.
    pub fn new(index: u32) -> (reference: ObjectReference)
        ensures
            reference == (ObjectReference { index, key_pending: true, value_pending: true }),
    {
        ObjectReference { index, key_pending: true, value_pending: true }
    }

    /// The steps still to come, at most.
    pub open spec fn remaining(self) -> nat {
        if self.key_pending {
            1
        } else {
            0
        }
    }

    /// What asking for the next key hands out, and the cursor after it.
    pub open spec fn after_key(self) -> (Option<MapKey>, ObjectReference) {
        if self.key_pending {
            (Some(MapKey::Marker(Marker::Reference)), ObjectReference { key_pending: false, ..self })
        } else {
            (None, self)
        }
    }

    /// What asking for the next value hands out, and the cursor after it.
    pub open spec fn after_value(self) -> (Result<MapSlot, DecodeError>, ObjectReference) {
        if !self.key_pending && self.value_pending {
            (Ok(MapSlot::Index(self.index)), ObjectReference { value_pending: false, ..self })
        } else {
            (Err(DecodeError::ExpectedMap), self)
        }
    }

    /// The reference marker, once; then `None`.
    pub fn next_key(&mut self) -> (r: Option<MapKey>)
        ensures
            (r, *final(self)) == old(self).after_key(),
    {
        if self.key_pending {
            self.key_pending = false;
            Some(MapKey::Marker(Marker::Reference))
        } else {
            None
        }
    }

    /// The identity index, once, after the marker. `ExpectedMap` otherwise.
    pub fn next_value(&mut self) -> (r: Result<MapSlot, DecodeError>)
        ensures
            (r, *final(self)) == old(self).after_value(),
    {
        if !self.key_pending && self.value_pending {
            self.value_pending = false;
            Ok(MapSlot::Index(self.index))
        } else {
            Err(DecodeError::ExpectedMap)
        }
    }
}

} // verus!
