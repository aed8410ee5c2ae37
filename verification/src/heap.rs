use crate::number::NAN_BITS;
use crate::number::ONE_BITS;
use crate::text::is_spelling_of;
use crate::text::spells;
use vstd::prelude::*;

verus! {

/// A handle on a value of the engine's heap. Scalars are held in the handle itself;
/// a big integer, a string and an object are named by their place in the [`Heap`].
#[derive(Clone, Copy, Debug, PartialEq, Eq, Structural)]
pub enum Value {
    /// The sentinel for "missing".
    Undefined,
    Null,
    Bool(bool),
    /// A number, as the bit pattern of its double.
    Number(u64),
    BigInt(usize),
    String(usize),
    Object(usize),
    /// A symbol: a value with no structural kind and no numeric reading.
    Symbol,
}

impl Value {
    /// Whether the value has no structural kind. A big integer has none, and a
    /// symbol has none.
    pub open spec fn kindless(self) -> bool {
        self is BigInt || self is Symbol
    }
}

/// The exact sub-kind of an object.
#[derive(Clone, Copy, Debug, PartialEq, Eq, Structural)]
pub enum ObjectKind {
    Plain,
    Array,
    /// The engine's native ordered map.
    NativeMap,
    /// A string boxed into an object.
    BoxedString,
    ArrayBuffer,
    ArrayBufferView,
}

/// What the engine's generic numeric coercion makes of an object.
#[derive(Clone, Copy, Debug, PartialEq, Eq, Structural)]
pub enum Coercion {
    /// The coercion to a number gives this double.
    Number(u64),
    /// The coercion to a number fails and the one to a big integer gives this one.
    BigInt(usize),
    /// Both coercions fail.
    Fails,
}

/// A big integer: its sign and its magnitude in 64-bit words, lowest first.
pub struct BigIntCell {
    pub negative: bool,
    pub words: Vec<u64>,
}

/// A string: its UTF-16 code units, and the double that the engine's numeric
/// coercion reads from it.
pub struct StringCell {
    pub units: Vec<u16>,
    pub number: u64,
}

/// An own enumerable property: the string that names it, and its value.
#[derive(Clone, Copy, Debug, PartialEq, Eq, Structural)]
pub struct Property {
    pub key: usize,
    pub value: Value,
}

/// An object of the heap.
pub struct ObjectCell {
    pub kind: ObjectKind,
    /// What indexing by position yields: the elements of an array, the alternating
    /// keys and values of a native map in insertion order, the index-named
    /// properties of any other object.
    pub elements: Vec<Value>,
    /// The own enumerable properties, names converted to strings, in the engine's
    /// enumeration order.
    pub properties: Vec<Property>,
    /// The bytes behind a buffer or a view of one.
    pub bytes: Vec<u8>,
    /// The string that a boxed string holds.
    pub text: usize,
    pub prototype: Value,
    pub coercion: Coercion,
}

/// The engine's heap as one decode call sees it.
pub struct Heap {
    pub strings: Vec<StringCell>,
    pub bigints: Vec<BigIntCell>,
    pub objects: Vec<ObjectCell>,
    /// The universal root prototype.
    pub root: Value,
}

impl Heap {
    /// Whether a handle names a cell that the heap holds.
    pub open spec fn valid(&self, v: Value) -> bool {
        match v {
            Value::BigInt(i) => i < self.bigints@.len(),
            Value::String(i) => i < self.strings@.len(),
            Value::Object(i) => i < self.objects@.len(),
            _ => true,
        }
    }

    /// Whether an object's cell names only cells that the heap holds, and is no
    /// longer than the engine's 32-bit lengths allow.
    pub open spec fn cell_wf(&self, cell: ObjectCell) -> bool {
        &&& cell.elements@.len() <= u32::MAX
        &&& cell.properties@.len() <= u32::MAX
        &&& forall|i: int| 0 <= i < cell.elements@.len() ==> self.valid(#[trigger] cell.elements@[i])
        &&& forall|i: int|
            0 <= i < cell.properties@.len() ==> {
                &&& (#[trigger] cell.properties@[i]).key < self.strings@.len()
                &&& self.valid(cell.properties@[i].value)
            }
        &&& cell.kind == ObjectKind::BoxedString ==> cell.text < self.strings@.len()
        &&& self.valid(cell.prototype)
        &&& cell.coercion matches Coercion::BigInt(i) ==> i < self.bigints@.len()
    }

    /// The heap's invariant: every handle stored in it names a cell that it holds.
    pub open spec fn wf(&self) -> bool {
        &&& self.valid(self.root)
        &&& forall|i: int| 0 <= i < self.objects@.len() ==> self.cell_wf(#[trigger] self.objects@[i])
    }

    /// The code units of the string at `i`.
    pub open spec fn units(&self, i: int) -> Seq<u16> {
        self.strings@[i].units@
    }

    /// The exact sub-kind of the object that `v` names.
    pub open spec fn kind_of(&self, v: Value) -> ObjectKind
        recommends
            v is Object,
    {
        self.objects@[v->Object_0 as int].kind
    }

    /// Whether `v` is a boxed string.
    pub open spec fn is_string_object(&self, v: Value) -> bool {
        v is Object && self.kind_of(v) == ObjectKind::BoxedString
    }

    /// The string index behind a string or a boxed string.
    pub open spec fn text_of(&self, v: Value) -> int {
        match v {
            Value::String(i) => i as int,
            Value::Object(o) => self.objects@[o as int].text as int,
            _ => 0,
        }
    }

    /// What indexing the object `o` at `index` yields: the element there, or the
    /// missing sentinel past the last one.
    pub open spec fn element(&self, o: int, index: int) -> Value {
        if 0 <= index < self.objects@[o].elements@.len() {
            self.objects@[o].elements@[index]
        } else {
            Value::Undefined
        }
    }

    /// What the engine's coercion to a number makes of `v`, if it succeeds.
    pub open spec fn number_of(&self, v: Value) -> Option<u64> {
        match v {
            Value::Undefined => Some(NAN_BITS),
            Value::Null => Some(0u64),
            Value::Bool(b) => Some(if b {
                ONE_BITS
            } else {
                0u64
            }),
            Value::Number(bits) => Some(bits),
            Value::BigInt(_) => None,
            Value::Symbol => None,
            Value::String(i) => Some(self.strings@[i as int].number),
            Value::Object(o) => match self.objects@[o as int].coercion {
                Coercion::Number(bits) => Some(bits),
                _ => None,
            },
        }
    }

    /// The big integer that `v` is, or that an object's coercion gives where its
    /// coercion to a number fails.
    pub open spec fn big_int_of(&self, v: Value) -> Option<usize> {
        match v {
            Value::BigInt(i) => Some(i),
            Value::Object(o) => match self.objects@[o as int].coercion {
                Coercion::BigInt(i) => Some(i),
                _ => None,
            },
            _ => None,
        }
    }

    /// A heap that holds the universal root prototype and nothing else.
    pub fn new() -> (heap: Heap)
        ensures
            heap.wf(),
            heap.strings@.len() == 0,
            heap.bigints@.len() == 0,
            heap.objects@.len() == 1,
            heap.root == Value::Object(0),
            heap.objects@[0].kind == ObjectKind::Plain,
            heap.objects@[0].prototype == Value::Null,
            heap.objects@[0].elements@.len() == 0,
            heap.objects@[0].properties@.len() == 0,
    {
        let root = ObjectCell {
            kind: ObjectKind::Plain,
            elements: Vec::new(),
            properties: Vec::new(),
            bytes: Vec::new(),
            text: 0,
            prototype: Value::Null,
            coercion: Coercion::Number(NAN_BITS),
        };
        let mut objects: Vec<ObjectCell> = Vec::new();
        objects.push(root);
        Heap { strings: Vec::new(), bigints: Vec::new(), objects, root: Value::Object(0) }
    }

    /// Whether a handle names a cell that the heap holds.
    pub fn is_valid(&self, v: Value) -> (r: bool)
        ensures
            r == self.valid(v),
    {
        match v {
            Value::BigInt(i) => i < self.bigints.len(),
            Value::String(i) => i < self.strings.len(),
            Value::Object(i) => i < self.objects.len(),
            _ => true,
        }
    }

    /// Adds a string with the given code units, for which the engine's numeric
    /// coercion gives the double `number`.
    pub fn alloc_string(&mut self, units: Vec<u16>, number: u64) -> (v: Value)
        requires
            old(self).wf(),
        ensures
            final(self).wf(),
            v == Value::String(old(self).strings@.len() as usize),
            final(self).strings@ == old(self).strings@.push(StringCell { units, number }),
            final(self).bigints == old(self).bigints,
            final(self).objects == old(self).objects,
            final(self).root == old(self).root,
    {
        let at = self.strings.len();
        self.strings.push(StringCell { units, number });
        proof {
            let before = *old(self);
            let after = *self;
            assert forall|i: int| 0 <= i < after.objects@.len() implies after.cell_wf(
                #[trigger] after.objects@[i],
            ) by {
                assert(before.cell_wf(before.objects@[i]));
            }
        }
        Value::String(at)
    }

    /// Adds a big integer with the given sign and magnitude words, lowest first.
    pub fn alloc_bigint(&mut self, negative: bool, words: Vec<u64>) -> (v: Value)
        requires
            old(self).wf(),
        ensures
            final(self).wf(),
            v == Value::BigInt(old(self).bigints@.len() as usize),
            final(self).bigints@ == old(self).bigints@.push(BigIntCell { negative, words }),
            final(self).strings == old(self).strings,
            final(self).objects == old(self).objects,
            final(self).root == old(self).root,
    {
        let at = self.bigints.len();
        self.bigints.push(BigIntCell { negative, words });
        proof {
            let before = *old(self);
            let after = *self;
            assert forall|i: int| 0 <= i < after.objects@.len() implies after.cell_wf(
                #[trigger] after.objects@[i],
            ) by {
                assert(before.cell_wf(before.objects@[i]));
            }
        }
        Value::BigInt(at)
    }

    /// Adds an empty object of the given kind. Its prototype is the universal root
    /// and its numeric coercion gives not-a-number. A boxed string needs the string
    /// it holds and is made by [`Heap::alloc_boxed_string`]: asked for here, it comes
    /// out as a plain object.
    pub fn alloc_object(&mut self, kind: ObjectKind) -> (v: Value)
        requires
            old(self).wf(),
        ensures
            final(self).wf(),
            v == Value::Object(old(self).objects@.len() as usize),
            final(self).objects@.len() == old(self).objects@.len() + 1,
            forall|i: int|
                0 <= i < old(self).objects@.len() ==> final(self).objects@[i] == old(
                    self,
                ).objects@[i],
            final(self).objects@.last().kind == (if kind == ObjectKind::BoxedString {
                ObjectKind::Plain
            } else {
                kind
            }),
            final(self).objects@.last().elements@.len() == 0,
            final(self).objects@.last().properties@.len() == 0,
            final(self).objects@.last().bytes@.len() == 0,
            final(self).objects@.last().prototype == old(self).root,
            final(self).objects@.last().coercion == Coercion::Number(NAN_BITS),
            final(self).strings == old(self).strings,
            final(self).bigints == old(self).bigints,
            final(self).root == old(self).root,
    {
        let at = self.objects.len();
        let cell = ObjectCell {
            kind: match kind {
                ObjectKind::BoxedString => ObjectKind::Plain,
                other => other,
            },
            elements: Vec::new(),
            properties: Vec::new(),
            bytes: Vec::new(),
            text: 0,
            prototype: self.root,
            coercion: Coercion::Number(NAN_BITS),
        };
        self.objects.push(cell);
        proof {
            let before = *old(self);
            let after = *self;
            assert forall|i: int| 0 <= i < after.objects@.len() implies after.cell_wf(
                #[trigger] after.objects@[i],
            ) by {
                if i < before.objects@.len() {
                    assert(before.cell_wf(before.objects@[i]));
                }
            }
        }
        Value::Object(at)
    }

    /// Adds a boxed string around the string `text`. `None`, and nothing changed,
    /// where `text` is not a string of this heap.
    pub fn alloc_boxed_string(&mut self, text: Value) -> (r: Option<Value>)
        requires
            old(self).wf(),
        ensures
            final(self).wf(),
            r is Some <==> text is String && old(self).valid(text),
            r is None ==> *final(self) == *old(self),
            r is Some ==> {
                &&& r == Some(Value::Object(old(self).objects@.len() as usize))
                &&& final(self).objects@.len() == old(self).objects@.len() + 1
                &&& forall|i: int|
                    0 <= i < old(self).objects@.len() ==> final(self).objects@[i] == old(
                        self,
                    ).objects@[i]
                &&& final(self).objects@.last().kind == ObjectKind::BoxedString
                &&& final(self).objects@.last().text == text->String_0
                &&& final(self).objects@.last().elements@.len() == 0
                &&& final(self).objects@.last().properties@.len() == 0
                &&& final(self).objects@.last().prototype == old(self).root
                &&& final(self).objects@.last().coercion == Coercion::Number(NAN_BITS)
                &&& final(self).strings == old(self).strings
                &&& final(self).bigints == old(self).bigints
                &&& final(self).root == old(self).root
            },
    {
        match text {
            Value::String(i) => {
                if i >= self.strings.len() {
                    return None;
                }
                let at = self.objects.len();
                let cell = ObjectCell {
                    kind: ObjectKind::BoxedString,
                    elements: Vec::new(),
                    properties: Vec::new(),
                    bytes: Vec::new(),
                    text: i,
                    prototype: self.root,
                    coercion: Coercion::Number(NAN_BITS),
                };
                self.objects.push(cell);
                        proof {
                    let before = *old(self);
                    let after = *self;
                    assert forall|k: int| 0 <= k < after.objects@.len() implies after.cell_wf(
                        #[trigger] after.objects@[k],
                    ) by {
                        if k < before.objects@.len() {
                            assert(before.cell_wf(before.objects@[k]));
                        }
                    }
                }
                Some(Value::Object(at))
            },
            _ => None,
        }
    }

    /// Appends `v` to what indexing the object `obj` yields. `false`, and nothing
    /// changed, where `obj` is not an object of this heap, `v` names no cell of it,
    /// or the object already has as many elements as a 32-bit length allows.
    pub fn push_element(&mut self, obj: Value, v: Value) -> (done: bool)
        requires
            old(self).wf(),
        ensures
            final(self).wf(),
            done <==> obj is Object && old(self).valid(obj) && old(self).valid(v) && old(
                self,
            ).objects@[obj->Object_0 as int].elements@.len() < u32::MAX,
            !done ==> *final(self) == *old(self),
            done ==> {
                let o = obj->Object_0 as int;
                &&& final(self).objects@.len() == old(self).objects@.len()
                &&& forall|i: int|
                    0 <= i < old(self).objects@.len() && i != o ==> final(self).objects@[i] == old(
                        self,
                    ).objects@[i]
                &&& final(self).objects@[o].elements@ == old(self).objects@[o].elements@.push(v)
                &&& final(self).objects@[o].properties == old(self).objects@[o].properties
                &&& final(self).objects@[o].kind == old(self).objects@[o].kind
                &&& final(self).objects@[o].bytes == old(self).objects@[o].bytes
                &&& final(self).objects@[o].text == old(self).objects@[o].text
                &&& final(self).objects@[o].prototype == old(self).objects@[o].prototype
                &&& final(self).objects@[o].coercion == old(self).objects@[o].coercion
                &&& final(self).strings == old(self).strings
                &&& final(self).bigints == old(self).bigints
                &&& final(self).root == old(self).root
            },
    {
        match obj {
            Value::Object(o) => {
                if o >= self.objects.len() || !self.is_valid(v) {
                    return false;
                }
                if self.objects[o].elements.len() >= 0xffff_ffff {
                    return false;
                }
                self.objects[o].elements.push(v);
                proof {
                    let before = *old(self);
                    let after = *self;
                    assert(before.cell_wf(before.objects@[o as int]));
                    assert forall|k: int| 0 <= k < after.objects@.len() implies after.cell_wf(
                        #[trigger] after.objects@[k],
                    ) by {
                        assert(before.cell_wf(before.objects@[k]));
                    }
                }
                true
            },
            _ => false,
        }
    }

    /// Appends an own enumerable property named by the string `key`, with value `v`,
    /// to the object `obj`. `false`, and nothing changed, where `obj` is not an object
    /// of this heap, `key` is not a string of it, `v` names no cell of it, or the
    /// object already has as many properties as a 32-bit length allows.
    pub fn push_property(&mut self, obj: Value, key: Value, v: Value) -> (done: bool)
        requires
            old(self).wf(),
        ensures
            final(self).wf(),
            done <==> obj is Object && key is String && old(self).valid(obj) && old(self).valid(key)
                && old(self).valid(v) && old(self).objects@[obj->Object_0 as int].properties@.len()
                < u32::MAX,
            !done ==> *final(self) == *old(self),
            done ==> {
                let o = obj->Object_0 as int;
                &&& final(self).objects@.len() == old(self).objects@.len()
                &&& forall|i: int|
                    0 <= i < old(self).objects@.len() && i != o ==> final(self).objects@[i] == old(
                        self,
                    ).objects@[i]
                &&& final(self).objects@[o].properties@ == old(self).objects@[o].properties@.push(
                    Property { key: key->String_0, value: v },
                )
                &&& final(self).objects@[o].elements == old(self).objects@[o].elements
                &&& final(self).objects@[o].kind == old(self).objects@[o].kind
                &&& final(self).objects@[o].bytes == old(self).objects@[o].bytes
                &&& final(self).objects@[o].text == old(self).objects@[o].text
                &&& final(self).objects@[o].prototype == old(self).objects@[o].prototype
                &&& final(self).objects@[o].coercion == old(self).objects@[o].coercion
                &&& final(self).strings == old(self).strings
                &&& final(self).bigints == old(self).bigints
                &&& final(self).root == old(self).root
            },
    {
        match (obj, key) {
            (Value::Object(o), Value::String(k)) => {
                if o >= self.objects.len() || k >= self.strings.len() || !self.is_valid(v) {
                    return false;
                }
                if self.objects[o].properties.len() >= 0xffff_ffff {
                    return false;
                }
                self.objects[o].properties.push(Property { key: k, value: v });
                proof {
                    let before = *old(self);
                    let after = *self;
                    assert(before.cell_wf(before.objects@[o as int]));
                    assert forall|j: int| 0 <= j < after.objects@.len() implies after.cell_wf(
                        #[trigger] after.objects@[j],
                    ) by {
                        assert(before.cell_wf(before.objects@[j]));
                    }
                }
                true
            },
            _ => false,
        }
    }

    /// Makes `proto` the prototype of the object `obj`. `false`, and nothing changed,
    /// where `obj` is not an object of this heap or `proto` is neither null nor an
    /// object of it.
    pub fn set_prototype(&mut self, obj: Value, proto: Value) -> (done: bool)
        requires
            old(self).wf(),
        ensures
            final(self).wf(),
            done <==> obj is Object && old(self).valid(obj) && old(self).valid(proto) && (proto
                is Null || proto is Object),
            !done ==> *final(self) == *old(self),
            done ==> {
                let o = obj->Object_0 as int;
                &&& final(self).objects@.len() == old(self).objects@.len()
                &&& forall|i: int|
                    0 <= i < old(self).objects@.len() && i != o ==> final(self).objects@[i] == old(
                        self,
                    ).objects@[i]
                &&& final(self).objects@[o].prototype == proto
                &&& final(self).objects@[o].elements == old(self).objects@[o].elements
                &&& final(self).objects@[o].properties == old(self).objects@[o].properties
                &&& final(self).objects@[o].kind == old(self).objects@[o].kind
                &&& final(self).objects@[o].bytes == old(self).objects@[o].bytes
                &&& final(self).objects@[o].text == old(self).objects@[o].text
                &&& final(self).objects@[o].coercion == old(self).objects@[o].coercion
                &&& final(self).strings == old(self).strings
                &&& final(self).bigints == old(self).bigints
                &&& final(self).root == old(self).root
            },
    {
        match obj {
            Value::Object(o) => {
                if o >= self.objects.len() || !self.is_valid(proto) {
                    return false;
                }
                match proto {
                    Value::Null => {},
                    Value::Object(_) => {},
                    _ => {
                        return false;
                    },
                }
                self.objects[o].prototype = proto;
                proof {
                    let before = *old(self);
                    let after = *self;
                    assert(before.cell_wf(before.objects@[o as int]));
                    assert forall|j: int| 0 <= j < after.objects@.len() implies after.cell_wf(
                        #[trigger] after.objects@[j],
                    ) by {
                        assert(before.cell_wf(before.objects@[j]));
                    }
                }
                true
            },
            _ => false,
        }
    }

    /// Records what the engine's numeric coercion makes of the object `obj`. `false`,
    /// and nothing changed, where `obj` is not an object of this heap or the coercion
    /// names a big integer that the heap does not hold.
    pub fn set_coercion(&mut self, obj: Value, coercion: Coercion) -> (done: bool)
        requires
            old(self).wf(),
        ensures
            final(self).wf(),
            done <==> obj is Object && old(self).valid(obj) && (coercion matches Coercion::BigInt(i)
                ==> i < old(self).bigints@.len()),
            !done ==> *final(self) == *old(self),
            done ==> {
                let o = obj->Object_0 as int;
                &&& final(self).objects@.len() == old(self).objects@.len()
                &&& forall|i: int|
                    0 <= i < old(self).objects@.len() && i != o ==> final(self).objects@[i] == old(
                        self,
                    ).objects@[i]
                &&& final(self).objects@[o].coercion == coercion
                &&& final(self).objects@[o].elements == old(self).objects@[o].elements
                &&& final(self).objects@[o].properties == old(self).objects@[o].properties
                &&& final(self).objects@[o].kind == old(self).objects@[o].kind
                &&& final(self).objects@[o].bytes == old(self).objects@[o].bytes
                &&& final(self).objects@[o].text == old(self).objects@[o].text
                &&& final(self).objects@[o].prototype == old(self).objects@[o].prototype
                &&& final(self).strings == old(self).strings
                &&& final(self).bigints == old(self).bigints
                &&& final(self).root == old(self).root
            },
    {
        match obj {
            Value::Object(o) => {
                if o >= self.objects.len() {
                    return false;
                }
                match coercion {
                    Coercion::BigInt(i) => {
                        if i >= self.bigints.len() {
                            return false;
                        }
                    },
                    _ => {},
                }
                self.objects[o].coercion = coercion;
                proof {
                    let before = *old(self);
                    let after = *self;
                    assert(before.cell_wf(before.objects@[o as int]));
                    assert forall|j: int| 0 <= j < after.objects@.len() implies after.cell_wf(
                        #[trigger] after.objects@[j],
                    ) by {
                        assert(before.cell_wf(before.objects@[j]));
                    }
                }
                true
            },
            _ => false,
        }
    }

    /// Puts `bytes` behind the buffer or buffer view `obj`. `false`, and nothing
    /// changed, where `obj` is not an object of this heap.
    pub fn set_bytes(&mut self, obj: Value, bytes: Vec<u8>) -> (done: bool)
        requires
            old(self).wf(),
        ensures
            final(self).wf(),
            done <==> obj is Object && old(self).valid(obj),
            !done ==> *final(self) == *old(self),
            done ==> {
                let o = obj->Object_0 as int;
                &&& final(self).objects@.len() == old(self).objects@.len()
                &&& forall|i: int|
                    0 <= i < old(self).objects@.len() && i != o ==> final(self).objects@[i] == old(
                        self,
                    ).objects@[i]
                &&& final(self).objects@[o].bytes == bytes
                &&& final(self).objects@[o].elements == old(self).objects@[o].elements
                &&& final(self).objects@[o].properties == old(self).objects@[o].properties
                &&& final(self).objects@[o].kind == old(self).objects@[o].kind
                &&& final(self).objects@[o].text == old(self).objects@[o].text
                &&& final(self).objects@[o].prototype == old(self).objects@[o].prototype
                &&& final(self).objects@[o].coercion == old(self).objects@[o].coercion
                &&& final(self).strings == old(self).strings
                &&& final(self).bigints == old(self).bigints
                &&& final(self).root == old(self).root
            },
    {
        match obj {
            Value::Object(o) => {
                if o >= self.objects.len() {
                    return false;
                }
                self.objects[o].bytes = bytes;
                proof {
                    let before = *old(self);
                    let after = *self;
                    assert(before.cell_wf(before.objects@[o as int]));
                    assert forall|j: int| 0 <= j < after.objects@.len() implies after.cell_wf(
                        #[trigger] after.objects@[j],
                    ) by {
                        assert(before.cell_wf(before.objects@[j]));
                    }
                }
                true
            },
            _ => false,
        }
    }
}

impl Heap {
    /// The value of the first own property of the object `o`, from position `from`
    /// on, whose name is exactly `name`; `None` where there is none.
    pub open spec fn own_from(&self, o: int, name: Seq<char>, from: int) -> Option<Value>
        decreases self.objects@[o].properties@.len() - from,
    {
        let properties = self.objects@[o].properties@;
        if from < 0 || from >= properties.len() {
            None
        } else if spells(self.units(properties[from].key as int), name) {
            Some(properties[from].value)
        } else {
            self.own_from(o, name, from + 1)
        }
    }

    /// The value of the own property `name` of the object `o`, if it has one.
    pub open spec fn own(&self, o: int, name: Seq<char>) -> Option<Value> {
        self.own_from(o, name, 0)
    }

    /// What reading the property `name` yields, from the object `o` on and no more
    /// than `hops` prototypes up: the value of the own property of the first object on
    /// the prototype chain that has one, and the missing sentinel where none has.
    pub open spec fn lookup_within(&self, o: int, name: Seq<char>, hops: nat) -> Value
        decreases hops,
    {
        match self.own(o, name) {
            Some(v) => v,
            None => if hops > 0 && self.objects@[o].prototype is Object {
                self.lookup_within(
                    self.objects@[o].prototype->Object_0 as int,
                    name,
                    (hops - 1) as nat,
                )
            } else {
                Value::Undefined
            },
        }
    }

    /// What reading the property `name` of the object `o` yields: its own property of
    /// that name, else that of the nearest object up its prototype chain that has
    /// one, else the missing sentinel. A chain has no more objects than the heap.
    pub open spec fn lookup(&self, o: int, name: Seq<char>) -> Value {
        self.lookup_within(o, name, self.objects@.len())
    }

    /// Reads the own property `name` of the object at `obj`, if it has one.
    pub fn get_own(&self, obj: usize, name: &String) -> (r: Option<Value>)
        requires
            self.wf(),
            obj < self.objects@.len(),
        ensures
            r == self.own(obj as int, name@),
            r matches Some(v) ==> self.valid(v),
    {
        let cell = &self.objects[obj];
        assert(self.cell_wf(self.objects@[obj as int]));
        let mut at: usize = 0;
        while at < cell.properties.len()
            invariant
                self.wf(),
                obj < self.objects@.len(),
                *cell == self.objects@[obj as int],
                at <= cell.properties@.len(),
                self.own(obj as int, name@) == self.own_from(obj as int, name@, at as int),
            decreases cell.properties@.len() - at,
        {
            let property = cell.properties[at];
            assert(self.cell_wf(self.objects@[obj as int]));
            if is_spelling_of(&self.strings[property.key].units, name) {
                return Some(property.value);
            }
            at = at + 1;
        }
        None
    }

    /// Reads the property `name` of the object at `obj`, as the engine does: from the
    /// object itself, else from the nearest object up its prototype chain that has
    /// such a property; the missing sentinel where none has.
    pub fn get(&self, obj: usize, name: &String) -> (v: Value)
        requires
            self.wf(),
            obj < self.objects@.len(),
        ensures
            v == self.lookup(obj as int, name@),
            self.valid(v),
    {
        let mut at: usize = obj;
        let mut hops: usize = self.objects.len();
        while hops > 0
            invariant
                self.wf(),
                at < self.objects@.len(),
                self.lookup(obj as int, name@) == self.lookup_within(
                    at as int,
                    name@,
                    hops as nat,
                ),
            decreases hops,
        {
            match self.get_own(at, name) {
                Some(v) => {
                    return v;
                },
                None => {},
            }
            assert(self.cell_wf(self.objects@[at as int]));
            match self.objects[at].prototype {
                Value::Object(up) => {
                    at = up;
                    hops = hops - 1;
                },
                _ => {
                    return Value::Undefined;
                },
            }
        }
        match self.get_own(at, name) {
            Some(v) => v,
            None => Value::Undefined,
        }
    }

    /// Indexes the object at `obj` by position: the element there, or the missing
    /// sentinel past the last one.
    pub fn get_index(&self, obj: usize, index: u32) -> (v: Value)
        requires
            self.wf(),
            obj < self.objects@.len(),
        ensures
            v == self.element(obj as int, index as int),
            self.valid(v),
    {
        let cell = &self.objects[obj];
        assert(self.cell_wf(self.objects@[obj as int]));
        if (index as usize) < cell.elements.len() {
            cell.elements[index as usize]
        } else {
            Value::Undefined
        }
    }

    /// The number of elements of the object at `obj`.
    pub fn length(&self, obj: usize) -> (n: u32)
        requires
            self.wf(),
            obj < self.objects@.len(),
        ensures
            n == self.objects@[obj as int].elements@.len(),
    {
        assert(self.cell_wf(self.objects@[obj as int]));
        self.objects[obj].elements.len() as u32
    }

    /// The number of own enumerable properties of the object at `obj`.
    pub fn property_count(&self, obj: usize) -> (n: u32)
        requires
            self.wf(),
            obj < self.objects@.len(),
        ensures
            n == self.objects@[obj as int].properties@.len(),
    {
        assert(self.cell_wf(self.objects@[obj as int]));
        self.objects[obj].properties.len() as u32
    }

    /// The engine's generic coercion of `v` to a number, where it succeeds.
    pub fn number_value(&self, v: Value) -> (r: Option<u64>)
        requires
            self.valid(v),
        ensures
            r == self.number_of(v),
    {
        match v {
            Value::Undefined => Some(NAN_BITS),
            Value::Null => Some(0),
            Value::Bool(b) => Some(if b {
                ONE_BITS
            } else {
                0
            }),
            Value::Number(bits) => Some(bits),
            Value::BigInt(_) => None,
            Value::Symbol => None,
            Value::String(i) => Some(self.strings[i].number),
            Value::Object(o) => match self.objects[o].coercion {
                Coercion::Number(bits) => Some(bits),
                _ => None,
            },
        }
    }

    /// The big integer that `v` is, or that an object's coercion gives where its
    /// coercion to a number fails.
    pub fn to_big_int(&self, v: Value) -> (r: Option<usize>)
        requires
            self.wf(),
            self.valid(v),
        ensures
            r == self.big_int_of(v),
            r matches Some(i) ==> i < self.bigints@.len(),
    {
        match v {
            Value::BigInt(i) => Some(i),
            Value::Object(o) => {
                assert(self.cell_wf(self.objects@[o as int]));
                match self.objects[o].coercion {
                    Coercion::BigInt(i) => Some(i),
                    _ => None,
                }
            },
            _ => None,
        }
    }

    /// Whether `v` is a boxed string.
    pub fn is_boxed_string(&self, v: Value) -> (r: bool)
        requires
            self.valid(v),
        ensures
            r == self.is_string_object(v),
    {
        match v {
            Value::Object(o) => match self.objects[o].kind {
                ObjectKind::BoxedString => true,
                _ => false,
            },
            _ => false,
        }
    }

    /// Whether `v` is an object of the given exact sub-kind.
    pub fn has_kind(&self, v: Value, kind: ObjectKind) -> (r: bool)
        requires
            self.valid(v),
        ensures
            r == (v is Object && self.kind_of(v) == kind),
    {
        match v {
            Value::Object(o) => self.objects[o].kind == kind,
            _ => false,
        }
    }

    /// Whether an object's cell names only cells that the heap holds, and is no
    /// longer than the engine's 32-bit lengths allow.
    pub fn cell_is_well_formed(&self, cell: &ObjectCell) -> (r: bool)
        ensures
            r == self.cell_wf(*cell),
    {
        if cell.elements.len() > 0xffff_ffff || cell.properties.len() > 0xffff_ffff {
            return false;
        }
        let mut at: usize = 0;
        while at < cell.elements.len()
            invariant
                at <= cell.elements@.len(),
                forall|i: int| 0 <= i < at ==> self.valid(#[trigger] cell.elements@[i]),
            decreases cell.elements@.len() - at,
        {
            if !self.is_valid(cell.elements[at]) {
                return false;
            }
            at = at + 1;
        }
        let mut at: usize = 0;
        while at < cell.properties.len()
            invariant
                at <= cell.properties@.len(),
                forall|i: int|
                    0 <= i < at ==> {
                        &&& (#[trigger] cell.properties@[i]).key < self.strings@.len()
                        &&& self.valid(cell.properties@[i].value)
                    },
            decreases cell.properties@.len() - at,
        {
            let property = cell.properties[at];
            if property.key >= self.strings.len() || !self.is_valid(property.value) {
                return false;
            }
            at = at + 1;
        }
        match cell.kind {
            ObjectKind::BoxedString => {
                if cell.text >= self.strings.len() {
                    return false;
                }
            },
            _ => {},
        }
        match cell.coercion {
            Coercion::BigInt(i) => {
                if i >= self.bigints.len() {
                    return false;
                }
            },
            _ => {},
        }
        self.is_valid(cell.prototype)
    }

    /// Whether the heap's invariant holds: every handle stored in it names a cell
    /// that it holds.
    pub fn is_well_formed(&self) -> (r: bool)
        ensures
            r == self.wf(),
    {
        if !self.is_valid(self.root) {
            return false;
        }
        let mut at: usize = 0;
        while at < self.objects.len()
            invariant
                at <= self.objects@.len(),
                forall|i: int| 0 <= i < at ==> self.cell_wf(#[trigger] self.objects@[i]),
            decreases self.objects@.len() - at,
        {
            if !self.cell_is_well_formed(&self.objects[at]) {
                return false;
            }
            at = at + 1;
        }
        true
    }
}

} // verus!
