use apeiro_decode::access::MapAccess;
use apeiro_decode::access::MapKey;
use apeiro_decode::access::MapObjectAccess;
use apeiro_decode::access::MapPairsAccess;
use apeiro_decode::access::MapSlot;
use apeiro_decode::access::Marker;
use apeiro_decode::access::ObjectReference;
use apeiro_decode::access::SeqAccess;
use apeiro_decode::access::StructAccess;
use apeiro_decode::de::Described;
use apeiro_decode::de::Deserializer;
use apeiro_decode::de::EnumAccess;
use apeiro_decode::de::Ramson;
use apeiro_decode::de::StructPlan;
use apeiro_decode::de::VariantDeserializer;
use apeiro_decode::error::DecodeError;
use apeiro_decode::heap::Coercion;
use apeiro_decode::heap::Heap;
use apeiro_decode::heap::ObjectKind;
use apeiro_decode::heap::Value;
use apeiro_decode::magic::magic_type;
use apeiro_decode::magic::MagicType;
use apeiro_decode::magic::MagicValue;
use apeiro_decode::magic::StringOrBuffer;
use apeiro_decode::payload::ValueType;

fn text(heap: &mut Heap, s: &str) -> Value {
    heap.alloc_string(s.encode_utf16().collect(), f64::NAN.to_bits())
}

fn number(x: f64) -> Value {
    Value::Number(x.to_bits())
}

fn set(heap: &mut Heap, obj: Value, key: &str, v: Value) {
    let key = text(heap, key);
    assert!(heap.push_property(obj, key, v));
}

fn index(v: Value) -> usize {
    match v {
        Value::Object(o) => o,
        _ => panic!("not an object"),
    }
}

fn on<'a>(heap: &'a Heap, v: Value) -> Deserializer<'a> {
    assert!(heap.is_valid(v));
    Deserializer::new(heap, v, None, None)
}

fn string_of(heap: &Heap, v: Value) -> String {
    on(heap, v).deserialize_string().unwrap()
}

#[test]
fn classifier_names_each_kind() {
    let mut heap = Heap::new();
    let s = text(&mut heap, "s");
    let boxed = heap.alloc_boxed_string(s).unwrap();
    let plain = heap.alloc_object(ObjectKind::Plain);
    let array = heap.alloc_object(ObjectKind::Array);
    let map = heap.alloc_object(ObjectKind::NativeMap);
    let buffer = heap.alloc_object(ObjectKind::ArrayBuffer);
    let view = heap.alloc_object(ObjectKind::ArrayBufferView);
    assert_eq!(ValueType::from_v8(&heap, Value::Null), ValueType::Null);
    assert_eq!(ValueType::from_v8(&heap, Value::Undefined), ValueType::Null);
    assert_eq!(ValueType::from_v8(&heap, Value::Bool(false)), ValueType::Bool);
    assert_eq!(ValueType::from_v8(&heap, number(1.0)), ValueType::Number);
    assert_eq!(ValueType::from_v8(&heap, s), ValueType::String);
    assert_eq!(ValueType::from_v8(&heap, boxed), ValueType::Object);
    assert_eq!(ValueType::from_v8(&heap, plain), ValueType::Object);
    assert_eq!(ValueType::from_v8(&heap, map), ValueType::Object);
    assert_eq!(ValueType::from_v8(&heap, array), ValueType::Array);
    assert_eq!(ValueType::from_v8(&heap, buffer), ValueType::ArrayBuffer);
    assert_eq!(ValueType::from_v8(&heap, view), ValueType::ArrayBufferView);
}

#[test]
fn self_describing_step_routes_by_kind() {
    let mut heap = Heap::new();
    let s = text(&mut heap, "s");
    let array = heap.alloc_object(ObjectKind::Array);
    let plain = heap.alloc_object(ObjectKind::Plain);
    assert!(matches!(on(&heap, Value::Null).deserialize_any(), Ok(Described::Unit)));
    assert!(matches!(on(&heap, Value::Bool(true)).deserialize_any(), Ok(Described::Bool(true))));
    assert!(matches!(on(&heap, number(3.0)).deserialize_any(), Ok(Described::U32(3))));
    assert!(matches!(on(&heap, number(-3.0)).deserialize_any(), Ok(Described::I32(-3))));
    assert!(matches!(on(&heap, number(0.5)).deserialize_any(), Ok(Described::F64(_))));
    assert!(matches!(on(&heap, s).deserialize_any(), Ok(Described::String(_))));
    assert!(matches!(on(&heap, array).deserialize_any(), Ok(Described::Array(_))));
    assert!(matches!(on(&heap, plain).deserialize_any(), Ok(Described::Object(MapAccess::Object(_)))));
}

#[test]
fn bool_is_true_for_the_literal_true_only() {
    let mut heap = Heap::new();
    let yes = text(&mut heap, "true");
    let obj = heap.alloc_object(ObjectKind::Plain);
    assert!(on(&heap, Value::Bool(true)).deserialize_bool());
    assert!(!on(&heap, Value::Bool(false)).deserialize_bool());
    assert!(!on(&heap, number(1.0)).deserialize_bool());
    assert!(!on(&heap, yes).deserialize_bool());
    assert!(!on(&heap, obj).deserialize_bool());
    assert!(!on(&heap, Value::Null).deserialize_bool());
    assert!(!on(&heap, Value::Undefined).deserialize_bool());
}

#[test]
fn integers_from_numbers_are_cut_off_and_held_to_the_range() {
    let heap = Heap::new();
    assert_eq!(on(&heap, number(300.7)).deserialize_u8(), Ok(255));
    assert_eq!(on(&heap, number(-5.0)).deserialize_u8(), Ok(0));
    assert_eq!(on(&heap, number(200.9)).deserialize_u8(), Ok(200));
    assert_eq!(on(&heap, number(-129.0)).deserialize_i8(), Ok(-128));
    assert_eq!(on(&heap, number(127.9)).deserialize_i8(), Ok(127));
    assert_eq!(on(&heap, number(70000.0)).deserialize_u16(), Ok(65535));
    assert_eq!(on(&heap, number(-70000.0)).deserialize_i16(), Ok(-32768));
    assert_eq!(on(&heap, number(1e10)).deserialize_u32(), Ok(u32::MAX));
    assert_eq!(on(&heap, number(-1e10)).deserialize_i32(), Ok(i32::MIN));
    assert_eq!(on(&heap, number(1e10)).deserialize_i64(), Ok(10_000_000_000));
    assert_eq!(on(&heap, number(1e30)).deserialize_u64(), Ok(u64::MAX));
    assert_eq!(on(&heap, number(f64::NAN)).deserialize_i32(), Ok(0));
    assert_eq!(on(&heap, number(-0.9)).deserialize_i64(), Ok(0));
}

#[test]
fn integers_from_big_integers_are_cut_to_the_width() {
    let mut heap = Heap::new();
    let big = heap.alloc_bigint(false, vec![0x1_0000_0123, 7]);
    let minus_one = heap.alloc_bigint(true, vec![1]);
    let zero = heap.alloc_bigint(false, vec![]);
    assert_eq!(on(&heap, big).deserialize_u64(), Ok(0x1_0000_0123));
    assert_eq!(on(&heap, big).deserialize_u32(), Ok(0x123));
    assert_eq!(on(&heap, big).deserialize_u8(), Ok(0x23));
    assert_eq!(on(&heap, big).deserialize_i64(), Ok(0x1_0000_0123));
    assert_eq!(on(&heap, minus_one).deserialize_i64(), Ok(-1));
    assert_eq!(on(&heap, minus_one).deserialize_i8(), Ok(-1));
    assert_eq!(on(&heap, minus_one).deserialize_i32(), Ok(-1));
    assert_eq!(on(&heap, minus_one).deserialize_u64(), Ok(u64::MAX));
    assert_eq!(on(&heap, minus_one).deserialize_u16(), Ok(u16::MAX));
    assert_eq!(on(&heap, zero).deserialize_i16(), Ok(0));
    let wide = heap.alloc_bigint(false, vec![0x80]);
    assert_eq!(on(&heap, wide).deserialize_i8(), Ok(-128));
    assert_eq!(on(&heap, wide).deserialize_u8(), Ok(128));
}

#[test]
fn integers_fall_back_on_the_engine_coercions() {
    let mut heap = Heap::new();
    let forty_two = heap.alloc_string("42".encode_utf16().collect(), 42.0f64.to_bits());
    let obj = heap.alloc_object(ObjectKind::Plain);
    let wrapped = heap.alloc_object(ObjectKind::Plain);
    let failing = heap.alloc_object(ObjectKind::Plain);
    let Value::BigInt(big) = heap.alloc_bigint(true, vec![5]) else { panic!("a big integer") };
    assert!(heap.set_coercion(wrapped, Coercion::BigInt(big)));
    assert!(heap.set_coercion(failing, Coercion::Fails));
    assert_eq!(on(&heap, forty_two).deserialize_i32(), Ok(42));
    assert_eq!(on(&heap, Value::Bool(true)).deserialize_u8(), Ok(1));
    assert_eq!(on(&heap, Value::Null).deserialize_u8(), Ok(0));
    assert_eq!(on(&heap, Value::Undefined).deserialize_u8(), Ok(0));
    assert_eq!(on(&heap, obj).deserialize_i64(), Ok(0));
    assert_eq!(on(&heap, wrapped).deserialize_i64(), Ok(-5));
    assert_eq!(on(&heap, failing).deserialize_i64(), Err(DecodeError::ExpectedInteger));
    assert_eq!(on(&heap, failing).deserialize_u8(), Err(DecodeError::ExpectedInteger));
}

#[test]
fn doubles_take_numbers_big_integers_and_coercions() {
    let mut heap = Heap::new();
    let big = heap.alloc_bigint(true, vec![0, 1]);
    let failing = heap.alloc_object(ObjectKind::Plain);
    assert!(heap.set_coercion(failing, Coercion::Fails));
    let s = heap.alloc_string("1.5".encode_utf16().collect(), 1.5f64.to_bits());
    assert_eq!(on(&heap, number(2.25)).deserialize_f64(), Ok(2.25f64.to_bits()));
    assert_eq!(on(&heap, big).deserialize_f64(), Ok((-18446744073709551616.0f64).to_bits()));
    assert_eq!(on(&heap, s).deserialize_f64(), Ok(1.5f64.to_bits()));
    assert_eq!(on(&heap, Value::Bool(true)).deserialize_f64(), Ok(1.0f64.to_bits()));
    assert_eq!(on(&heap, failing).deserialize_f64(), Err(DecodeError::ExpectedNumber));
}

#[test]
fn strings_take_strings_and_boxed_strings_only() {
    let mut heap = Heap::new();
    let s = text(&mut heap, "héllo \u{1f600}");
    let boxed = heap.alloc_boxed_string(s).unwrap();
    let obj = heap.alloc_object(ObjectKind::Plain);
    assert_eq!(on(&heap, s).deserialize_string(), Ok("héllo \u{1f600}".to_string()));
    assert_eq!(on(&heap, boxed).deserialize_string(), Ok("héllo \u{1f600}".to_string()));
    assert_eq!(on(&heap, obj).deserialize_string(), Err(DecodeError::ExpectedString));
    assert_eq!(on(&heap, number(1.0)).deserialize_string(), Err(DecodeError::ExpectedString));
    assert_eq!(on(&heap, Value::Null).deserialize_string(), Err(DecodeError::ExpectedString));
}

#[test]
fn option_is_absent_for_null_and_missing() {
    let heap = Heap::new();
    assert_eq!(on(&heap, Value::Null).deserialize_option(), None);
    assert_eq!(on(&heap, Value::Undefined).deserialize_option(), None);
    assert_eq!(on(&heap, Value::Bool(false)).deserialize_option(), Some(Value::Bool(false)));
    assert_eq!(on(&heap, number(0.0)).deserialize_option(), Some(number(0.0)));
}

#[test]
fn seq_needs_an_array() {
    let mut heap = Heap::new();
    let arr = heap.alloc_object(ObjectKind::Array);
    let obj = heap.alloc_object(ObjectKind::Plain);
    assert!(heap.push_element(arr, number(1.0)));
    assert!(heap.push_element(arr, number(2.0)));
    assert!(heap.push_element(obj, number(1.0)));
    let mut access = on(&heap, arr).deserialize_seq().unwrap();
    assert_eq!(access, SeqAccess::new(index(arr), 0, 2));
    assert_eq!(access.size_hint(), Some(2));
    assert_eq!(access.next_element(&heap), Some(number(1.0)));
    assert_eq!(access.next_element(&heap), Some(number(2.0)));
    assert_eq!(access.next_element(&heap), None);
    assert_eq!(access.next_element(&heap), None);
    assert_eq!(access.size_hint(), Some(0));
    assert_eq!(on(&heap, obj).deserialize_seq(), Err(DecodeError::ExpectedArray));
    assert_eq!(on(&heap, Value::Null).deserialize_seq(), Err(DecodeError::ExpectedArray));
}

#[test]
fn seq_cursor_over_a_sub_range() {
    let mut heap = Heap::new();
    let arr = heap.alloc_object(ObjectKind::Array);
    for i in 0..5 {
        assert!(heap.push_element(arr, number(i as f64)));
    }
    let mut access = SeqAccess::new(index(arr), 1, 3);
    assert_eq!(access.next_element(&heap), Some(number(1.0)));
    assert_eq!(access.next_element(&heap), Some(number(2.0)));
    assert_eq!(access.next_element(&heap), None);
}

#[test]
fn tuple_of_an_array_needs_the_exact_length() {
    let mut heap = Heap::new();
    let arr = heap.alloc_object(ObjectKind::Array);
    assert!(heap.push_element(arr, number(1.0)));
    assert!(heap.push_element(arr, number(2.0)));
    assert_eq!(on(&heap, arr).deserialize_tuple(2), Ok(SeqAccess::new(index(arr), 0, 2)));
    assert_eq!(on(&heap, arr).deserialize_tuple(1), Err(DecodeError::LengthMismatch));
    assert_eq!(on(&heap, arr).deserialize_tuple(3), Err(DecodeError::LengthMismatch));
    assert_eq!(on(&heap, arr).deserialize_tuple(0), Err(DecodeError::LengthMismatch));
}

#[test]
fn tuple_of_a_value_that_is_no_object_fails() {
    let mut heap = Heap::new();
    let s = text(&mut heap, "s");
    let big = heap.alloc_bigint(false, vec![1]);
    for v in [Value::Null, Value::Undefined, Value::Bool(true), number(1.0), s, big] {
        assert_eq!(on(&heap, v).deserialize_tuple(0), Err(DecodeError::ExpectedArray));
        assert_eq!(on(&heap, v).deserialize_tuple(2), Err(DecodeError::ExpectedArray));
    }
    let payload = VariantDeserializer { value: number(1.0) };
    let mut de = on(&heap, Value::Null);
    assert_eq!(payload.tuple_variant(&mut de, 1), Err(DecodeError::ExpectedArray));
}

#[test]
fn tuple_of_any_arity_is_taken() {
    let mut heap = Heap::new();
    let arr = heap.alloc_object(ObjectKind::Array);
    let obj = heap.alloc_object(ObjectKind::Plain);
    assert!(heap.push_element(obj, number(7.0)));
    assert_eq!(on(&heap, arr).deserialize_tuple(usize::MAX), Err(DecodeError::LengthMismatch));
    let mut access = on(&heap, obj).deserialize_tuple(usize::MAX).unwrap();
    assert_eq!(access, SeqAccess::new(index(obj), 0, usize::MAX));
    assert_eq!(access.size_hint(), Some(usize::MAX));
    assert_eq!(access.next_element(&heap), Some(number(7.0)));
    assert_eq!(access.next_element(&heap), Some(Value::Undefined));
    let mut far = SeqAccess::new(index(obj), usize::MAX - 1, usize::MAX);
    assert_eq!(far.next_element(&heap), Some(Value::Undefined));
    assert_eq!(far.next_element(&heap), None);
}

#[test]
fn tuple_of_a_plain_object_is_read_by_position() {
    let mut heap = Heap::new();
    let obj = heap.alloc_object(ObjectKind::Plain);
    assert!(heap.push_element(obj, number(7.0)));
    set(&mut heap, obj, "extra", number(8.0));
    let mut access = on(&heap, obj).deserialize_tuple(3).unwrap();
    assert_eq!(access, SeqAccess::new(index(obj), 0, 3));
    assert_eq!(access.next_element(&heap), Some(number(7.0)));
    assert_eq!(access.next_element(&heap), Some(Value::Undefined));
    assert_eq!(access.next_element(&heap), Some(Value::Undefined));
    assert_eq!(access.next_element(&heap), None);
    let empty = heap.alloc_object(ObjectKind::Plain);
    assert!(on(&heap, empty).deserialize_tuple(0).is_ok());
}

#[test]
fn map_needs_an_object() {
    let mut heap = Heap::new();
    let s = text(&mut heap, "s");
    assert_eq!(on(&heap, s).deserialize_map(), Err(DecodeError::ExpectedObject));
    assert_eq!(on(&heap, Value::Null).deserialize_map(), Err(DecodeError::ExpectedObject));
    assert_eq!(on(&heap, number(1.0)).deserialize_map(), Err(DecodeError::ExpectedObject));
}

#[test]
fn map_cursor_walks_properties_then_markers() {
    let mut heap = Heap::new();
    let obj = heap.alloc_object(ObjectKind::Plain);
    set(&mut heap, obj, "a", Value::Undefined);
    set(&mut heap, obj, "b", number(2.0));
    let session = Ramson::new(&heap);
    let mut de = Deserializer::new(&heap, obj, None, Some(session));
    let mut access = de.deserialize_map().unwrap();
    let Some(MapKey::Value(key)) = access.next_key(&heap) else { panic!("a property first") };
    assert_eq!(string_of(&heap, key), "b");
    assert_eq!(access.next_value(&heap), Ok(MapSlot::Value(number(2.0))));
    assert_eq!(access.next_key(&heap), Some(MapKey::Marker(Marker::Definition)));
    assert_eq!(access.next_value(&heap), Ok(MapSlot::Index(0)));
    assert_eq!(access.next_key(&heap), Some(MapKey::Marker(Marker::Prototype)));
    assert_eq!(access.next_value(&heap), Ok(MapSlot::Value(Value::Undefined)));
    assert_eq!(access.next_key(&heap), None);
    assert_eq!(access.next_value(&heap), Err(DecodeError::ExpectedMap));
    // The second visit finds the identity index and refers to it.
    let mut again = de.deserialize_map().unwrap();
    assert_eq!(again, MapAccess::Reference(ObjectReference::new(0)));
    assert_eq!(again.next_key(&heap), Some(MapKey::Marker(Marker::Reference)));
    assert_eq!(again.next_value(&heap), Ok(MapSlot::Index(0)));
    assert_eq!(again.next_key(&heap), None);
    assert_eq!(de.ramson.unwrap().next, 1);
}

#[test]
fn map_cursor_without_a_session_ends_after_the_properties() {
    let mut heap = Heap::new();
    let obj = heap.alloc_object(ObjectKind::Plain);
    set(&mut heap, obj, "only", Value::Null);
    let mut access = MapObjectAccess::new(index(obj), &heap, false, None);
    assert_eq!(access.size_hint(), Some(1));
    assert!(matches!(access.next_key(&heap), Some(MapKey::Value(_))));
    assert_eq!(access.next_value(&heap), Ok(MapSlot::Value(Value::Null)));
    assert_eq!(access.next_key(&heap), None);
    assert_eq!(access.size_hint(), Some(0));
}

#[test]
fn map_cursor_asked_for_a_value_without_a_key_fails() {
    let mut heap = Heap::new();
    let obj = heap.alloc_object(ObjectKind::Plain);
    set(&mut heap, obj, "only", Value::Null);
    let mut access = MapObjectAccess::new(index(obj), &heap, false, None);
    assert_eq!(access.next_value(&heap), Err(DecodeError::ExpectedMap));
}

#[test]
fn pairs_cursor_walks_keys_and_values_in_turn() {
    let mut heap = Heap::new();
    let map = heap.alloc_object(ObjectKind::NativeMap);
    let k = heap.alloc_object(ObjectKind::Plain);
    assert!(heap.push_element(map, k));
    assert!(heap.push_element(map, number(1.0)));
    let mut access = MapPairsAccess::new(index(map), &heap, Some(4));
    assert_eq!(access.size_hint(), Some(1));
    assert_eq!(access.next_key(&heap), Some(MapKey::Value(k)));
    assert_eq!(access.next_value(&heap), Ok(MapSlot::Value(number(1.0))));
    assert_eq!(access.next_key(&heap), Some(MapKey::Marker(Marker::Definition)));
    assert_eq!(access.next_value(&heap), Ok(MapSlot::Index(4)));
    assert_eq!(access.next_key(&heap), None);
    assert_eq!(access.next_value(&heap), Err(DecodeError::ExpectedExternal));
    let mut bare = MapPairsAccess::new(index(map), &heap, None);
    assert!(bare.next_key(&heap).is_some());
    assert!(bare.next_value(&heap).is_ok());
    assert_eq!(bare.next_key(&heap), None);
}

#[test]
fn struct_with_field_names_reads_in_hint_order_and_skips_missing() {
    let mut heap = Heap::new();
    let obj = heap.alloc_object(ObjectKind::Plain);
    set(&mut heap, obj, "z", number(26.0));
    set(&mut heap, obj, "m", Value::Undefined);
    set(&mut heap, obj, "a", number(1.0));
    let fields = vec!["a".to_string(), "m".to_string(), "q".to_string(), "z".to_string()];
    let plan = on(&heap, obj).deserialize_struct("Point", &fields).unwrap();
    let StructPlan::Fields(mut access) = plan else { panic!("field names were given") };
    assert_eq!(access.next_key(&heap), Some(0));
    assert_eq!(access.next_value(), number(1.0));
    assert_eq!(access.next_key(&heap), Some(3));
    assert_eq!(access.next_value(), number(26.0));
    assert_eq!(access.next_key(&heap), None);
}

#[test]
fn struct_without_field_names_enumerates_the_object() {
    let mut heap = Heap::new();
    let obj = heap.alloc_object(ObjectKind::Plain);
    set(&mut heap, obj, "gone", Value::Undefined);
    set(&mut heap, obj, "kept", number(1.0));
    let fields: Vec<String> = Vec::new();
    let plan = on(&heap, obj).deserialize_struct("Anything", &fields).unwrap();
    let StructPlan::Object(mut access) = plan else { panic!("no field names were given") };
    let Some(MapKey::Value(key)) = access.next_key(&heap) else { panic!("a property first") };
    assert_eq!(string_of(&heap, key), "kept");
    assert_eq!(access.next_value(&heap), Ok(MapSlot::Value(number(1.0))));
    assert_eq!(access.next_key(&heap), None);
}

#[test]
fn struct_without_field_names_under_a_session_is_walked_as_a_map_is() {
    let mut heap = Heap::new();
    let obj = heap.alloc_object(ObjectKind::Plain);
    set(&mut heap, obj, "kept", number(1.0));
    let fields: Vec<String> = Vec::new();
    let session = Ramson::new(&heap);
    let mut de = Deserializer::new(&heap, obj, None, Some(session));
    let Ok(StructPlan::Object(mut access)) = de.deserialize_struct("Anything", &fields) else {
        panic!("no field names were given")
    };
    assert!(matches!(access.next_key(&heap), Some(MapKey::Value(_))));
    assert_eq!(access.next_value(&heap), Ok(MapSlot::Value(number(1.0))));
    assert_eq!(access.next_key(&heap), Some(MapKey::Marker(Marker::Definition)));
    assert_eq!(access.next_value(&heap), Ok(MapSlot::Index(0)));
    assert_eq!(access.next_key(&heap), Some(MapKey::Marker(Marker::Prototype)));
    assert_eq!(access.next_value(&heap), Ok(MapSlot::Value(Value::Undefined)));
    assert_eq!(access.next_key(&heap), None);
    // The second visit finds the identity index, whichever way the object is met.
    let Ok(StructPlan::Object(again)) = de.deserialize_struct("Anything", &fields) else {
        panic!("no field names were given")
    };
    assert_eq!(again, MapAccess::Reference(ObjectReference::new(0)));
    assert_eq!(de.deserialize_map(), Ok(MapAccess::Reference(ObjectReference::new(0))));
    assert_eq!(de.ramson.unwrap().next, 1);
}

#[test]
fn struct_with_field_names_leaves_the_session_alone() {
    let mut heap = Heap::new();
    let obj = heap.alloc_object(ObjectKind::Plain);
    set(&mut heap, obj, "a", number(1.0));
    let fields = vec!["a".to_string()];
    let session = Ramson::new(&heap);
    let mut de = Deserializer::new(&heap, obj, None, Some(session));
    assert!(matches!(de.deserialize_struct("Point", &fields), Ok(StructPlan::Fields(_))));
    let session = de.ramson.unwrap();
    assert_eq!(session.next, 0);
    assert!(session.identity.iter().all(|slot| slot.is_none()));
}

#[test]
fn struct_field_is_read_up_the_prototype_chain() {
    let mut heap = Heap::new();
    let base = heap.alloc_object(ObjectKind::Plain);
    set(&mut heap, base, "inherited", number(1.0));
    set(&mut heap, base, "shadowed", number(2.0));
    set(&mut heap, base, "hidden", number(3.0));
    let middle = heap.alloc_object(ObjectKind::Plain);
    assert!(heap.set_prototype(middle, base));
    let obj = heap.alloc_object(ObjectKind::Plain);
    assert!(heap.set_prototype(obj, middle));
    set(&mut heap, obj, "shadowed", number(20.0));
    set(&mut heap, obj, "hidden", Value::Undefined);
    set(&mut heap, obj, "own", number(40.0));
    let o = index(obj);
    assert_eq!(heap.get(o, &"inherited".to_string()), number(1.0));
    assert_eq!(heap.get(o, &"shadowed".to_string()), number(20.0));
    // An own property hides the inherited one even where its value is missing.
    assert_eq!(heap.get(o, &"hidden".to_string()), Value::Undefined);
    assert_eq!(heap.get(o, &"own".to_string()), number(40.0));
    assert_eq!(heap.get(o, &"nowhere".to_string()), Value::Undefined);
    assert_eq!(heap.get_own(o, &"inherited".to_string()), None);
    assert_eq!(heap.get_own(o, &"hidden".to_string()), Some(Value::Undefined));
    assert_eq!(heap.get(index(base), &"own".to_string()), Value::Undefined);
    let fields = vec!["inherited".to_string(), "hidden".to_string(), "own".to_string()];
    let mut access = StructAccess::new(o, &fields);
    assert_eq!(access.next_key(&heap), Some(0));
    assert_eq!(access.next_value(), number(1.0));
    assert_eq!(access.next_key(&heap), Some(2));
    assert_eq!(access.next_value(), number(40.0));
    assert_eq!(access.next_key(&heap), None);
}

#[test]
fn lookup_up_a_prototype_cycle_ends() {
    let mut heap = Heap::new();
    let a = heap.alloc_object(ObjectKind::Plain);
    let b = heap.alloc_object(ObjectKind::Plain);
    assert!(heap.set_prototype(a, b));
    assert!(heap.set_prototype(b, a));
    set(&mut heap, b, "there", number(1.0));
    assert_eq!(heap.get(index(a), &"there".to_string()), number(1.0));
    assert_eq!(heap.get(index(a), &"nowhere".to_string()), Value::Undefined);
}

#[test]
fn struct_needs_an_object() {
    let mut heap = Heap::new();
    let s = text(&mut heap, "s");
    let fields = vec!["a".to_string()];
    assert!(matches!(
        on(&heap, s).deserialize_struct("Point", &fields),
        Err(DecodeError::ExpectedObject)
    ));
    assert!(matches!(
        on(&heap, Value::Null).deserialize_struct("Point", &fields),
        Err(DecodeError::ExpectedObject)
    ));
}

#[test]
fn struct_field_lookup_takes_the_exact_name() {
    let mut heap = Heap::new();
    let obj = heap.alloc_object(ObjectKind::Plain);
    let lone = heap.alloc_string(vec![0xd800], f64::NAN.to_bits());
    assert!(heap.push_property(obj, lone, number(1.0)));
    set(&mut heap, obj, "name", number(2.0));
    set(&mut heap, obj, "name", number(3.0));
    assert_eq!(heap.get(index(obj), &"name".to_string()), number(2.0));
    assert_eq!(heap.get(index(obj), &"Name".to_string()), Value::Undefined);
    assert_eq!(heap.get(index(obj), &"nam".to_string()), Value::Undefined);
    // A lone surrogate would spell the replacement character, yet is no such name.
    assert_eq!(heap.get(index(obj), &"\u{fffd}".to_string()), Value::Undefined);
    let fields = vec!["name".to_string()];
    let mut access = StructAccess::new(index(obj), &fields);
    assert_eq!(access.next_key(&heap), Some(0));
}

#[test]
fn enum_of_a_bare_string_is_a_unit_variant() {
    let mut heap = Heap::new();
    let idle = text(&mut heap, "Idle");
    let access = on(&heap, idle).deserialize_enum().unwrap();
    assert_eq!(access, EnumAccess { tag: idle, payload: Value::Undefined });
    let (tag, variant) = access.variant_seed();
    assert_eq!(string_of(&heap, tag), "Idle");
    assert_eq!(variant.value, Value::Undefined);
    let boxed = heap.alloc_boxed_string(idle).unwrap();
    let access = on(&heap, boxed).deserialize_enum().unwrap();
    assert_eq!(string_of(&heap, access.tag), "Idle");
    assert_eq!(access.payload, Value::Undefined);
}

#[test]
fn enum_of_a_single_key_object_is_a_tagged_variant() {
    let mut heap = Heap::new();
    let payload = heap.alloc_object(ObjectKind::Plain);
    set(&mut heap, payload, "since", number(10.0));
    let busy = heap.alloc_object(ObjectKind::Plain);
    set(&mut heap, busy, "Busy", payload);
    let access = on(&heap, busy).deserialize_enum().unwrap();
    let (tag, variant) = access.variant_seed();
    assert_eq!(string_of(&heap, tag), "Busy");
    assert_eq!(variant.value, payload);
    let fields = vec!["since".to_string()];
    let mut de = on(&heap, busy);
    let Ok(StructPlan::Fields(mut cursor)) = variant.struct_variant(&mut de, &fields) else {
        panic!("the payload is a struct")
    };
    assert_eq!(cursor.next_key(&heap), Some(0));
    assert_eq!(cursor.next_value(), number(10.0));
    assert_eq!(cursor.next_key(&heap), None);
    assert_eq!(de.input, payload);
    assert_eq!(de.deserialize_u32(), Ok(0));
}

#[test]
fn enum_payload_as_newtype_and_tuple() {
    let mut heap = Heap::new();
    let pair = heap.alloc_object(ObjectKind::Array);
    assert!(heap.push_element(pair, number(1.0)));
    assert!(heap.push_element(pair, number(2.0)));
    let moved = heap.alloc_object(ObjectKind::Plain);
    set(&mut heap, moved, "Move", pair);
    let (_, variant) = on(&heap, moved).deserialize_enum().unwrap().variant_seed();
    let mut de = on(&heap, moved);
    assert_eq!(variant.tuple_variant(&mut de, 2), Ok(SeqAccess::new(index(pair), 0, 2)));
    assert_eq!(variant.tuple_variant(&mut de, 3), Err(DecodeError::LengthMismatch));
    assert_eq!(variant.newtype_variant_seed(&mut de), pair);
    assert_eq!(de.input, pair);
}

#[test]
fn enum_of_an_object_with_no_key_or_two_keys_fails() {
    let mut heap = Heap::new();
    let none = heap.alloc_object(ObjectKind::Plain);
    let two = heap.alloc_object(ObjectKind::Plain);
    set(&mut heap, two, "A", Value::Null);
    set(&mut heap, two, "B", Value::Null);
    assert_eq!(on(&heap, none).deserialize_enum(), Err(DecodeError::LengthMismatch));
    assert_eq!(on(&heap, two).deserialize_enum(), Err(DecodeError::LengthMismatch));
    assert_eq!(on(&heap, number(1.0)).deserialize_enum(), Err(DecodeError::ExpectedEnum));
    assert_eq!(on(&heap, Value::Null).deserialize_enum(), Err(DecodeError::ExpectedEnum));
    assert_eq!(on(&heap, Value::Bool(true)).deserialize_enum(), Err(DecodeError::ExpectedEnum));
}

#[test]
fn enum_of_an_array_or_a_buffer_fails_whatever_it_holds() {
    let mut heap = Heap::new();
    let empty = heap.alloc_object(ObjectKind::Array);
    let one = heap.alloc_object(ObjectKind::Array);
    assert!(heap.push_element(one, number(5.0)));
    set(&mut heap, one, "0", number(5.0));
    let two = heap.alloc_object(ObjectKind::Array);
    assert!(heap.push_element(two, number(1.0)));
    assert!(heap.push_element(two, number(2.0)));
    set(&mut heap, two, "0", number(1.0));
    set(&mut heap, two, "1", number(2.0));
    let buffer = heap.alloc_object(ObjectKind::ArrayBuffer);
    set(&mut heap, buffer, "only", Value::Null);
    let view = heap.alloc_object(ObjectKind::ArrayBufferView);
    for v in [empty, one, two, buffer, view] {
        assert_eq!(on(&heap, v).deserialize_enum(), Err(DecodeError::ExpectedEnum));
    }
}

#[test]
fn enum_of_a_native_map_goes_by_its_own_properties() {
    let mut heap = Heap::new();
    let map = heap.alloc_object(ObjectKind::NativeMap);
    let k = text(&mut heap, "k");
    assert!(heap.push_element(map, k));
    assert!(heap.push_element(map, number(1.0)));
    assert_eq!(on(&heap, map).deserialize_enum(), Err(DecodeError::LengthMismatch));
    set(&mut heap, map, "Tag", number(2.0));
    let access = on(&heap, map).deserialize_enum().unwrap();
    assert_eq!(string_of(&heap, access.tag), "Tag");
    assert_eq!(access.payload, number(2.0));
}

#[test]
fn symbol_has_no_reading_of_any_shape() {
    let heap = Heap::new();
    let symbol = Value::Symbol;
    assert!(heap.is_valid(symbol));
    assert!(!on(&heap, symbol).deserialize_bool());
    assert_eq!(on(&heap, symbol).deserialize_i32(), Err(DecodeError::ExpectedInteger));
    assert_eq!(on(&heap, symbol).deserialize_u64(), Err(DecodeError::ExpectedInteger));
    assert_eq!(on(&heap, symbol).deserialize_f64(), Err(DecodeError::ExpectedNumber));
    assert_eq!(on(&heap, symbol).deserialize_string(), Err(DecodeError::ExpectedString));
    assert_eq!(on(&heap, symbol).deserialize_option(), Some(symbol));
    assert_eq!(on(&heap, symbol).deserialize_seq(), Err(DecodeError::ExpectedArray));
    assert_eq!(on(&heap, symbol).deserialize_tuple(1), Err(DecodeError::ExpectedArray));
    assert_eq!(on(&heap, symbol).deserialize_map(), Err(DecodeError::ExpectedObject));
    assert_eq!(on(&heap, symbol).deserialize_enum(), Err(DecodeError::ExpectedEnum));
    assert_eq!(on(&heap, symbol).deserialize_bytes(), Err(DecodeError::ExpectedBuffer));
    assert_eq!(heap.number_value(symbol), None);
    assert_eq!(heap.to_big_int(symbol), None);
}

#[test]
fn registry_knows_the_reserved_names_only() {
    assert_eq!(magic_type("$__v8_magic_ZeroCopyBuf"), Some(MagicType::ZeroCopyBuf));
    assert_eq!(magic_type("$__v8_magic_DetachedBuffer"), Some(MagicType::DetachedBuffer));
    assert_eq!(magic_type("$__v8_magic_ByteString"), Some(MagicType::ByteString));
    assert_eq!(magic_type("$__v8_magic_U16String"), Some(MagicType::U16String));
    assert_eq!(magic_type("$__v8_magic_StringOrBuffer"), Some(MagicType::StringOrBuffer));
    assert_eq!(magic_type("$__v8_magic_Value"), Some(MagicType::Value));
    assert_eq!(magic_type("ZeroCopyBuf"), None);
    assert_eq!(magic_type(""), None);
    assert_eq!(magic_type("$__v8_magic_"), None);
}

#[test]
fn magic_structs_are_decoded_from_bytes_and_code_units() {
    let mut heap = Heap::new();
    let buffer = heap.alloc_object(ObjectKind::ArrayBuffer);
    let view = heap.alloc_object(ObjectKind::ArrayBufferView);
    assert!(heap.set_bytes(buffer, vec![1, 2]));
    assert!(heap.set_bytes(view, vec![3]));
    let latin = heap.alloc_string(vec![0x68, 0xe9], f64::NAN.to_bits());
    let wide = heap.alloc_string(vec![0x68, 0x20ac], f64::NAN.to_bits());
    let fields: Vec<String> = Vec::new();
    // Property walking would fail on the string and give a map for the buffer.
    assert!(matches!(
        on(&heap, buffer).deserialize_struct("$__v8_magic_ZeroCopyBuf", &fields),
        Ok(StructPlan::Magic(MagicValue::ZeroCopyBuf(bytes))) if bytes == vec![1, 2]
    ));
    assert!(matches!(
        on(&heap, view).deserialize_struct("$__v8_magic_ZeroCopyBuf", &fields),
        Ok(StructPlan::Magic(MagicValue::ZeroCopyBuf(bytes))) if bytes == vec![3]
    ));
    assert!(matches!(
        on(&heap, latin).deserialize_struct("$__v8_magic_ZeroCopyBuf", &fields),
        Err(DecodeError::ExpectedBuffer)
    ));
    assert!(matches!(
        on(&heap, buffer).deserialize_struct("$__v8_magic_DetachedBuffer", &fields),
        Ok(StructPlan::Magic(MagicValue::DetachedBuffer(bytes))) if bytes == vec![1, 2]
    ));
    assert!(matches!(
        on(&heap, view).deserialize_struct("$__v8_magic_DetachedBuffer", &fields),
        Err(DecodeError::ExpectedBuffer)
    ));
    assert!(matches!(
        on(&heap, latin).deserialize_struct("$__v8_magic_ByteString", &fields),
        Ok(StructPlan::Magic(MagicValue::ByteString(bytes))) if bytes == vec![0x68, 0xe9]
    ));
    assert!(matches!(
        on(&heap, wide).deserialize_struct("$__v8_magic_ByteString", &fields),
        Err(DecodeError::ExpectedString)
    ));
    assert!(matches!(
        on(&heap, buffer).deserialize_struct("$__v8_magic_ByteString", &fields),
        Err(DecodeError::ExpectedString)
    ));
    assert!(matches!(
        on(&heap, wide).deserialize_struct("$__v8_magic_U16String", &fields),
        Ok(StructPlan::Magic(MagicValue::U16String(units))) if units == vec![0x68, 0x20ac]
    ));
    assert!(matches!(
        on(&heap, Value::Null).deserialize_struct("$__v8_magic_U16String", &fields),
        Err(DecodeError::ExpectedString)
    ));
    assert!(matches!(
        on(&heap, wide).deserialize_struct("$__v8_magic_StringOrBuffer", &fields),
        Ok(StructPlan::Magic(MagicValue::StringOrBuffer(StringOrBuffer::String(s)))) if s == "h€"
    ));
    assert!(matches!(
        on(&heap, view).deserialize_struct("$__v8_magic_StringOrBuffer", &fields),
        Ok(StructPlan::Magic(MagicValue::StringOrBuffer(StringOrBuffer::Buffer(b)))) if b == vec![3]
    ));
    assert!(matches!(
        on(&heap, Value::Bool(true)).deserialize_struct("$__v8_magic_StringOrBuffer", &fields),
        Err(DecodeError::ExpectedBuffer)
    ));
    assert!(matches!(
        on(&heap, Value::Bool(true)).deserialize_struct("$__v8_magic_Value", &fields),
        Ok(StructPlan::Magic(MagicValue::Value(Value::Bool(true))))
    ));
}

#[test]
fn bytes_need_a_buffer() {
    let mut heap = Heap::new();
    let buffer = heap.alloc_object(ObjectKind::ArrayBuffer);
    assert!(heap.set_bytes(buffer, vec![5, 6, 7]));
    let arr = heap.alloc_object(ObjectKind::Array);
    assert_eq!(on(&heap, buffer).deserialize_bytes(), Ok(vec![5, 6, 7]));
    assert_eq!(on(&heap, arr).deserialize_bytes(), Err(DecodeError::ExpectedBuffer));
}

#[test]
fn builders_refuse_what_the_heap_does_not_hold() {
    let mut heap = Heap::new();
    let obj = heap.alloc_object(ObjectKind::Plain);
    let s = text(&mut heap, "k");
    assert!(!heap.push_element(obj, Value::Object(99)));
    assert!(!heap.push_element(Value::Object(99), Value::Null));
    assert!(!heap.push_element(s, Value::Null));
    assert!(!heap.push_property(obj, Value::String(99), Value::Null));
    assert!(!heap.push_property(obj, obj, Value::Null));
    assert!(!heap.push_property(obj, s, Value::BigInt(0)));
    assert!(!heap.set_prototype(obj, s));
    assert!(!heap.set_prototype(obj, Value::Object(99)));
    assert!(!heap.set_coercion(obj, Coercion::BigInt(0)));
    assert!(!heap.set_bytes(Value::Null, vec![]));
    assert_eq!(heap.alloc_boxed_string(obj), None);
    assert_eq!(heap.alloc_boxed_string(Value::String(99)), None);
    assert!(!heap.is_valid(Value::Object(99)));
    assert!(heap.is_valid(obj));
    assert_eq!(heap.alloc_object(ObjectKind::BoxedString), Value::Object(2));
    assert!(!heap.is_boxed_string(Value::Object(2)));
}
