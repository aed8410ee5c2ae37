use apeiro_decode::access::Marker;
use apeiro_decode::de::Deserializer;
use apeiro_decode::de::Ramson;
use apeiro_decode::walk::Halt;
use apeiro_decode::error::DecodeError;
use apeiro_decode::heap::Heap;
use apeiro_decode::heap::ObjectKind;
use apeiro_decode::heap::Value;
use apeiro_decode::keys::KeyCache;
use apeiro_decode::walk::describable;
use apeiro_decode::walk::from_v8;
use apeiro_decode::walk::from_v8_cached;
use apeiro_decode::walk::ramson_from_v8;
use apeiro_decode::walk::Token;
use apeiro_decode::walk::RECURSION_LIMIT;

fn string(heap: &mut Heap, s: &str) -> Value {
    heap.alloc_string(s.encode_utf16().collect(), f64::NAN.to_bits())
}

fn double(x: f64) -> Value {
    Value::Number(x.to_bits())
}

fn put(heap: &mut Heap, obj: Value, key: &str, v: Value) {
    let key = string(heap, key);
    assert!(heap.push_property(obj, key, v));
}

fn name(s: &str) -> Token {
    Token::Str(s.to_string())
}

fn plain(heap: &Heap, v: Value) -> Vec<Token> {
    assert!(describable(heap, v, false));
    from_v8(heap, v).unwrap()
}

fn graph(heap: &Heap, v: Value) -> Vec<Token> {
    assert!(describable(heap, v, true));
    ramson_from_v8(heap, v).unwrap()
}

#[test]
fn scalars_decode_to_one_token_of_their_kind() {
    let mut heap = Heap::new();
    let hello = string(&mut heap,"hello");
    assert_eq!(plain(&heap, Value::Null), vec![Token::Unit]);
    assert_eq!(plain(&heap, Value::Undefined), vec![Token::Unit]);
    assert_eq!(plain(&heap, Value::Bool(true)), vec![Token::Bool(true)]);
    assert_eq!(plain(&heap, Value::Bool(false)), vec![Token::Bool(false)]);
    assert_eq!(plain(&heap, hello), vec![name("hello")]);
}

#[test]
fn numbers_decode_as_u32_then_i32_then_f64() {
    let heap = Heap::new();
    assert_eq!(plain(&heap, double(0.0)), vec![Token::U32(0)]);
    assert_eq!(plain(&heap, double(7.0)), vec![Token::U32(7)]);
    assert_eq!(plain(&heap, double(4294967295.0)), vec![Token::U32(u32::MAX)]);
    assert_eq!(plain(&heap, double(-1.0)), vec![Token::I32(-1)]);
    assert_eq!(plain(&heap, double(-2147483648.0)), vec![Token::I32(i32::MIN)]);
    assert_eq!(plain(&heap, double(4294967296.0)), vec![Token::F64(4294967296.0f64.to_bits())]);
    assert_eq!(plain(&heap, double(1.5)), vec![Token::F64(1.5f64.to_bits())]);
    assert_eq!(plain(&heap, double(-0.0)), vec![Token::F64((-0.0f64).to_bits())]);
    assert_eq!(plain(&heap, double(f64::NAN)), vec![Token::F64(f64::NAN.to_bits())]);
}

#[test]
fn arrays_decode_their_elements_in_order() {
    let mut heap = Heap::new();
    let arr = heap.alloc_object(ObjectKind::Array);
    let inner = heap.alloc_object(ObjectKind::Array);
    let s = string(&mut heap,"x");
    assert!(heap.push_element(inner, Value::Bool(true)));
    assert!(heap.push_element(arr, double(1.0)));
    assert!(heap.push_element(arr, inner));
    assert!(heap.push_element(arr, Value::Undefined));
    assert!(heap.push_element(arr, s));
    assert_eq!(
        plain(&heap, arr),
        vec![
            Token::SeqStart,
            Token::U32(1),
            Token::SeqStart,
            Token::Bool(true),
            Token::SeqEnd,
            Token::Unit,
            name("x"),
            Token::SeqEnd,
        ]
    );
}

#[test]
fn objects_decode_their_properties_in_enumeration_order() {
    let mut heap = Heap::new();
    let obj = heap.alloc_object(ObjectKind::Plain);
    put(&mut heap,obj, "b", double(2.0));
    put(&mut heap,obj, "a", double(1.0));
    assert_eq!(
        plain(&heap, obj),
        vec![Token::MapStart, name("b"), Token::U32(2), name("a"), Token::U32(1), Token::MapEnd]
    );
}

#[test]
fn properties_with_missing_values_are_left_out() {
    let mut heap = Heap::new();
    let obj = heap.alloc_object(ObjectKind::Plain);
    put(&mut heap,obj, "gone", Value::Undefined);
    put(&mut heap,obj, "kept", Value::Null);
    put(&mut heap,obj, "also_gone", Value::Undefined);
    let want = vec![Token::MapStart, name("kept"), Token::Unit, Token::MapEnd];
    assert_eq!(plain(&heap, obj), want);
    let mut under_session = graph(&heap, obj);
    under_session.truncate(3);
    assert_eq!(under_session, vec![Token::MapStart, name("kept"), Token::Unit]);
}

#[test]
fn native_maps_decode_their_entries_in_insertion_order() {
    let mut heap = Heap::new();
    let map = heap.alloc_object(ObjectKind::NativeMap);
    let k = string(&mut heap,"k");
    assert!(heap.push_element(map, k));
    assert!(heap.push_element(map, double(1.0)));
    assert!(heap.push_element(map, double(2.0)));
    assert!(heap.push_element(map, Value::Undefined));
    put(&mut heap,map, "own", double(9.0));
    assert_eq!(
        plain(&heap, map),
        vec![Token::MapStart, name("k"), Token::U32(1), Token::U32(2), Token::Unit, Token::MapEnd]
    );
}

#[test]
fn native_maps_under_a_session_append_the_definition_only() {
    let mut heap = Heap::new();
    let map = heap.alloc_object(ObjectKind::NativeMap);
    let k = string(&mut heap,"k");
    assert!(heap.push_element(map, k));
    assert!(heap.push_element(map, double(1.0)));
    assert_eq!(
        graph(&heap, map),
        vec![
            Token::MapStart,
            name("k"),
            Token::U32(1),
            Token::Marker(Marker::Definition),
            Token::U32(0),
            Token::MapEnd,
        ]
    );
}

#[test]
fn native_map_with_a_key_and_no_value_fails() {
    let mut heap = Heap::new();
    let map = heap.alloc_object(ObjectKind::NativeMap);
    assert!(heap.push_element(map, double(1.0)));
    assert!(describable(&heap, map, false));
    assert_eq!(from_v8(&heap, map), Err(DecodeError::ExpectedExternal));
}

#[test]
fn buffers_decode_to_their_bytes() {
    let mut heap = Heap::new();
    let buffer = heap.alloc_object(ObjectKind::ArrayBuffer);
    let view = heap.alloc_object(ObjectKind::ArrayBufferView);
    assert!(heap.set_bytes(buffer, vec![1, 2, 3]));
    assert!(heap.set_bytes(view, vec![9]));
    assert_eq!(plain(&heap, buffer), vec![Token::Bytes(vec![1, 2, 3])]);
    assert_eq!(plain(&heap, view), vec![Token::Bytes(vec![9])]);
}

#[test]
fn self_cycle_decodes_to_a_reference_under_a_session() {
    let mut heap = Heap::new();
    let obj = heap.alloc_object(ObjectKind::Plain);
    put(&mut heap,obj, "me", obj);
    assert_eq!(
        graph(&heap, obj),
        vec![
            Token::MapStart,
            name("me"),
            Token::MapStart,
            Token::Marker(Marker::Reference),
            Token::U32(0),
            Token::MapEnd,
            Token::Marker(Marker::Definition),
            Token::U32(0),
            Token::Marker(Marker::Prototype),
            Token::Unit,
            Token::MapEnd,
        ]
    );
}

#[test]
fn self_cycle_without_a_session_runs_into_the_depth_limit() {
    let mut heap = Heap::new();
    let obj = heap.alloc_object(ObjectKind::Plain);
    put(&mut heap,obj, "me", obj);
    assert!(describable(&heap, obj, false));
    assert_eq!(from_v8(&heap, obj), Err(DecodeError::DepthExceeded));
}

#[test]
fn self_referential_array_is_not_cycle_safe_even_under_a_session() {
    let mut heap = Heap::new();
    let arr = heap.alloc_object(ObjectKind::Array);
    assert!(heap.push_element(arr, arr));
    assert!(describable(&heap, arr, true));
    assert_eq!(ramson_from_v8(&heap, arr), Err(DecodeError::DepthExceeded));
}

#[test]
fn shared_sub_object_is_defined_once_and_referred_to_once() {
    let mut heap = Heap::new();
    let root = heap.alloc_object(ObjectKind::Plain);
    let sub = heap.alloc_object(ObjectKind::Plain);
    put(&mut heap,sub, "x", double(1.0));
    put(&mut heap,root, "a", sub);
    put(&mut heap,root, "b", sub);
    let tokens = graph(&heap, root);
    assert_eq!(
        tokens,
        vec![
            Token::MapStart,
            name("a"),
            Token::MapStart,
            name("x"),
            Token::U32(1),
            Token::Marker(Marker::Definition),
            Token::U32(1),
            Token::Marker(Marker::Prototype),
            Token::Unit,
            Token::MapEnd,
            name("b"),
            Token::MapStart,
            Token::Marker(Marker::Reference),
            Token::U32(1),
            Token::MapEnd,
            Token::Marker(Marker::Definition),
            Token::U32(0),
            Token::Marker(Marker::Prototype),
            Token::Unit,
            Token::MapEnd,
        ]
    );
    let definitions = tokens.iter().filter(|t| **t == Token::Marker(Marker::Definition)).count();
    let references = tokens.iter().filter(|t| **t == Token::Marker(Marker::Reference)).count();
    assert_eq!(definitions, 2);
    assert_eq!(references, 1);
    assert_eq!(tokens.iter().filter(|t| **t == name("x")).count(), 1);
}

#[test]
fn shared_sub_object_is_expanded_twice_without_a_session() {
    let mut heap = Heap::new();
    let root = heap.alloc_object(ObjectKind::Plain);
    let sub = heap.alloc_object(ObjectKind::Plain);
    put(&mut heap,sub, "x", double(1.0));
    put(&mut heap,root, "a", sub);
    put(&mut heap,root, "b", sub);
    let tokens = plain(&heap, root);
    assert_eq!(tokens.iter().filter(|t| **t == name("x")).count(), 2);
}

#[test]
fn prototype_chain_is_captured_up_to_the_root() {
    let mut heap = Heap::new();
    let proto = heap.alloc_object(ObjectKind::Plain);
    put(&mut heap,proto, "inherited", Value::Bool(true));
    let obj = heap.alloc_object(ObjectKind::Plain);
    put(&mut heap,obj, "own", double(3.0));
    assert!(heap.set_prototype(obj, proto));
    assert_eq!(
        graph(&heap, obj),
        vec![
            Token::MapStart,
            name("own"),
            Token::U32(3),
            Token::Marker(Marker::Definition),
            Token::U32(0),
            Token::Marker(Marker::Prototype),
            Token::MapStart,
            name("inherited"),
            Token::Bool(true),
            Token::Marker(Marker::Definition),
            Token::U32(1),
            Token::Marker(Marker::Prototype),
            Token::Unit,
            Token::MapEnd,
            Token::MapEnd,
        ]
    );
}

#[test]
fn null_prototype_is_captured_as_the_unit() {
    let mut heap = Heap::new();
    let obj = heap.alloc_object(ObjectKind::Plain);
    assert!(heap.set_prototype(obj, Value::Null));
    assert_eq!(
        graph(&heap, obj),
        vec![
            Token::MapStart,
            Token::Marker(Marker::Definition),
            Token::U32(0),
            Token::Marker(Marker::Prototype),
            Token::Unit,
            Token::MapEnd,
        ]
    );
}

#[test]
fn cycle_through_a_prototype_ends_in_a_reference() {
    let mut heap = Heap::new();
    let a = heap.alloc_object(ObjectKind::Plain);
    let b = heap.alloc_object(ObjectKind::Plain);
    assert!(heap.set_prototype(a, b));
    put(&mut heap,b, "back", a);
    assert_eq!(
        graph(&heap, a),
        vec![
            Token::MapStart,
            Token::Marker(Marker::Definition),
            Token::U32(0),
            Token::Marker(Marker::Prototype),
            Token::MapStart,
            name("back"),
            Token::MapStart,
            Token::Marker(Marker::Reference),
            Token::U32(0),
            Token::MapEnd,
            Token::Marker(Marker::Definition),
            Token::U32(1),
            Token::Marker(Marker::Prototype),
            Token::Unit,
            Token::MapEnd,
            Token::MapEnd,
        ]
    );
}

#[test]
fn identity_indices_follow_the_order_of_first_visits() {
    let mut heap = Heap::new();
    let root = heap.alloc_object(ObjectKind::Plain);
    let first = heap.alloc_object(ObjectKind::Plain);
    let second = heap.alloc_object(ObjectKind::Plain);
    put(&mut heap,root, "z", second);
    put(&mut heap,root, "y", first);
    let tokens = graph(&heap, root);
    let indices: Vec<u32> = tokens
        .windows(2)
        .filter(|w| w[0] == Token::Marker(Marker::Definition))
        .map(|w| match w[1] {
            Token::U32(i) => i,
            _ => panic!("a definition is followed by its index"),
        })
        .collect();
    // The inner objects close first: `z` got index 1, `y` index 2, the root index 0.
    assert_eq!(indices, vec![1, 2, 0]);
}

#[test]
fn nesting_to_the_limit_decodes_and_one_deeper_fails() {
    let mut heap = Heap::new();
    let mut inner = heap.alloc_object(ObjectKind::Array);
    for _ in 0..(RECURSION_LIMIT - 2) {
        let outer = heap.alloc_object(ObjectKind::Array);
        assert!(heap.push_element(outer, inner));
        inner = outer;
    }
    assert!(heap.push_element(Value::Object(1), Value::Null));
    let tokens = plain(&heap, inner);
    assert_eq!(tokens.len(), 2 * (RECURSION_LIMIT - 1) + 1);
    let outer = heap.alloc_object(ObjectKind::Array);
    assert!(heap.push_element(outer, inner));
    assert!(describable(&heap, outer, false));
    assert_eq!(from_v8(&heap, outer), Err(DecodeError::DepthExceeded));
}

#[test]
fn ring_of_objects_is_captured_within_the_depth_limit() {
    let mut heap = Heap::new();
    let mut ring = Vec::new();
    for _ in 0..(RECURSION_LIMIT - 2) {
        ring.push(heap.alloc_object(ObjectKind::Plain));
    }
    for at in 0..ring.len() {
        let next = ring[(at + 1) % ring.len()];
        let back = ring[(at + ring.len() - 1) % ring.len()];
        put(&mut heap,ring[at], "next", next);
        put(&mut heap,ring[at], "back", back);
        put(&mut heap,ring[at], "me", ring[at]);
    }
    let tokens = graph(&heap, ring[0]);
    let definitions = tokens.iter().filter(|t| **t == Token::Marker(Marker::Definition)).count();
    let references = tokens.iter().filter(|t| **t == Token::Marker(Marker::Reference)).count();
    assert_eq!(definitions, ring.len());
    // Three properties each, of which one in each object but the last opens a walk.
    assert_eq!(references, 3 * ring.len() - (ring.len() - 1));
}

#[test]
fn ring_through_arrays_is_captured_within_the_depth_limit() {
    let mut heap = Heap::new();
    let mut ring = Vec::new();
    let mut lists = Vec::new();
    for _ in 0..20 {
        ring.push(heap.alloc_object(ObjectKind::Plain));
        lists.push(heap.alloc_object(ObjectKind::Array));
    }
    for at in 0..ring.len() {
        assert!(heap.push_element(lists[at], ring[(at + 1) % ring.len()]));
        assert!(heap.push_element(lists[at], ring[at]));
        put(&mut heap, ring[at], "next", lists[at]);
    }
    let tokens = graph(&heap, ring[0]);
    let definitions = tokens.iter().filter(|t| **t == Token::Marker(Marker::Definition)).count();
    let references = tokens.iter().filter(|t| **t == Token::Marker(Marker::Reference)).count();
    assert_eq!(definitions, ring.len());
    assert_eq!(references, ring.len() + 1);
    // The same ring from inside one of its arrays.
    let tokens = graph(&heap, lists[3]);
    assert_eq!(tokens[0], Token::SeqStart);
    let definitions = tokens.iter().filter(|t| **t == Token::Marker(Marker::Definition)).count();
    assert_eq!(definitions, ring.len());
}

#[test]
fn chain_of_objects_longer_than_the_depth_limit_fails() {
    let mut heap = Heap::new();
    let mut inner = heap.alloc_object(ObjectKind::Plain);
    for _ in 0..RECURSION_LIMIT {
        let outer = heap.alloc_object(ObjectKind::Plain);
        put(&mut heap,outer, "inner", inner);
        inner = outer;
    }
    assert!(describable(&heap, inner, true));
    assert_eq!(ramson_from_v8(&heap, inner), Err(DecodeError::DepthExceeded));
}

#[test]
fn a_larger_depth_limit_changes_no_answer() {
    let mut heap = Heap::new();
    let root = heap.alloc_object(ObjectKind::Plain);
    let list = heap.alloc_object(ObjectKind::Array);
    assert!(heap.push_element(list, double(1.0)));
    put(&mut heap,root, "list", list);
    put(&mut heap,root, "me", root);
    let mut answers = Vec::new();
    for depth in [1, 2, 3, 4, 50] {
        let session = Ramson::new(&heap);
        let mut de = Deserializer::new(&heap, root, None, Some(session));
        let mut out = Vec::new();
        let r = de.walk_value(depth, &mut out);
        answers.push((r, out, de.ramson.map(|session| session.next)));
    }
    // A list in an object needs three levels: the object, the list, its element.
    assert_eq!(answers[0].0, Err(Halt::Failed(DecodeError::DepthExceeded)));
    assert_eq!(answers[1].0, Err(Halt::Failed(DecodeError::DepthExceeded)));
    assert_eq!(answers[2].0, Ok(()));
    assert_eq!(answers[2].2, Some(1));
    assert_eq!(answers[3], answers[2]);
    assert_eq!(answers[4], answers[2]);
}

#[test]
fn big_integer_halts_the_walk() {
    let mut heap = Heap::new();
    let big = heap.alloc_bigint(false, vec![1]);
    let arr = heap.alloc_object(ObjectKind::Array);
    assert!(heap.push_element(arr, Value::Null));
    assert!(heap.push_element(arr, big));
    let mut de = Deserializer::new(&heap, arr, None, None);
    let mut out = Vec::new();
    assert_eq!(de.walk_value(8, &mut out), Err(Halt::Stuck));
    let mut de = Deserializer::new(&heap, arr, None, None);
    assert_eq!(de.walk_value(1, &mut out), Err(Halt::Failed(DecodeError::DepthExceeded)));
    let mut de = Deserializer::new(&heap, Value::Bool(true), None, None);
    let mut out = Vec::new();
    assert_eq!(de.describe(1, &mut out), Ok(()));
    assert_eq!(out, vec![Token::Bool(true)]);
}

#[test]
fn symbol_is_not_describable() {
    let mut heap = Heap::new();
    let obj = heap.alloc_object(ObjectKind::Plain);
    put(&mut heap, obj, "s", Value::Symbol);
    assert!(!describable(&heap, Value::Symbol, false));
    assert!(!describable(&heap, obj, false));
    assert!(!describable(&heap, obj, true));
    let mut de = Deserializer::new(&heap, obj, None, None);
    let mut out = Vec::new();
    assert_eq!(de.walk_value(8, &mut out), Err(Halt::Stuck));
}

#[test]
fn big_integer_is_not_describable() {
    let mut heap = Heap::new();
    let big = heap.alloc_bigint(false, vec![1]);
    let arr = heap.alloc_object(ObjectKind::Array);
    assert!(heap.push_element(arr, big));
    assert!(!describable(&heap, big, false));
    assert!(!describable(&heap, arr, false));
    assert!(!describable(&heap, arr, true));
    let empty = heap.alloc_object(ObjectKind::Array);
    assert!(describable(&heap, empty, false));
}

#[test]
fn key_cache_does_not_change_the_result() {
    let mut heap = Heap::new();
    let obj = heap.alloc_object(ObjectKind::Plain);
    put(&mut heap,obj, "a", double(1.0));
    let cache = KeyCache::new();
    assert!(describable(&heap, obj, false));
    assert_eq!(from_v8_cached(&heap, obj, &cache), from_v8(&heap, obj));
}

#[test]
fn boxed_string_is_walked_as_an_object() {
    let mut heap = Heap::new();
    let s = string(&mut heap,"hi");
    let boxed = heap.alloc_boxed_string(s).unwrap();
    assert_eq!(plain(&heap, boxed), vec![Token::MapStart, Token::MapEnd]);
}

#[test]
fn lone_surrogate_in_a_string_becomes_the_replacement_character() {
    let mut heap = Heap::new();
    let s = heap.alloc_string(vec![0x61, 0xd800, 0x62], f64::NAN.to_bits());
    assert_eq!(plain(&heap, s), vec![name("a\u{fffd}b")]);
}
