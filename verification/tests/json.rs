use apeiro_decode::heap::Heap;
use apeiro_decode::heap::ObjectKind;
use apeiro_decode::heap::Value;
use apeiro_decode::walk::describable;
use apeiro_decode::walk::from_v8;
use apeiro_decode::walk::Token;

fn load(heap: &mut Heap, json: &serde_json::Value) -> Value {
    match json {
        serde_json::Value::Null => Value::Null,
        serde_json::Value::Bool(b) => Value::Bool(*b),
        serde_json::Value::Number(n) => Value::Number(n.as_f64().unwrap().to_bits()),
        serde_json::Value::String(s) => {
            heap.alloc_string(s.encode_utf16().collect(), f64::NAN.to_bits())
        }
        serde_json::Value::Array(items) => {
            let arr = heap.alloc_object(ObjectKind::Array);
            for item in items {
                let v = load(heap, item);
                assert!(heap.push_element(arr, v));
            }
            arr
        }
        serde_json::Value::Object(entries) => {
            let obj = heap.alloc_object(ObjectKind::Plain);
            for (key, item) in entries {
                let k = heap.alloc_string(key.encode_utf16().collect(), f64::NAN.to_bits());
                let v = load(heap, item);
                assert!(heap.push_property(obj, k, v));
            }
            obj
        }
    }
}

fn rebuild(tokens: &[Token], at: &mut usize) -> serde_json::Value {
    let token = &tokens[*at];
    *at += 1;
    match token {
        Token::Unit => serde_json::Value::Null,
        Token::Bool(b) => serde_json::Value::Bool(*b),
        Token::U32(n) => serde_json::Value::from(*n),
        Token::I32(n) => serde_json::Value::from(*n),
        Token::F64(bits) => serde_json::Value::from(f64::from_bits(*bits)),
        Token::Str(s) => serde_json::Value::String(s.clone()),
        Token::SeqStart => {
            let mut items = Vec::new();
            while tokens[*at] != Token::SeqEnd {
                items.push(rebuild(tokens, at));
            }
            *at += 1;
            serde_json::Value::Array(items)
        }
        Token::MapStart => {
            let mut entries = serde_json::Map::new();
            while tokens[*at] != Token::MapEnd {
                let key = match rebuild(tokens, at) {
                    serde_json::Value::String(s) => s,
                    other => panic!("a key that is no string: {}", other),
                };
                let value = rebuild(tokens, at);
                entries.insert(key, value);
            }
            *at += 1;
            serde_json::Value::Object(entries)
        }
        other => panic!("a token that a plain tree does not hold: {:?}", other),
    }
}

fn round_trip(text: &str) {
    let json: serde_json::Value = serde_json::from_str(text).unwrap();
    let mut heap = Heap::new();
    let input = load(&mut heap, &json);
    assert!(describable(&heap, input, false));
    let tokens = from_v8(&heap, input).unwrap();
    let mut at = 0;
    let back = rebuild(&tokens, &mut at);
    assert_eq!(at, tokens.len());
    assert_eq!(back, json, "{}", text);
}

#[test]
fn decoded_scalars_equal_the_json_decoders() {
    round_trip("null");
    round_trip("true");
    round_trip("false");
    round_trip("0");
    round_trip("17");
    round_trip("4294967295");
    round_trip("-1");
    round_trip("-2147483648");
    round_trip("1.5");
    round_trip("-0.25");
    round_trip("1e300");
    round_trip("\"\"");
    round_trip("\"text with \\\"quotes\\\" and \\u00e9 and \\ud83d\\ude00\"");
}

#[test]
fn decoded_containers_equal_the_json_decoders() {
    round_trip("[]");
    round_trip("{}");
    round_trip("[1, [2, [3, []]], \"x\", null, true]");
    round_trip("{\"a\": 1, \"b\": {\"c\": [1.5, -2, {\"d\": null}]}, \"e\": \"f\"}");
    round_trip("[{\"Busy\": {\"since\": 10}}, \"Idle\"]");
    round_trip("{\"nested\": {\"deeper\": {\"deepest\": [[[[\"bottom\"]]]]}}}");
}

#[test]
fn decoded_tree_keeps_the_order_of_the_keys() {
    let mut heap = Heap::new();
    let obj = heap.alloc_object(ObjectKind::Plain);
    for key in ["zeta", "alpha", "mid"] {
        let k = heap.alloc_string(key.encode_utf16().collect(), f64::NAN.to_bits());
        assert!(heap.push_property(obj, k, Value::Null));
    }
    assert!(describable(&heap, obj, false));
    let tokens = from_v8(&heap, obj).unwrap();
    let keys: Vec<&Token> = tokens.iter().filter(|t| matches!(t, Token::Str(_))).collect();
    assert_eq!(
        keys,
        vec![
            &Token::Str("zeta".to_string()),
            &Token::Str("alpha".to_string()),
            &Token::Str("mid".to_string())
        ]
    );
}
