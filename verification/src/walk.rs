use crate::access::MapAccess;
use crate::access::MapKey;
use crate::access::MapSlot;
use crate::access::Marker;
use crate::access::ObjectReference;
use crate::access::SeqAccess;
use crate::access::next_defined;
use crate::heap::ObjectKind;
use crate::access::lemma_entry_consumed;
use crate::access::lemma_map_access_steps;
use crate::de::map_plan;
use crate::de::session_of;
use crate::de::Described;
use crate::de::Deserializer;
use crate::de::Ramson;
use crate::de::Session;
use crate::keys::KeyCache;
use crate::error::DecodeError;
use crate::heap::Heap;
use crate::heap::Value;
use crate::magic::bytes_of;
use crate::number::is_int32;
use crate::number::is_uint32;
use crate::number::truncated;
use crate::payload::ValueType;
use crate::text::utf16_chars;
use vstd::prelude::*;

verus! {

/// One step of a decoded value, written flat. A scalar is one token; a sequence and
/// a map are the tokens of their parts between a start and an end token. In a map,
/// the tokens of each key are followed by the tokens of its value.
#[derive(Debug, PartialEq, Eq)]
pub enum Token {
    Unit,
    Bool(bool),
    U32(u32),
    I32(i32),
    /// A double, as its bit pattern.
    F64(u64),
    Str(String),
    Bytes(Vec<u8>),
    SeqStart,
    SeqEnd,
    MapStart,
    MapEnd,
    /// A structural tag of a captured graph, in key position.
    Marker(Marker),
}

/// What a token holds.
pub ghost enum TokenView {
    Unit,
    Bool(bool),
    U32(u32),
    I32(i32),
    F64(u64),
    Str(Seq<char>),
    Bytes(Seq<u8>),
    SeqStart,
    SeqEnd,
    MapStart,
    MapEnd,
    Marker(Marker),
}

impl View for Token {
    type V = TokenView;

    open spec fn view(&self) -> TokenView {
        match self {
            Token::Unit => TokenView::Unit,
            Token::Bool(b) => TokenView::Bool(*b),
            Token::U32(n) => TokenView::U32(*n),
            Token::I32(n) => TokenView::I32(*n),
            Token::F64(bits) => TokenView::F64(*bits),
            Token::Str(text) => TokenView::Str(text@),
            Token::Bytes(bytes) => TokenView::Bytes(bytes@),
            Token::SeqStart => TokenView::SeqStart,
            Token::SeqEnd => TokenView::SeqEnd,
            Token::MapStart => TokenView::MapStart,
            Token::MapEnd => TokenView::MapEnd,
            Token::Marker(marker) => TokenView::Marker(*marker),
        }
    }
}

/// What a run of tokens holds.
pub open spec fn tokens_view(tokens: Seq<Token>) -> Seq<TokenView> {
    tokens.map_values(|token: Token| token@)
}

/// How a walk over a value ends.
pub ghost enum Walk {
    /// The value is decoded: its tokens, and the graph session after the walk.
    Done { tokens: Seq<TokenView>, session: Option<Session> },
    /// The walk fails with this error.
    Failed(DecodeError),
    /// The walk meets a big integer or a symbol, which have no structural kind.
    Stuck,
}

/// Why a walk stopped before its end.
#[derive(Clone, Copy, Debug, PartialEq, Eq, Structural)]
pub enum Halt {
    /// The walk failed with this error.
    Failed(DecodeError),
    /// The walk met a big integer or a symbol, which have no structural kind.
    Stuck,
}

/// `rest` with `tokens` in front of what it yields.
pub open spec fn prepend(tokens: Seq<TokenView>, rest: Walk) -> Walk {
    match rest {
        Walk::Done { tokens: more, session } => Walk::Done { tokens: tokens + more, session },
        other => other,
    }
}

/// `rest` with `tokens` in front of what it yields and `end` behind it.
pub open spec fn enclose(tokens: Seq<TokenView>, rest: Walk, end: TokenView) -> Walk {
    match rest {
        Walk::Done { tokens: more, session } => Walk::Done {
            tokens: tokens + more + seq![end],
            session,
        },
        other => other,
    }
}

/// The token of a value that is decoded without looking inside it, if `v` is one.
pub open spec fn scalar_token(scope: &Heap, v: Value) -> Option<TokenView> {
    match ValueType::of(scope, v) {
        ValueType::Null => Some(TokenView::Unit),
        ValueType::Bool => Some(TokenView::Bool(v == Value::Bool(true))),
        ValueType::Number => {
            let bits = v->Number_0;
            if is_uint32(bits) {
                Some(TokenView::U32(truncated(bits) as u32))
            } else if is_int32(bits) {
                Some(TokenView::I32(truncated(bits) as i32))
            } else {
                Some(TokenView::F64(bits))
            }
        },
        ValueType::String => Some(TokenView::Str(utf16_chars(scope.units(v->String_0 as int)))),
        ValueType::ArrayBuffer | ValueType::ArrayBufferView => Some(
            TokenView::Bytes(bytes_of(scope, v)),
        ),
        _ => None,
    }
}

/// The walk over the value `v` that decodes it by its structural kind alone, no more
/// than `depth` values deep.
///
/// A scalar yields its token. An array yields the walks over its elements, in order.
/// Any other object yields the walks over the keys and values that its map cursor
/// hands out, in order; a marker yields itself, an identity index an unsigned
/// integer. The graph session is handed from each walk to the next. The first
/// failure ends the walk.
pub open spec fn walk(scope: &Heap, session: Option<Session>, v: Value, depth: nat) -> Walk
    decreases depth, 0nat, 0nat,
{
    if depth == 0 {
        Walk::Failed(DecodeError::DepthExceeded)
    } else if v.kindless() {
        Walk::Stuck
    } else if let Some(token) = scalar_token(scope, v) {
        Walk::Done { tokens: seq![token], session }
    } else if ValueType::of(scope, v) == ValueType::Array {
        let access = SeqAccess {
            obj: v->Object_0,
            pos: 0,
            end: scope.objects@[v->Object_0 as int].elements@.len() as usize,
        };
        enclose(
            seq![TokenView::SeqStart],
            walk_seq(scope, session, access, (depth - 1) as nat),
            TokenView::SeqEnd,
        )
    } else {
        match map_plan(scope, v, session) {
            (Ok(access), entered) => enclose(
                seq![TokenView::MapStart],
                walk_map(scope, entered, access, (depth - 1) as nat, access.remaining()),
                TokenView::MapEnd,
            ),
            (Err(e), _) => Walk::Failed(e),
        }
    }
}

/// The walks over the elements that the cursor `access` still hands out.
pub open spec fn walk_seq(scope: &Heap, session: Option<Session>, access: SeqAccess, depth: nat) -> Walk
    decreases depth, 1nat, (access.end - access.pos),
{
    match access.after_next(scope) {
        (Some(v), next) => match walk(scope, session, v, depth) {
            Walk::Done { tokens, session: after } => prepend(
                tokens,
                walk_seq(scope, after, next, depth),
            ),
            other => other,
        },
        (None, _) => Walk::Done { tokens: Seq::empty(), session },
    }
}

/// The walk over what a map cursor hands out in key position.
pub open spec fn walk_key(scope: &Heap, session: Option<Session>, key: MapKey, depth: nat) -> Walk
    decreases depth, 1nat, 0nat,
{
    match key {
        MapKey::Marker(marker) => Walk::Done { tokens: seq![TokenView::Marker(marker)], session },
        MapKey::Value(v) => walk(scope, session, v, depth),
    }
}

/// The walk over what a map cursor hands out in value position.
pub open spec fn walk_slot(scope: &Heap, session: Option<Session>, slot: MapSlot, depth: nat) -> Walk
    decreases depth, 1nat, 0nat,
{
    match slot {
        MapSlot::Index(index) => Walk::Done { tokens: seq![TokenView::U32(index)], session },
        MapSlot::Value(v) => walk(scope, session, v, depth),
    }
}

/// The walks over the entries that the cursor `access` still hands out, of which
/// there are no more than `steps`.
pub open spec fn walk_map(
    scope: &Heap,
    session: Option<Session>,
    access: MapAccess,
    depth: nat,
    steps: nat,
) -> Walk
    decreases depth, 2nat, steps,
{
    if steps == 0 {
        Walk::Done { tokens: Seq::empty(), session }
    } else {
        match access.after_key(scope) {
            (Some(key), keyed) => match walk_key(scope, session, key, depth) {
                Walk::Done { tokens: key_tokens, session: after_key } => match keyed.after_value(
                    scope,
                ) {
                    (Ok(slot), valued) => match walk_slot(scope, after_key, slot, depth) {
                        Walk::Done { tokens: value_tokens, session: after_value } => prepend(
                            key_tokens + value_tokens,
                            walk_map(scope, after_value, valued, depth, (steps - 1) as nat),
                        ),
                        other => other,
                    },
                    (Err(e), _) => Walk::Failed(e),
                },
                other => other,
            },
            (None, _) => Walk::Done { tokens: Seq::empty(), session },
        }
    }
}

/// A walk routes each value to the decoder of its structural kind: null and the
/// missing sentinel to the unit, a boolean to a boolean, a number to one of the three
/// number tokens, a string to its text, a buffer to its bytes, an array to a
/// sequence and any other object to a map.
pub proof fn lemma_walk_routes_by_kind(scope: &Heap, session: Option<Session>, v: Value, depth: nat)
    requires
        depth > 0,
        !v.kindless(),
    ensures
        match ValueType::of(scope, v) {
            ValueType::Null => walk(scope, session, v, depth) == (Walk::Done {
                tokens: seq![TokenView::Unit],
                session,
            }),
            ValueType::Bool => walk(scope, session, v, depth) == (Walk::Done {
                tokens: seq![TokenView::Bool(v == Value::Bool(true))],
                session,
            }),
            ValueType::Number => walk(scope, session, v, depth) matches Walk::Done {
                tokens,
                session: after,
            } && after == session && tokens.len() == 1 && (tokens[0] is U32 || tokens[0] is I32
                || tokens[0] is F64),
            ValueType::String => walk(scope, session, v, depth) == (Walk::Done {
                tokens: seq![TokenView::Str(utf16_chars(scope.units(v->String_0 as int)))],
                session,
            }),
            ValueType::ArrayBuffer | ValueType::ArrayBufferView => walk(scope, session, v, depth)
                == (Walk::Done { tokens: seq![TokenView::Bytes(bytes_of(scope, v))], session }),
            ValueType::Array => walk(scope, session, v, depth) matches Walk::Done { tokens, .. }
                ==> tokens.len() >= 2 && tokens.first() == TokenView::SeqStart && tokens.last()
                == TokenView::SeqEnd,
            ValueType::Object => walk(scope, session, v, depth) matches Walk::Done { tokens, .. }
                ==> tokens.len() >= 2 && tokens.first() == TokenView::MapStart && tokens.last()
                == TokenView::MapEnd,
        },
{
}

/// Under a graph session an object that has its identity index is not walked again:
/// wherever it is met, a reference to that index stands for it, and the session is
/// left as it was.
pub proof fn lemma_visited_object_is_referenced(
    scope: &Heap,
    session: Session,
    o: usize,
    index: u32,
    depth: nat,
)
    requires
        depth > 0,
        o < session.identity.len(),
        session.identity[o as int] == Some(index),
        ValueType::of(scope, Value::Object(o)) == ValueType::Object,
    ensures
        walk(scope, Some(session), Value::Object(o), depth) == (Walk::Done {
            tokens: seq![
                TokenView::MapStart,
                TokenView::Marker(Marker::Reference),
                TokenView::U32(index),
                TokenView::MapEnd,
            ],
            session: Some(session),
        }),
{
    let whole = walk(scope, Some(session), Value::Object(o), depth);
    let reference = ObjectReference { index, key_pending: true, value_pending: true };
    let access = MapAccess::Reference(reference);
    let inner = (depth - 1) as nat;
    assert(map_plan(scope, Value::Object(o), Some(session)) == (
        Ok::<MapAccess, DecodeError>(access),
        Some(session),
    ));
    let keyed = access.after_key(scope).1;
    let valued = keyed.after_value(scope).1;
    assert(access.after_key(scope).0 == Some(MapKey::Marker(Marker::Reference)));
    assert(keyed.after_value(scope).0 == Ok::<MapSlot, DecodeError>(MapSlot::Index(index)));
    assert(walk_map(scope, Some(session), valued, inner, 0) == (Walk::Done {
        tokens: Seq::<TokenView>::empty(),
        session: Some(session),
    }));
    let entries = walk_map(scope, Some(session), access, inner, 1);
    assert(walk_key(scope, Some(session), MapKey::Marker(Marker::Reference), inner) == (Walk::Done {
        tokens: seq![TokenView::Marker(Marker::Reference)],
        session: Some(session),
    }));
    assert(walk_slot(scope, Some(session), MapSlot::Index(index), inner) == (Walk::Done {
        tokens: seq![TokenView::U32(index)],
        session: Some(session),
    }));
    assert(entries == prepend(
        seq![TokenView::Marker(Marker::Reference)] + seq![TokenView::U32(index)],
        walk_map(scope, Some(session), valued, inner, 0),
    ));
    assert(whole == enclose(seq![TokenView::MapStart], entries, TokenView::MapEnd));
    assert(whole is Done);
    assert(whole->Done_tokens =~= seq![
        TokenView::MapStart,
        TokenView::Marker(Marker::Reference),
        TokenView::U32(index),
        TokenView::MapEnd,
    ]);
}

/// Whether a graph session has a slot for each object of the heap.
pub open spec fn fits(scope: &Heap, session: Option<Session>) -> bool {
    session matches Some(known) ==> known.identity.len() == scope.objects@.len()
}

/// Whether the graph session `after` is `before` carried on: it is there exactly
/// when `before` is, it has as many slots, and every object that had its identity
/// index in `before` has the same index in `after`.
pub open spec fn carries_on(before: Option<Session>, after: Option<Session>) -> bool {
    match before {
        Some(old) => after matches Some(new) && new.identity.len() == old.identity.len()
            && forall|i: int|
            0 <= i < old.identity.len() && old.identity[i] is Some ==> #[trigger] new.identity[i]
                == old.identity[i],
        None => after is None,
    }
}

/// A walk gives an object its identity index at most once: the session after the
/// walk carries on the session before it.
pub proof fn lemma_walk_carries_on(scope: &Heap, session: Option<Session>, v: Value, depth: nat)
    requires
        scope.wf(),
        scope.valid(v),
        fits(scope, session),
    ensures
        walk(scope, session, v, depth) matches Walk::Done { session: after, .. } ==> carries_on(
            session,
            after,
        ) && fits(scope, after),
    decreases depth, 0nat, 0nat,
{
    if depth > 0 && !v.kindless() && scalar_token(scope, v) is None {
        if ValueType::of(scope, v) == ValueType::Array {
            let access = SeqAccess {
                obj: v->Object_0,
                pos: 0,
                end: scope.objects@[v->Object_0 as int].elements@.len() as usize,
            };
            lemma_seq_carries_on(scope, session, access, (depth - 1) as nat);
        } else {
            let plan = map_plan(scope, v, session);
            if let Ok(access) = plan.0 {
                assert(scope.cell_wf(scope.objects@[v->Object_0 as int]));
                assert(carries_on(session, plan.1));
                lemma_map_carries_on(
                    scope,
                    plan.1,
                    access,
                    (depth - 1) as nat,
                    access.remaining(),
                );
            }
        }
    }
}

/// The walks over the elements of a sequence carry the session on.
pub proof fn lemma_seq_carries_on(
    scope: &Heap,
    session: Option<Session>,
    access: SeqAccess,
    depth: nat,
)
    requires
        scope.wf(),
        access.obj < scope.objects@.len(),
        fits(scope, session),
    ensures
        walk_seq(scope, session, access, depth) matches Walk::Done { session: after, .. }
            ==> carries_on(session, after) && fits(scope, after),
    decreases depth, 1nat, (access.end - access.pos),
{
    if let (Some(v), next) = access.after_next(scope) {
        assert(scope.cell_wf(scope.objects@[access.obj as int]));
        assert(scope.valid(v));
        lemma_walk_carries_on(scope, session, v, depth);
        if let Walk::Done { tokens, session: after } = walk(scope, session, v, depth) {
            lemma_seq_carries_on(scope, after, next, depth);
        }
    }
}

/// The walks over the entries of a map carry the session on.
pub proof fn lemma_map_carries_on(
    scope: &Heap,
    session: Option<Session>,
    access: MapAccess,
    depth: nat,
    steps: nat,
)
    requires
        scope.wf(),
        access.wf(scope),
        fits(scope, session),
    ensures
        walk_map(scope, session, access, depth, steps) matches Walk::Done { session: after, .. }
            ==> carries_on(session, after) && fits(scope, after),
    decreases depth, 2nat, steps,
{
    if steps > 0 {
        if let (Some(key), keyed) = access.after_key(scope) {
            lemma_map_access_steps(access, scope);
            if let MapKey::Value(k) = key {
                lemma_walk_carries_on(scope, session, k, depth);
            }
            if let Walk::Done { tokens, session: after_key } = walk_key(scope, session, key, depth) {
                if let (Ok(slot), valued) = keyed.after_value(scope) {
                    lemma_map_access_steps(keyed, scope);
                    if let MapSlot::Value(x) = slot {
                        lemma_walk_carries_on(scope, after_key, x, depth);
                    }
                    if let Walk::Done { tokens: more, session: after_value } = walk_slot(
                        scope,
                        after_key,
                        slot,
                        depth,
                    ) {
                        lemma_map_carries_on(scope, after_value, valued, depth, (steps - 1) as nat);
                    }
                }
            }
        }
    }
}

/// Under a graph session an object is walked in full no more than once: once a walk
/// over it is done, every later walk over it, however much else the session has
/// seen since, yields a reference to the index that the first walk gave or found.
pub proof fn lemma_object_is_walked_once(
    scope: &Heap,
    session: Session,
    o: usize,
    depth: nat,
    later: Session,
    again: nat,
)
    requires
        scope.wf(),
        o < scope.objects@.len(),
        session.identity.len() == scope.objects@.len(),
        ValueType::of(scope, Value::Object(o)) == ValueType::Object,
        walk(scope, Some(session), Value::Object(o), depth) is Done,
        carries_on(
            walk(scope, Some(session), Value::Object(o), depth)->Done_session,
            Some(later),
        ),
        again > 0,
    ensures
        later.identity[o as int] is Some,
        walk(scope, Some(later), Value::Object(o), again) == (Walk::Done {
            tokens: seq![
                TokenView::MapStart,
                TokenView::Marker(Marker::Reference),
                TokenView::U32(later.identity[o as int]->0),
                TokenView::MapEnd,
            ],
            session: Some(later),
        }),
{
    let v = Value::Object(o);
    let first = walk(scope, Some(session), v, depth);
    let plan = map_plan(scope, v, Some(session));
    assert(scope.cell_wf(scope.objects@[o as int]));
    lemma_map_carries_on(scope, plan.1, plan.0->Ok_0, (depth - 1) as nat, plan.0->Ok_0.remaining());
    let entered = plan.1->0;
    assert(entered.identity[o as int] is Some);
    let done = first->Done_session->0;
    assert(done.identity[o as int] == entered.identity[o as int]);
    assert(later.identity[o as int] == done.identity[o as int]);
    lemma_visited_object_is_referenced(scope, later, o, later.identity[o as int]->0, again);
}

/// Under a graph session an object whose one property points back to the object
/// itself, and whose prototype is the universal root, decodes to that property with
/// a reference to the object for its value, then the definition of the object's
/// identity index, then the prototype as absent. The index is the session's next,
/// and both the definition and the reference carry it.
pub proof fn lemma_self_cycle(scope: &Heap, session: Session, o: usize, depth: nat)
    requires
        scope.wf(),
        o < scope.objects@.len(),
        session.identity.len() == scope.objects@.len(),
        session.identity[o as int] is None,
        ValueType::of(scope, Value::Object(o)) == ValueType::Object,
        scope.objects@[o as int].kind != ObjectKind::NativeMap,
        scope.objects@[o as int].properties@.len() == 1,
        scope.objects@[o as int].properties@[0].value == Value::Object(o),
        scope.objects@[o as int].prototype == scope.root,
        depth >= 2,
    ensures
        walk(scope, Some(session), Value::Object(o), depth) == (Walk::Done {
            tokens: seq![
                TokenView::MapStart,
                TokenView::Str(
                    utf16_chars(scope.units(scope.objects@[o as int].properties@[0].key as int)),
                ),
                TokenView::MapStart,
                TokenView::Marker(Marker::Reference),
                TokenView::U32(session.next),
                TokenView::MapEnd,
                TokenView::Marker(Marker::Definition),
                TokenView::U32(session.next),
                TokenView::Marker(Marker::Prototype),
                TokenView::Unit,
                TokenView::MapEnd,
            ],
            session: map_plan(scope, Value::Object(o), Some(session)).1,
        }),
{
    let v = Value::Object(o);
    let inner = (depth - 1) as nat;
    let cell = scope.objects@[o as int];
    let property = cell.properties@[0];
    let plan = map_plan(scope, v, Some(session));
    let entered = plan.1->0;
    let known = Some(entered);
    let access = plan.0->Ok_0;
    assert(scope.cell_wf(cell));
    let name = TokenView::Str(utf16_chars(scope.units(property.key as int)));
    // The property: its name, and a reference in place of its value.
    let keyed = access.after_key(scope).1;
    let valued = keyed.after_value(scope).1;
    assert(next_defined(cell.properties@, 0) == 0);
    assert(access.after_key(scope).0 == Some(MapKey::Value(Value::String(property.key))));
    assert(keyed.after_value(scope).0 == Ok::<MapSlot, DecodeError>(MapSlot::Value(v)));
    assert(walk_key(scope, known, MapKey::Value(Value::String(property.key)), inner) == (
        Walk::Done { tokens: seq![name], session: known }));
    lemma_visited_object_is_referenced(scope, entered, o, session.next, inner);
    let reference = seq![
        TokenView::MapStart,
        TokenView::Marker(Marker::Reference),
        TokenView::U32(session.next),
        TokenView::MapEnd,
    ];
    assert(walk_slot(scope, known, MapSlot::Value(v), inner) == (Walk::Done {
        tokens: reference,
        session: known,
    }));
    // The definition.
    let defined_key = valued.after_key(scope).1;
    let defined = defined_key.after_value(scope).1;
    assert(next_defined(cell.properties@, 1) == 1);
    assert(valued.after_key(scope).0 == Some(MapKey::Marker(Marker::Definition)));
    assert(defined_key.after_value(scope).0 == Ok::<MapSlot, DecodeError>(
        MapSlot::Index(session.next),
    ));
    assert(walk_key(scope, known, MapKey::Marker(Marker::Definition), inner) == (Walk::Done {
        tokens: seq![TokenView::Marker(Marker::Definition)],
        session: known,
    }));
    assert(walk_slot(scope, known, MapSlot::Index(session.next), inner) == (Walk::Done {
        tokens: seq![TokenView::U32(session.next)],
        session: known,
    }));
    // The prototype.
    let proto_key = defined.after_key(scope).1;
    let proto = proto_key.after_value(scope).1;
    assert(defined.after_key(scope).0 == Some(MapKey::Marker(Marker::Prototype)));
    assert(proto_key.after_value(scope).0 == Ok::<MapSlot, DecodeError>(
        MapSlot::Value(Value::Undefined),
    ));
    assert(walk_key(scope, known, MapKey::Marker(Marker::Prototype), inner) == (Walk::Done {
        tokens: seq![TokenView::Marker(Marker::Prototype)],
        session: known,
    }));
    assert(walk_slot(scope, known, MapSlot::Value(Value::Undefined), inner) == (Walk::Done {
        tokens: seq![TokenView::Unit],
        session: known,
    }));
    // The three entries, from the last to the first.
    let none = Walk::Done { tokens: Seq::<TokenView>::empty(), session: known };
    assert(walk_map(scope, known, proto, inner, 0) == none);
    let third = walk_map(scope, known, defined, inner, 1);
    assert(third == prepend(seq![TokenView::Marker(Marker::Prototype)] + seq![TokenView::Unit], none));
    let second = walk_map(scope, known, valued, inner, 2);
    assert(second == prepend(
        seq![TokenView::Marker(Marker::Definition)] + seq![TokenView::U32(session.next)],
        third,
    ));
    let first = walk_map(scope, known, access, inner, 3);
    assert(first == prepend(seq![name] + reference, second));
    assert(access.remaining() == 3);
    let whole = walk(scope, Some(session), v, depth);
    assert(whole == enclose(seq![TokenView::MapStart], first, TokenView::MapEnd));
    assert(whole->Done_tokens =~= seq![
        TokenView::MapStart,
        name,
        TokenView::MapStart,
        TokenView::Marker(Marker::Reference),
        TokenView::U32(session.next),
        TokenView::MapEnd,
        TokenView::Marker(Marker::Definition),
        TokenView::U32(session.next),
        TokenView::Marker(Marker::Prototype),
        TokenView::Unit,
        TokenView::MapEnd,
    ]);
}

/// Whether a walk ended for a reason other than its depth.
pub open spec fn within_depth(whole: Walk) -> bool {
    whole != Walk::Failed(DecodeError::DepthExceeded)
}

/// The depth limit cuts walks off and changes nothing else: a walk that does not
/// end at its limit ends the same way, with the same tokens and the same session,
/// under any larger limit.
pub proof fn lemma_walk_deeper(scope: &Heap, session: Option<Session>, v: Value, depth: nat, more: nat)
    requires
        within_depth(walk(scope, session, v, depth)),
        more >= depth,
    ensures
        walk(scope, session, v, more) == walk(scope, session, v, depth),
    decreases more - depth,
{
    if more > depth {
        lemma_walk_one_deeper(scope, session, v, depth);
        lemma_walk_deeper(scope, session, v, depth + 1, more);
    }
}

/// A walk that does not end at its limit ends the same way one value deeper.
pub proof fn lemma_walk_one_deeper(scope: &Heap, session: Option<Session>, v: Value, depth: nat)
    requires
        within_depth(walk(scope, session, v, depth)),
    ensures
        walk(scope, session, v, depth + 1) == walk(scope, session, v, depth),
    decreases depth, 0nat, 0nat,
{
    if !v.kindless() && scalar_token(scope, v) is None {
        if ValueType::of(scope, v) == ValueType::Array {
            let access = SeqAccess {
                obj: v->Object_0,
                pos: 0,
                end: scope.objects@[v->Object_0 as int].elements@.len() as usize,
            };
            lemma_seq_one_deeper(scope, session, access, (depth - 1) as nat);
        } else {
            let plan = map_plan(scope, v, session);
            if let Ok(access) = plan.0 {
                lemma_map_one_deeper(
                    scope,
                    plan.1,
                    access,
                    (depth - 1) as nat,
                    access.remaining(),
                );
            }
        }
    }
}

/// The walks over the elements of a sequence, where they do not end at their limit,
/// end the same way one value deeper.
pub proof fn lemma_seq_one_deeper(
    scope: &Heap,
    session: Option<Session>,
    access: SeqAccess,
    depth: nat,
)
    requires
        within_depth(walk_seq(scope, session, access, depth)),
    ensures
        walk_seq(scope, session, access, depth + 1) == walk_seq(scope, session, access, depth),
    decreases depth, 1nat, (access.end - access.pos),
{
    if let (Some(v), next) = access.after_next(scope) {
        lemma_walk_one_deeper(scope, session, v, depth);
        if let Walk::Done { tokens, session: after } = walk(scope, session, v, depth) {
            lemma_seq_one_deeper(scope, after, next, depth);
        }
    }
}

/// The walks over the entries of a map, where they do not end at their limit, end
/// the same way one value deeper.
pub proof fn lemma_map_one_deeper(
    scope: &Heap,
    session: Option<Session>,
    access: MapAccess,
    depth: nat,
    steps: nat,
)
    requires
        within_depth(walk_map(scope, session, access, depth, steps)),
    ensures
        walk_map(scope, session, access, depth + 1, steps) == walk_map(
            scope,
            session,
            access,
            depth,
            steps,
        ),
    decreases depth, 2nat, steps,
{
    if steps > 0 {
        if let (Some(key), keyed) = access.after_key(scope) {
            if let MapKey::Value(k) = key {
                lemma_walk_one_deeper(scope, session, k, depth);
            }
            assert(walk_key(scope, session, key, depth + 1) == walk_key(scope, session, key, depth));
            if let Walk::Done { tokens, session: after_key } = walk_key(scope, session, key, depth) {
                if let (Ok(slot), valued) = keyed.after_value(scope) {
                    if let MapSlot::Value(x) = slot {
                        lemma_walk_one_deeper(scope, after_key, x, depth);
                    }
                    assert(walk_slot(scope, after_key, slot, depth + 1) == walk_slot(
                        scope,
                        after_key,
                        slot,
                        depth,
                    ));
                    if let Walk::Done { tokens: more, session: after_value } = walk_slot(
                        scope,
                        after_key,
                        slot,
                        depth,
                    ) {
                        lemma_map_one_deeper(scope, after_value, valued, depth, (steps - 1) as nat);
                    }
                }
            }
        }
    }
}

/// The number of objects that have no identity index yet.
pub open spec fn unvisited(identity: Seq<Option<u32>>) -> nat
    decreases identity.len(),
{
    if identity.len() == 0 {
        0
    } else {
        unvisited(identity.drop_last()) + (if identity.last() is None {
            1nat
        } else {
            0nat
        })
    }
}

/// Whether `rank` shows that no array of the heap holds itself, however deep:
/// every array has a rank from 1 to `span`, and an array that is an element of
/// another array has a lower rank than that one.
pub open spec fn ranks_arrays(scope: &Heap, rank: Seq<nat>, span: nat) -> bool {
    &&& rank.len() == scope.objects@.len()
    &&& forall|a: int|
        0 <= a < scope.objects@.len() && (#[trigger] scope.objects@[a]).kind == ObjectKind::Array
            ==> 1 <= rank[a] <= span
    &&& forall|a: int, i: int|
        0 <= a < scope.objects@.len() && scope.objects@[a].kind == ObjectKind::Array && 0 <= i
            < scope.objects@[a].elements@.len() && is_array(
            scope,
            #[trigger] scope.objects@[a].elements@[i],
        ) ==> rank[scope.objects@[a].elements@[i]->Object_0 as int] < rank[a]
}

/// Whether `v` is an array.
pub open spec fn is_array(scope: &Heap, v: Value) -> bool {
    v is Object && scope.objects@[v->Object_0 as int].kind == ObjectKind::Array
}

/// The rank of `v` where it is an array, and zero where it is none.
pub open spec fn rank_of(scope: &Heap, rank: Seq<nat>, v: Value) -> nat {
    if is_array(scope, v) {
        rank[v->Object_0 as int]
    } else {
        0
    }
}

/// The depth that walking `count` objects for the first time can take, where up to
/// `span` arrays may lie nested between one object and the next.
pub open spec fn budget(count: nat, span: nat) -> nat {
    count * (span + 1)
}

/// One object more asks for one level more, and for the arrays that may lie before
/// it.
pub proof fn lemma_budget(count: nat, more: nat, span: nat)
    requires
        count <= more,
    ensures
        budget(count, span) <= budget(more, span),
        budget(count + 1, span) == budget(count, span) + span + 1,
{
    assert(count * (span + 1) <= more * (span + 1)) by (nonlinear_arith)
        requires
            count <= more,
    ;
    assert((count + 1) * (span + 1) == count * (span + 1) + span + 1) by (nonlinear_arith);
}

/// Giving an object its identity index leaves one object fewer without one.
pub proof fn lemma_unvisited_update(identity: Seq<Option<u32>>, o: int, index: u32)
    requires
        0 <= o < identity.len(),
        identity[o] is None,
    ensures
        unvisited(identity.update(o, Some(index))) + 1 == unvisited(identity),
    decreases identity.len(),
{
    let updated = identity.update(o, Some(index));
    if o == identity.len() - 1 {
        assert(updated.drop_last() =~= identity.drop_last());
    } else {
        assert(updated.drop_last() =~= identity.drop_last().update(o, Some(index)));
        lemma_unvisited_update(identity.drop_last(), o, index);
    }
}

/// A session that carries another on has no more objects without an identity index.
pub proof fn lemma_unvisited_carried(before: Seq<Option<u32>>, after: Seq<Option<u32>>)
    requires
        after.len() == before.len(),
        forall|i: int| 0 <= i < before.len() && before[i] is Some ==> #[trigger] after[i] is Some,
    ensures
        unvisited(after) <= unvisited(before),
    decreases before.len(),
{
    if before.len() > 0 {
        assert(after.last() == after[before.len() - 1]);
        assert forall|i: int|
            0 <= i < before.drop_last().len() && before.drop_last()[i] is Some implies #[trigger] after.drop_last()[i] is Some by {
            assert(after[i] is Some);
        }
        lemma_unvisited_carried(before.drop_last(), after.drop_last());
    }
}

/// Under a graph session the references bound the depth of a walk, whatever cycles
/// the heap holds through its objects and their prototypes: where no array holds
/// itself, a walk never ends at its depth limit if the limit leaves room for each
/// object that has no identity index yet, for the arrays that may lie nested before
/// each of them, and for the arrays that the walk starts in.
pub proof fn lemma_graph_walk_within_depth(
    scope: &Heap,
    session: Session,
    v: Value,
    depth: nat,
    rank: Seq<nat>,
    span: nat,
)
    requires
        scope.wf(),
        scope.valid(v),
        session.identity.len() == scope.objects@.len(),
        ranks_arrays(scope, rank, span),
        depth > budget(unvisited(session.identity), span) + rank_of(scope, rank, v),
    ensures
        within_depth(walk(scope, Some(session), v, depth)),
    decreases depth, 0nat, 0nat,
{
    if !v.kindless() && scalar_token(scope, v) is None {
        let o = v->Object_0;
        assert(scope.cell_wf(scope.objects@[o as int]));
        if ValueType::of(scope, v) == ValueType::Array {
            let access = SeqAccess { obj: o, pos: 0, end: scope.objects@[o as int].elements@.len() as usize };
            lemma_graph_seq_within_depth(scope, session, access, (depth - 1) as nat, rank, span);
        } else {
            match session.identity[o as int] {
                Some(index) => {
                    lemma_visited_object_is_referenced(scope, session, o, index, depth);
                },
                None => {
                    let plan = map_plan(scope, v, Some(session));
                    let entered = plan.1->0;
                    let access = plan.0->Ok_0;
                    lemma_unvisited_update(session.identity, o as int, session.next);
                    lemma_budget(unvisited(entered.identity), unvisited(session.identity), span);
                    lemma_graph_map_within_depth(
                        scope,
                        entered,
                        access,
                        (depth - 1) as nat,
                        access.remaining(),
                        rank,
                        span,
                    );
                },
            }
        }
    }
}

/// The walks over the elements of an array, under the same bound, never end at
/// their depth limit.
pub proof fn lemma_graph_seq_within_depth(
    scope: &Heap,
    session: Session,
    access: SeqAccess,
    depth: nat,
    rank: Seq<nat>,
    span: nat,
)
    requires
        scope.wf(),
        access.obj < scope.objects@.len(),
        scope.objects@[access.obj as int].kind == ObjectKind::Array,
        access.end <= scope.objects@[access.obj as int].elements@.len(),
        session.identity.len() == scope.objects@.len(),
        ranks_arrays(scope, rank, span),
        depth + 1 > budget(unvisited(session.identity), span) + rank[access.obj as int],
    ensures
        within_depth(walk_seq(scope, Some(session), access, depth)),
    decreases depth, 1nat, (access.end - access.pos),
{
    if let (Some(v), next) = access.after_next(scope) {
        let cell = scope.objects@[access.obj as int];
        assert(scope.cell_wf(cell));
        assert(v == cell.elements@[access.pos as int]);
        assert(scope.valid(v));
        assert(rank_of(scope, rank, v) < rank[access.obj as int]);
        lemma_graph_walk_within_depth(scope, session, v, depth, rank, span);
        lemma_walk_carries_on(scope, Some(session), v, depth);
        if let Walk::Done { tokens, session: after } = walk(scope, Some(session), v, depth) {
            let carried = after->0;
            lemma_unvisited_carried(session.identity, carried.identity);
            lemma_budget(unvisited(carried.identity), unvisited(session.identity), span);
            lemma_graph_seq_within_depth(scope, carried, next, depth, rank, span);
        }
    }
}

/// The walks over the entries of a map, under the same bound, never end at their
/// depth limit.
pub proof fn lemma_graph_map_within_depth(
    scope: &Heap,
    session: Session,
    access: MapAccess,
    depth: nat,
    steps: nat,
    rank: Seq<nat>,
    span: nat,
)
    requires
        scope.wf(),
        access.wf(scope),
        session.identity.len() == scope.objects@.len(),
        ranks_arrays(scope, rank, span),
        depth > budget(unvisited(session.identity), span) + span,
    ensures
        within_depth(walk_map(scope, Some(session), access, depth, steps)),
    decreases depth, 2nat, steps,
{
    if steps > 0 {
        if let (Some(key), keyed) = access.after_key(scope) {
            lemma_map_access_steps(access, scope);
            if let MapKey::Value(k) = key {
                lemma_graph_walk_within_depth(scope, session, k, depth, rank, span);
                lemma_walk_carries_on(scope, Some(session), k, depth);
            }
            if let Walk::Done { tokens, session: after_key } = walk_key(
                scope,
                Some(session),
                key,
                depth,
            ) {
                let keyed_session = after_key->0;
                lemma_unvisited_carried(session.identity, keyed_session.identity);
                lemma_budget(unvisited(keyed_session.identity), unvisited(session.identity), span);
                if let (Ok(slot), valued) = keyed.after_value(scope) {
                    lemma_map_access_steps(keyed, scope);
                    if let MapSlot::Value(x) = slot {
                        lemma_graph_walk_within_depth(scope, keyed_session, x, depth, rank, span);
                        lemma_walk_carries_on(scope, after_key, x, depth);
                    }
                    if let Walk::Done { tokens: more, session: after_value } = walk_slot(
                        scope,
                        after_key,
                        slot,
                        depth,
                    ) {
                        let valued_session = after_value->0;
                        lemma_unvisited_carried(keyed_session.identity, valued_session.identity);
                        lemma_budget(
                            unvisited(valued_session.identity),
                            unvisited(keyed_session.identity),
                            span,
                        );
                        lemma_graph_map_within_depth(
                            scope,
                            valued_session,
                            valued,
                            depth,
                            (steps - 1) as nat,
                            rank,
                            span,
                        );
                    }
                }
            }
        }
    }
}

/// Appends one token.
fn emit(out: &mut Vec<Token>, token: Token)
    ensures
        tokens_view(final(out)@) == tokens_view(old(out)@).push(token@),
{
    out.push(token);
    assert(tokens_view(out@) =~= tokens_view(old(out)@).push(token@));
}

impl<'b> Deserializer<'b> {
    /// Walks the input by its structural kind alone, all the way down, and appends
    /// its tokens to `out`. The walk goes no more than `depth` values deep: past
    /// that it fails with `DepthExceeded`. It halts where it meets a big integer or a
    /// symbol. On a halt `out` holds no result.
    pub fn walk_value(&mut self, depth: usize, out: &mut Vec<Token>) -> (r: Result<(), Halt>)
        requires
            old(self).wf(),
        ensures
            final(self).scope == old(self).scope,
            final(self).key_cache == old(self).key_cache,
            match walk(old(self).scope, session_of(old(self).ramson), old(self).input, depth as nat) {
                Walk::Done { tokens, session } => {
                    &&& r is Ok
                    &&& tokens_view(final(out)@) == tokens_view(old(out)@) + tokens
                    &&& session_of(final(self).ramson) == session
                    &&& final(self).input == old(self).input
                    &&& final(self).wf()
                },
                Walk::Failed(e) => r == Err::<(), Halt>(Halt::Failed(e)),
                Walk::Stuck => r == Err::<(), Halt>(Halt::Stuck),
            },
        decreases depth, 0nat,
    {
        if depth == 0 {
            return Err(Halt::Failed(DecodeError::DepthExceeded));
        }
        match self.input {
            Value::BigInt(_) => {
                return Err(Halt::Stuck);
            },
            Value::Symbol => {
                return Err(Halt::Stuck);
            },
            _ => {},
        }
        let input = self.input;
        let ghost whole = walk(self.scope, session_of(self.ramson), self.input, depth as nat);
        let ghost before = tokens_view(out@);
        let ghost mut emitted: Seq<TokenView> = Seq::empty();
        assert(tokens_view(out@) == before + emitted);
        let described = match self.deserialize_any() {
            Ok(described) => described,
            Err(e) => {
                return Err(Halt::Failed(e));
            },
        };
        match described {
            Described::Unit => {
                emit(out, Token::Unit);
            },
            Described::Bool(b) => {
                emit(out, Token::Bool(b));
            },
            Described::U32(n) => {
                emit(out, Token::U32(n));
            },
            Described::I32(n) => {
                emit(out, Token::I32(n));
            },
            Described::F64(bits) => {
                emit(out, Token::F64(bits));
            },
            Described::String(text) => {
                emit(out, Token::Str(text));
            },
            Described::Bytes(bytes) => {
                emit(out, Token::Bytes(bytes));
            },
            Described::Array(start) => {
                let mut access = start;
                emit(out, Token::SeqStart);
                proof {
                    emitted = seq![TokenView::SeqStart];
                }
                while access.pos < access.end
                    invariant
                        depth > 0,
                        self.scope == old(self).scope,
                        self.key_cache == old(self).key_cache,
                        self.wf(),
                        access.obj < self.scope.objects@.len(),
                        whole == walk(
                            old(self).scope,
                            session_of(old(self).ramson),
                            old(self).input,
                            depth as nat,
                        ),
                        tokens_view(out@) == before + emitted,
                        whole == enclose(
                            emitted,
                            walk_seq(
                                self.scope,
                                session_of(self.ramson),
                                access,
                                (depth - 1) as nat,
                            ),
                            TokenView::SeqEnd,
                        ),
                    decreases access.end - access.pos,
                {
                    let ghost at = access;
                    let ghost session = session_of(self.ramson);
                    let element = access.next_element(self.scope);
                    assert(at.after_next(self.scope) == (element, access));
                    match element {
                        Some(v) => {
                            self.input = v;
                            let ghost inner = walk(self.scope, session, v, (depth - 1) as nat);
                            assert(walk_seq(self.scope, session, at, (depth - 1) as nat) == (match inner {
                                Walk::Done { tokens, session: after } => prepend(
                                    tokens,
                                    walk_seq(self.scope, after, access, (depth - 1) as nat),
                                ),
                                other => other,
                            }));
                            match self.walk_value(depth - 1, out) {
                                Ok(()) => {},
                                Err(e) => {
                                    return Err(e);
                                },
                            }
                            proof {
                                let tokens = inner->Done_tokens;
                                assert(before + emitted + tokens == before + (emitted + tokens));
                                let rest = walk_seq(
                                    self.scope,
                                    session_of(self.ramson),
                                    access,
                                    (depth - 1) as nat,
                                );
                                if let Walk::Done { tokens: more, session: last } = rest {
                                    assert(emitted + (tokens + more) + seq![TokenView::SeqEnd]
                                        == emitted + tokens + more + seq![TokenView::SeqEnd]);
                                }
                                emitted = emitted + tokens;
                            }
                        },
                        None => {},
                    }
                }
                emit(out, Token::SeqEnd);
                proof {
                    assert(emitted + Seq::<TokenView>::empty() + seq![TokenView::SeqEnd]
                        == emitted.push(TokenView::SeqEnd));
                    assert((before + emitted).push(TokenView::SeqEnd) == before + emitted.push(
                        TokenView::SeqEnd,
                    ));
                }
            },
            Described::Object(start) => {
                let mut access = start;
                let ghost mut steps: nat = access.remaining();
                emit(out, Token::MapStart);
                proof {
                    emitted = seq![TokenView::MapStart];
                }
                loop
                    invariant_except_break
                        steps >= access.remaining(),
                        access.settled(),
                        whole == enclose(
                            emitted,
                            walk_map(
                                self.scope,
                                session_of(self.ramson),
                                access,
                                (depth - 1) as nat,
                                steps,
                            ),
                            TokenView::MapEnd,
                        ),
                    invariant
                        depth > 0,
                        self.scope == old(self).scope,
                        self.key_cache == old(self).key_cache,
                        self.wf(),
                        access.wf(self.scope),
                        whole == walk(
                            old(self).scope,
                            session_of(old(self).ramson),
                            old(self).input,
                            depth as nat,
                        ),
                        tokens_view(out@) == before + emitted,
                    ensures
                        whole == enclose(
                            emitted,
                            Walk::Done { tokens: Seq::empty(), session: session_of(self.ramson) },
                            TokenView::MapEnd,
                        ),
                    decreases steps,
                {
                    let ghost session = session_of(self.ramson);
                    proof {
                        lemma_entry_consumed(access, self.scope);
                    }
                    let key = match access.next_key(self.scope) {
                        Some(key) => key,
                        None => {
                            break ;
                        },
                    };
                    let ghost key_walk = walk_key(self.scope, session, key, (depth - 1) as nat);
                    match self.walk_map_key(key, depth - 1, out) {
                        Ok(()) => {},
                        Err(e) => {
                            return Err(e);
                        },
                    }
                    let ghost key_tokens = key_walk->Done_tokens;
                    let ghost keyed_session = session_of(self.ramson);
                    assert(tokens_view(out@) == before + emitted + key_tokens);
                    let slot = match access.next_value(self.scope) {
                        Ok(slot) => slot,
                        Err(e) => {
                            return Err(Halt::Failed(e));
                        },
                    };
                    let ghost slot_walk = walk_slot(
                        self.scope,
                        keyed_session,
                        slot,
                        (depth - 1) as nat,
                    );
                    match self.walk_map_slot(slot, depth - 1, out) {
                        Ok(()) => {},
                        Err(e) => {
                            return Err(e);
                        },
                    }
                    proof {
                        let value_tokens = slot_walk->Done_tokens;
                        assert(before + emitted + key_tokens + value_tokens == before + (emitted
                            + (key_tokens + value_tokens)));
                        let rest = walk_map(
                            self.scope,
                            session_of(self.ramson),
                            access,
                            (depth - 1) as nat,
                            (steps - 1) as nat,
                        );
                        if let Walk::Done { tokens: more, session: last } = rest {
                            assert(emitted + ((key_tokens + value_tokens) + more)
                                + seq![TokenView::MapEnd] == emitted + (key_tokens + value_tokens)
                                + more + seq![TokenView::MapEnd]);
                        }
                        emitted = emitted + (key_tokens + value_tokens);
                        steps = (steps - 1) as nat;
                    }
                }
                emit(out, Token::MapEnd);
                proof {
                    assert(emitted + Seq::<TokenView>::empty() + seq![TokenView::MapEnd]
                        == emitted.push(TokenView::MapEnd));
                    assert((before + emitted).push(TokenView::MapEnd) == before + emitted.push(
                        TokenView::MapEnd,
                    ));
                }
            },
        }
        self.input = input;
        Ok(())
    }

    /// Walks what a map cursor handed out in key position: a marker is its own
    /// token, a value is walked. The decoder is left at that value.
    fn walk_map_key(&mut self, key: MapKey, depth: usize, out: &mut Vec<Token>) -> (r: Result<
        (),
        Halt,
    >)
        requires
            old(self).wf(),
            key matches MapKey::Value(v) ==> old(self).scope.valid(v),
        ensures
            final(self).scope == old(self).scope,
            final(self).key_cache == old(self).key_cache,
            match walk_key(old(self).scope, session_of(old(self).ramson), key, depth as nat) {
                Walk::Done { tokens, session } => {
                    &&& r is Ok
                    &&& tokens_view(final(out)@) == tokens_view(old(out)@) + tokens
                    &&& session_of(final(self).ramson) == session
                    &&& final(self).wf()
                },
                Walk::Failed(e) => r == Err::<(), Halt>(Halt::Failed(e)),
                Walk::Stuck => r == Err::<(), Halt>(Halt::Stuck),
            },
        decreases depth, 1nat,
    {
        match key {
            MapKey::Marker(marker) => {
                emit(out, Token::Marker(marker));
                assert(tokens_view(old(out)@).push(TokenView::Marker(marker)) == tokens_view(
                    old(out)@,
                ) + seq![TokenView::Marker(marker)]);
                Ok(())
            },
            MapKey::Value(v) => {
                self.input = v;
                self.walk_value(depth, out)
            },
        }
    }

    /// Walks what a map cursor handed out in value position: an identity index is an
    /// unsigned integer, a value is walked. The decoder is left at that value.
    fn walk_map_slot(&mut self, slot: MapSlot, depth: usize, out: &mut Vec<Token>) -> (r: Result<
        (),
        Halt,
    >)
        requires
            old(self).wf(),
            slot matches MapSlot::Value(v) ==> old(self).scope.valid(v),
        ensures
            final(self).scope == old(self).scope,
            final(self).key_cache == old(self).key_cache,
            match walk_slot(old(self).scope, session_of(old(self).ramson), slot, depth as nat) {
                Walk::Done { tokens, session } => {
                    &&& r is Ok
                    &&& tokens_view(final(out)@) == tokens_view(old(out)@) + tokens
                    &&& session_of(final(self).ramson) == session
                    &&& final(self).wf()
                },
                Walk::Failed(e) => r == Err::<(), Halt>(Halt::Failed(e)),
                Walk::Stuck => r == Err::<(), Halt>(Halt::Stuck),
            },
        decreases depth, 1nat,
    {
        match slot {
            MapSlot::Index(index) => {
                emit(out, Token::U32(index));
                assert(tokens_view(old(out)@).push(TokenView::U32(index)) == tokens_view(old(out)@)
                    + seq![TokenView::U32(index)]);
                Ok(())
            },
            MapSlot::Value(v) => {
                self.input = v;
                self.walk_value(depth, out)
            },
        }
    }

    /// Decodes the input by its structural kind alone, all the way down, and appends
    /// its tokens to `out`. The walk goes no more than `depth` values deep: past
    /// that it fails with `DepthExceeded`. On failure `out` holds no result.
    ///
    /// The walk must meet neither a big integer nor a symbol:
    /// [`Deserializer::walk_value`] tells whether it does.
    pub fn describe(&mut self, depth: usize, out: &mut Vec<Token>) -> (r: Result<(), DecodeError>)
        requires
            old(self).wf(),
            !(walk(old(self).scope, session_of(old(self).ramson), old(self).input, depth as nat)
                is Stuck),
        ensures
            final(self).scope == old(self).scope,
            final(self).key_cache == old(self).key_cache,
            match walk(old(self).scope, session_of(old(self).ramson), old(self).input, depth as nat) {
                Walk::Done { tokens, session } => {
                    &&& r is Ok
                    &&& tokens_view(final(out)@) == tokens_view(old(out)@) + tokens
                    &&& session_of(final(self).ramson) == session
                    &&& final(self).input == old(self).input
                    &&& final(self).wf()
                },
                Walk::Failed(e) => r == Err::<(), DecodeError>(e),
                Walk::Stuck => false,
            },
    {
        match self.walk_value(depth, out) {
            Ok(()) => Ok(()),
            Err(Halt::Failed(e)) => Err(e),
            Err(Halt::Stuck) => Err(DecodeError::DepthExceeded),
        }
    }
}

/// How many values deep a decode call goes.
pub const RECURSION_LIMIT: usize = 128;

/// The graph session at the start of a decode call that captures the graph: the
/// counter at zero, no object of the heap with an identity index.
pub open spec fn fresh_session(scope: &Heap) -> Option<Session> {
    Some(Session { next: 0, identity: Seq::new(scope.objects@.len(), |i: int| None::<u32>) })
}

/// The walk of a decode call over `input`: with a fresh graph session where the call
/// captures the graph, without a session where it does not.
pub open spec fn decode_walk(scope: &Heap, input: Value, graph: bool) -> Walk {
    walk(
        scope,
        if graph {
            fresh_session(scope)
        } else {
            None
        },
        input,
        RECURSION_LIMIT as nat,
    )
}

/// Whether `r` is what the decode call with the walk `whole` returns.
pub open spec fn decoded(whole: Walk, r: Result<Vec<Token>, DecodeError>) -> bool {
    match whole {
        Walk::Done { tokens, session } => r is Ok && tokens_view(r->Ok_0@) == tokens,
        Walk::Failed(e) => r matches Err(same) && same == e,
        Walk::Stuck => false,
    }
}

/// No more objects are without an identity index than there are objects.
pub proof fn lemma_unvisited_bound(identity: Seq<Option<u32>>)
    ensures
        unvisited(identity) <= identity.len(),
    decreases identity.len(),
{
    if identity.len() > 0 {
        lemma_unvisited_bound(identity.drop_last());
    }
}

/// A decode call that captures a graph returns its tokens or an error of its own,
/// never the depth limit's, where no array of the heap holds itself and the limit
/// leaves room for every object and for the arrays nested between them. Cycles
/// through objects and prototype chains of any length ask for no room of their own.
pub proof fn lemma_capture_within_depth(scope: &Heap, input: Value, rank: Seq<nat>, span: nat)
    requires
        scope.wf(),
        scope.valid(input),
        ranks_arrays(scope, rank, span),
        budget(scope.objects@.len(), span) + span < RECURSION_LIMIT,
    ensures
        within_depth(decode_walk(scope, input, true)),
{
    let session = fresh_session(scope)->0;
    lemma_unvisited_bound(session.identity);
    lemma_budget(unvisited(session.identity), scope.objects@.len(), span);
    if is_array(scope, input) {
        assert(rank_of(scope, rank, input) <= span);
    }
    lemma_graph_walk_within_depth(scope, session, input, RECURSION_LIMIT as nat, rank, span);
}

/// A decode call that captures a graph comes to its end whatever cycles the graph
/// holds, and walks no object twice. Where no array of the heap holds itself and
/// the depth limit leaves room for every object and for the arrays nested between
/// them, the call does not end at the limit. Where it yields tokens for an input
/// that is walked as a map, the input has its identity index in the session the
/// call ends with, and a walk that met the input again under that session would
/// yield a reference to that index and nothing else.
pub proof fn lemma_capture_of_a_graph(scope: &Heap, input: Value, rank: Seq<nat>, span: nat)
    requires
        scope.wf(),
        scope.valid(input),
        ranks_arrays(scope, rank, span),
        budget(scope.objects@.len(), span) + span < RECURSION_LIMIT,
    ensures
        within_depth(decode_walk(scope, input, true)),
        decode_walk(scope, input, true) matches Walk::Done { session, .. } ==> {
            &&& session matches Some(end)
            &&& end.identity.len() == scope.objects@.len()
            &&& carries_on(fresh_session(scope), session)
            &&& input is Object && ValueType::of(scope, input) == ValueType::Object ==> {
                &&& end.identity[input->Object_0 as int] matches Some(index)
                &&& walk(scope, session, input, 1) == (Walk::Done {
                    tokens: seq![
                        TokenView::MapStart,
                        TokenView::Marker(Marker::Reference),
                        TokenView::U32(index),
                        TokenView::MapEnd,
                    ],
                    session,
                })
            }
        },
{
    lemma_capture_within_depth(scope, input, rank, span);
    let fresh = fresh_session(scope)->0;
    lemma_walk_carries_on(scope, Some(fresh), input, RECURSION_LIMIT as nat);
    if let Walk::Done { tokens, session } = decode_walk(scope, input, true) {
        if input is Object && ValueType::of(scope, input) == ValueType::Object {
            lemma_object_is_walked_once(
                scope,
                fresh,
                input->Object_0,
                RECURSION_LIMIT as nat,
                session->0,
                1,
            );
        }
    }
}

/// Runs a decode call to its end or to its halt.
fn run(scope: &Heap, input: Value, key_cache: Option<&KeyCache>, graph: bool) -> (r: Result<
    Vec<Token>,
    Halt,
>)
    requires
        scope.wf(),
        scope.valid(input),
    ensures
        match decode_walk(scope, input, graph) {
            Walk::Done { tokens, session } => r is Ok && tokens_view(r->Ok_0@) == tokens,
            Walk::Failed(e) => r matches Err(halt) && halt == Halt::Failed(e),
            Walk::Stuck => r matches Err(halt) && halt == Halt::Stuck,
        },
{
    let ramson = if graph {
        let session = Ramson::new(scope);
        assert(session@.identity =~= fresh_session(scope)->0.identity);
        Some(session)
    } else {
        None
    };
    let mut deserializer = Deserializer::new(scope, input, key_cache, ramson);
    let mut out: Vec<Token> = Vec::new();
    assert(tokens_view(out@) =~= Seq::<TokenView>::empty());
    match deserializer.walk_value(RECURSION_LIMIT, &mut out) {
        Ok(()) => {
            proof {
                let tokens = decode_walk(scope, input, graph)->Done_tokens;
                assert(Seq::<TokenView>::empty() + tokens =~= tokens);
            }
            Ok(out)
        },
        Err(halt) => Err(halt),
    }
}

/// Whether a decode call over `input` runs without meeting a big integer or a
/// symbol, which no decode call takes.
pub fn describable(scope: &Heap, input: Value, graph: bool) -> (r: bool)
    requires
        scope.wf(),
        scope.valid(input),
    ensures
        r == !(decode_walk(scope, input, graph) is Stuck),
{
    match run(scope, input, None, graph) {
        Err(Halt::Stuck) => false,
        _ => true,
    }
}

/// Decodes `input` by its structural kind alone, into its tokens. No graph session
/// is active: every object is walked wherever it is met.
pub fn from_v8(scope: &Heap, input: Value) -> (r: Result<Vec<Token>, DecodeError>)
    requires
        scope.wf(),
        scope.valid(input),
        !(decode_walk(scope, input, false) is Stuck),
    ensures
        decoded(decode_walk(scope, input, false), r),
{
    match run(scope, input, None, false) {
        Ok(tokens) => Ok(tokens),
        Err(Halt::Failed(e)) => Err(e),
        Err(Halt::Stuck) => Err(DecodeError::DepthExceeded),
    }
}

/// Decodes as [`from_v8`] does, with an accelerator for field names at hand. The
/// accelerator does not change what is returned.
pub fn from_v8_cached(scope: &Heap, input: Value, key_cache: &KeyCache) -> (r: Result<
    Vec<Token>,
    DecodeError,
>)
    requires
        scope.wf(),
        scope.valid(input),
        !(decode_walk(scope, input, false) is Stuck),
    ensures
        decoded(decode_walk(scope, input, false), r),
{
    match run(scope, input, Some(key_cache), false) {
        Ok(tokens) => Ok(tokens),
        Err(Halt::Failed(e)) => Err(e),
        Err(Halt::Stuck) => Err(DecodeError::DepthExceeded),
    }
}

/// Decodes `input` by its structural kind alone, into its tokens, and captures the
/// graph: a fresh graph session is active for the whole call. Each object is walked
/// where it is met first, with its identity index and its prototype behind its
/// properties; wherever it is met again, a reference to that index stands for it.
pub fn ramson_from_v8(scope: &Heap, input: Value) -> (r: Result<Vec<Token>, DecodeError>)
    requires
        scope.wf(),
        scope.valid(input),
        !(decode_walk(scope, input, true) is Stuck),
    ensures
        decoded(decode_walk(scope, input, true), r),
{
    match run(scope, input, None, true) {
        Ok(tokens) => Ok(tokens),
        Err(Halt::Failed(e)) => Err(e),
        Err(Halt::Stuck) => Err(DecodeError::DepthExceeded),
    }
}

} // verus!
