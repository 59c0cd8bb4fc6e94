//! The contextual decoder: builds a value from a stream of decoding events
//! in one pass, classifying each string leaf under the key it stands under
//! and each key after its previous sibling.
use vstd::prelude::*;
use crate::key::{key_text, Key, KeyView, Property};
use crate::number::{Number, N};
use crate::object::ObjectAsVec;
use crate::value::{Element, Text, Value, ValueView};

verus! {

/// One decoding event, in encoded order. An optional value that is present
/// is announced by its inner events alone.
#[derive(Debug)]
pub enum DecodeEvent<'de> {
    Null,
    Bool(bool),
    Unsigned(u64),
    Signed(i64),
    /// A float, as the bit pattern of an `f64`.
    Float(u64),
    /// A string leaf.
    Str(Text<'de>),
    /// The start of a sequence; its elements follow, then `End`.
    SeqStart,
    /// The start of a map; `Key` then value events for each entry follow,
    /// then `End`.
    MapStart,
    /// A map key.
    Key(Text<'de>),
    /// The end of a sequence or map.
    End,
}

/// What an event is, for reasoning.
pub enum EventView {
    Null,
    Bool(bool),
    Unsigned(u64),
    Signed(i64),
    Float(u64),
    Str(Seq<char>),
    SeqStart,
    MapStart,
    Key(Seq<char>),
    End,
}

impl<'de> View for DecodeEvent<'de> {
    type V = EventView;

    open spec fn view(&self) -> EventView {
        match self {
            DecodeEvent::Null => EventView::Null,
            DecodeEvent::Bool(b) => EventView::Bool(*b),
            DecodeEvent::Unsigned(u) => EventView::Unsigned(*u),
            DecodeEvent::Signed(i) => EventView::Signed(*i),
            DecodeEvent::Float(b) => EventView::Float(*b),
            DecodeEvent::Str(t) => EventView::Str(t@),
            DecodeEvent::SeqStart => EventView::SeqStart,
            DecodeEvent::MapStart => EventView::MapStart,
            DecodeEvent::Key(t) => EventView::Key(t@),
            DecodeEvent::End => EventView::End,
        }
    }
}

/// The views of a sequence of events.
pub open spec fn events_view<'de>(evs: Seq<DecodeEvent<'de>>) -> Seq<EventView> {
    Seq::new(evs.len(), |i: int| evs[i]@)
}

/// Why an event stream does not decode.
#[derive(Debug, Clone, Copy, PartialEq, Eq, Structural)]
pub enum DecodeError {
    /// The events do not form a value.
    Malformed,
    /// A value is followed by more events.
    Trailing,
}

/// A string leaf under the key `parent`: an element when `E` recognizes
/// the text under that key, else the text.
pub open spec fn leaf_view<P: Property, E: Element>(parent: Option<KeyView<P>>, t: Seq<char>) -> ValueView<
    P,
    E,
> {
    match parent {
        Some(k) => match E::classify(key_text(k), t) {
            Some(e) => ValueView::Element(e),
            None => ValueView::Str(t),
        },
        None => ValueView::Str(t),
    }
}

/// A key after the key `prev`: a property when `P` recognizes the text
/// there, else the text.
pub open spec fn key_view<P: Property>(prev: Option<KeyView<P>>, t: Seq<char>) -> KeyView<P> {
    match P::classify(prev, t) {
        Some(p) => KeyView::Property(p),
        None => KeyView::Text(t),
    }
}

/// The number a signed integer decodes to.
pub open spec fn signed_number(i: i64) -> Number {
    if i >= 0 {
        Number { n: N::PosInt(i as u64) }
    } else {
        Number { n: N::NegInt(i) }
    }
}

/// The value that starts at `pos` under the key `parent`, and where the
/// events after it start; `None` when the events there do not form one.
pub open spec fn build_spec<P: Property, E: Element>(
    evs: Seq<EventView>,
    pos: int,
    parent: Option<KeyView<P>>,
) -> Option<(ValueView<P, E>, int)>
    decreases evs.len() - pos, 0int,
{
    if pos < 0 || pos >= evs.len() {
        None
    } else {
        match evs[pos] {
            EventView::Null => Some((ValueView::Null, pos + 1)),
            EventView::Bool(b) => Some((ValueView::Bool(b), pos + 1)),
            EventView::Unsigned(u) => Some((ValueView::Number(Number { n: N::PosInt(u) }), pos + 1)),
            EventView::Signed(i) => Some((ValueView::Number(signed_number(i)), pos + 1)),
            EventView::Float(b) => Some((ValueView::Number(Number { n: N::Float(b) }), pos + 1)),
            EventView::Str(t) => Some((leaf_view(parent, t), pos + 1)),
            EventView::SeqStart => build_items(evs, pos + 1, Seq::empty()),
            EventView::MapStart => build_entries(evs, pos + 1, Seq::empty(), None),
            _ => None,
        }
    }
}

/// The elements of a sequence from `pos` on, after the elements `acc`.
pub open spec fn build_items<P: Property, E: Element>(
    evs: Seq<EventView>,
    pos: int,
    acc: Seq<ValueView<P, E>>,
) -> Option<(ValueView<P, E>, int)>
    decreases evs.len() - pos, 1int,
{
    if pos < 0 || pos >= evs.len() {
        None
    } else if evs[pos] is End {
        Some((ValueView::Array(acc), pos + 1))
    } else {
        match build_spec::<P, E>(evs, pos, None) {
            Some((v, next)) => if pos < next <= evs.len() {
                build_items(evs, next, acc.push(v))
            } else {
                None
            },
            None => None,
        }
    }
}

/// The entries of a map from `pos` on, after the entries `acc` whose last
/// key is `prev`.
pub open spec fn build_entries<P: Property, E: Element>(
    evs: Seq<EventView>,
    pos: int,
    acc: Seq<(KeyView<P>, ValueView<P, E>)>,
    prev: Option<KeyView<P>>,
) -> Option<(ValueView<P, E>, int)>
    decreases evs.len() - pos, 1int,
{
    if pos < 0 || pos >= evs.len() {
        None
    } else {
        match evs[pos] {
            EventView::End => Some((ValueView::Object(acc), pos + 1)),
            EventView::Key(t) => {
                let k = key_view(prev, t);
                match build_spec::<P, E>(evs, pos + 1, Some(k)) {
                    Some((v, next)) => if pos + 1 < next <= evs.len() {
                        build_entries(evs, next, acc.push((k, v)), Some(k))
                    } else {
                        None
                    },
                    None => None,
                }
            },
            _ => None,
        }
    }
}

/// The value that the whole event stream decodes to.
pub open spec fn decode_spec<P: Property, E: Element>(evs: Seq<EventView>) -> Result<
    ValueView<P, E>,
    DecodeError,
> {
    match build_spec::<P, E>(evs, 0, None) {
        Some((v, end)) => if end == evs.len() {
            Ok(v)
        } else {
            Err(DecodeError::Trailing)
        },
        None => Err(DecodeError::Malformed),
    }
}

/// Decodes a key after the key `prev`: a property when `P` recognizes the
/// text there, else the text as given (borrowed stays borrowed).
pub fn decode_key<'de, P: Property>(prev: Option<&Key<'_, P>>, text: Text<'de>) -> (r: Key<'de, P>)
    ensures
        r@ == key_view(crate::key::opt_key_view(prev), text@),
        P::classify(crate::key::opt_key_view(prev), text@) is None ==> match text {
            Text::Borrowed(s) => r == Key::<'de, P>::Borrowed(s),
            Text::Owned(s) => r == Key::<'de, P>::Owned(s),
        },
{
    match P::try_parse(prev, text.as_str()) {
        Some(word) => Key::Property(word),
        None => match text {
            Text::Borrowed(s) => Key::Borrowed(s),
            Text::Owned(s) => Key::Owned(s),
        },
    }
}

/// Decodes a string leaf under the key `parent`: an element when `E`
/// recognizes the text under that key, else the text exactly as given.
pub fn decode_string<'de, P: Property, E: Element>(parent: Option<&Key<'_, P>>, text: Text<'de>) -> (r:
    Value<'de, P, E>)
    ensures
        r.view() == leaf_view::<P, E>(crate::key::opt_key_view(parent), text@),
        !(r is Element) ==> r == Value::<'de, P, E>::Str(text),
{
    match parent {
        Some(key) => match E::try_parse(key, text.as_str()) {
            Some(element) => Value::Element(element),
            None => Value::Str(text),
        },
        None => Value::Str(text),
    }
}

/// The value that starts at `pos` under the key `parent` (see `build_spec`).
fn build_value<'de, P: Property, E: Element>(
    events: &Vec<DecodeEvent<'de>>,
    pos: usize,
    parent: Option<&Key<'de, P>>,
) -> (r: Option<(Value<'de, P, E>, usize)>)
    ensures
        match build_spec::<P, E>(events_view(events@), pos as int, crate::key::opt_key_view(parent)) {
            Some((v, next)) => r matches Some((w, k)) && w.view() == v && k as int == next,
            None => r is None,
        },
    decreases events@.len() - pos, 0int,
{
    let ghost evs = events_view(events@);
    if pos >= events.len() {
        return None;
    }
    assert(evs[pos as int] == events@[pos as int]@);
    match &events[pos] {
        DecodeEvent::Null => Some((Value::Null, pos + 1)),
        DecodeEvent::Bool(b) => Some((Value::Bool(*b), pos + 1)),
        DecodeEvent::Unsigned(u) => Some((Value::Number(Number::from_u64(*u)), pos + 1)),
        DecodeEvent::Signed(i) => Some((Value::Number(Number::from_i64(*i)), pos + 1)),
        DecodeEvent::Float(b) => Some((Value::Number(Number::from_f64_bits(*b)), pos + 1)),
        DecodeEvent::Str(t) => Some((decode_string(parent, t.copy()), pos + 1)),
        DecodeEvent::SeqStart => build_array(events, pos + 1),
        DecodeEvent::MapStart => build_object(events, pos + 1),
        _ => None,
    }
}

/// The elements of a sequence from `pos` on (see `build_items`).
fn build_array<'de, P: Property, E: Element>(events: &Vec<DecodeEvent<'de>>, pos: usize) -> (r: Option<
    (Value<'de, P, E>, usize),
>)
    ensures
        match build_items::<P, E>(events_view(events@), pos as int, Seq::empty()) {
            Some((v, next)) => r matches Some((w, k)) && w.view() == v && k as int == next,
            None => r is None,
        },
    decreases events@.len() - pos, 1int,
{
    let ghost evs = events_view(events@);
    let mut items: Vec<Value<'de, P, E>> = Vec::new();
    let mut at: usize = pos;
    let ghost acc: Seq<ValueView<P, E>> = Seq::empty();
    proof {
        assert(items_views(items@) =~= acc);
    }
    while at < events.len()
        invariant
            evs == events_view(events@),
            pos <= at,
            acc == items_views(items@),
            build_items::<P, E>(evs, pos as int, Seq::empty()) == build_items::<P, E>(evs, at as int, acc),
        decreases events@.len() - at,
    {
        assert(evs[at as int] == events@[at as int]@);
        if let DecodeEvent::End = &events[at] {
            let r = Value::Array(items);
            proof {
                assert(r.view()->Array_0 =~= acc);
            }
            return Some((r, at + 1));
        }
        match build_value(events, at, None) {
            Some((v, next)) => {
                if next <= at || next > events.len() {
                    return None;
                }
                proof {
                    acc = acc.push(v.view());
                }
                items.push(v);
                proof {
                    assert(items_views(items@) =~= acc);
                }
                at = next;
            },
            None => {
                return None;
            },
        }
    }
    None
}

/// The views of a sequence of values.
pub open spec fn items_views<'de, P, E>(vs: Seq<Value<'de, P, E>>) -> Seq<ValueView<P, E>> {
    Seq::new(vs.len(), |i: int| vs[i].view())
}

/// The views of a sequence of entries.
pub open spec fn entries_views<'de, P, E>(es: Seq<(Key<'de, P>, Value<'de, P, E>)>) -> Seq<
    (KeyView<P>, ValueView<P, E>),
> {
    Seq::new(es.len(), |i: int| (es[i].0@, es[i].1.view()))
}

/// The entries of a map from `pos` on (see `build_entries`).
fn build_object<'de, P: Property, E: Element>(events: &Vec<DecodeEvent<'de>>, pos: usize) -> (r: Option<
    (Value<'de, P, E>, usize),
>)
    ensures
        match build_entries::<P, E>(events_view(events@), pos as int, Seq::empty(), None) {
            Some((v, next)) => r matches Some((w, k)) && w.view() == v && k as int == next,
            None => r is None,
        },
    decreases events@.len() - pos, 1int,
{
    let ghost evs = events_view(events@);
    let mut entries: Vec<(Key<'de, P>, Value<'de, P, E>)> = Vec::new();
    let mut at: usize = pos;
    let ghost acc: Seq<(KeyView<P>, ValueView<P, E>)> = Seq::empty();
    let ghost prev: Option<KeyView<P>> = None;
    proof {
        assert(entries_views(entries@) =~= acc);
    }
    while at < events.len()
        invariant
            evs == events_view(events@),
            pos <= at,
            acc == entries_views(entries@),
            prev == (if entries@.len() > 0 {
                Some(entries@.last().0@)
            } else {
                None::<KeyView<P>>
            }),
            build_entries::<P, E>(evs, pos as int, Seq::empty(), None) == build_entries::<P, E>(
                evs,
                at as int,
                acc,
                prev,
            ),
        decreases events@.len() - at,
    {
        assert(evs[at as int] == events@[at as int]@);
        match &events[at] {
            DecodeEvent::End => {
                let r = Value::Object(ObjectAsVec(entries));
                proof {
                    assert(r.view()->Object_0 =~= acc);
                }
                return Some((r, at + 1));
            },
            DecodeEvent::Key(t) => {
                let key: Key<'de, P> = if entries.len() > 0 {
                    decode_key(Some(&entries[entries.len() - 1].0), t.copy())
                } else {
                    decode_key(None, t.copy())
                };
                match build_value(events, at + 1, Some(&key)) {
                    Some((v, next)) => {
                        if next <= at + 1 || next > events.len() {
                            return None;
                        }
                        proof {
                            acc = acc.push((key@, v.view()));
                            prev = Some(key@);
                        }
                        entries.push((key, v));
                        proof {
                            assert(entries_views(entries@) =~= acc);
                        }
                        at = next;
                    },
                    None => {
                        return None;
                    },
                }
            },
            _ => {
                return None;
            },
        }
    }
    None
}

/// Decodes a whole event stream into one value.
pub fn decode_events<'de, P: Property, E: Element>(events: &Vec<DecodeEvent<'de>>) -> (r: Result<
    Value<'de, P, E>,
    DecodeError,
>)
    ensures
        match decode_spec::<P, E>(events_view(events@)) {
            Ok(v) => r is Ok && r->Ok_0.view() == v,
            Err(e) => r == Err::<Value<'de, P, E>, DecodeError>(e),
        },
{
    match build_value(events, 0, None) {
        Some((v, end)) => if end == events.len() {
            Ok(v)
        } else {
            Err(DecodeError::Trailing)
        },
        None => Err(DecodeError::Malformed),
    }
}


/// A decoded integer keeps its exact value, stored without a fraction, so
/// that `Number::integer_text` prints it back in decimal (`-123` stays
/// `-123`).
pub proof fn lemma_integer_round_trip<P: Property, E: Element>(u: u64, i: i64)
    ensures
        decode_spec::<P, E>(seq![EventView::Unsigned(u)]) matches Ok(ValueView::Number(m)) && m.int_value()
            == Some(u as int) && m.n is PosInt,
        decode_spec::<P, E>(seq![EventView::Signed(i)]) matches Ok(ValueView::Number(m)) && m.int_value()
            == Some(i as int) && (i < 0 <==> m.n is NegInt),
{
}

/// A string leaf decodes to exactly the text it was given (whatever
/// escapes the encoded form used), unless it is classified as an element.
pub proof fn lemma_string_content_kept<P: Property, E: Element>(t: Seq<char>, k: Seq<char>)
    ensures
        decode_spec::<P, E>(seq![EventView::Str(t)]) == Ok::<ValueView<P, E>, DecodeError>(
            ValueView::Str(t),
        ),
        E::classify(key_text(key_view::<P>(None, k)), t) is None ==> decode_spec::<P, E>(
            seq![EventView::MapStart, EventView::Key(k), EventView::Str(t), EventView::End],
        ) == Ok::<ValueView<P, E>, DecodeError>(
            ValueView::Object(seq![(key_view::<P>(None, k), ValueView::Str(t))]),
        ),
{
    let key = key_view::<P>(None, k);
    lemma_one_entry_map::<P, E>(k, t);
    assert(build_spec::<P, E>(seq![EventView::Str(t)], 0, None) == Some((ValueView::<P, E>::Str(t), 1int)));
}

/// The decoding of a map with a single string entry.
proof fn lemma_one_entry_map<P: Property, E: Element>(k: Seq<char>, t: Seq<char>)
    ensures
        ({
            let key = key_view::<P>(None, k);
            decode_spec::<P, E>(
                seq![EventView::MapStart, EventView::Key(k), EventView::Str(t), EventView::End],
            ) == Ok::<ValueView<P, E>, DecodeError>(
                ValueView::Object(seq![(key, leaf_view::<P, E>(Some(key), t))]),
            )
        }),
{
    let evs = seq![EventView::MapStart, EventView::Key(k), EventView::Str(t), EventView::End];
    let key = key_view::<P>(None, k);
    let leaf = leaf_view::<P, E>(Some(key), t);
    let acc1 = Seq::<(KeyView<P>, ValueView<P, E>)>::empty().push((key, leaf));
    assert(evs[0] == EventView::MapStart);
    assert(evs[1] == EventView::Key(k));
    assert(evs[2] == EventView::Str(t));
    assert(evs[3] == EventView::End);
    assert(build_spec::<P, E>(evs, 2, Some(key)) == Some((leaf, 3int)));
    assert(build_entries::<P, E>(evs, 3, acc1, Some(key)) == Some((ValueView::<P, E>::Object(acc1), 4int)));
    assert(build_entries::<P, E>(evs, 1, Seq::empty(), None) == build_entries::<P, E>(evs, 3, acc1, Some(key)));
    assert(build_spec::<P, E>(evs, 0, None) == Some((ValueView::<P, E>::Object(acc1), 4int)));
    assert(acc1 =~= seq![(key, leaf)]);
}

/// A string under a key decodes to an element exactly when the element type
/// recognizes the text under that key; otherwise it stays a string.
pub proof fn lemma_string_under_key<P: Property, E: Element>(k: Seq<char>, t: Seq<char>)
    ensures
        ({
            let key = key_view::<P>(None, k);
            let evs = seq![EventView::MapStart, EventView::Key(k), EventView::Str(t), EventView::End];
            decode_spec::<P, E>(evs) == Ok::<ValueView<P, E>, DecodeError>(
                ValueView::Object(
                    seq![
                        (
                            key,
                            match E::classify(key_text(key), t) {
                                Some(e) => ValueView::Element(e),
                                None => ValueView::Str(t),
                            },
                        ),
                    ],
                ),
            )
        }),
{
    lemma_one_entry_map::<P, E>(k, t);
}

} // verus!
