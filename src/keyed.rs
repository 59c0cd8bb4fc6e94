//! A string-keyed mapping whose values can be navigated with pointers:
//! entries in insertion order, each key at most once.
use vstd::prelude::*;
use crate::eval::{concat_all, lemma_advance, JsonPointerHandler, Snapshot, snapshot_views};
use crate::key::{key_text, Key, KeyView, Property};
use crate::object::{first_index, lemma_first_index, ObjectAsVec};
use crate::pointer::{ItemView, JsonPointerItem, JsonPointerIter};
use crate::text::{decimal_of, u64_to_text};
use crate::value::{Element, Value, ValueView};

verus! {

/// The keys of the entries, as text key views.
pub open spec fn text_keys<P, T>(es: Seq<(String, T)>) -> Seq<KeyView<P>> {
    Seq::new(es.len(), |i: int| KeyView::Text(es[i].0@))
}

/// Whether the keys of the entries are pairwise different.
pub open spec fn unique_keys<T>(es: Seq<(String, T)>) -> bool {
    forall|i: int, j: int| 0 <= i < j < es.len() ==> (#[trigger] es[i]).0@ != (#[trigger] es[j]).0@
}

/// A mapping from strings to values of `T`, in insertion order.
#[derive(Debug, Clone)]
pub struct StringMap<T> {
    pub entries: Vec<(String, T)>,
}

/// Position of the entry whose key text is `t`, or -1.
pub open spec fn key_position<T>(es: Seq<(String, T)>, t: Seq<char>) -> int
    decreases es.len(),
{
    if es.len() == 0 {
        -1
    } else if es[0].0@ == t {
        0
    } else {
        let r = key_position(es.drop_first(), t);
        if r < 0 {
            -1
        } else {
            r + 1
        }
    }
}

/// `key_position` finds the entry with that key, and -1 means there is none.
pub proof fn lemma_key_position<T>(es: Seq<(String, T)>, t: Seq<char>)
    ensures
        -1 <= key_position(es, t) < es.len(),
        key_position(es, t) >= 0 ==> es[key_position(es, t)].0@ == t,
        forall|j: int| 0 <= j < key_position(es, t) ==> (#[trigger] es[j]).0@ != t,
        key_position(es, t) == -1 <==> forall|j: int| 0 <= j < es.len() ==> (#[trigger] es[j]).0@ != t,
    decreases es.len(),
{
    if es.len() > 0 {
        lemma_key_position(es.drop_first(), t);
        assert forall|j: int| 1 <= j < es.len() implies #[trigger] es[j] == es.drop_first()[j - 1] by {}
        if es[0].0@ != t {
            if forall|j: int| 0 <= j < es.len() ==> (#[trigger] es[j]).0@ != t {
                assert forall|j: int| 0 <= j < es.len() - 1 implies (#[trigger] es.drop_first()[j]).0@ != t by {
                    assert(es.drop_first()[j] == es[j + 1]);
                }
            }
        }
    }
}

/// Looking text keys up with `first_index` finds the same position.
pub proof fn lemma_text_keys_position<P: Property, T>(es: Seq<(String, T)>, t: Seq<char>)
    ensures
        first_index(text_keys::<P, T>(es), t) == key_position(es, t),
    decreases es.len(),
{
    if es.len() > 0 {
        lemma_text_keys_position::<P, T>(es.drop_first(), t);
        assert(text_keys::<P, T>(es).drop_first() =~= text_keys::<P, T>(es.drop_first()));
    }
}

impl<T> StringMap<T> {
    /// Well-formed: each key at most once.
    pub open spec fn wf(&self) -> bool {
        unique_keys(self.entries@)
    }

    /// An empty mapping.
    pub fn new() -> (r: Self)
        ensures
            r.entries@.len() == 0,
            r.wf(),
    {
        StringMap { entries: Vec::new() }
    }

    /// The position of the entry with key `key`.
    pub fn position(&self, key: &str) -> (r: Option<usize>)
        ensures
            match r {
                Some(i) => i as int == key_position(self.entries@, key@) && i < self.entries@.len(),
                None => key_position(self.entries@, key@) == -1,
            },
    {
        proof {
            lemma_key_position(self.entries@, key@);
        }
        let target = key.to_owned();
        let mut i: usize = 0;
        while i < self.entries.len()
            invariant
                i <= self.entries@.len(),
                target@ == key@,
                forall|j: int| 0 <= j < i ==> (#[trigger] self.entries@[j]).0@ != key@,
                -1 <= key_position(self.entries@, key@) < self.entries@.len(),
                key_position(self.entries@, key@) >= 0 ==> self.entries@[key_position(
                    self.entries@,
                    key@,
                )].0@ == key@,
                key_position(self.entries@, key@) == -1 <==> forall|j: int|
                    0 <= j < self.entries@.len() ==> (#[trigger] self.entries@[j]).0@ != key@,
                forall|j: int|
                    0 <= j < key_position(self.entries@, key@) ==> (#[trigger] self.entries@[j]).0@
                        != key@,
            decreases self.entries@.len() - i,
        {
            if self.entries[i].0 == target {
                proof {
                    let p = key_position(self.entries@, key@);
                    assert(self.entries@[i as int].0@ == key@);
                    if p >= 0 && p < i {
                        assert(self.entries@[p].0@ != key@);
                    }
                    if p > i {
                        assert(self.entries@[i as int].0@ != key@);
                    }
                }
                return Some(i);
            }
            i = i + 1;
        }
        None
    }

    /// The value under `key`.
    pub fn get(&self, key: &str) -> (r: Option<&T>)
        ensures
            ({
                let i = key_position(self.entries@, key@);
                if i >= 0 {
                    r == Some(&self.entries@[i].1)
                } else {
                    r is None
                }
            }),
    {
        match self.position(key) {
            Some(i) => Some(&self.entries[i].1),
            None => None,
        }
    }

    /// Sets the value under `key`, returning the previous one; a new key is
    /// appended.
    pub fn insert(&mut self, key: String, value: T) -> (r: Option<T>)
        requires
            old(self).wf(),
        ensures
            final(self).wf(),
            ({
                let i = key_position(old(self).entries@, key@);
                if i >= 0 {
                    r == Some(old(self).entries@[i].1) && final(self).entries@ == old(
                        self,
                    ).entries@.update(i, (old(self).entries@[i].0, value))
                } else {
                    r is None && final(self).entries@ == old(self).entries@.push((key, value))
                }
            }),
    {
        proof {
            lemma_key_position(self.entries@, key@);
        }
        match self.position(key.as_str()) {
            Some(pos) => {
                let mut previous = value;
                std::mem::swap(&mut self.entries[pos].1, &mut previous);
                proof {
                    assert(final(self).entries@ =~= old(self).entries@.update(
                        pos as int,
                        (old(self).entries@[pos as int].0, value),
                    ));
                    assert forall|i: int, j: int|
                        0 <= i < j < final(self).entries@.len() implies (#[trigger] final(self).entries@[i]).0@
                        != (#[trigger] final(self).entries@[j]).0@ by {
                        assert(final(self).entries@[i].0 == old(self).entries@[i].0);
                        assert(final(self).entries@[j].0 == old(self).entries@[j].0);
                    }
                }
                Some(previous)
            },
            None => {
                self.entries.push((key, value));
                proof {
                    assert forall|i: int, j: int|
                        0 <= i < j < final(self).entries@.len() implies (#[trigger] final(self).entries@[i]).0@
                        != (#[trigger] final(self).entries@[j]).0@ by {
                        if j == old(self).entries@.len() {
                            assert(old(self).entries@[i].0@ != key@);
                        }
                    }
                }
                None
            },
        }
    }

    /// The number of entries.
    pub fn len(&self) -> (r: usize)
        ensures
            r == self.entries@.len(),
    {
        self.entries.len()
    }
}


/// The entries as an object view: text keys and the items' models.
pub open spec fn entry_models<'x, P: Property, E: Element, T: JsonPointerHandler<'x, P, E>>(
    es: Seq<(String, T)>,
) -> Seq<(KeyView<P>, ValueView<P, E>)> {
    Seq::new(es.len(), |i: int| (KeyView::Text(es[i].0@), es[i].1.model()))
}

/// The entries after setting `m` under the text `t`: the first entry with
/// that text is updated, else a new one is appended.
pub open spec fn insert_model<P: Property, E: Element>(
    acc: Seq<(KeyView<P>, ValueView<P, E>)>,
    t: Seq<char>,
    m: ValueView<P, E>,
) -> Seq<(KeyView<P>, ValueView<P, E>)> {
    let i = first_index(crate::object::view_keys(acc), t);
    if i >= 0 {
        acc.update(i, (acc[i].0, m))
    } else {
        acc.push((KeyView::Text(t), m))
    }
}

/// The entries a mapping built from the object entries `vs` holds, one
/// insert per entry in order (a later duplicate key replaces the value);
/// `None` when some value does not convert.
pub open spec fn convert_entries<'x, P: Property, E: Element, T: JsonPointerHandler<'x, P, E>>(
    vs: Seq<(KeyView<P>, ValueView<P, E>)>,
) -> Option<Seq<(KeyView<P>, ValueView<P, E>)>>
    decreases vs.len(),
{
    if vs.len() == 0 {
        Some(Seq::empty())
    } else {
        match convert_entries::<'x, P, E, T>(vs.drop_last()) {
            Some(acc) => match T::converts(vs.last().1) {
                Some(m) => Some(insert_model(acc, key_text(vs.last().0), m)),
                None => None,
            },
            None => None,
        }
    }
}

/// The matches of `ptr` in each value.
pub open spec fn value_matches<'x, P: Property, E: Element, T: JsonPointerHandler<'x, P, E>>(
    es: Seq<(String, T)>,
    ptr: Seq<ItemView<P>>,
) -> Seq<Seq<ValueView<P, E>>> {
    Seq::new(es.len(), |i: int| es[i].1.eval_model(ptr))
}

/// What the value at `i` becomes when `value` is written through `rest`:
/// patched by the value itself when segments remain, else replaced by the
/// conversion of `value`.
pub open spec fn write_at<'x, P: Property, E: Element, T: JsonPointerHandler<'x, P, E>>(
    es: Seq<(String, T)>,
    i: int,
    rest: Seq<ItemView<P>>,
    value: ValueView<P, E>,
) -> Option<ValueView<P, E>> {
    if rest.len() > 0 {
        es[i].1.patch_model(rest, value)
    } else {
        T::converts(value)
    }
}

/// The mapping's model after changing the value at `i` to the model `m`.
pub open spec fn changed_at<'x, P: Property, E: Element, T: JsonPointerHandler<'x, P, E>>(
    es: Seq<(String, T)>,
    i: int,
    changed: Option<ValueView<P, E>>,
) -> Option<ValueView<P, E>> {
    match changed {
        Some(m) => Some(ValueView::Object(entry_models(es).update(i, (KeyView::Text(es[i].0@), m)))),
        None => None,
    }
}

/// Writes `value` at entry `pos` through the rest of `cursor` (see
/// `write_at`); nothing changes when that fails.
fn patch_entry<'x, P: Property, E: Element, T: JsonPointerHandler<'x, P, E>>(
    map: &mut StringMap<T>,
    pos: usize,
    cursor: JsonPointerIter<'_, P>,
    value: Value<'x, P, E>,
) -> (r: bool)
        requires
            pos < old(map).entries@.len(),
        ensures
            ({
                let out = changed_at(
                    old(map).entries@,
                    pos as int,
                    write_at(old(map).entries@, pos as int, cursor.rest(), value.view()),
                );
                &&& r == out is Some
                &&& JsonPointerHandler::<'x, P, E>::model(final(map)) == match out {
                    Some(m) => m,
                    None => JsonPointerHandler::<'x, P, E>::model(old(map)),
                }
            }),
    {
        let ghost old_entries = map.entries@;
        if cursor.peek().is_some() {
            let r = map.entries[pos].1.patch_jptr(cursor, value);
            proof {
                if r {
                    assert(entry_models(map.entries@) =~= entry_models(old_entries).update(
                        pos as int,
                        (KeyView::Text(old_entries[pos as int].0@), map.entries@[pos as int].1.model()),
                    ));
                } else {
                    assert(entry_models(map.entries@) =~= entry_models(old_entries));
                }
            }
            r
        } else {
            match T::from_value(value) {
                Some(item) => {
                    map.entries[pos].1 = item;
                    proof {
                        assert(entry_models(map.entries@) =~= entry_models(old_entries).update(
                            pos as int,
                            (KeyView::Text(old_entries[pos as int].0@), item.model()),
                        ));
                    }
                    true
                },
                None => false,
            }
        }
    }

impl<'x, P: Property, E: Element, T: JsonPointerHandler<'x, P, E>> JsonPointerHandler<'x, P, E> for StringMap<T> {
    open spec fn model(&self) -> ValueView<P, E> {
        ValueView::Object(entry_models(self.entries@))
    }

    open spec fn eval_model(&self, ptr: Seq<ItemView<P>>) -> Seq<ValueView<P, E>> {
        let es = self.entries@;
        if ptr.len() == 0 {
            seq![self.model()]
        } else {
            let rest = ptr.drop_first();
            match ptr[0] {
                ItemView::Key(k) => {
                    let i = key_position(es, key_text(k));
                    if i >= 0 {
                        es[i].1.eval_model(rest)
                    } else {
                        Seq::empty()
                    }
                },
                ItemView::Number(n) => {
                    let i = key_position(es, decimal_of(n as nat));
                    if i >= 0 {
                        es[i].1.eval_model(rest)
                    } else {
                        Seq::empty()
                    }
                },
                ItemView::Wildcard => concat_all(value_matches(es, rest)),
                ItemView::Root => seq![self.model()],
            }
        }
    }

    open spec fn patch_model(&self, ptr: Seq<ItemView<P>>, value: ValueView<P, E>) -> Option<
        ValueView<P, E>,
    > {
        let es = self.entries@;
        if ptr.len() == 0 {
            None
        } else {
            let rest = ptr.drop_first();
            match ptr[0] {
                ItemView::Key(k) => {
                    let i = key_position(es, key_text(k));
                    if i >= 0 {
                        changed_at(es, i, write_at(es, i, rest, value))
                    } else if rest.len() == 0 {
                        match T::converts(value) {
                            Some(m) => Some(
                                ValueView::Object(entry_models(es).push((KeyView::Text(key_text(k)), m))),
                            ),
                            None => None,
                        }
                    } else {
                        None
                    }
                },
                ItemView::Number(n) => {
                    let i = key_position(es, decimal_of(n as nat));
                    if i >= 0 {
                        changed_at(es, i, write_at(es, i, rest, value))
                    } else {
                        None
                    }
                },
                _ => None,
            }
        }
    }

    open spec fn converts(value: ValueView<P, E>) -> Option<ValueView<P, E>> {
        match value {
            ValueView::Object(vs) => match convert_entries::<'x, P, E, T>(vs) {
                Some(acc) => Some(ValueView::Object(acc)),
                None => None,
            },
            _ => None,
        }
    }

    fn eval_jptr<'y>(&'y self, pointer: JsonPointerIter<'_, P>, results: &mut Vec<Snapshot<'y, 'x, P, E>>) {
        let ghost start = snapshot_views(results@);
        let mut cursor = pointer;
        let next = cursor.next();
        proof {
            lemma_advance(pointer, cursor);
        }
        match next {
            Some(JsonPointerItem::Key(key)) => {
                let text = key.to_string();
                if let Some(pos) = self.position(text.as_str()) {
                    self.entries[pos].1.eval_jptr(cursor, results);
                }
            },
            Some(JsonPointerItem::Number(n)) => {
                let text = u64_to_text(*n);
                if let Some(pos) = self.position(text.as_str()) {
                    self.entries[pos].1.eval_jptr(cursor, results);
                }
            },
            Some(JsonPointerItem::Wildcard) => {
                let ghost parts = value_matches(self.entries@, cursor.rest());
                let mut i: usize = 0;
                while i < self.entries.len()
                    invariant
                        i <= self.entries@.len(),
                        parts == value_matches(self.entries@, cursor.rest()),
                        snapshot_views(results@) == start + concat_all(parts.subrange(0, i as int)),
                    decreases self.entries@.len() - i,
                {
                    self.entries[i].1.eval_jptr(cursor, results);
                    proof {
                        assert(parts.subrange(0, i + 1).drop_last() =~= parts.subrange(0, i as int));
                    }
                    i = i + 1;
                }
                proof {
                    assert(parts.subrange(0, self.entries@.len() as int) =~= parts);
                }
            },
            _ => {
                let snapshot = self.to_value();
                results.push(snapshot);
                proof {
                    assert(snapshot_views(results@) =~= start + seq![self.model()]);
                }
            },
        }
    }

    fn patch_jptr(&mut self, pointer: JsonPointerIter<'_, P>, value: Value<'x, P, E>) -> (r: bool) {
        let ghost old_entries = self.entries@;
        let mut cursor = pointer;
        let next = cursor.next();
        proof {
            lemma_advance(pointer, cursor);
        }
        match next {
            Some(JsonPointerItem::Key(key)) => {
                let text = key.to_string();
                match self.position(text.as_str()) {
                    Some(pos) => patch_entry(self, pos, cursor, value),
                    None => {
                        if cursor.peek().is_none() {
                            match T::from_value(value) {
                                Some(item) => {
                                    proof {
                                        lemma_key_position(old_entries, text@);
                                    }
                                    self.entries.push((text, item));
                                    proof {
                                        assert(entry_models(self.entries@) =~= entry_models(old_entries).push(
                                            (KeyView::Text(key.text()), item.model()),
                                        ));
                                    }
                                    true
                                },
                                None => false,
                            }
                        } else {
                            false
                        }
                    },
                }
            },
            Some(JsonPointerItem::Number(n)) => {
                let text = u64_to_text(*n);
                match self.position(text.as_str()) {
                    Some(pos) => patch_entry(self, pos, cursor, value),
                    None => false,
                }
            },
            _ => false,
        }
    }

    fn to_value<'y>(&'y self) -> (r: Snapshot<'y, 'x, P, E>) {
        let mut out: Vec<(Key<'x, P>, Value<'x, P, E>)> = Vec::new();
        let mut i: usize = 0;
        while i < self.entries.len()
            invariant
                i <= self.entries@.len(),
                out@.len() == i,
                forall|j: int|
                    0 <= j < i ==> (#[trigger] out@[j]).0@ == KeyView::<P>::Text(self.entries@[j].0@)
                        && out@[j].1.view() == self.entries@[j].1.model(),
            decreases self.entries@.len() - i,
        {
            let key: Key<'x, P> = Key::Owned(self.entries[i].0.clone());
            let item = self.entries[i].1.to_value();
            out.push((key, item.into_owned()));
            i = i + 1;
        }
        let r = Value::Object(ObjectAsVec(out));
        proof {
            assert(r.view()->Object_0 =~= entry_models(self.entries@));
        }
        Snapshot::Owned(r)
    }

    fn from_value(value: Value<'x, P, E>) -> (r: Option<Self>) {
        let ghost v = value.view();
        match value {
            Value::Object(obj) => {
                let ghost vs = v->Object_0;
                let ghost all = obj.0@;
                proof {
                    assert(vs.len() == all.len());
                    assert forall|j: int| 0 <= j < all.len() implies #[trigger] vs[j] == (all[j].0@, all[j].1.view()) by {}
                }
                let mut map: StringMap<T> = StringMap::new();
                proof {
                    assert(entry_models(map.entries@) =~= Seq::<(KeyView<P>, ValueView<P, E>)>::empty());
                    assert(vs.subrange(0, 0) =~= Seq::<(KeyView<P>, ValueView<P, E>)>::empty());
                }
                for entry in it: obj.0
                    invariant
                        it.seq() == all,
                        v == ValueView::<P, E>::Object(vs),
                        v == value.view(),
                        vs.len() == all.len(),
                        forall|j: int| 0 <= j < all.len() ==> #[trigger] vs[j] == (all[j].0@, all[j].1.view()),
                        map.wf(),
                        convert_entries::<'x, P, E, T>(vs.subrange(0, it.index() as int)) == Some(
                            entry_models(map.entries@),
                        ),
                {
                    let ghost k = it.index();
                    assert(entry == all[k]);
                    let (key, item) = entry;
                    let text = key.into_string();
                    proof {
                        assert(vs.subrange(0, k + 1).drop_last() =~= vs.subrange(0, k));
                        assert(vs.subrange(0, k + 1).last() == vs[k]);
                    }
                    match T::from_value(item) {
                        Some(t) => {
                            let ghost before = map.entries@;
                            proof {
                                lemma_text_keys_position::<P, T>(before, text@);
                                assert(crate::object::view_keys(entry_models(before)) =~= text_keys::<P, T>(before));
                                lemma_key_position(before, text@);
                            }
                            map.insert(text, t);
                            proof {
                                let i = key_position(before, text@);
                                if i >= 0 {
                                    assert(entry_models(map.entries@) =~= insert_model(entry_models(before), text@, t.model()));
                                } else {
                                    assert(entry_models(map.entries@) =~= insert_model(entry_models(before), text@, t.model()));
                                }
                            }
                        },
                        None => {
                            proof {
                                assert(convert_entries::<'x, P, E, T>(vs.subrange(0, k + 1)) is None);
                                lemma_convert_prefix_fails::<'x, P, E, T>(vs, k + 1);
                            }
                            return None;
                        },
                    }
                }
                proof {
                    assert(vs.subrange(0, vs.len() as int) =~= vs);
                }
                Some(map)
            },
            _ => None,
        }
    }
}

/// Once a prefix of the entries fails to convert, the whole does too.
proof fn lemma_convert_prefix_fails<'x, P: Property, E: Element, T: JsonPointerHandler<'x, P, E>>(
    vs: Seq<(KeyView<P>, ValueView<P, E>)>,
    n: int,
)
    requires
        0 <= n <= vs.len(),
        convert_entries::<'x, P, E, T>(vs.subrange(0, n)) is None,
    ensures
        convert_entries::<'x, P, E, T>(vs) is None,
    decreases vs.len() - n,
{
    if n < vs.len() {
        assert(vs.subrange(0, n + 1).drop_last() =~= vs.subrange(0, n));
        lemma_convert_prefix_fails::<'x, P, E, T>(vs, n + 1);
    } else {
        assert(vs.subrange(0, n) =~= vs);
    }
}

} // verus!
