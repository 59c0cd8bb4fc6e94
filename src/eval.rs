//! The pointer engine: evaluate a pointer against a tree (collecting every
//! match, wildcards fanning out) and patch the one node it addresses.
use vstd::prelude::*;
use crate::key::{key_text, Key, KeyView, Property};
use crate::object::{entry_keys, first_index, lemma_first_index, view_keys, ObjectAsVec};
use crate::pointer::{ItemView, JsonPointerItem, JsonPointerIter};
use crate::text::{decimal_of, u64_to_text};
use crate::value::{Element, Value, ValueView};

verus! {

/// A node found by evaluation: borrowed from the tree, or built for the
/// occasion.
#[derive(Debug)]
pub enum Snapshot<'y, 'x, P, E> {
    Borrowed(&'y Value<'x, P, E>),
    Owned(Value<'x, P, E>),
}

impl<'y, 'x, P, E> Snapshot<'y, 'x, P, E> {
    /// The view of the node.
    pub open spec fn view(&self) -> ValueView<P, E> {
        match self {
            Snapshot::Borrowed(v) => v.view(),
            Snapshot::Owned(v) => v.view(),
        }
    }

    /// The node.
    pub fn value(&self) -> (r: &Value<'x, P, E>)
        ensures
            r.view() == self.view(),
    {
        match self {
            Snapshot::Borrowed(v) => v,
            Snapshot::Owned(v) => v,
        }
    }
}

impl<'y, 'x, P: Property, E: Element> Snapshot<'y, 'x, P, E> {
    /// The node as an owned value (a copy when it is borrowed).
    pub fn into_owned(self) -> (r: Value<'x, P, E>)
        ensures
            r.view() == self.view(),
    {
        match self {
            Snapshot::Borrowed(v) => v.deep_clone(),
            Snapshot::Owned(v) => v,
        }
    }
}

/// The views of a sequence of snapshots.
pub open spec fn snapshot_views<'y, 'x, P, E>(s: Seq<Snapshot<'y, 'x, P, E>>) -> Seq<ValueView<P, E>> {
    Seq::new(s.len(), |i: int| s[i].view())
}

/// The concatenation of a sequence of sequences, in order.
pub open spec fn concat_all<A>(parts: Seq<Seq<A>>) -> Seq<A>
    decreases parts.len(),
{
    if parts.len() == 0 {
        Seq::empty()
    } else {
        concat_all(parts.drop_last()) + parts.last()
    }
}

/// The nodes of `v` that `ptr` addresses, in document order, depth first;
/// a wildcard contributes the matches of every child, duplicates kept.
pub open spec fn eval_view<P: Property, E: Element>(v: ValueView<P, E>, ptr: Seq<ItemView<P>>) -> Seq<
    ValueView<P, E>,
>
    decreases 2 * ptr.len() + 1,
{
    if ptr.len() == 0 {
        seq![v]
    } else {
        let rest = ptr.drop_first();
        match ptr[0] {
            ItemView::Root => seq![v],
            ItemView::Key(k) => match v {
                ValueView::Object(es) => {
                    let i = first_index(view_keys(es), key_text(k));
                    if i >= 0 {
                        eval_view(es[i].1, rest)
                    } else {
                        Seq::empty()
                    }
                },
                _ => Seq::empty(),
            },
            ItemView::Number(n) => match v {
                ValueView::Array(xs) => if n < xs.len() {
                    eval_view(xs[n as int], rest)
                } else {
                    Seq::empty()
                },
                ValueView::Object(es) => {
                    let i = first_index(view_keys(es), decimal_of(n as nat));
                    if i >= 0 {
                        eval_view(es[i].1, rest)
                    } else {
                        Seq::empty()
                    }
                },
                _ => Seq::empty(),
            },
            ItemView::Wildcard => match v {
                ValueView::Array(xs) => concat_all(eval_each(xs, rest)),
                ValueView::Object(es) => concat_all(eval_each_entry(es, rest)),
                _ => Seq::empty(),
            },
        }
    }
}

/// The matches of `ptr` in each of `xs`.
pub open spec fn eval_each<P: Property, E: Element>(
    xs: Seq<ValueView<P, E>>,
    ptr: Seq<ItemView<P>>,
) -> Seq<Seq<ValueView<P, E>>>
    decreases 2 * ptr.len() + 2,
{
    Seq::new(xs.len(), |j: int| eval_view(xs[j], ptr))
}

/// The matches of `ptr` in the value of each of `es`.
pub open spec fn eval_each_entry<P: Property, E: Element>(
    es: Seq<(KeyView<P>, ValueView<P, E>)>,
    ptr: Seq<ItemView<P>>,
) -> Seq<Seq<ValueView<P, E>>>
    decreases 2 * ptr.len() + 2,
{
    Seq::new(es.len(), |j: int| eval_view(es[j].1, ptr))
}

/// The entry list after replacing the value at `i` with the result of
/// patching it with the rest of the pointer (or with `new` when the pointer
/// ends there).
pub open spec fn patch_entry<P: Property, E: Element>(
    es: Seq<(KeyView<P>, ValueView<P, E>)>,
    i: int,
    rest: Seq<ItemView<P>>,
    new: ValueView<P, E>,
) -> Option<ValueView<P, E>>
    decreases 2 * rest.len() + 2,
{
    if rest.len() > 0 {
        match patch_view(es[i].1, rest, new) {
            Some(c) => Some(ValueView::Object(es.update(i, (es[i].0, c)))),
            None => None,
        }
    } else {
        Some(ValueView::Object(es.update(i, (es[i].0, new))))
    }
}

/// The tree after writing `new` at the node `ptr` addresses, or `None` when
/// it addresses none. A missing key is added only as the last segment;
/// wildcard and root segments address nothing.
pub open spec fn patch_view<P: Property, E: Element>(
    v: ValueView<P, E>,
    ptr: Seq<ItemView<P>>,
    new: ValueView<P, E>,
) -> Option<ValueView<P, E>>
    decreases 2 * ptr.len() + 1,
{
    if ptr.len() == 0 {
        None
    } else {
        let rest = ptr.drop_first();
        match ptr[0] {
            ItemView::Key(k) => match v {
                ValueView::Object(es) => {
                    let i = first_index(view_keys(es), key_text(k));
                    if i >= 0 {
                        patch_entry(es, i, rest, new)
                    } else if rest.len() == 0 {
                        Some(ValueView::Object(es.push((k, new))))
                    } else {
                        None
                    }
                },
                _ => None,
            },
            ItemView::Number(n) => match v {
                ValueView::Array(xs) => if n < xs.len() {
                    if rest.len() > 0 {
                        match patch_view(xs[n as int], rest, new) {
                            Some(c) => Some(ValueView::Array(xs.update(n as int, c))),
                            None => None,
                        }
                    } else {
                        Some(ValueView::Array(xs.update(n as int, new)))
                    }
                } else {
                    None
                },
                ValueView::Object(es) => {
                    let i = first_index(view_keys(es), decimal_of(n as nat));
                    if i >= 0 {
                        patch_entry(es, i, rest, new)
                    } else {
                        None
                    }
                },
                _ => None,
            },
            _ => None,
        }
    }
}

/// Advancing a cursor drops the first segment view.
pub(crate) proof fn lemma_advance<'a, P>(before: JsonPointerIter<'a, P>, after: JsonPointerIter<'a, P>)
    requires
        before.rest_items().len() > 0 ==> after.rest_items() == before.rest_items().drop_first(),
    ensures
        before.rest_items().len() > 0 ==> after.rest() == before.rest().drop_first() && before.rest()[0]
            == before.rest_items()[0]@,
        before.rest().len() == before.rest_items().len(),
{
    if before.rest_items().len() > 0 {
        assert(after.rest() =~= before.rest().drop_first());
    }
}

/// The view of an object's entries.
proof fn lemma_object_view<'x, P: Property, E: Element>(v: &Value<'x, P, E>)
    requires
        v is Object,
    ensures
        view_keys(v.view()->Object_0) == entry_keys(v->Object_0.0@),
        v.view()->Object_0.len() == v->Object_0.0@.len(),
        forall|i: int|
            0 <= i < v->Object_0.0@.len() ==> #[trigger] v.view()->Object_0[i] == (
                v->Object_0.0@[i].0@,
                v->Object_0.0@[i].1.view(),
            ),
{
    assert(view_keys(v.view()->Object_0) =~= entry_keys(v->Object_0.0@));
}

/// Appends to `results` the nodes of `v` that the rest of `pointer`
/// addresses (see `eval_view`).
pub fn eval_value<'y, 'x, P: Property, E: Element>(
    v: &'y Value<'x, P, E>,
    pointer: JsonPointerIter<'_, P>,
    results: &mut Vec<Snapshot<'y, 'x, P, E>>,
)
    ensures
        snapshot_views(final(results)@) == snapshot_views(old(results)@) + eval_view(
            v.view(),
            pointer.rest(),
        ),
    decreases pointer.rest().len(),
{
    let ghost start = snapshot_views(results@);
    let mut cursor = pointer;
    let next = cursor.next();
    proof {
        lemma_advance(pointer, cursor);
    }
    match next {
        Some(JsonPointerItem::Key(key)) => {
            if let Value::Object(map) = v {
                proof {
                    lemma_object_view(v);
                }
                if let Some(pos) = map.position(key) {
                    eval_value(&map.0[pos].1, cursor, results);
                }
            }
            assert(snapshot_views(results@) =~= start + eval_view(v.view(), pointer.rest()));
        },
        Some(JsonPointerItem::Number(n)) => {
            match v {
                Value::Array(values) => {
                    if (*n as u128) < (values.len() as u128) {
                        eval_value(&values[*n as usize], cursor, results);
                    }
                },
                Value::Object(map) => {
                    proof {
                        lemma_object_view(v);
                    }
                    let text = u64_to_text(*n);
                    let key: Key<'_, P> = Key::Owned(text);
                    if let Some(pos) = map.position(&key) {
                        eval_value(&map.0[pos].1, cursor, results);
                    }
                },
                _ => {},
            }
            assert(snapshot_views(results@) =~= start + eval_view(v.view(), pointer.rest()));
        },
        Some(JsonPointerItem::Wildcard) => {
            match v {
                Value::Array(values) => {
                    let ghost parts = Seq::new(
                        values@.len(),
                        |j: int| eval_view(values@[j].view(), cursor.rest()),
                    );
                    let mut i: usize = 0;
                    while i < values.len()
                        invariant
                            i <= values@.len(),
                            parts == Seq::new(
                                values@.len(),
                                |j: int| eval_view(values@[j].view(), cursor.rest()),
                            ),
                            snapshot_views(results@) == start + concat_all(parts.subrange(0, i as int)),
                            cursor.rest().len() < pointer.rest().len(),
                        decreases values@.len() - i,
                    {
                        eval_value(&values[i], cursor, results);
                        proof {
                            assert(parts.subrange(0, i + 1).drop_last() =~= parts.subrange(0, i as int));
                        }
                        i = i + 1;
                    }
                    proof {
                        assert(parts.subrange(0, values@.len() as int) =~= parts);
                        let xs = v.view()->Array_0;
                        let rest = pointer.rest().drop_first();
                        assert(xs.len() == values@.len());
                        assert(rest == cursor.rest());
                        assert(eval_each(xs, rest) =~= parts);
                        assert(eval_view(v.view(), pointer.rest()) == concat_all(eval_each(xs, rest)));
                    }
                    assert(snapshot_views(results@) =~= start + eval_view(v.view(), pointer.rest()));
                },
                Value::Object(map) => {
                    proof {
                        lemma_object_view(v);
                    }
                    let ghost parts = Seq::new(
                        map.0@.len(),
                        |j: int| eval_view(map.0@[j].1.view(), cursor.rest()),
                    );
                    let mut i: usize = 0;
                    while i < map.0.len()
                        invariant
                            i <= map.0@.len(),
                            parts == Seq::new(
                                map.0@.len(),
                                |j: int| eval_view(map.0@[j].1.view(), cursor.rest()),
                            ),
                            snapshot_views(results@) == start + concat_all(parts.subrange(0, i as int)),
                            cursor.rest().len() < pointer.rest().len(),
                        decreases map.0@.len() - i,
                    {
                        eval_value(&map.0[i].1, cursor, results);
                        proof {
                            assert(parts.subrange(0, i + 1).drop_last() =~= parts.subrange(0, i as int));
                        }
                        i = i + 1;
                    }
                    proof {
                        assert(parts.subrange(0, map.0@.len() as int) =~= parts);
                        let es = v.view()->Object_0;
                        let rest = pointer.rest().drop_first();
                        assert(rest == cursor.rest());
                        assert(eval_each_entry(es, rest) =~= parts);
                        assert(eval_view(v.view(), pointer.rest()) == concat_all(eval_each_entry(es, rest)));
                    }
                    assert(snapshot_views(results@) =~= start + eval_view(v.view(), pointer.rest()));
                },
                _ => {},
            }
            assert(snapshot_views(results@) =~= start + eval_view(v.view(), pointer.rest()));
        },
        _ => {
            results.push(Snapshot::Borrowed(v));
            proof {
                assert(snapshot_views(results@) =~= start + seq![v.view()]);
            }
        },
    }
}


/// The tree after a patch: the patched tree, or the old one when nothing was
/// addressed.
pub open spec fn patched<P: Property, E: Element>(
    v: ValueView<P, E>,
    ptr: Seq<ItemView<P>>,
    new: ValueView<P, E>,
) -> ValueView<P, E> {
    match patch_view(v, ptr, new) {
        Some(w) => w,
        None => v,
    }
}

/// Writes the value of entry `pos` through the rest of the pointer (or
/// replaces it when the pointer ends there).
fn patch_entry_at<'x, P: Property, E: Element>(
    map: &mut ObjectAsVec<'x, P, E>,
    pos: usize,
    cursor: JsonPointerIter<'_, P>,
    value: Value<'x, P, E>,
) -> (r: bool)
    requires
        pos < old(map).0@.len(),
    ensures
        ({
            let es = Value::<'x, P, E>::Object(*old(map)).view()->Object_0;
            let out = patch_entry(es, pos as int, cursor.rest(), value.view());
            &&& r == out is Some
            &&& Value::<'x, P, E>::Object(*final(map)).view() == match out {
                Some(w) => w,
                None => Value::<'x, P, E>::Object(*old(map)).view(),
            }
        }),
    decreases 2 * cursor.rest().len() + 2,
{
    let ghost old_view = Value::<'x, P, E>::Object(*map).view();
    let ghost old_entries = map.0@;
    let ghost new_view = value.view();
    if cursor.peek().is_some() {
        let child = &mut map.0[pos].1;
        let r = patch_value(child, cursor, value);
        proof {
            let after = Value::<'x, P, E>::Object(*final(map));
            assert(final(map).0@ == old_entries.update(pos as int, (old_entries[pos as int].0, *final(child))));
            if r {
                assert(after.view()->Object_0 =~= old_view->Object_0.update(
                    pos as int,
                    (old_view->Object_0[pos as int].0, final(child).view()),
                ));
            } else {
                assert(after.view()->Object_0 =~= old_view->Object_0);
            }
        }
        r
    } else {
        map.0[pos].1 = value;
        proof {
            let after = Value::<'x, P, E>::Object(*final(map));
            assert(after.view()->Object_0 =~= old_view->Object_0.update(
                pos as int,
                (old_view->Object_0[pos as int].0, new_view),
            ));
        }
        true
    }
}

/// Writes `value` at the node of `v` that the rest of `pointer` addresses
/// (see `patch_view`); returns whether there was one. Nothing changes when
/// there is none.
pub fn patch_value<'x, P: Property, E: Element>(
    v: &mut Value<'x, P, E>,
    pointer: JsonPointerIter<'_, P>,
    value: Value<'x, P, E>,
) -> (r: bool)
    ensures
        r == patch_view(old(v).view(), pointer.rest(), value.view()) is Some,
        final(v).view() == patched(old(v).view(), pointer.rest(), value.view()),
    decreases 2 * pointer.rest().len() + 1,
{
    let ghost old_view = v.view();
    let ghost new_view = value.view();
    let mut cursor = pointer;
    let next = cursor.next();
    proof {
        lemma_advance(pointer, cursor);
    }
    match next {
        Some(JsonPointerItem::Key(key)) => {
            match v {
                Value::Object(map) => {
                    proof {
                        lemma_object_view(&Value::Object(*map));
                    }
                    match map.position(key) {
                        Some(pos) => {
                            let r = patch_entry_at(map, pos, cursor, value);
                            r
                        },
                        None => {
                            if cursor.peek().is_none() {
                                let ghost old_entries = map.0@;
                                map.0.push((key.to_owned(), value));
                                proof {
                                    let after = Value::<'x, P, E>::Object(*final(map));
                                    assert(after.view()->Object_0 =~= old_view->Object_0.push((key@, new_view)));
                                }
                                true
                            } else {
                                false
                            }
                        },
                    }
                },
                _ => false,
            }
        },
        Some(JsonPointerItem::Number(n)) => {
            match v {
                Value::Array(values) => {
                    if (*n as u128) < (values.len() as u128) {
                        let idx = *n as usize;
                        let ghost old_values = values@;
                        if cursor.peek().is_some() {
                            let item = &mut values[idx];
                            let r = patch_value(item, cursor, value);
                            proof {
                                let after = Value::<'x, P, E>::Array(*final(values));
                                assert(final(values)@ == old_values.update(idx as int, *final(item)));
                                if r {
                                    assert(after.view()->Array_0 =~= old_view->Array_0.update(idx as int, final(item).view()));
                                } else {
                                    assert(after.view()->Array_0 =~= old_view->Array_0);
                                }
                            }
                            r
                        } else {
                            values[idx] = value;
                            proof {
                                let after = Value::<'x, P, E>::Array(*final(values));
                                assert(after.view()->Array_0 =~= old_view->Array_0.update(idx as int, new_view));
                            }
                            true
                        }
                    } else {
                        false
                    }
                },
                Value::Object(map) => {
                    proof {
                        lemma_object_view(&Value::Object(*map));
                    }
                    let text = u64_to_text(*n);
                    let key: Key<'_, P> = Key::Owned(text);
                    match map.position(&key) {
                        Some(pos) => patch_entry_at(map, pos, cursor, value),
                        None => false,
                    }
                },
                _ => false,
            }
        },
        _ => false,
    }
}


/// Something that can be navigated and patched with pointers: the value
/// tree itself, containers of such things, or typed structures that
/// present themselves as a value.
pub trait JsonPointerHandler<'x, P: Property, E: Element>: Sized {
    /// The value this presents itself as.
    spec fn model(&self) -> ValueView<P, E>;

    /// The nodes that `ptr` addresses, in order.
    spec fn eval_model(&self, ptr: Seq<ItemView<P>>) -> Seq<ValueView<P, E>>;

    /// What this presents itself as after writing `value` through `ptr`, or
    /// `None` when the write cannot be done.
    spec fn patch_model(&self, ptr: Seq<ItemView<P>>, value: ValueView<P, E>) -> Option<
        ValueView<P, E>,
    >;

    /// What a thing converted from `value` presents itself as, or `None`
    /// when `value` does not convert.
    spec fn converts(value: ValueView<P, E>) -> Option<ValueView<P, E>>;

    /// Appends the nodes that the rest of `pointer` addresses.
    fn eval_jptr<'y>(&'y self, pointer: JsonPointerIter<'_, P>, results: &mut Vec<Snapshot<'y, 'x, P, E>>)
        ensures
            snapshot_views(final(results)@) == snapshot_views(old(results)@) + self.eval_model(
                pointer.rest(),
            ),
    ;

    /// Writes `value` through the rest of `pointer`; returns whether it was
    /// written. Nothing changes when it was not.
    fn patch_jptr(&mut self, pointer: JsonPointerIter<'_, P>, value: Value<'x, P, E>) -> (r: bool)
        ensures
            r == old(self).patch_model(pointer.rest(), value.view()) is Some,
            final(self).model() == match old(self).patch_model(pointer.rest(), value.view()) {
                Some(m) => m,
                None => old(self).model(),
            },
    ;

    /// This thing as a value.
    fn to_value<'y>(&'y self) -> (r: Snapshot<'y, 'x, P, E>)
        ensures
            r.view() == self.model(),
    ;

    /// Converts a value into this kind of thing.
    fn from_value(value: Value<'x, P, E>) -> (r: Option<Self>)
        ensures
            match Self::converts(value.view()) {
                Some(m) => r is Some && r->0.model() == m,
                None => r is None,
            },
    ;
}

impl<'x, P: Property, E: Element> JsonPointerHandler<'x, P, E> for Value<'x, P, E> {
    open spec fn model(&self) -> ValueView<P, E> {
        self.view()
    }

    open spec fn eval_model(&self, ptr: Seq<ItemView<P>>) -> Seq<ValueView<P, E>> {
        eval_view(self.view(), ptr)
    }

    open spec fn patch_model(&self, ptr: Seq<ItemView<P>>, value: ValueView<P, E>) -> Option<
        ValueView<P, E>,
    > {
        patch_view(self.view(), ptr, value)
    }

    open spec fn converts(value: ValueView<P, E>) -> Option<ValueView<P, E>> {
        Some(value)
    }

    fn eval_jptr<'y>(&'y self, pointer: JsonPointerIter<'_, P>, results: &mut Vec<Snapshot<'y, 'x, P, E>>) {
        eval_value(self, pointer, results);
    }

    fn patch_jptr(&mut self, pointer: JsonPointerIter<'_, P>, value: Value<'x, P, E>) -> (r: bool) {
        patch_value(self, pointer, value)
    }

    fn to_value<'y>(&'y self) -> (r: Snapshot<'y, 'x, P, E>) {
        Snapshot::Borrowed(self)
    }

    fn from_value(value: Value<'x, P, E>) -> (r: Option<Self>) {
        Some(value)
    }
}

/// The models of each item.
pub open spec fn models_of<'x, P: Property, E: Element, T: JsonPointerHandler<'x, P, E>>(
    items: Seq<T>,
) -> Seq<ValueView<P, E>> {
    Seq::new(items.len(), |i: int| items[i].model())
}

/// The matches of `ptr` in each item.
pub open spec fn item_matches<'x, P: Property, E: Element, T: JsonPointerHandler<'x, P, E>>(
    items: Seq<T>,
    ptr: Seq<ItemView<P>>,
) -> Seq<Seq<ValueView<P, E>>> {
    Seq::new(items.len(), |i: int| items[i].eval_model(ptr))
}

/// Whether every value converts to an item.
pub open spec fn all_convert<'x, P: Property, E: Element, T: JsonPointerHandler<'x, P, E>>(
    values: Seq<ValueView<P, E>>,
) -> bool {
    forall|i: int| 0 <= i < values.len() ==> (#[trigger] T::converts(values[i])) is Some
}

impl<'x, P: Property, E: Element, T: JsonPointerHandler<'x, P, E>> JsonPointerHandler<'x, P, E> for Vec<T> {
    open spec fn model(&self) -> ValueView<P, E> {
        ValueView::Array(models_of(self@))
    }

    open spec fn eval_model(&self, ptr: Seq<ItemView<P>>) -> Seq<ValueView<P, E>> {
        if ptr.len() == 0 {
            seq![self.model()]
        } else {
            match ptr[0] {
                ItemView::Number(n) => if n < self@.len() {
                    self@[n as int].eval_model(ptr.drop_first())
                } else {
                    Seq::empty()
                },
                ItemView::Wildcard => concat_all(item_matches(self@, ptr.drop_first())),
                ItemView::Root => seq![self.model()],
                ItemView::Key(_) => Seq::empty(),
            }
        }
    }

    open spec fn patch_model(&self, ptr: Seq<ItemView<P>>, value: ValueView<P, E>) -> Option<
        ValueView<P, E>,
    > {
        if ptr.len() > 0 && ptr[0] is Number && ptr[0]->Number_0 < self@.len() {
            let n = ptr[0]->Number_0 as int;
            let rest = ptr.drop_first();
            let changed = if rest.len() > 0 {
                self@[n].patch_model(rest, value)
            } else {
                T::converts(value)
            };
            match changed {
                Some(m) => Some(ValueView::Array(models_of(self@).update(n, m))),
                None => None,
            }
        } else {
            None
        }
    }

    open spec fn converts(value: ValueView<P, E>) -> Option<ValueView<P, E>> {
        match value {
            ValueView::Array(xs) => if all_convert::<'x, P, E, T>(xs) {
                Some(ValueView::Array(Seq::new(xs.len(), |i: int| T::converts(xs[i])->0)))
            } else {
                None
            },
            _ => None,
        }
    }

    fn eval_jptr<'y>(&'y self, pointer: JsonPointerIter<'_, P>, results: &mut Vec<Snapshot<'y, 'x, P, E>>) {
        let ghost start = snapshot_views(results@);
        let mut cursor = pointer;
        let next = cursor.next();
        proof {
            lemma_advance(pointer, cursor);
        }
        match next {
            Some(JsonPointerItem::Number(n)) => {
                if (*n as u128) < (self.len() as u128) {
                    self[*n as usize].eval_jptr(cursor, results);
                }
            },
            Some(JsonPointerItem::Wildcard) => {
                let ghost parts = item_matches(self@, cursor.rest());
                let mut i: usize = 0;
                while i < self.len()
                    invariant
                        i <= self@.len(),
                        parts == item_matches(self@, cursor.rest()),
                        snapshot_views(results@) == start + concat_all(parts.subrange(0, i as int)),
                    decreases self@.len() - i,
                {
                    self[i].eval_jptr(cursor, results);
                    proof {
                        assert(parts.subrange(0, i + 1).drop_last() =~= parts.subrange(0, i as int));
                    }
                    i = i + 1;
                }
                proof {
                    assert(parts.subrange(0, self@.len() as int) =~= parts);
                }
            },
            Some(JsonPointerItem::Key(_)) => {},
            _ => {
                let snapshot = self.to_value();
                results.push(snapshot);
                proof {
                    assert(snapshot_views(results@) =~= start + seq![self.model()]);
                }
            },
        }
    }

    fn patch_jptr(&mut self, pointer: JsonPointerIter<'_, P>, value: Value<'x, P, E>) -> (r: bool) {
        let ghost old_items = self@;
        let mut cursor = pointer;
        let next = cursor.next();
        proof {
            lemma_advance(pointer, cursor);
        }
        if let Some(JsonPointerItem::Number(n)) = next {
            if (*n as u128) < (self.len() as u128) {
                let idx = *n as usize;
                if cursor.peek().is_some() {
                    let item = &mut self[idx];
                    let r = item.patch_jptr(cursor, value);
                    proof {
                        assert(final(self)@ == old_items.update(idx as int, *final(item)));
                        if r {
                            assert(models_of(final(self)@) =~= models_of(old_items).update(idx as int, final(item).model()));
                        } else {
                            assert(models_of(final(self)@) =~= models_of(old_items));
                        }
                    }
                    return r;
                } else {
                    match T::from_value(value) {
                        Some(converted) => {
                            self.set(idx, converted);
                            proof {
                                assert(models_of(final(self)@) =~= models_of(old_items).update(idx as int, converted.model()));
                            }
                            return true;
                        },
                        None => {
                            return false;
                        },
                    }
                }
            }
        }
        false
    }

    fn to_value<'y>(&'y self) -> (r: Snapshot<'y, 'x, P, E>) {
        let mut out: Vec<Value<'x, P, E>> = Vec::new();
        let mut i: usize = 0;
        while i < self.len()
            invariant
                i <= self@.len(),
                out@.len() == i,
                forall|j: int| 0 <= j < i ==> (#[trigger] out@[j]).view() == self@[j].model(),
            decreases self@.len() - i,
        {
            let item = self[i].to_value();
            out.push(item.into_owned());
            i = i + 1;
        }
        let r = Value::Array(out);
        proof {
            assert(r.view()->Array_0 =~= models_of(self@));
        }
        Snapshot::Owned(r)
    }

    fn from_value(value: Value<'x, P, E>) -> (r: Option<Self>) {
        let ghost v = value.view();
        match value {
            Value::Array(arr) => {
                let ghost all = arr@;
                let ghost xs = v->Array_0;
                proof {
                    assert(v is Array);
                    assert(xs.len() == all.len());
                    assert forall|j: int| 0 <= j < all.len() implies #[trigger] xs[j] == all[j].view() by {}
                }
                let mut out: Vec<T> = Vec::new();
                for item in it: arr
                    invariant
                        it.seq() == all,
                        v == ValueView::<P, E>::Array(xs),
                        v == value.view(),
                        xs.len() == all.len(),
                        forall|j: int| 0 <= j < all.len() ==> #[trigger] xs[j] == all[j].view(),
                        out@.len() == it.index(),
                        forall|j: int|
                            0 <= j < out@.len() ==> (#[trigger] T::converts(xs[j])) is Some
                                && out@[j].model() == T::converts(xs[j])->0,
                {
                    let ghost k = it.index();
                    assert(item == all[k]);
                    match T::from_value(item) {
                        Some(t) => {
                            out.push(t);
                        },
                        None => {
                            proof {
                                assert(xs[k] == all[k].view());
                                assert(!all_convert::<'x, P, E, T>(xs));
                            }
                            return None;
                        },
                    }
                }
                proof {
                    assert(all_convert::<'x, P, E, T>(xs));
                    assert(models_of(out@) =~= Seq::new(xs.len(), |i: int| T::converts(xs[i])->0));
                }
                Some(out)
            },
            _ => None,
        }
    }
}


/// A wildcard contributes, in container order, everything the rest of the
/// pointer matches in each child; nothing is merged or dropped, so the
/// result holds one match per child for a pointer that names one leaf.
pub proof fn lemma_wildcard_in_order<P: Property, E: Element>(
    es: Seq<(KeyView<P>, ValueView<P, E>)>,
    rest: Seq<ItemView<P>>,
)
    ensures
        eval_view(ValueView::Object(es), seq![ItemView::Wildcard] + rest) == concat_all(
            Seq::new(es.len(), |j: int| eval_view(es[j].1, rest)),
        ),
        es.len() > 0 ==> eval_view(ValueView::Object(es), seq![ItemView::Wildcard] + rest) == eval_view(
            ValueView::Object(es.drop_last()),
            seq![ItemView::Wildcard] + rest,
        ) + eval_view(es.last().1, rest),
{
    let ptr = seq![ItemView::Wildcard] + rest;
    assert(ptr.drop_first() =~= rest);
    assert(eval_each_entry(es, rest) =~= Seq::new(es.len(), |j: int| eval_view(es[j].1, rest)));
    if es.len() > 0 {
        assert(eval_each_entry(es, rest).drop_last() =~= eval_each_entry(es.drop_last(), rest));
    }
}

/// Patching through a key the object lacks adds the key when it is the last
/// segment, and fails without change when more segments follow.
pub proof fn lemma_patch_missing_key<P: Property, E: Element>(
    es: Seq<(KeyView<P>, ValueView<P, E>)>,
    k: KeyView<P>,
    rest: Seq<ItemView<P>>,
    new: ValueView<P, E>,
)
    requires
        forall|i: int| 0 <= i < es.len() ==> key_text(#[trigger] es[i].0) != key_text(k),
    ensures
        patch_view(ValueView::Object(es), seq![ItemView::Key(k)], new) == Some(
            ValueView::Object(es.push((k, new))),
        ),
        rest.len() > 0 ==> patch_view(ValueView::Object(es), seq![ItemView::Key(k)] + rest, new)
            is None,
{
    lemma_first_index(view_keys(es), key_text(k));
    assert forall|i: int| 0 <= i < es.len() implies key_text(#[trigger] view_keys(es)[i]) != key_text(k) by {
        assert(view_keys(es)[i] == es[i].0);
    }
    assert(seq![ItemView::Key(k)].drop_first() =~= Seq::<ItemView<P>>::empty());
    if rest.len() > 0 {
        assert((seq![ItemView::Key(k)] + rest).drop_first() =~= rest);
        assert((seq![ItemView::Key(k)] + rest)[0] == ItemView::Key(k));
    }
}

/// Patching through a key the object has, as the last segment, replaces
/// that entry's value in place.
pub proof fn lemma_patch_present_key<P: Property, E: Element>(
    es: Seq<(KeyView<P>, ValueView<P, E>)>,
    k: KeyView<P>,
    new: ValueView<P, E>,
)
    requires
        exists|i: int| 0 <= i < es.len() && key_text(#[trigger] es[i].0) == key_text(k),
    ensures
        ({
            let i = first_index(view_keys(es), key_text(k));
            &&& 0 <= i < es.len()
            &&& patch_view(ValueView::Object(es), seq![ItemView::Key(k)], new) == Some(
                ValueView::Object(es.update(i, (es[i].0, new))),
            )
        }),
{
    lemma_first_index(view_keys(es), key_text(k));
    let w = choose|i: int| 0 <= i < es.len() && key_text(#[trigger] es[i].0) == key_text(k);
    assert(view_keys(es)[w] == es[w].0);
    assert(key_text(view_keys(es)[w]) == key_text(k));
    let i = first_index(view_keys(es), key_text(k));
    assert(i >= 0);
    assert(view_keys(es).len() == es.len());
    let ptr = seq![ItemView::Key(k)];
    assert(ptr.drop_first() =~= Seq::<ItemView<P>>::empty());
    assert(ptr[0] == ItemView::Key(k));
    assert(patch_entry(es, i, ptr.drop_first(), new) == Some(ValueView::Object(es.update(i, (es[i].0, new)))));
}

} // verus!
