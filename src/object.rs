//! Objects as an insertion-ordered list of entries, searched linearly.
use vstd::prelude::*;
use crate::key::{key_text, Key, KeyView, Property};
use crate::text::{decimal_of, push_decimal, push_str_chars, string_from_chars};
use crate::value::{Element, Value, ValueView};

verus! {

/// Index of the first key whose canonical text is `t`, or -1.
pub open spec fn first_index<P: Property>(keys: Seq<KeyView<P>>, t: Seq<char>) -> int
    decreases keys.len(),
{
    if keys.len() == 0 {
        -1
    } else if key_text(keys[0]) == t {
        0
    } else {
        let r = first_index(keys.drop_first(), t);
        if r < 0 {
            -1
        } else {
            r + 1
        }
    }
}

/// `first_index` finds the first match, and -1 means no match.
pub proof fn lemma_first_index<P: Property>(keys: Seq<KeyView<P>>, t: Seq<char>)
    ensures
        -1 <= first_index(keys, t) < keys.len(),
        first_index(keys, t) == -1 <==> forall|j: int|
            0 <= j < keys.len() ==> key_text(#[trigger] keys[j]) != t,
        first_index(keys, t) >= 0 ==> key_text(keys[first_index(keys, t)]) == t,
        forall|j: int| 0 <= j < first_index(keys, t) ==> key_text(#[trigger] keys[j]) != t,
    decreases keys.len(),
{
    if keys.len() > 0 {
        lemma_first_index(keys.drop_first(), t);
        if key_text(keys[0]) != t {
            assert forall|j: int| 1 <= j < keys.len() implies #[trigger] keys[j] == keys.drop_first()[j
                - 1] by {}
            if first_index(keys, t) == -1 {
                assert forall|j: int| 0 <= j < keys.len() implies key_text(#[trigger] keys[j]) != t by {
                    if j > 0 {
                        assert(keys[j] == keys.drop_first()[j - 1]);
                    }
                }
            } else {
                assert forall|j: int| 0 <= j < first_index(keys, t) implies key_text(
                    #[trigger] keys[j],
                ) != t by {
                    if j > 0 {
                        assert(keys[j] == keys.drop_first()[j - 1]);
                    }
                }
            }
            if forall|j: int| 0 <= j < keys.len() ==> key_text(#[trigger] keys[j]) != t {
                assert forall|j: int| 0 <= j < keys.len() - 1 implies key_text(
                    #[trigger] keys.drop_first()[j],
                ) != t by {
                    assert(keys.drop_first()[j] == keys[j + 1]);
                }
            }
        }
    }
}

/// The keys of a sequence of entries, as views.
pub open spec fn entry_keys<'ctx, P, E>(es: Seq<(Key<'ctx, P>, Value<'ctx, P, E>)>) -> Seq<KeyView<P>> {
    Seq::new(es.len(), |i: int| es[i].0@)
}

/// The keys of a sequence of entry views.
pub open spec fn view_keys<P, E>(es: Seq<(KeyView<P>, ValueView<P, E>)>) -> Seq<KeyView<P>> {
    Seq::new(es.len(), |i: int| es[i].0)
}

/// A JSON object: entries in insertion order, duplicates allowed.
#[derive(Debug)]
pub struct ObjectAsVec<'ctx, P, E>(pub Vec<(Key<'ctx, P>, Value<'ctx, P, E>)>);

impl<'ctx, P: Property, E: Element> ObjectAsVec<'ctx, P, E> {
    /// The keys of the entries, as views.
    pub open spec fn keys_view(&self) -> Seq<KeyView<P>> {
        entry_keys(self.0@)
    }

    /// Position of the first entry whose key has the text of `key`.
    pub fn position(&self, key: &Key<'_, P>) -> (r: Option<usize>)
        ensures
            match r {
                Some(i) => i as int == first_index(self.keys_view(), key.text()) && i
                    < self.0@.len(),
                None => first_index(self.keys_view(), key.text()) == -1,
            },
    {
        proof {
            lemma_first_index(self.keys_view(), key.text());
        }
        let mut i: usize = 0;
        while i < self.0.len()
            invariant
                i <= self.0@.len(),
                forall|j: int| 0 <= j < i ==> key_text(#[trigger] self.keys_view()[j]) != key.text(),
                -1 <= first_index(self.keys_view(), key.text()) < self.keys_view().len(),
                first_index(self.keys_view(), key.text()) == -1 <==> forall|j: int|
                    0 <= j < self.keys_view().len() ==> key_text(#[trigger] self.keys_view()[j])
                        != key.text(),
                first_index(self.keys_view(), key.text()) >= 0 ==> key_text(
                    self.keys_view()[first_index(self.keys_view(), key.text())],
                ) == key.text(),
                forall|j: int|
                    0 <= j < first_index(self.keys_view(), key.text()) ==> key_text(
                        #[trigger] self.keys_view()[j],
                    ) != key.text(),
            decreases self.0@.len() - i,
        {
            if self.0[i].0.same_text(key) {
                assert(self.keys_view()[i as int] == self.0@[i as int].0@);
                return Some(i);
            }
            assert(self.keys_view()[i as int] == self.0@[i as int].0@);
            i = i + 1;
        }
        None
    }

    /// An empty object.
    pub fn new() -> (r: Self)
        ensures
            r.0@.len() == 0,
    {
        ObjectAsVec(Vec::new())
    }

    /// An empty object with room for `capacity` entries.
    pub fn with_capacity(capacity: usize) -> (r: Self)
        ensures
            r.0@.len() == 0,
    {
        ObjectAsVec(Vec::with_capacity(capacity))
    }

    /// The entries.
    pub fn as_vec(&self) -> (r: &Vec<(Key<'ctx, P>, Value<'ctx, P, E>)>)
        ensures
            *r == self.0,
    {
        &self.0
    }

    /// The entries, for changing in place.
    pub fn as_mut_vec(&mut self) -> (r: &mut Vec<(Key<'ctx, P>, Value<'ctx, P, E>)>)
        ensures
            *r == old(self).0,
            final(self).0 == *final(r),
    {
        &mut self.0
    }

    /// The entries, consuming the object.
    pub fn into_vec(self) -> (r: Vec<(Key<'ctx, P>, Value<'ctx, P, E>)>)
        ensures
            r == self.0,
    {
        self.0
    }

    /// The value of the first entry whose key has the text of `key`.
    pub fn get(&self, key: &Key<'_, P>) -> (r: Option<&Value<'ctx, P, E>>)
        ensures
            ({
                let i = first_index(self.keys_view(), key.text());
                if i >= 0 {
                    r == Some(&self.0@[i].1)
                } else {
                    r is None
                }
            }),
    {
        match self.position(key) {
            Some(i) => Some(&self.0[i].1),
            None => None,
        }
    }

    /// The value of the first entry whose key text equals `key` when ASCII
    /// letters are compared without regard to case.
    pub fn get_ignore_case(&self, key: &str) -> (r: Option<&Value<'ctx, P, E>>)
        ensures
            match r {
                Some(v) => exists|i: int|
                    0 <= i < self.0@.len() && ascii_fold(self.0@[i].0.text()) == ascii_fold(key@)
                        && *v == self.0@[i].1 && forall|j: int|
                        0 <= j < i ==> ascii_fold(#[trigger] self.0@[j].0.text()) != ascii_fold(
                            key@,
                        ),
                None => forall|j: int|
                    0 <= j < self.0@.len() ==> ascii_fold(#[trigger] self.0@[j].0.text())
                        != ascii_fold(key@),
            },
    {
        let target = crate::text::chars_of(key);
        let mut i: usize = 0;
        while i < self.0.len()
            invariant
                i <= self.0@.len(),
                target@ == key@,
                forall|j: int|
                    0 <= j < i ==> ascii_fold(#[trigger] self.0@[j].0.text()) != ascii_fold(key@),
            decreases self.0@.len() - i,
        {
            let k = self.0[i].0.to_string();
            let kc = crate::text::chars_of(k.as_str());
            if eq_ignore_ascii_case(&kc, &target) {
                return Some(&self.0[i].1);
            }
            i = i + 1;
        }
        None
    }

    /// The value of the first entry whose key has the text of `key`, for
    /// changing in place.
    pub fn get_mut(&mut self, key: &Key<'_, P>) -> (r: Option<&mut Value<'ctx, P, E>>)
        ensures
            ({
                let i = first_index(old(self).keys_view(), key.text());
                if i >= 0 {
                    r is Some && *r->0 == old(self).0@[i].1 && final(self).0@ == old(self).0@.update(
                        i,
                        (old(self).0@[i].0, *final(r->0)),
                    )
                } else {
                    r is None && final(self).0@ == old(self).0@
                }
            }),
    {
        match self.position(key) {
            Some(i) => Some(&mut self.0[i].1),
            None => None,
        }
    }

    /// The first entry whose key has the text of `key`.
    pub fn get_key_value(&self, key: &Key<'_, P>) -> (r: Option<(&Key<'ctx, P>, &Value<'ctx, P, E>)>)
        ensures
            ({
                let i = first_index(self.keys_view(), key.text());
                if i >= 0 {
                    r == Some((&self.0@[i].0, &self.0@[i].1))
                } else {
                    r is None
                }
            }),
    {
        match self.position(key) {
            Some(i) => Some((&self.0[i].0, &self.0[i].1)),
            None => None,
        }
    }

    /// The entries, in order.
    pub fn iter(&self) -> (r: std::slice::Iter<'_, (Key<'ctx, P>, Value<'ctx, P, E>)>)
        ensures
            vstd::std_specs::iter::IteratorSpec::remaining(&r) == self.0@.as_ref(),
    {
        broadcast use vstd::std_specs::slice::axiom_spec_slice_iter;
        self.0.iter()
    }

    /// The number of entries.
    pub fn len(&self) -> (r: usize)
        ensures
            r == self.0@.len(),
    {
        self.0.len()
    }

    /// Whether there are no entries.
    pub fn is_empty(&self) -> (r: bool)
        ensures
            r == (self.0@.len() == 0),
    {
        self.0.len() == 0
    }

    /// The keys, in order.
    pub fn keys(&self) -> (r: Vec<&Key<'ctx, P>>)
        ensures
            r@.len() == self.0@.len(),
            forall|i: int| 0 <= i < r@.len() ==> *r@[i] == self.0@[i].0,
    {
        let mut out: Vec<&Key<'ctx, P>> = Vec::new();
        let mut i: usize = 0;
        while i < self.0.len()
            invariant
                i <= self.0@.len(),
                out@.len() == i,
                forall|j: int| 0 <= j < i ==> *out@[j] == self.0@[j].0,
            decreases self.0@.len() - i,
        {
            out.push(&self.0[i].0);
            i = i + 1;
        }
        out
    }

    /// The values, in order.
    pub fn values(&self) -> (r: Vec<&Value<'ctx, P, E>>)
        ensures
            r@.len() == self.0@.len(),
            forall|i: int| 0 <= i < r@.len() ==> *r@[i] == self.0@[i].1,
    {
        let mut out: Vec<&Value<'ctx, P, E>> = Vec::new();
        let mut i: usize = 0;
        while i < self.0.len()
            invariant
                i <= self.0@.len(),
                out@.len() == i,
                forall|j: int| 0 <= j < i ==> *out@[j] == self.0@[j].1,
            decreases self.0@.len() - i,
        {
            out.push(&self.0[i].1);
            i = i + 1;
        }
        out
    }

    /// Whether some entry's key has the text of `key`.
    pub fn contains_key(&self, key: &Key<'_, P>) -> (r: bool)
        ensures
            r == (first_index(self.keys_view(), key.text()) >= 0),
            r == exists|i: int| 0 <= i < self.0@.len() && #[trigger] self.0@[i].0.text() == key.text(),
    {
        proof {
            lemma_first_index(self.keys_view(), key.text());
        }
        let found = self.position(key);
        proof {
            match found {
                Some(i) => {
                    assert(self.keys_view()[i as int] == self.0@[i as int].0@);
                    assert(self.0@[i as int].0.text() == key.text());
                },
                None => {
                    assert forall|i: int| 0 <= i < self.0@.len() implies #[trigger] self.0@[i].0.text()
                        != key.text() by {
                        assert(self.keys_view()[i] == self.0@[i].0@);
                    }
                },
            }
        }
        found.is_some()
    }

    /// Whether some entry has a key with the text of `key` and a value with
    /// the content of `value`.
    pub fn contains_key_value(&self, key: &Key<'_, P>, value: &Value<'_, P, E>) -> (r: bool)
        ensures
            r == exists|i: int|
                0 <= i < self.0@.len() && #[trigger] self.0@[i].0.text() == key.text()
                    && crate::value::same_view(self.0@[i].1.view(), value.view()),
    {
        let mut i: usize = 0;
        while i < self.0.len()
            invariant
                i <= self.0@.len(),
                forall|j: int|
                    0 <= j < i ==> !(#[trigger] self.0@[j].0.text() == key.text()
                        && crate::value::same_view(self.0@[j].1.view(), value.view())),
            decreases self.0@.len() - i,
        {
            if self.0[i].0.same_text(key) && self.0[i].1.same_as(value) {
                return true;
            }
            i = i + 1;
        }
        false
    }

    /// Whether some entry's key has the text of one of `keys`.
    pub fn contains_any_key(&self, keys: &[Key<'_, P>]) -> (r: bool)
        ensures
            r == exists|i: int, j: int|
                0 <= i < self.0@.len() && 0 <= j < keys@.len() && #[trigger] self.0@[i].0.text()
                    == #[trigger] keys@[j].text(),
    {
        let mut i: usize = 0;
        while i < self.0.len()
            invariant
                i <= self.0@.len(),
                forall|a: int, b: int|
                    0 <= a < i && 0 <= b < keys@.len() ==> #[trigger] self.0@[a].0.text()
                        != #[trigger] keys@[b].text(),
            decreases self.0@.len() - i,
        {
            let mut j: usize = 0;
            while j < keys.len()
                invariant
                    i < self.0@.len(),
                    j <= keys@.len(),
                    forall|a: int, b: int|
                        0 <= a < i && 0 <= b < keys@.len() ==> #[trigger] self.0@[a].0.text()
                            != #[trigger] keys@[b].text(),
                    forall|b: int| 0 <= b < j ==> self.0@[i as int].0.text() != #[trigger] keys@[b].text(),
                decreases keys@.len() - j,
            {
                if self.0[i].0.same_text(&keys[j]) {
                    return true;
                }
                j = j + 1;
            }
            i = i + 1;
        }
        false
    }

    /// Removes the first entry whose key has the text of `key`, keeping the
    /// order of the others, and returns its value.
    pub fn remove(&mut self, key: &Key<'_, P>) -> (r: Option<Value<'ctx, P, E>>)
        ensures
            ({
                let i = first_index(old(self).keys_view(), key.text());
                if i >= 0 {
                    r == Some(old(self).0@[i].1) && final(self).0@ == old(self).0@.remove(i)
                } else {
                    r is None && final(self).0@ == old(self).0@
                }
            }),
    {
        match self.position(key) {
            Some(pos) => Some(self.0.remove(pos).1),
            None => None,
        }
    }

    /// Sets the value of the first entry whose key has the text of `key` and
    /// returns the previous value; appends a new entry when there is none.
    pub fn insert(&mut self, key: Key<'ctx, P>, value: Value<'ctx, P, E>) -> (r: Option<
        Value<'ctx, P, E>,
    >)
        ensures
            ({
                let i = first_index(old(self).keys_view(), key.text());
                if i >= 0 {
                    r == Some(old(self).0@[i].1) && final(self).0@ == old(self).0@.update(
                        i,
                        (old(self).0@[i].0, value),
                    )
                } else {
                    r is None && final(self).0@ == old(self).0@.push((key, value))
                }
            }),
    {
        match self.position(&key) {
            Some(pos) => {
                let mut previous = value;
                std::mem::swap(&mut self.0[pos].1, &mut previous);
                Some(previous)
            },
            None => {
                self.0.push((key, value));
                None
            },
        }
    }

    /// The value of the first entry whose key has the text of `key`,
    /// appending `(key, value)` first when there is none.
    pub fn insert_or_get_mut(&mut self, key: Key<'ctx, P>, value: Value<'ctx, P, E>) -> (r: &mut Value<
        'ctx,
        P,
        E,
    >)
        ensures
            ({
                let i = first_index(old(self).keys_view(), key.text());
                if i >= 0 {
                    *r == old(self).0@[i].1 && final(self).0@ == old(self).0@.update(
                        i,
                        (old(self).0@[i].0, *final(r)),
                    )
                } else {
                    *r == value && final(self).0@ == old(self).0@.push((key, *final(r)))
                }
            }),
    {
        match self.position(&key) {
            Some(pos) => &mut self.0[pos].1,
            None => {
                self.0.push((key, value));
                let last = self.0.len() - 1;
                &mut self.0[last].1
            },
        }
    }

    /// Appends an entry without looking for its key.
    pub fn insert_unchecked(&mut self, key: Key<'ctx, P>, value: Value<'ctx, P, E>)
        ensures
            final(self).0@ == old(self).0@.push((key, value)),
    {
        self.0.push((key, value));
    }

    /// The object with one more entry appended.
    pub fn with_key_value(self, key: Key<'ctx, P>, value: Value<'ctx, P, E>) -> (r: Self)
        ensures
            r.0@ == self.0@.push((key, value)),
    {
        let mut this = self;
        this.insert_unchecked(key, value);
        this
    }

    /// Appends `value` under `key`, or under "k" followed by the new entry
    /// count when `key` is `None`; a name already present gets "-" and the
    /// new entry count appended. Returns the name used.
    pub fn insert_named(&mut self, key: Option<String>, value: Value<'ctx, P, E>) -> (r: String)
        requires
            old(self).0@.len() < u64::MAX,
        ensures
            ({
                let base = match key {
                    Some(k) => k@,
                    None => seq!['k'] + decimal_of((old(self).0@.len() + 1) as nat),
                };
                let taken = exists|i: int|
                    0 <= i < old(self).0@.len() && #[trigger] old(self).0@[i].0.text() == base;
                &&& r@ == (if taken {
                    base + seq!['-'] + decimal_of((old(self).0@.len() + 1) as nat)
                } else {
                    base
                })
                &&& final(self).0@.len() == old(self).0@.len() + 1
                &&& final(self).0@.subrange(0, old(self).0@.len() as int) == old(self).0@
                &&& final(self).0@.last().0@ == KeyView::<P>::Text(r@)
                &&& final(self).0@.last().1 == value
            }),
    {
        let count: u64 = self.0.len() as u64 + 1;
        let mut name: Vec<char> = Vec::new();
        match &key {
            Some(k) => push_str_chars(&mut name, k.as_str()),
            None => {
                name.push('k');
                push_decimal(&mut name, count);
            },
        }
        let base = string_from_chars(&name);
        let probe: Key<'_, P> = Key::Borrowed(base.as_str());
        if self.contains_key(&probe) {
            name.push('-');
            push_decimal(&mut name, count);
        }
        let chosen = string_from_chars(&name);
        let result = string_from_chars(&name);
        self.0.push((Key::Owned(chosen), value));
        proof {
            let b = match key {
                Some(k) => k@,
                None => seq!['k'] + decimal_of((old(self).0@.len() + 1) as nat),
            };
            assert(base@ =~= b);
            assert(final(self).0@.subrange(0, old(self).0@.len() as int) =~= old(self).0@);
        }
        result
    }

    /// Appends all of `items`, in order.
    pub fn extend(&mut self, items: Vec<(Key<'ctx, P>, Value<'ctx, P, E>)>)
        ensures
            final(self).0@ == old(self).0@ + items@,
    {
        let mut rest = items;
        self.0.append(&mut rest);
    }

    /// Appends an entry without looking for its key and returns its value
    /// for changing in place.
    pub fn insert_unchecked_and_get_mut(&mut self, key: Key<'ctx, P>, value: Value<'ctx, P, E>) -> (r:
        &mut Value<'ctx, P, E>)
        ensures
            *r == value,
            final(self).0@ == old(self).0@.push((key, *final(r))),
    {
        self.0.push((key, value));
        let idx = self.0.len() - 1;
        &mut self.0[idx].1
    }

    /// The keys whose value is `true`, in order.
    pub fn into_expanded_boolean_set(self) -> (r: Vec<Key<'ctx, P>>)
        ensures
            r@ == true_keys(self.0@),
    {
        let mut out: Vec<Key<'ctx, P>> = Vec::new();
        let mut rest = self.0;
        let ghost all = rest@;
        // Entries are taken from the back so each can be moved out.
        while rest.len() > 0
            invariant
                true_keys(all) == true_keys(rest@) + out@,
            decreases rest@.len(),
        {
            let ghost before = rest@;
            let entry = rest.pop().unwrap();
            proof {
                assert(before.drop_last() == rest@);
            }
            let (k, v) = entry;
            if let Value::Bool(true) = v {
                out.insert(0, k);
            }
        }
        proof {
            assert(true_keys(rest@) =~= Seq::empty());
            assert(out@ =~= true_keys(all));
        }
        out
    }
}

/// The keys of the entries whose value is `true`, in order.
pub open spec fn true_keys<'ctx, P, E>(es: Seq<(Key<'ctx, P>, Value<'ctx, P, E>)>) -> Seq<Key<'ctx, P>>
    decreases es.len(),
{
    if es.len() == 0 {
        Seq::empty()
    } else {
        let rest = true_keys(es.drop_last());
        if es.last().1 matches Value::Bool(true) {
            rest.push(es.last().0)
        } else {
            rest
        }
    }
}

/// ASCII letters folded to lower case; other characters unchanged.
pub open spec fn ascii_fold(s: Seq<char>) -> Seq<char> {
    Seq::new(s.len(), |i: int| ascii_lower(s[i]))
}

/// An ASCII upper-case letter as lower case; any other character unchanged.
pub open spec fn ascii_lower(c: char) -> char {
    if 'A' <= c && c <= 'Z' {
        ((c as u32) + 32) as char
    } else {
        c
    }
}

/// Whether two character sequences match when ASCII letters are compared
/// without regard to case.
fn eq_ignore_ascii_case(a: &Vec<char>, b: &Vec<char>) -> (r: bool)
    ensures
        r == (ascii_fold(a@) == ascii_fold(b@)),
{
    if a.len() != b.len() {
        proof {
            assert(ascii_fold(a@).len() != ascii_fold(b@).len());
        }
        return false;
    }
    let mut i: usize = 0;
    while i < a.len()
        invariant
            a@.len() == b@.len(),
            i <= a@.len(),
            forall|j: int| 0 <= j < i ==> ascii_lower(#[trigger] a@[j]) == ascii_lower(b@[j]),
        decreases a@.len() - i,
    {
        let x = fold_char(a[i]);
        let y = fold_char(b[i]);
        if x != y {
            proof {
                assert(ascii_fold(a@)[i as int] != ascii_fold(b@)[i as int]);
            }
            return false;
        }
        i = i + 1;
    }
    proof {
        assert(ascii_fold(a@) =~= ascii_fold(b@));
    }
    true
}

/// An ASCII upper-case letter as lower case; any other character unchanged.
fn fold_char(c: char) -> (r: char)
    ensures
        r == ascii_lower(c),
{
    if 'A' <= c && c <= 'Z' {
        ((c as u32) + 32) as u8 as char
    } else {
        c
    }
}


impl<'ctx, P, E> From<Vec<(Key<'ctx, P>, Value<'ctx, P, E>)>> for ObjectAsVec<'ctx, P, E> {
    fn from(entries: Vec<(Key<'ctx, P>, Value<'ctx, P, E>)>) -> (r: Self) {
        ObjectAsVec(entries)
    }
}

impl<'ctx, P, E> vstd::std_specs::convert::FromSpecImpl<Vec<(Key<'ctx, P>, Value<'ctx, P, E>)>> for ObjectAsVec<'ctx, P, E> {
    open spec fn obeys_from_spec() -> bool {
        true
    }

    open spec fn from_spec(entries: Vec<(Key<'ctx, P>, Value<'ctx, P, E>)>) -> Self {
        ObjectAsVec(entries)
    }
}

} // verus!
