//! The value tree: null, booleans, numbers, typed elements, strings, arrays
//! and objects, with a view used in contracts.
use vstd::prelude::*;
use vstd::pervasive::strictly_cloned;
use crate::key::{key_text, Key, KeyView, Property};
use crate::number::Number;
use crate::object::{entry_keys, first_index, ObjectAsVec};

verus! {

/// A caller-supplied symbol type that string leaves may be classified into,
/// depending on the key they stand under.
pub trait Element: Sized + Clone {
    /// The canonical text of the element.
    spec fn text(&self) -> Seq<char>;

    /// Which element, if any, `text` denotes under a key whose canonical
    /// text is `key`.
    spec fn classify(key: Seq<char>, text: Seq<char>) -> Option<Self>;

    /// Classifies `value` found under `key`.
    fn try_parse<P: Property>(key: &Key<'_, P>, value: &str) -> (r: Option<Self>)
        ensures
            r == Self::classify(key.text(), value@),
    ;

    /// The canonical text of the element.
    fn to_text(&self) -> (r: String)
        ensures
            r@ == self.text(),
    ;

    /// A clone is the same element.
    proof fn lemma_clone_exact(a: Self, b: Self)
        requires
            strictly_cloned(a, b),
        ensures
            a == b,
    ;
}

/// The symbol type that recognizes nothing: plain JSON.
#[derive(Debug, Clone, Copy, PartialEq, Eq, Structural, Hash, PartialOrd, Ord, Default)]
pub struct Null;

impl Property for Null {
    open spec fn text(&self) -> Seq<char> {
        Seq::empty()
    }

    open spec fn classify(prev: Option<KeyView<Self>>, text: Seq<char>) -> Option<Self> {
        None
    }

    fn try_parse(key: Option<&Key<'_, Self>>, value: &str) -> (r: Option<Self>) {
        None
    }

    fn to_text(&self) -> (r: String) {
        String::new()
    }

    proof fn lemma_clone_exact(a: Self, b: Self) {
    }
}

impl Element for Null {
    open spec fn text(&self) -> Seq<char> {
        Seq::empty()
    }

    open spec fn classify(key: Seq<char>, text: Seq<char>) -> Option<Self> {
        None
    }

    fn try_parse<P: Property>(key: &Key<'_, P>, value: &str) -> (r: Option<Self>) {
        None
    }

    fn to_text(&self) -> (r: String) {
        String::new()
    }

    proof fn lemma_clone_exact(a: Self, b: Self) {
    }
}

/// A string leaf: a view into the source text or an owned copy.
#[derive(Debug, Clone)]
pub enum Text<'x> {
    Borrowed(&'x str),
    Owned(String),
}

impl<'x> View for Text<'x> {
    type V = Seq<char>;

    open spec fn view(&self) -> Seq<char> {
        match self {
            Text::Borrowed(s) => s@,
            Text::Owned(s) => s@,
        }
    }
}

impl<'x> Text<'x> {
    /// The characters, borrowed.
    pub fn as_str(&self) -> (r: &str)
        ensures
            r@ == self@,
    {
        match self {
            Text::Borrowed(s) => s,
            Text::Owned(s) => s.as_str(),
        }
    }

    /// The characters, owned.
    pub fn into_string(self) -> (r: String)
        ensures
            r@ == self@,
    {
        match self {
            Text::Borrowed(s) => s.to_owned(),
            Text::Owned(s) => s,
        }
    }

    /// The same text, no longer tied to the source.
    pub fn into_owned(self) -> (r: Text<'static>)
        ensures
            r@ == self@,
            r is Owned,
    {
        Text::Owned(self.into_string())
    }
}

/// What a value is, for reasoning.
pub enum ValueView<P, E> {
    Null,
    Bool(bool),
    Number(Number),
    Element(E),
    Str(Seq<char>),
    Array(Seq<ValueView<P, E>>),
    Object(Seq<(KeyView<P>, ValueView<P, E>)>),
}

/// A JSON value whose keys may be properties `P` and whose string leaves may
/// be elements `E`.
#[derive(Debug)]
pub enum Value<'ctx, P, E> {
    Null,
    Bool(bool),
    Number(Number),
    Element(E),
    Str(Text<'ctx>),
    Array(Vec<Value<'ctx, P, E>>),
    Object(ObjectAsVec<'ctx, P, E>),
}

/// Whether every flag holds.
pub open spec fn all_hold(flags: Seq<bool>) -> bool {
    forall|i: int| 0 <= i < flags.len() ==> #[trigger] flags[i]
}

impl<'ctx, P, E> Value<'ctx, P, E> {
    /// Whether no string and no key anywhere in the tree borrows from the
    /// source text.
    pub open spec fn is_owned(&self) -> bool
        decreases self,
    {
        match self {
            Value::Str(t) => t is Owned,
            Value::Array(v) => all_hold(
                Seq::new(
                    v@.len(),
                    |i: int|
                        if 0 <= i < v@.len() {
                            v@[i].is_owned()
                        } else {
                            true
                        },
                ),
            ),
            Value::Object(o) => all_hold(
                Seq::new(
                    o.0@.len(),
                    |i: int|
                        if 0 <= i < o.0@.len() {
                            !(o.0@[i].0 is Borrowed) && o.0@[i].1.is_owned()
                        } else {
                            true
                        },
                ),
            ),
            _ => true,
        }
    }

    pub open spec fn view(&self) -> ValueView<P, E>
        decreases self,
    {
        match self {
            Value::Null => ValueView::Null,
            Value::Bool(b) => ValueView::Bool(*b),
            Value::Number(n) => ValueView::Number(*n),
            Value::Element(e) => ValueView::Element(*e),
            Value::Str(t) => ValueView::Str(t@),
            Value::Array(v) => ValueView::Array(
                Seq::new(
                    v@.len(),
                    |i: int|
                        if 0 <= i < v@.len() {
                            v@[i].view()
                        } else {
                            ValueView::Null
                        },
                ),
            ),
            Value::Object(o) => ValueView::Object(
                Seq::new(
                    o.0@.len(),
                    |i: int|
                        if 0 <= i < o.0@.len() {
                            (o.0@[i].0@, o.0@[i].1.view())
                        } else {
                            (KeyView::Text(Seq::empty()), ValueView::Null)
                        },
                ),
            ),
        }
    }
}

impl<'x> Text<'x> {
    /// A copy of the text; a borrowed view stays borrowed.
    pub fn copy(&self) -> (r: Text<'x>)
        ensures
            r@ == self@,
    {
        match self {
            Text::Borrowed(s) => Text::Borrowed(s),
            Text::Owned(s) => Text::Owned(s.clone()),
        }
    }
}

impl<'ctx, P: Property, E: Element> Value<'ctx, P, E> {
    /// A copy of the whole tree with the same view.
    pub fn deep_clone(&self) -> (r: Value<'ctx, P, E>)
        ensures
            r@ == self@,
        decreases self,
    {
        match self {
            Value::Null => Value::Null,
            Value::Bool(b) => Value::Bool(*b),
            Value::Number(n) => Value::Number(*n),
            Value::Element(e) => {
                let c = e.clone();
                proof {
                    E::lemma_clone_exact(*e, c);
                }
                Value::Element(c)
            },
            Value::Str(t) => Value::Str(t.copy()),
            Value::Array(v) => {
                let out = clone_values(v);
                let r = Value::Array(out);
                proof {
                    assert(r@->Array_0 =~= self@->Array_0);
                }
                r
            },
            Value::Object(o) => {
                let out = clone_entries(&o.0);
                let r = Value::Object(ObjectAsVec(out));
                proof {
                    assert(r@->Object_0 =~= self@->Object_0);
                }
                r
            },
        }
    }
}

/// Copies of each value of `vs`, with the same views.
fn clone_values<'ctx, P: Property, E: Element>(vs: &Vec<Value<'ctx, P, E>>) -> (out: Vec<
    Value<'ctx, P, E>,
>)
    ensures
        out@.len() == vs@.len(),
        forall|j: int| 0 <= j < vs@.len() ==> (#[trigger] out@[j]).view() == vs@[j].view(),
    decreases vs,
{
    let mut out: Vec<Value<'ctx, P, E>> = Vec::new();
    let mut i: usize = 0;
    while i < vs.len()
        invariant
            i <= vs@.len(),
            out@.len() == i,
            forall|j: int| 0 <= j < i ==> (#[trigger] out@[j]).view() == vs@[j].view(),
        decreases vs@.len() - i,
    {
        proof {
            vstd::std_specs::vec::axiom_vec_index_decreases(*vs, i as int);
        }
        out.push(vs[i].deep_clone());
        i = i + 1;
    }
    out
}

/// Copies of each entry of `es`, with the same views.
fn clone_entries<'ctx, P: Property, E: Element>(es: &Vec<(Key<'ctx, P>, Value<'ctx, P, E>)>) -> (out: Vec<
    (Key<'ctx, P>, Value<'ctx, P, E>),
>)
    ensures
        out@.len() == es@.len(),
        forall|j: int|
            0 <= j < es@.len() ==> (#[trigger] out@[j]).0@ == es@[j].0@ && out@[j].1.view()
                == es@[j].1.view(),
    decreases es,
{
    let mut out: Vec<(Key<'ctx, P>, Value<'ctx, P, E>)> = Vec::new();
    let mut i: usize = 0;
    while i < es.len()
        invariant
            i <= es@.len(),
            out@.len() == i,
            forall|j: int|
                0 <= j < i ==> (#[trigger] out@[j]).0@ == es@[j].0@ && out@[j].1.view()
                    == es@[j].1.view(),
        decreases es@.len() - i,
    {
        proof {
            vstd::std_specs::vec::axiom_vec_index_decreases(*es, i as int);
        }
        let entry = &es[i];
        let k = entry.0.to_owned();
        let c = entry.1.deep_clone();
        out.push((k, c));
        i = i + 1;
    }
    out
}

impl<'ctx, P: Property, E: Element> Value<'ctx, P, E> {
    /// Whether two values hold the same content (see `same_view`).
    pub fn same_as(&self, other: &Value<'_, P, E>) -> (r: bool)
        ensures
            r == same_view(self.view(), other.view()),
        decreases self,
    {
        match (self, other) {
            (Value::Null, Value::Null) => true,
            (Value::Bool(a), Value::Bool(b)) => *a == *b,
            (Value::Number(a), Value::Number(b)) => *a == *b,
            (Value::Element(a), Value::Element(b)) => {
                let x = a.to_text();
                let y = b.to_text();
                let r = x == y;
                assert(r == same_view(self.view(), other.view()));
                r
            },
            (Value::Str(a), Value::Str(b)) => {
                let x = a.as_str().to_owned();
                let y = b.as_str().to_owned();
                let r = x == y;
                assert(r == same_view(self.view(), other.view()));
                r
            },
            (Value::Array(a), Value::Array(b)) => {
                let r = same_values(a, b);
                proof {
                    let xs = self.view()->Array_0;
                    let ys = other.view()->Array_0;
                    assert(xs.len() == a@.len() && ys.len() == b@.len());
                    if r {
                        assert forall|i: int| 0 <= i < xs.len() implies content(xs[i]) == content(ys[i]) by {
                            assert(xs[i] == a@[i].view());
                            assert(ys[i] == b@[i].view());
                            assert(same_view(a@[i].view(), b@[i].view()));
                        }
                        assert(content(self.view())->Array_0 =~= content(other.view())->Array_0);
                    } else if a@.len() == b@.len() {
                        let i = choose|i: int| 0 <= i < a@.len() && !#[trigger] same_view(a@[i].view(), b@[i].view());
                        assert(xs[i] == a@[i].view());
                        assert(ys[i] == b@[i].view());
                        assert(content(self.view())->Array_0[i] != content(other.view())->Array_0[i]);
                    } else {
                        assert(content(self.view())->Array_0.len() != content(other.view())->Array_0.len());
                    }
                }
                r
            },
            (Value::Object(a), Value::Object(b)) => {
                let r = same_entries(&a.0, &b.0);
                proof {
                    let xs = self.view()->Object_0;
                    let ys = other.view()->Object_0;
                    assert(xs.len() == a.0@.len() && ys.len() == b.0@.len());
                    if r {
                        assert forall|i: int| 0 <= i < xs.len() implies key_text(xs[i].0) == key_text(ys[i].0) && content(xs[i].1) == content(ys[i].1) by {
                            assert(xs[i] == (a.0@[i].0@, a.0@[i].1.view()));
                            assert(ys[i] == (b.0@[i].0@, b.0@[i].1.view()));
                            assert(same_entry(a.0@[i], b.0@[i]));
                        }
                        assert(content(self.view())->Object_0 =~= content(other.view())->Object_0);
                    } else if a.0@.len() == b.0@.len() {
                        let i = choose|i: int| 0 <= i < a.0@.len() && !#[trigger] same_entry(a.0@[i], b.0@[i]);
                        assert(xs[i] == (a.0@[i].0@, a.0@[i].1.view()));
                        assert(ys[i] == (b.0@[i].0@, b.0@[i].1.view()));
                        assert(content(self.view())->Object_0[i] != content(other.view())->Object_0[i]);
                    } else {
                        assert(content(self.view())->Object_0.len() != content(other.view())->Object_0.len());
                    }
                }
                r
            },
            _ => false,
        }
    }
}

/// Whether two lists of values hold the same content, element by element.
fn same_values<'a, 'b, P: Property, E: Element>(a: &Vec<Value<'a, P, E>>, b: &Vec<Value<'b, P, E>>) -> (r: bool)
    ensures
        r == (a@.len() == b@.len() && forall|i: int|
            0 <= i < a@.len() ==> #[trigger] same_view(a@[i].view(), b@[i].view())),
    decreases a,
{
    if a.len() != b.len() {
        return false;
    }
    let mut i: usize = 0;
    while i < a.len()
        invariant
            a@.len() == b@.len(),
            i <= a@.len(),
            forall|j: int| 0 <= j < i ==> #[trigger] same_view(a@[j].view(), b@[j].view()),
        decreases a@.len() - i,
    {
        proof {
            vstd::std_specs::vec::axiom_vec_index_decreases(*a, i as int);
        }
        if !a[i].same_as(&b[i]) {
            assert(!same_view(a@[i as int].view(), b@[i as int].view()));
            return false;
        }
        i = i + 1;
    }
    true
}

/// Two entries hold the same content: same key text, same value content.
pub open spec fn same_entry<'a, 'b, P: Property, E: Element>(
    x: (Key<'a, P>, Value<'a, P, E>),
    y: (Key<'b, P>, Value<'b, P, E>),
) -> bool {
    key_text(x.0@) == key_text(y.0@) && same_view(x.1.view(), y.1.view())
}

/// Whether two entry lists hold the same content, entry by entry.
fn same_entries<'a, 'b, P: Property, E: Element>(
    a: &Vec<(Key<'a, P>, Value<'a, P, E>)>,
    b: &Vec<(Key<'b, P>, Value<'b, P, E>)>,
) -> (r: bool)
    ensures
        r == (a@.len() == b@.len() && forall|i: int|
            0 <= i < a@.len() ==> #[trigger] same_entry(a@[i], b@[i])),
    decreases a,
{
    if a.len() != b.len() {
        return false;
    }
    let mut i: usize = 0;
    while i < a.len()
        invariant
            a@.len() == b@.len(),
            i <= a@.len(),
            forall|j: int| 0 <= j < i ==> #[trigger] same_entry(a@[j], b@[j]),
        decreases a@.len() - i,
    {
        proof {
            vstd::std_specs::vec::axiom_vec_index_decreases(*a, i as int);
        }
        let ea = &a[i];
        let eb = &b[i];
        assert(*ea == a@[i as int] && *eb == b@[i as int]);
        if !ea.0.same_text(&eb.0) || !ea.1.same_as(&eb.1) {
            assert(!same_entry(a@[i as int], b@[i as int]));
            return false;
        }
        assert(same_entry(a@[i as int], b@[i as int]));
        i = i + 1;
    }
    true
}

impl<'ctx, P: Property, E: Element> PartialEq for Value<'ctx, P, E> {
    fn eq(&self, other: &Self) -> (r: bool) {
        self.same_as(other)
    }
}

impl<'ctx, P: Property, E: Element> vstd::std_specs::cmp::PartialEqSpecImpl for Value<'ctx, P, E> {
    open spec fn obeys_eq_spec() -> bool {
        true
    }

    open spec fn eq_spec(&self, other: &Self) -> bool {
        same_view(self.view(), other.view())
    }
}

impl<'ctx, P: Property, E: Element> Clone for Value<'ctx, P, E> {
    fn clone(&self) -> (r: Self)
        ensures
            r@ == self@,
    {
        self.deep_clone()
    }
}

/// The content of a value: keys and elements reduced to their canonical
/// text.
pub enum Content {
    Null,
    Bool(bool),
    Number(Number),
    Element(Seq<char>),
    Str(Seq<char>),
    Array(Seq<Content>),
    Object(Seq<(Seq<char>, Content)>),
}

/// The content of a view.
pub open spec fn content<P: Property, E: Element>(v: ValueView<P, E>) -> Content
    decreases v,
{
    match v {
        ValueView::Null => Content::Null,
        ValueView::Bool(b) => Content::Bool(b),
        ValueView::Number(n) => Content::Number(n),
        ValueView::Element(e) => Content::Element(e.text()),
        ValueView::Str(s) => Content::Str(s),
        ValueView::Array(xs) => Content::Array(
            Seq::new(
                xs.len(),
                |i: int|
                    if 0 <= i < xs.len() {
                        content(xs[i])
                    } else {
                        Content::Null
                    },
            ),
        ),
        ValueView::Object(es) => Content::Object(
            Seq::new(
                es.len(),
                |i: int|
                    if 0 <= i < es.len() {
                        (key_text(es[i].0), content(es[i].1))
                    } else {
                        (Seq::empty(), Content::Null)
                    },
            ),
        ),
    }
}

/// Two views hold the same content: keys and elements compare by their
/// canonical text, everything else structurally.
pub open spec fn same_view<P: Property, E: Element>(a: ValueView<P, E>, b: ValueView<P, E>) -> bool {
    content(a) == content(b)
}


/// A type that selects a child of a value: an array position or an object
/// key.
pub trait Index<'v, P: Property, E: Element>: Sized {
    /// The child selected in `v`, if any.
    spec fn selects(&self, v: &'v Value<'v, P, E>) -> Option<&'v Value<'v, P, E>>;

    /// The child selected in `v`, if any.
    fn index_into(self, v: &'v Value<'v, P, E>) -> (r: Option<&'v Value<'v, P, E>>)
        ensures
            r == self.selects(v),
    ;
}

impl<'v, P: Property, E: Element> Index<'v, P, E> for usize {
    open spec fn selects(&self, v: &'v Value<'v, P, E>) -> Option<&'v Value<'v, P, E>> {
        match v {
            Value::Array(vec) => if *self < vec@.len() {
                Some(&vec@[*self as int])
            } else {
                None
            },
            _ => None,
        }
    }

    fn index_into(self, v: &'v Value<'v, P, E>) -> (r: Option<&'v Value<'v, P, E>>) {
        match v {
            Value::Array(vec) => if self < vec.len() {
                Some(&vec[self])
            } else {
                None
            },
            _ => None,
        }
    }
}

impl<'v, 'a: 'v, P: Property, E: Element> Index<'v, P, E> for &'a str {
    open spec fn selects(&self, v: &'v Value<'v, P, E>) -> Option<&'v Value<'v, P, E>> {
        match v {
            Value::Object(map) => {
                let i = first_index(entry_keys(map.0@), self@);
                if i >= 0 {
                    Some(&map.0@[i].1)
                } else {
                    None
                }
            },
            _ => None,
        }
    }

    fn index_into(self, v: &'v Value<'v, P, E>) -> (r: Option<&'v Value<'v, P, E>>) {
        match v {
            Value::Object(map) => {
                let key: Key<'_, P> = Key::Borrowed(self);
                map.get(&key)
            },
            _ => None,
        }
    }
}

impl<'ctx, P: Property, E: Element> Value<'ctx, P, E> {
    /// An object mapping each key to its flag.
    pub fn new_boolean_set(set: Vec<(Key<'ctx, P>, bool)>) -> (r: Self)
        ensures
            r is Object,
            r->Object_0.0@.len() == set@.len(),
            forall|i: int|
                0 <= i < set@.len() ==> (#[trigger] r->Object_0.0@[i]).0 == set@[i].0
                    && r->Object_0.0@[i].1 == Value::<'ctx, P, E>::Bool(set@[i].1),
    {
        let mut obj: Vec<(Key<'ctx, P>, Value<'ctx, P, E>)> = Vec::new();
        let mut rest = set;
        let ghost all = rest@;
        let mut reversed: Vec<(Key<'ctx, P>, Value<'ctx, P, E>)> = Vec::new();
        while rest.len() > 0
            invariant
                reversed@.len() + rest@.len() == all.len(),
                rest@ == all.subrange(0, rest@.len() as int),
                forall|j: int|
                    0 <= j < reversed@.len() ==> (#[trigger] reversed@[j]).0 == all[all.len() - 1 - j].0
                        && reversed@[j].1 == Value::<'ctx, P, E>::Bool(all[all.len() - 1 - j].1),
            decreases rest@.len(),
        {
            let (key, flag) = rest.pop().unwrap();
            reversed.push((key, Value::Bool(flag)));
        }
        while reversed.len() > 0
            invariant
                reversed@.len() + obj@.len() == all.len(),
                forall|j: int|
                    0 <= j < reversed@.len() ==> (#[trigger] reversed@[j]).0 == all[all.len() - 1 - j].0
                        && reversed@[j].1 == Value::<'ctx, P, E>::Bool(all[all.len() - 1 - j].1),
                forall|j: int|
                    0 <= j < obj@.len() ==> (#[trigger] obj@[j]).0 == all[j].0 && obj@[j].1
                        == Value::<'ctx, P, E>::Bool(all[j].1),
            decreases reversed@.len(),
        {
            let entry = reversed.pop().unwrap();
            obj.push(entry);
        }
        Value::Object(ObjectAsVec(obj))
    }

    /// The child selected by `index`, or `Null` when there is none.
    pub fn get<I: Index<'ctx, P, E>>(&'ctx self, index: I) -> (r: &'ctx Value<'ctx, P, E>)
        ensures
            r == (match index.selects(self) {
                Some(v) => v,
                None => &Value::Null,
            }),
    {
        match index.index_into(self) {
            Some(v) => v,
            None => &Value::Null,
        }
    }

    /// Whether the value is an object with an entry for `key`.
    pub fn is_object_and_contains_key(&self, key: &Key<'_, P>) -> (r: bool)
        ensures
            r == (self is Object && first_index(self->Object_0.keys_view(), key.text()) >= 0),
    {
        match self {
            Value::Object(obj) => obj.contains_key(key),
            _ => false,
        }
    }

    /// Whether the value is an object with an entry for one of `keys`.
    pub fn is_object_and_contains_any_key(&self, keys: &[Key<'_, P>]) -> (r: bool)
        ensures
            r == (self is Object && exists|i: int, j: int|
                0 <= i < self->Object_0.0@.len() && 0 <= j < keys@.len()
                    && #[trigger] self->Object_0.0@[i].0.text() == #[trigger] keys@[j].text()),
    {
        match self {
            Value::Object(obj) => obj.contains_any_key(keys),
            _ => false,
        }
    }

    /// Whether the value is `Null`.
    pub fn is_null(&self) -> (r: bool)
        ensures
            r == (self is Null),
    {
        matches!(self, Value::Null)
    }

    /// Whether the value is an array.
    pub fn is_array(&self) -> (r: bool)
        ensures
            r == (self is Array),
    {
        matches!(self, Value::Array(_))
    }

    /// Whether the value is an object.
    pub fn is_object(&self) -> (r: bool)
        ensures
            r == (self is Object),
    {
        matches!(self, Value::Object(_))
    }

    /// Whether the value is a boolean.
    pub fn is_bool(&self) -> (r: bool)
        ensures
            r == (self is Bool),
    {
        matches!(self, Value::Bool(_))
    }

    /// Whether the value is a number.
    pub fn is_number(&self) -> (r: bool)
        ensures
            r == (self is Number),
    {
        matches!(self, Value::Number(_))
    }

    /// Whether the value is a plain string (not an element).
    pub fn is_string(&self) -> (r: bool)
        ensures
            r == (self is Str),
    {
        matches!(self, Value::Str(_))
    }

    /// Whether the value is an integer in `i64` range.
    pub fn is_i64(&self) -> (r: bool)
        ensures
            r == (match self {
                Value::Number(n) => n.as_i64_spec() is Some,
                _ => false,
            }),
    {
        match self {
            Value::Number(n) => n.is_i64(),
            _ => false,
        }
    }

    /// Whether the value is an integer in `u64` range.
    pub fn is_u64(&self) -> (r: bool)
        ensures
            r == (match self {
                Value::Number(n) => n.as_u64_spec() is Some,
                _ => false,
            }),
    {
        match self {
            Value::Number(n) => n.is_u64(),
            _ => false,
        }
    }

    /// Whether the value is a number stored as a float.
    pub fn is_f64(&self) -> (r: bool)
        ensures
            r == (match self {
                Value::Number(n) => n.n is Float,
                _ => false,
            }),
    {
        match self {
            Value::Number(n) => n.is_f64(),
            _ => false,
        }
    }

    /// The elements of an array, in order.
    pub fn iter_array(&self) -> (r: Option<std::slice::Iter<'_, Value<'ctx, P, E>>>)
        ensures
            match self {
                Value::Array(arr) => r is Some && vstd::std_specs::iter::IteratorSpec::remaining(&r->0)
                    == arr@.as_ref(),
                _ => r is None,
            },
    {
        broadcast use vstd::std_specs::slice::axiom_spec_slice_iter;

        match self {
            Value::Array(arr) => Some(arr.iter()),
            _ => None,
        }
    }

    /// The entries of an object, in order.
    pub fn iter_object(&self) -> (r: Option<std::slice::Iter<'_, (Key<'ctx, P>, Value<'ctx, P, E>)>>)
        ensures
            match self {
                Value::Object(obj) => r is Some && vstd::std_specs::iter::IteratorSpec::remaining(
                    &r->0,
                ) == obj.0@.as_ref(),
                _ => r is None,
            },
    {
        match self {
            Value::Object(obj) => Some(obj.iter()),
            _ => None,
        }
    }

    /// The elements, when the value is an array.
    pub fn as_array(&self) -> (r: Option<&[Value<'ctx, P, E>]>)
        ensures
            match self {
                Value::Array(arr) => r is Some && r->0@ == arr@,
                _ => r is None,
            },
    {
        match self {
            Value::Array(arr) => Some(arr.as_slice()),
            _ => None,
        }
    }

    /// The elements, when the value is an array, for changing in place.
    pub fn as_array_mut(&mut self) -> (r: Option<&mut Vec<Value<'ctx, P, E>>>)
        ensures
            match *old(self) {
                Value::Array(arr) => r is Some && *r->0 == arr && *final(self) == Value::<
                    'ctx,
                    P,
                    E,
                >::Array(*final(r->0)),
                _ => r is None && *final(self) == *old(self),
            },
    {
        match self {
            Value::Array(arr) => Some(arr),
            _ => None,
        }
    }

    /// The elements, when the value is an array.
    pub fn into_array(self) -> (r: Option<Vec<Value<'ctx, P, E>>>)
        ensures
            match self {
                Value::Array(arr) => r == Some(arr),
                _ => r is None,
            },
    {
        match self {
            Value::Array(arr) => Some(arr),
            _ => None,
        }
    }

    /// The object, when the value is one.
    pub fn as_object(&self) -> (r: Option<&ObjectAsVec<'ctx, P, E>>)
        ensures
            match self {
                Value::Object(obj) => r == Some(obj),
                _ => r is None,
            },
    {
        match self {
            Value::Object(obj) => Some(obj),
            _ => None,
        }
    }

    /// The object, when the value is one, for changing in place.
    pub fn as_object_mut(&mut self) -> (r: Option<&mut ObjectAsVec<'ctx, P, E>>)
        ensures
            match *old(self) {
                Value::Object(obj) => r is Some && *r->0 == obj && *final(self) == Value::<
                    'ctx,
                    P,
                    E,
                >::Object(*final(r->0)),
                _ => r is None && *final(self) == *old(self),
            },
    {
        match self {
            Value::Object(obj) => Some(obj),
            _ => None,
        }
    }

    /// The object, when the value is one.
    pub fn into_object(self) -> (r: Option<ObjectAsVec<'ctx, P, E>>)
        ensures
            match self {
                Value::Object(obj) => r == Some(obj),
                _ => r is None,
            },
    {
        match self {
            Value::Object(obj) => Some(obj),
            _ => None,
        }
    }

    /// The entries of an object, or none for any other value.
    pub fn into_expanded_object(self) -> (r: Vec<(Key<'ctx, P>, Value<'ctx, P, E>)>)
        ensures
            match self {
                Value::Object(obj) => r == obj.0,
                _ => r@.len() == 0,
            },
    {
        match self {
            Value::Object(obj) => obj.into_vec(),
            _ => Vec::new(),
        }
    }

    /// The entries of an object whose value is a boolean, as key and flag.
    pub fn into_expanded_boolean_set(self) -> (r: Vec<(Key<'ctx, P>, bool)>)
        ensures
            match self {
                Value::Object(obj) => r@ == bool_entries(obj.0@),
                _ => r@.len() == 0,
            },
    {
        match self {
            Value::Object(obj) => {
                let mut rest = obj.0;
                let ghost all = rest@;
                let mut out: Vec<(Key<'ctx, P>, bool)> = Vec::new();
                while rest.len() > 0
                    invariant
                        bool_entries(all) == bool_entries(rest@) + out@,
                    decreases rest@.len(),
                {
                    let ghost before = rest@;
                    let entry = rest.pop().unwrap();
                    proof {
                        assert(before.drop_last() == rest@);
                    }
                    let (k, v) = entry;
                    if let Value::Bool(b) = v {
                        out.insert(0, (k, b));
                    }
                }
                proof {
                    assert(out@ =~= bool_entries(all));
                }
                out
            },
            _ => Vec::new(),
        }
    }

    /// The element, when the value is one.
    pub fn into_element(self) -> (r: Option<E>)
        ensures
            match self {
                Value::Element(e) => r == Some(e),
                _ => r is None,
            },
    {
        match self {
            Value::Element(e) => Some(e),
            _ => None,
        }
    }

    /// The flag, when the value is a boolean.
    pub fn as_bool(&self) -> (r: Option<bool>)
        ensures
            match self {
                Value::Bool(b) => r == Some(*b),
                _ => r is None,
            },
    {
        match self {
            Value::Bool(b) => Some(*b),
            _ => None,
        }
    }

    /// The text of a string or of an element; a string's text is borrowed.
    pub fn as_str(&self) -> (r: Option<Text<'_>>)
        ensures
            match self {
                Value::Str(t) => r is Some && r->0@ == t@ && r->0 is Borrowed,
                Value::Element(e) => r is Some && r->0@ == e.text(),
                _ => r is None,
            },
    {
        match self {
            Value::Str(t) => Some(Text::Borrowed(t.as_str())),
            Value::Element(e) => Some(Text::Owned(e.to_text())),
            _ => None,
        }
    }

    /// The text of a string or of an element.
    pub fn into_string(self) -> (r: Option<String>)
        ensures
            match self {
                Value::Str(t) => r is Some && r->0@ == t@,
                Value::Element(e) => r is Some && r->0@ == e.text(),
                _ => r is None,
            },
    {
        match self {
            Value::Str(t) => Some(t.into_string()),
            Value::Element(e) => Some(e.to_text()),
            _ => None,
        }
    }

    /// The value as `i64`, when it is an integer in range.
    pub fn as_i64(&self) -> (r: Option<i64>)
        ensures
            match self {
                Value::Number(n) => r == n.as_i64_spec(),
                _ => r is None,
            },
    {
        match self {
            Value::Number(n) => n.as_i64(),
            _ => None,
        }
    }

    /// The value as `u64`, when it is a non-negative integer.
    pub fn as_u64(&self) -> (r: Option<u64>)
        ensures
            match self {
                Value::Number(n) => r == n.as_u64_spec(),
                _ => r is None,
            },
    {
        match self {
            Value::Number(n) => n.as_u64(),
            _ => None,
        }
    }

    /// The same tree with every string and key owned, no longer tied to the
    /// source text.
    pub fn into_owned(self) -> (r: Value<'static, P, E>)
        ensures
            r.view() == self.view(),
            r.is_owned(),
        decreases self,
    {
        match self {
            Value::Null => Value::Null,
            Value::Bool(b) => Value::Bool(b),
            Value::Number(n) => Value::Number(n),
            Value::Element(e) => Value::Element(e),
            Value::Str(t) => Value::Str(t.into_owned()),
            Value::Array(arr) => {
                let ghost old_arr = arr@;
                let out = owned_values(arr);
                let r = Value::Array(out);
                proof {
                    assert(r.view()->Array_0 =~= self.view()->Array_0);
                    let flags = Seq::new(
                        out@.len(),
                        |i: int|
                            if 0 <= i < out@.len() {
                                out@[i].is_owned()
                            } else {
                                true
                            },
                    );
                    assert forall|i: int| 0 <= i < flags.len() implies #[trigger] flags[i] by {
                        assert(out@[i].is_owned());
                    }
                }
                r
            },
            Value::Object(obj) => {
                let out = owned_entries(obj.0);
                let r = Value::Object(ObjectAsVec(out));
                proof {
                    assert(r.view()->Object_0 =~= self.view()->Object_0);
                    let flags = Seq::new(
                        out@.len(),
                        |i: int|
                            if 0 <= i < out@.len() {
                                !(out@[i].0 is Borrowed) && out@[i].1.is_owned()
                            } else {
                                true
                            },
                    );
                    assert forall|i: int| 0 <= i < flags.len() implies #[trigger] flags[i] by {
                        assert(out@[i].1.is_owned());
                    }
                }
                r
            },
        }
    }
}

/// The entries whose value is a boolean, as key and flag, in order.
pub open spec fn bool_entries<'ctx, P, E>(es: Seq<(Key<'ctx, P>, Value<'ctx, P, E>)>) -> Seq<
    (Key<'ctx, P>, bool),
>
    decreases es.len(),
{
    if es.len() == 0 {
        Seq::empty()
    } else {
        let rest = bool_entries(es.drop_last());
        match es.last().1 {
            Value::Bool(b) => rest.push((es.last().0, b)),
            _ => rest,
        }
    }
}

/// Owned copies of the values, with the same views.
fn owned_values<'ctx, P: Property, E: Element>(vs: Vec<Value<'ctx, P, E>>) -> (out: Vec<
    Value<'static, P, E>,
>)
    ensures
        out@.len() == vs@.len(),
        forall|j: int| 0 <= j < vs@.len() ==> (#[trigger] out@[j]).view() == vs@[j].view(),
        forall|j: int| 0 <= j < vs@.len() ==> (#[trigger] out@[j]).is_owned(),
    decreases vs,
{
    let mut rest = vs;
    let ghost all = rest@;
    let mut out: Vec<Value<'static, P, E>> = Vec::new();
    while rest.len() > 0
        invariant
            all == vs@,
            rest@ == all.subrange(0, rest@.len() as int),
            out@.len() + rest@.len() == all.len(),
            forall|j: int|
                0 <= j < out@.len() ==> (#[trigger] out@[j]).view() == all[rest@.len() + j].view(),
            forall|j: int| 0 <= j < out@.len() ==> (#[trigger] out@[j]).is_owned(),
        decreases rest@.len(),
    {
        proof {
            vstd::std_specs::vec::axiom_vec_index_decreases(vs, rest@.len() - 1);
        }
        let ghost n = rest@.len();
        let v = rest.pop().unwrap();
        assert(v == all[n - 1]);
        let owned = v.into_owned();
        out.insert(0, owned);
    }
    out
}

/// Owned copies of the entries, with the same views.
fn owned_entries<'ctx, P: Property, E: Element>(es: Vec<(Key<'ctx, P>, Value<'ctx, P, E>)>) -> (out:
    Vec<(Key<'static, P>, Value<'static, P, E>)>)
    ensures
        out@.len() == es@.len(),
        forall|j: int|
            0 <= j < es@.len() ==> (#[trigger] out@[j]).0@ == es@[j].0@ && out@[j].1.view()
                == es@[j].1.view(),
        forall|j: int|
            0 <= j < es@.len() ==> !((#[trigger] out@[j]).0 is Borrowed) && out@[j].1.is_owned(),
    decreases es,
{
    let mut rest = es;
    let ghost all = rest@;
    let mut out: Vec<(Key<'static, P>, Value<'static, P, E>)> = Vec::new();
    while rest.len() > 0
        invariant
            all == es@,
            rest@ == all.subrange(0, rest@.len() as int),
            out@.len() + rest@.len() == all.len(),
            forall|j: int|
                0 <= j < out@.len() ==> (#[trigger] out@[j]).0@ == all[rest@.len() + j].0@
                    && out@[j].1.view() == all[rest@.len() + j].1.view(),
            forall|j: int|
                0 <= j < out@.len() ==> !((#[trigger] out@[j]).0 is Borrowed) && out@[j].1.is_owned(),
        decreases rest@.len(),
    {
        proof {
            vstd::std_specs::vec::axiom_vec_index_decreases(es, rest@.len() - 1);
        }
        let ghost n = rest@.len();
        let (k, v) = rest.pop().unwrap();
        assert((k, v) == all[n - 1]);
        let owned = v.into_owned();
        out.insert(0, (k.into_owned(), owned));
    }
    out
}

impl<'ctx, P, E> From<bool> for Value<'ctx, P, E> {
    fn from(val: bool) -> (r: Self) {
        Value::Bool(val)
    }
}

impl<'ctx, P, E> vstd::std_specs::convert::FromSpecImpl<bool> for Value<'ctx, P, E> {
    open spec fn obeys_from_spec() -> bool {
        true
    }

    open spec fn from_spec(val: bool) -> Self {
        Value::Bool(val)
    }
}

impl<'a, P, E> From<&'a str> for Value<'a, P, E> {
    fn from(val: &'a str) -> (r: Self) {
        Value::Str(Text::Borrowed(val))
    }
}

impl<'a, P, E> vstd::std_specs::convert::FromSpecImpl<&'a str> for Value<'a, P, E> {
    open spec fn obeys_from_spec() -> bool {
        true
    }

    open spec fn from_spec(val: &'a str) -> Self {
        Value::Str(Text::Borrowed(val))
    }
}

impl<'ctx, P, E> From<String> for Value<'ctx, P, E> {
    fn from(val: String) -> (r: Self) {
        Value::Str(Text::Owned(val))
    }
}

impl<'ctx, P, E> vstd::std_specs::convert::FromSpecImpl<String> for Value<'ctx, P, E> {
    open spec fn obeys_from_spec() -> bool {
        true
    }

    open spec fn from_spec(val: String) -> Self {
        Value::Str(Text::Owned(val))
    }
}

impl<'ctx, P, E> From<u64> for Value<'ctx, P, E> {
    fn from(val: u64) -> (r: Self) {
        Value::Number(Number::from_u64(val))
    }
}

impl<'ctx, P, E> vstd::std_specs::convert::FromSpecImpl<u64> for Value<'ctx, P, E> {
    open spec fn obeys_from_spec() -> bool {
        true
    }

    open spec fn from_spec(val: u64) -> Self {
        Value::Number(Number { n: crate::number::N::PosInt(val) })
    }
}

impl<'ctx, P, E> From<i64> for Value<'ctx, P, E> {
    fn from(val: i64) -> (r: Self) {
        Value::Number(Number::from_i64(val))
    }
}

impl<'ctx, P, E> vstd::std_specs::convert::FromSpecImpl<i64> for Value<'ctx, P, E> {
    open spec fn obeys_from_spec() -> bool {
        true
    }

    open spec fn from_spec(val: i64) -> Self {
        Value::Number(
            if val >= 0 {
                Number { n: crate::number::N::PosInt(val as u64) }
            } else {
                Number { n: crate::number::N::NegInt(val) }
            },
        )
    }
}


/// Indexing by a key never fails: a value that is not an object, or an
/// object without that key, selects nothing, so `get` yields `Null`.
pub proof fn lemma_absent_key_selects_nothing<'v, P: Property, E: Element>(
    v: &'v Value<'v, P, E>,
    key: &'v str,
)
    requires
        !(v is Object) || forall|i: int|
            0 <= i < v->Object_0.0@.len() ==> (#[trigger] v->Object_0.0@[i]).0.text() != key@,
    ensures
        <&'v str as Index<'v, P, E>>::selects(&key, v) is None,
{
    if v is Object {
        let es = v->Object_0.0@;
        crate::object::lemma_first_index(entry_keys(es), key@);
        assert forall|i: int| 0 <= i < es.len() implies key_text(#[trigger] entry_keys(es)[i]) != key@ by {
            assert(entry_keys(es)[i] == es[i].0@);
        }
    }
}

/// Indexing an array past its end selects nothing, so `get` yields `Null`.
pub proof fn lemma_out_of_range_selects_nothing<'v, P: Property, E: Element>(
    v: &'v Value<'v, P, E>,
    i: usize,
)
    requires
        !(v is Array) || i >= v->Array_0@.len(),
    ensures
        <usize as Index<'v, P, E>>::selects(&i, v) is None,
{
}


impl<'ctx, P, E> From<Vec<Value<'ctx, P, E>>> for Value<'ctx, P, E> {
    fn from(val: Vec<Value<'ctx, P, E>>) -> (r: Self) {
        Value::Array(val)
    }
}

impl<'ctx, P, E> vstd::std_specs::convert::FromSpecImpl<Vec<Value<'ctx, P, E>>> for Value<'ctx, P, E> {
    open spec fn obeys_from_spec() -> bool {
        true
    }

    open spec fn from_spec(val: Vec<Value<'ctx, P, E>>) -> Self {
        Value::Array(val)
    }
}

} // verus!
