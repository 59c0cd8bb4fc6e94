//! Pointers: sequences of segments (root, wildcard, key, index) that address
//! nodes of a tree, and their text form.
use vstd::prelude::*;
use crate::key::{key_text, Key, KeyView, Property};
use crate::text::{decimal_of, push_decimal, push_str_chars, string_from_chars};

verus! {

/// What a pointer segment is, for reasoning.
pub enum ItemView<P> {
    Root,
    Wildcard,
    Key(KeyView<P>),
    Number(u64),
}

/// One segment of a pointer.
#[derive(Debug, Clone)]
pub enum JsonPointerItem<P> {
    Root,
    Wildcard,
    Key(Key<'static, P>),
    Number(u64),
}

impl<P> View for JsonPointerItem<P> {
    type V = ItemView<P>;

    open spec fn view(&self) -> ItemView<P> {
        match self {
            JsonPointerItem::Root => ItemView::Root,
            JsonPointerItem::Wildcard => ItemView::Wildcard,
            JsonPointerItem::Key(k) => ItemView::Key(k@),
            JsonPointerItem::Number(n) => ItemView::Number(*n),
        }
    }
}

/// The views of a sequence of segments.
pub open spec fn items_view<P>(items: Seq<JsonPointerItem<P>>) -> Seq<ItemView<P>> {
    Seq::new(items.len(), |i: int| items[i]@)
}

/// A pointer: a non-empty sequence of segments (the empty text is `[Root]`).
#[derive(Debug, Clone)]
pub struct JsonPointer<P>(pub Vec<JsonPointerItem<P>>);

impl<P> View for JsonPointer<P> {
    type V = Seq<ItemView<P>>;

    open spec fn view(&self) -> Seq<ItemView<P>> {
        items_view(self.0@)
    }
}

/// A cursor over the segments of a pointer: advance, or look at the next
/// one without advancing.
pub struct JsonPointerIter<'x, P> {
    pub items: &'x [JsonPointerItem<P>],
    pub pos: usize,
}

impl<'x, P> JsonPointerIter<'x, P> {
    /// The segments not yet consumed.
    pub open spec fn rest_items(&self) -> Seq<JsonPointerItem<P>> {
        if self.pos <= self.items@.len() {
            self.items@.subrange(self.pos as int, self.items@.len() as int)
        } else {
            Seq::empty()
        }
    }

    /// The views of the segments not yet consumed.
    pub open spec fn rest(&self) -> Seq<ItemView<P>> {
        items_view(self.rest_items())
    }

    /// Consumes and returns the next segment.
    pub fn next(&mut self) -> (r: Option<&'x JsonPointerItem<P>>)
        ensures
            old(self).rest_items().len() > 0 ==> r == Some(&old(self).rest_items()[0])
                && final(self).rest_items() == old(self).rest_items().drop_first(),
            old(self).rest_items().len() == 0 ==> r is None && final(self).rest_items().len()
                == 0,
            final(self).items == old(self).items,
    {
        if self.pos < self.items.len() {
            let item = &self.items[self.pos];
            self.pos = self.pos + 1;
            proof {
                assert(final(self).rest_items() =~= old(self).rest_items().drop_first());
            }
            Some(item)
        } else {
            None
        }
    }

    /// The next segment, without consuming it.
    pub fn peek(&self) -> (r: Option<&'x JsonPointerItem<P>>)
        ensures
            self.rest_items().len() > 0 ==> r == Some(&self.rest_items()[0]),
            self.rest_items().len() == 0 ==> r is None,
    {
        if self.pos < self.items.len() {
            Some(&self.items[self.pos])
        } else {
            None
        }
    }
}

impl<'x, P> Clone for JsonPointerIter<'x, P> {
    fn clone(&self) -> (r: Self)
        ensures
            r == *self,
    {
        JsonPointerIter { items: self.items, pos: self.pos }
    }
}

impl<'x, P> Copy for JsonPointerIter<'x, P> {
}

/// A segment of the text form: `~` as `~0` and `/` as `~1`.
pub open spec fn escape(s: Seq<char>) -> Seq<char>
    decreases s.len(),
{
    if s.len() == 0 {
        Seq::empty()
    } else {
        escape(s.drop_last()) + escape_char(s.last())
    }
}

/// One character of a segment in the text form.
pub open spec fn escape_char(c: char) -> Seq<char> {
    if c == '~' {
        seq!['~', '0']
    } else if c == '/' {
        seq!['~', '1']
    } else {
        seq![c]
    }
}

/// Segments joined by `/`.
pub open spec fn join(parts: Seq<Seq<char>>) -> Seq<char>
    decreases parts.len(),
{
    if parts.len() == 0 {
        Seq::empty()
    } else if parts.len() == 1 {
        parts[0]
    } else {
        join(parts.drop_last()) + seq!['/'] + parts.last()
    }
}

/// The text form of one segment: nothing for the root, `*` for the
/// wildcard, the escaped key text, or the decimal index.
pub open spec fn render_item<P: Property>(it: ItemView<P>) -> Seq<char> {
    match it {
        ItemView::Root => Seq::empty(),
        ItemView::Wildcard => seq!['*'],
        ItemView::Key(k) => escape(key_text(k)),
        ItemView::Number(n) => decimal_of(n as nat),
    }
}

/// The text form of a pointer.
pub open spec fn render<P: Property>(items: Seq<ItemView<P>>) -> Seq<char> {
    join(Seq::new(items.len(), |i: int| render_item(items[i])))
}

/// Appends the escaped form of `s` to `out`.
fn push_escaped(out: &mut Vec<char>, s: &str)
    ensures
        final(out)@ == old(out)@ + escape(s@),
{
    let cs = crate::text::chars_of(s);
    let ghost start = out@;
    let mut i: usize = 0;
    while i < cs.len()
        invariant
            i <= cs@.len(),
            cs@ == s@,
            out@ == start + escape(cs@.subrange(0, i as int)),
        decreases cs@.len() - i,
    {
        let c = cs[i];
        if c == '~' {
            out.push('~');
            out.push('0');
        } else if c == '/' {
            out.push('~');
            out.push('1');
        } else {
            out.push(c);
        }
        proof {
            assert(cs@.subrange(0, i + 1).drop_last() =~= cs@.subrange(0, i as int));
            assert(out@ =~= start + escape(cs@.subrange(0, i + 1)));
        }
        i = i + 1;
    }
    assert(cs@.subrange(0, cs@.len() as int) =~= cs@);
}

/// Appends the text form of one segment to `out`.
fn push_item<P: Property>(out: &mut Vec<char>, item: &JsonPointerItem<P>)
    ensures
        final(out)@ == old(out)@ + render_item(item@),
{
    match item {
        JsonPointerItem::Root => {
            assert(old(out)@ + render_item(item@) =~= old(out)@);
        },
        JsonPointerItem::Wildcard => {
            out.push('*');
        },
        JsonPointerItem::Key(k) => {
            let t = k.to_string();
            push_escaped(out, t.as_str());
        },
        JsonPointerItem::Number(n) => {
            push_decimal(out, *n);
        },
    }
}

impl<P: Property> JsonPointer<P> {
    /// A cursor at the first segment.
    pub fn iter(&self) -> (r: JsonPointerIter<'_, P>)
        ensures
            r.rest() == self@,
            r.rest_items() == self.0@,
    {
        let r = JsonPointerIter { items: self.0.as_slice(), pos: 0 };
        assert(r.rest_items() =~= self.0@);
        r
    }

    /// The segments in order, consuming the pointer.
    pub fn into_iter(self) -> (r: std::vec::IntoIter<JsonPointerItem<P>>)
        ensures
            vstd::std_specs::iter::IteratorSpec::remaining(&r) == self.0@,
    {
        self.0.into_iter()
    }

    /// The segments, consuming the pointer.
    pub fn into_inner(self) -> (r: Vec<JsonPointerItem<P>>)
        ensures
            r == self.0,
    {
        self.0
    }

    /// The first segment.
    pub fn first(&self) -> (r: Option<&JsonPointerItem<P>>)
        ensures
            self.0@.len() > 0 ==> r == Some(&self.0@[0]),
            self.0@.len() == 0 ==> r is None,
    {
        if self.0.len() > 0 {
            Some(&self.0[0])
        } else {
            None
        }
    }

    /// The last segment.
    pub fn last(&self) -> (r: Option<&JsonPointerItem<P>>)
        ensures
            self.0@.len() > 0 ==> r == Some(&self.0@.last()),
            self.0@.len() == 0 ==> r is None,
    {
        if self.0.len() > 0 {
            Some(&self.0[self.0.len() - 1])
        } else {
            None
        }
    }

    /// The number of segments.
    pub fn len(&self) -> (r: usize)
        ensures
            r == self.0@.len(),
    {
        self.0.len()
    }

    /// Whether there are no segments.
    pub fn is_empty(&self) -> (r: bool)
        ensures
            r == (self.0@.len() == 0),
    {
        self.0.len() == 0
    }

    /// The text form: segments joined by `/`, keys escaped.
    pub fn to_string(&self) -> (r: String)
        ensures
            r@ == render(self@),
    {
        let mut out: Vec<char> = Vec::new();
        let mut i: usize = 0;
        let ghost parts = Seq::new(self@.len(), |k: int| render_item(self@[k]));
        while i < self.0.len()
            invariant
                i <= self.0@.len(),
                parts == Seq::new(self@.len(), |k: int| render_item(self@[k])),
                out@ == join(parts.subrange(0, i as int)),
            decreases self.0@.len() - i,
        {
            if i > 0 {
                out.push('/');
            }
            push_item(&mut out, &self.0[i]);
            proof {
                assert(self@[i as int] == self.0@[i as int]@);
                assert(parts.subrange(0, i + 1).drop_last() =~= parts.subrange(0, i as int));
                if i == 0 {
                    assert(out@ =~= join(parts.subrange(0, 1)));
                }
            }
            i = i + 1;
        }
        assert(parts.subrange(0, self.0@.len() as int) =~= parts);
        string_from_chars(&out)
    }

    /// Joins the given segment texts with `/`, escaping `~` and `/` in each.
    pub fn encode(items: &[&str]) -> (r: String)
        ensures
            r@ == join(Seq::new(items@.len(), |k: int| escape(items@[k]@))),
    {
        let mut out: Vec<char> = Vec::new();
        let mut i: usize = 0;
        let ghost parts = Seq::new(items@.len(), |k: int| escape(items@[k]@));
        while i < items.len()
            invariant
                i <= items@.len(),
                parts == Seq::new(items@.len(), |k: int| escape(items@[k]@)),
                out@ == join(parts.subrange(0, i as int)),
            decreases items@.len() - i,
        {
            if i > 0 {
                out.push('/');
            }
            push_escaped(&mut out, items[i]);
            proof {
                assert(parts.subrange(0, i + 1).drop_last() =~= parts.subrange(0, i as int));
                if i == 0 {
                    assert(out@ =~= join(parts.subrange(0, 1)));
                }
            }
            i = i + 1;
        }
        assert(parts.subrange(0, items@.len() as int) =~= parts);
        string_from_chars(&out)
    }
}

/// Two segments are the same: keys compare by their canonical text.
pub open spec fn same_item<P: Property>(a: ItemView<P>, b: ItemView<P>) -> bool {
    match (a, b) {
        (ItemView::Key(x), ItemView::Key(y)) => key_text(x) == key_text(y),
        (ItemView::Key(_), _) => false,
        _ => a == b,
    }
}

impl<P: Property> PartialEq for JsonPointerItem<P> {
    fn eq(&self, other: &Self) -> (r: bool) {
        match (self, other) {
            (JsonPointerItem::Root, JsonPointerItem::Root) => true,
            (JsonPointerItem::Wildcard, JsonPointerItem::Wildcard) => true,
            (JsonPointerItem::Number(a), JsonPointerItem::Number(b)) => *a == *b,
            (JsonPointerItem::Key(a), JsonPointerItem::Key(b)) => a.same_text(b),
            _ => false,
        }
    }
}

impl<P: Property> vstd::std_specs::cmp::PartialEqSpecImpl for JsonPointerItem<P> {
    open spec fn obeys_eq_spec() -> bool {
        true
    }

    open spec fn eq_spec(&self, other: &Self) -> bool {
        same_item(self@, other@)
    }
}

impl<P: Property> JsonPointerItem<P> {
    /// The key, when the segment is one.
    pub fn as_key(&self) -> (r: Option<&Key<'static, P>>)
        ensures
            match self {
                JsonPointerItem::Key(k) => r == Some(k),
                _ => r is None,
            },
    {
        match self {
            JsonPointerItem::Key(key) => Some(key),
            _ => None,
        }
    }

    /// The property, when the segment is a property key.
    pub fn as_property_key(&self) -> (r: Option<&P>)
        ensures
            match self@ {
                ItemView::Key(KeyView::Property(p)) => r == Some(&p),
                _ => r is None,
            },
    {
        match self {
            JsonPointerItem::Key(Key::Property(key)) => Some(key),
            _ => None,
        }
    }

    /// The text, when the segment is a plain-text key.
    pub fn as_string_key(&self) -> (r: Option<&str>)
        ensures
            match self@ {
                ItemView::Key(KeyView::Text(t)) => r is Some && r->0@ == t,
                _ => r is None,
            },
    {
        match self {
            JsonPointerItem::Key(Key::Borrowed(key)) => Some(key),
            JsonPointerItem::Key(Key::Owned(key)) => Some(key.as_str()),
            _ => None,
        }
    }
}

} // verus!
