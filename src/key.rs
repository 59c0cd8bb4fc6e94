//! Object keys: plain text (borrowed or owned) or a typed property symbol.
use vstd::prelude::*;
use vstd::pervasive::strictly_cloned;

verus! {

/// What a key is, for reasoning: a property symbol or a piece of text.
/// Borrowed and owned keys have the same view.
pub enum KeyView<P> {
    Property(P),
    Text(Seq<char>),
}

/// A caller-supplied symbol type that object keys may be classified into.
pub trait Property: Sized + Clone {
    /// The canonical text of the symbol.
    spec fn text(&self) -> Seq<char>;

    /// Which symbol, if any, `text` denotes after the key `prev`.
    spec fn classify(prev: Option<KeyView<Self>>, text: Seq<char>) -> Option<Self>;

    /// Classifies `value`, given the previous key (if any) as context.
    fn try_parse(key: Option<&Key<'_, Self>>, value: &str) -> (r: Option<Self>)
        ensures
            r == Self::classify(opt_key_view(key), value@),
    ;

    /// The canonical text of the symbol.
    fn to_text(&self) -> (r: String)
        ensures
            r@ == self.text(),
    ;

    /// A clone is the same symbol.
    proof fn lemma_clone_exact(a: Self, b: Self)
        requires
            strictly_cloned(a, b),
        ensures
            a == b,
    ;
}

/// The view of an optional key reference.
pub open spec fn opt_key_view<'x, P>(key: Option<&Key<'x, P>>) -> Option<KeyView<P>> {
    match key {
        Some(k) => Some(k@),
        None => None,
    }
}

/// The canonical text of a key view; keys are compared by it.
pub open spec fn key_text<P: Property>(k: KeyView<P>) -> Seq<char> {
    match k {
        KeyView::Property(p) => p.text(),
        KeyView::Text(s) => s,
    }
}

/// An object key: a typed property, a view into the source text, or an
/// owned string.
#[derive(Debug, Clone)]
pub enum Key<'x, P> {
    Property(P),
    Borrowed(&'x str),
    Owned(String),
}

impl<'x, P> View for Key<'x, P> {
    type V = KeyView<P>;

    open spec fn view(&self) -> KeyView<P> {
        match self {
            Key::Property(p) => KeyView::Property(*p),
            Key::Borrowed(s) => KeyView::Text(s@),
            Key::Owned(s) => KeyView::Text(s@),
        }
    }
}

impl<'x, P: Property> Key<'x, P> {
    /// The canonical text of the key.
    pub open spec fn text(&self) -> Seq<char> {
        key_text(self@)
    }

    /// The canonical text of the key.
    pub fn to_string(&self) -> (r: String)
        ensures
            r@ == self.text(),
    {
        match self {
            Key::Property(p) => p.to_text(),
            Key::Borrowed(s) => (*s).to_owned(),
            Key::Owned(s) => s.clone(),
        }
    }

    /// The canonical text of the key, consuming it.
    pub fn into_string(self) -> (r: String)
        ensures
            r@ == self.text(),
    {
        match self {
            Key::Property(p) => p.to_text(),
            Key::Borrowed(s) => s.to_owned(),
            Key::Owned(s) => s,
        }
    }

    /// The property symbol, when the key is one.
    pub fn try_into_property(self) -> (r: Option<P>)
        ensures
            r == (match self@ {
                KeyView::Property(p) => Some(p),
                KeyView::Text(_) => None,
            }),
    {
        match self {
            Key::Property(p) => Some(p),
            _ => None,
        }
    }

    /// The same key, no longer tied to the source text.
    pub fn into_owned(self) -> (r: Key<'static, P>)
        ensures
            r@ == self@,
            !(r is Borrowed),
    {
        match self {
            Key::Borrowed(s) => Key::Owned(s.to_owned()),
            Key::Owned(s) => Key::Owned(s),
            Key::Property(p) => Key::Property(p),
        }
    }

    /// An independent copy of the key.
    pub fn to_owned(&self) -> (r: Key<'static, P>)
        ensures
            r@ == self@,
            !(r is Borrowed),
    {
        match self {
            Key::Borrowed(s) => Key::Owned((*s).to_owned()),
            Key::Owned(s) => Key::Owned(s.clone()),
            Key::Property(p) => {
                let q = p.clone();
                proof {
                    P::lemma_clone_exact(*p, q);
                }
                Key::Property(q)
            },
        }
    }

    /// The property symbol, when the key is one.
    pub fn as_property(&self) -> (r: Option<&P>)
        ensures
            r == (match self@ {
                KeyView::Property(p) => Some(&p),
                KeyView::Text(_) => None,
            }),
    {
        match self {
            Key::Property(p) => Some(p),
            _ => None,
        }
    }

    /// The text, when the key is plain text rather than a property.
    pub fn as_string_key(&self) -> (r: Option<&str>)
        ensures
            match self@ {
                KeyView::Property(_) => r is None,
                KeyView::Text(t) => r is Some && r->0@ == t,
            },
    {
        match self {
            Key::Borrowed(s) => Some(s),
            Key::Owned(s) => Some(s.as_str()),
            Key::Property(_) => None,
        }
    }

    /// Builds a key from text: a property when `P` recognizes the text
    /// without context, else a view into the text.
    pub fn from_text(s: &'x str) -> (r: Key<'x, P>)
        ensures
            r == key_from_text_spec::<P>(s),
    {
        match P::try_parse(None, s) {
            Some(word) => Key::Property(word),
            None => Key::Borrowed(s),
        }
    }

    /// Whether two keys have the same canonical text.
    pub fn same_text(&self, other: &Key<'_, P>) -> (r: bool)
        ensures
            r == (self.text() == other.text()),
    {
        let a = self.to_string();
        let b = other.to_string();
        a == b
    }

    /// Whether the key's canonical text is `s`.
    pub fn has_text(&self, s: &str) -> (r: bool)
        ensures
            r == (self.text() == s@),
    {
        let a = self.to_string();
        let b = s.to_owned();
        a == b
    }
}

impl<'x, P: Property> PartialEq for Key<'x, P> {
    fn eq(&self, other: &Self) -> (r: bool) {
        self.same_text(other)
    }
}

impl<'x, P: Property> vstd::std_specs::cmp::PartialEqSpecImpl for Key<'x, P> {
    open spec fn obeys_eq_spec() -> bool {
        true
    }

    open spec fn eq_spec(&self, other: &Self) -> bool {
        self.text() == other.text()
    }
}

impl<'x, P: Property> Eq for Key<'x, P> {
}

impl<'x, P: Property> From<&'x str> for Key<'x, P> {
    fn from(s: &'x str) -> (r: Key<'x, P>) {
        Key::from_text(s)
    }
}

impl<'x, P: Property> vstd::std_specs::convert::FromSpecImpl<&'x str> for Key<'x, P> {
    open spec fn obeys_from_spec() -> bool {
        true
    }

    open spec fn from_spec(s: &'x str) -> Self {
        key_from_text_spec::<P>(s)
    }
}

impl<'x, P: Property> From<P> for Key<'x, P> {
    fn from(word: P) -> (r: Key<'x, P>) {
        Key::Property(word)
    }
}

impl<'x, P: Property> vstd::std_specs::convert::FromSpecImpl<P> for Key<'x, P> {
    open spec fn obeys_from_spec() -> bool {
        true
    }

    open spec fn from_spec(word: P) -> Self {
        Key::Property(word)
    }
}

/// The key that text stands for without context: a property when `P`
/// recognizes it, else a view into the text.
pub open spec fn key_from_text_spec<'x, P: Property>(s: &'x str) -> Key<'x, P> {
    match P::classify(None, s@) {
        Some(p) => Key::Property(p),
        None => Key::Borrowed(s),
    }
}

} // verus!
