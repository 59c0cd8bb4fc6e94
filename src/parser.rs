//! The pointer text parser: one forward scan over the characters with an
//! explicit token state.
use vstd::prelude::*;
use crate::key::{Key, KeyView, Property};
use crate::pointer::{escape, escape_char, items_view, join, render, render_item, ItemView, JsonPointer, JsonPointerItem};
use crate::text::{chars_of, decimal_of, digit_char, string_from_chars};

verus! {

/// What the scanner is in the middle of.
#[derive(Clone, Copy, PartialEq, Eq, Structural, Debug)]
pub enum TokenType {
    /// Nothing yet in this segment.
    Unknown,
    /// A run of digits.
    Number,
    /// Text.
    String,
    /// A lone `*`.
    Wildcard,
    /// Just after a `~`.
    Escaped,
}

/// The scanner state, for reasoning.
pub struct ParseModel<P> {
    pub num: u64,
    pub buf: Seq<char>,
    pub token: TokenType,
    pub start: int,
    pub path: Seq<ItemView<P>>,
}

/// The scanner state before the first character.
pub open spec fn initial_model<P>() -> ParseModel<P> {
    ParseModel { num: 0, buf: Seq::empty(), token: TokenType::Unknown, start: 0, path: Seq::empty() }
}

/// The key of the last segment, when the last segment is a key.
pub open spec fn last_key<P>(path: Seq<ItemView<P>>) -> Option<KeyView<P>> {
    if path.len() > 0 {
        match path.last() {
            ItemView::Key(k) => Some(k),
            _ => None,
        }
    } else {
        None
    }
}

/// Ends the pending token: text becomes a key (a property when `P`
/// recognizes it after the previous key), digits an index, `*` the wildcard,
/// and an empty segment after a `/` an empty key. Only text empties the
/// buffer.
pub open spec fn finish_token<P: Property>(st: ParseModel<P>) -> ParseModel<P> {
    match st.token {
        TokenType::String => ParseModel {
            path: st.path.push(
                ItemView::Key(
                    match P::classify(last_key(st.path), st.buf) {
                        Some(p) => KeyView::Property(p),
                        None => KeyView::Text(st.buf),
                    },
                ),
            ),
            buf: Seq::empty(),
            ..st
        },
        TokenType::Number => ParseModel { path: st.path.push(ItemView::Number(st.num)), num: 0, ..st },
        TokenType::Wildcard => ParseModel { path: st.path.push(ItemView::Wildcard), ..st },
        TokenType::Unknown => if st.start > 0 {
            ParseModel {
                path: st.path.push(
                    ItemView::Key(
                        match P::classify(None, Seq::empty()) {
                            Some(p) => KeyView::Property(p),
                            None => KeyView::Text(Seq::empty()),
                        },
                    ),
                ),
                ..st
            }
        } else {
            st
        },
        TokenType::Escaped => st,
    }
}

/// Whether `c` is an ASCII digit.
pub open spec fn is_digit(c: char) -> bool {
    '0' <= c && c <= '9'
}

/// `num * 10 + d`, saturating at `u64::MAX` at each step.
pub open spec fn next_num(num: u64, d: int) -> u64 {
    let m: int = if num * 10 > u64::MAX {
        u64::MAX as int
    } else {
        num * 10
    };
    if m + d > u64::MAX {
        u64::MAX
    } else {
        (m + d) as u64
    }
}

/// The buffer before a character that turns the token into text: a digit
/// run or a `*` is copied in from the segment start. (The digit run's value
/// is dropped at that point, so it cannot leak into a later index.)
pub open spec fn backfill<P>(cs: Seq<char>, i: int, st: ParseModel<P>) -> Seq<char> {
    if (st.token == TokenType::Number || st.token == TokenType::Wildcard) && i > st.start {
        st.buf + cs.subrange(st.start, i)
    } else {
        st.buf
    }
}

/// The state after the character at `i`, and where the scan goes on.
pub open spec fn step<P: Property>(cs: Seq<char>, i: int, st: ParseModel<P>) -> (ParseModel<P>, int) {
    let c = cs[i];
    if is_digit(c) && (st.token == TokenType::Unknown || st.token == TokenType::Number) {
        (ParseModel { num: next_num(st.num, c as int - '0' as int), token: TokenType::Number, ..st }, i + 1)
    } else if c == '*' && st.token == TokenType::Unknown {
        (ParseModel { token: TokenType::Wildcard, ..st }, i + 1)
    } else if c == '0' && st.token == TokenType::Escaped {
        (ParseModel { buf: st.buf.push('~'), token: TokenType::String, ..st }, i + 1)
    } else if c == '1' && st.token == TokenType::Escaped {
        (ParseModel { buf: st.buf.push('/'), token: TokenType::String, ..st }, i + 1)
    } else if c == '/' {
        let f = finish_token(st);
        (ParseModel { token: TokenType::Unknown, start: i + 1, ..f }, i + 1)
    } else {
        let buf = backfill(cs, i, st);
        if c == '~' && st.token != TokenType::Escaped {
            (ParseModel { num: 0, buf, token: TokenType::Escaped, ..st }, i + 1)
        } else if c == '\\' {
            if i + 1 < cs.len() {
                (ParseModel { num: 0, buf: buf.push(cs[i + 1]), token: TokenType::String, ..st }, i + 2)
            } else {
                (ParseModel { num: 0, buf: buf.push('\\'), token: TokenType::String, ..st }, i + 1)
            }
        } else {
            (ParseModel { num: 0, buf: buf.push(c), token: TokenType::String, ..st }, i + 1)
        }
    }
}

/// The state after scanning from `i` to the end.
pub open spec fn run<P: Property>(cs: Seq<char>, i: int, st: ParseModel<P>) -> ParseModel<P>
    decreases cs.len() - i,
{
    if i < 0 || i >= cs.len() {
        st
    } else {
        let (next, j) = step(cs, i, st);
        run(cs, j, next)
    }
}

/// The segments that pointer text denotes.
pub open spec fn parse_spec<P: Property>(cs: Seq<char>) -> Seq<ItemView<P>> {
    let end = finish_token(run(cs, 0, initial_model()));
    if end.path.len() == 0 {
        seq![ItemView::Root]
    } else {
        end.path
    }
}

/// The scanner state.
pub(crate) struct State<P> {
    pub(crate) num: u64,
    pub(crate) buf: Vec<char>,
    pub(crate) token: TokenType,
    pub(crate) start_pos: usize,
    pub(crate) path: Vec<JsonPointerItem<P>>,
}

impl<P: Property> State<P> {
    pub(crate) open spec fn model(&self) -> ParseModel<P> {
        ParseModel {
            num: self.num,
            buf: self.buf@,
            token: self.token,
            start: self.start_pos as int,
            path: items_view(self.path@),
        }
    }

    /// Ends the pending token (see `finish_token`).
    pub(crate) fn process(&mut self)
        ensures
            final(self).model() == finish_token(old(self).model()),
            final(self).start_pos == old(self).start_pos,
    {
        match self.token {
            TokenType::String => {
                let text = string_from_chars(&self.buf);
                let prev: Option<&Key<'static, P>> = if self.path.len() > 0 {
                    self.path[self.path.len() - 1].as_key()
                } else {
                    None
                };
                proof {
                    assert(crate::key::opt_key_view(prev) == last_key(old(self).model().path)) by {
                        if self.path@.len() > 0 {
                            assert(old(self).model().path.last() == self.path@.last()@);
                        }
                    }
                }
                let item = match P::try_parse(prev, text.as_str()) {
                    Some(prop) => JsonPointerItem::Key(Key::Property(prop)),
                    None => JsonPointerItem::Key(Key::Owned(text)),
                };
                self.path.push(item);
                self.buf = Vec::new();
                proof {
                    assert(final(self).model().path =~= finish_token(old(self).model()).path);
                    assert(final(self).model().buf =~= Seq::<char>::empty());
                }
            },
            TokenType::Number => {
                self.path.push(JsonPointerItem::Number(self.num));
                self.num = 0;
                proof {
                    assert(final(self).model().path =~= finish_token(old(self).model()).path);
                }
            },
            TokenType::Wildcard => {
                self.path.push(JsonPointerItem::Wildcard);
                proof {
                    assert(final(self).model().path =~= finish_token(old(self).model()).path);
                }
            },
            TokenType::Unknown => {
                if self.start_pos > 0 {
                    proof {
                        reveal_strlit("");
                    }
                    let empty: Key<'static, P> = Key::from_text("");
                    proof {
                        assert(""@ =~= Seq::<char>::empty());
                    }
                    self.path.push(JsonPointerItem::Key(empty));
                    proof {
                        assert(final(self).model().path =~= finish_token(old(self).model()).path);
                    }
                }
            },
            TokenType::Escaped => {},
        }
    }
}

/// Appends `cs[from..to]` to `out`.
fn push_range(out: &mut Vec<char>, cs: &Vec<char>, from: usize, to: usize)
    requires
        from <= to <= cs@.len(),
    ensures
        final(out)@ == old(out)@ + cs@.subrange(from as int, to as int),
{
    let mut k: usize = from;
    while k < to
        invariant
            from <= k <= to <= cs@.len(),
            out@ == old(out)@ + cs@.subrange(from as int, k as int),
        decreases to - k,
    {
        out.push(cs[k]);
        proof {
            assert(out@ =~= old(out)@ + cs@.subrange(from as int, k + 1));
        }
        k = k + 1;
    }
}

/// `num * 10 + d`, saturating at `u64::MAX` at each step.
fn accumulate(num: u64, d: u64) -> (r: u64)
    requires
        d <= 9,
    ensures
        r == next_num(num, d as int),
{
    let m: u64 = if num > u64::MAX / 10 {
        u64::MAX
    } else {
        num * 10
    };
    if m > u64::MAX - d {
        u64::MAX
    } else {
        m + d
    }
}

impl<P: Property> JsonPointer<P> {
    /// Parses pointer text: `/` separates segments, `~0` and `~1` stand for
    /// `~` and `/`, `\` takes the next character literally, a lone `*` is the
    /// wildcard and a digit run an index; the empty text is the root.
    pub fn parse(value: &str) -> (r: Self)
        ensures
            r@ == parse_spec::<P>(value@),
    {
        let cs = chars_of(value);
        let mut state = State {
            num: 0,
            buf: Vec::new(),
            token: TokenType::Unknown,
            start_pos: 0,
            path: Vec::new(),
        };
        proof {
            assert(state.model().path =~= initial_model::<P>().path);
            assert(state.model() == initial_model::<P>());
        }
        let mut i: usize = 0;
        while i < cs.len()
            invariant
                cs@ == value@,
                i <= cs@.len(),
                state.start_pos <= i,
                run(cs@, i as int, state.model()) == run(cs@, 0, initial_model::<P>()),
            decreases cs@.len() - i,
        {
            let ch = cs[i];
            let ghost before = state.model();
            proof {
                assert(run(cs@, i as int, before) == run(cs@, step(cs@, i as int, before).1, step(cs@, i as int, before).0));
            }
            if '0' <= ch && ch <= '9' && (state.token == TokenType::Unknown || state.token == TokenType::Number) {
                state.num = accumulate(state.num, (ch as u32 - '0' as u32) as u64);
                state.token = TokenType::Number;
                i = i + 1;
            } else if ch == '*' && state.token == TokenType::Unknown {
                state.token = TokenType::Wildcard;
                i = i + 1;
            } else if ch == '0' && state.token == TokenType::Escaped {
                state.buf.push('~');
                state.token = TokenType::String;
                i = i + 1;
            } else if ch == '1' && state.token == TokenType::Escaped {
                state.buf.push('/');
                state.token = TokenType::String;
                i = i + 1;
            } else if ch == '/' {
                state.process();
                state.token = TokenType::Unknown;
                state.start_pos = i + 1;
                i = i + 1;
            } else {
                if (state.token == TokenType::Number || state.token == TokenType::Wildcard)
                    && i > state.start_pos {
                    push_range(&mut state.buf, &cs, state.start_pos, i);
                }
                state.num = 0;
                proof {
                    assert(state.buf@ =~= backfill(cs@, i as int, before));
                }
                if ch == '~' && state.token != TokenType::Escaped {
                    state.token = TokenType::Escaped;
                    i = i + 1;
                } else if ch == '\\' {
                    if i + 1 < cs.len() {
                        state.buf.push(cs[i + 1]);
                        i = i + 2;
                    } else {
                        state.buf.push('\\');
                        i = i + 1;
                    }
                    state.token = TokenType::String;
                } else {
                    state.buf.push(ch);
                    state.token = TokenType::String;
                    i = i + 1;
                }
            }
        }
        state.process();
        if state.path.len() == 0 {
            state.path.push(JsonPointerItem::Root);
            proof {
                assert(items_view(state.path@) =~= seq![ItemView::<P>::Root]);
            }
        }
        JsonPointer(state.path)
    }
}


/// Whether every character is a decimal digit.
pub open spec fn all_digits(s: Seq<char>) -> bool {
    forall|i: int| 0 <= i < s.len() ==> is_digit(#[trigger] s[i])
}

/// A key segment that the text form carries unchanged through parsing:
/// not empty, not an index, not the wildcard, and without `\`.
pub open spec fn plain_segment(t: Seq<char>) -> bool {
    &&& t.len() > 0
    &&& !all_digits(t)
    &&& t != seq!['*']
    &&& forall|i: int| 0 <= i < t.len() ==> t[i] != '\\'
}

/// Escaping distributes over concatenation.
proof fn lemma_escape_append(a: Seq<char>, b: Seq<char>)
    ensures
        escape(a + b) == escape(a) + escape(b),
    decreases b.len(),
{
    if b.len() == 0 {
        assert(a + b =~= a);
        assert(escape(a) + escape(b) =~= escape(a));
    } else {
        lemma_escape_append(a, b.drop_last());
        assert((a + b).drop_last() =~= a + b.drop_last());
        assert((a + b).last() == b.last());
        assert(escape(a + b) =~= escape(a) + escape(b));
    }
}

/// Text without `~` and `/` escapes to itself.
proof fn lemma_escape_plain(s: Seq<char>)
    requires
        forall|i: int| 0 <= i < s.len() ==> s[i] != '~' && s[i] != '/',
    ensures
        escape(s) == s,
    decreases s.len(),
{
    if s.len() > 0 {
        lemma_escape_plain(s.drop_last());
        assert(escape(s) =~= s.drop_last().push(s.last()));
        assert(s.drop_last().push(s.last()) =~= s);
    }
}

/// The scanner state after the escaped form of the first `k` characters of
/// a plain segment that starts at `b`, with `path` already emitted.
pub open spec fn scanned<P>(st: ParseModel<P>, t: Seq<char>, k: int, b: int, path: Seq<ItemView<P>>) -> bool {
    let pre = t.subrange(0, k);
    &&& st.start == b
    &&& st.path == path
    &&& if k == 0 {
        st.token == TokenType::Unknown && st.buf.len() == 0
    } else if all_digits(pre) {
        st.token == TokenType::Number && st.buf.len() == 0
    } else if pre == seq!['*'] {
        st.token == TokenType::Wildcard && st.buf.len() == 0
    } else {
        st.token == TokenType::String && st.buf == pre && st.num == 0
    }
}

/// The state once a whole plain segment `t` starting at `b` is scanned.
pub open spec fn segment_done<P>(t: Seq<char>, b: int, path: Seq<ItemView<P>>) -> ParseModel<P> {
    ParseModel { num: 0, buf: t, token: TokenType::String, start: b, path }
}

/// Where the escaped form of `t` sits in `cs`, starting at `b`.
pub open spec fn placed(cs: Seq<char>, t: Seq<char>, b: int) -> bool {
    0 <= b && b + escape(t).len() <= cs.len() && cs.subrange(b, b + escape(t).len()) == escape(t)
}

/// The scan of one character of the segment (two for an escaped `~` or
/// `/`), and where it ends.
pub open spec fn advance<P: Property>(cs: Seq<char>, i: int, st: ParseModel<P>) -> (ParseModel<P>, int) {
    if cs[i] == '~' {
        let (s1, i1) = step(cs, i, st);
        step(cs, i1, s1)
    } else {
        step(cs, i, st)
    }
}

/// The escaped form of a prefix one character longer.
proof fn lemma_escape_split(t: Seq<char>, k: int)
    requires
        0 <= k < t.len(),
    ensures
        escape(t.subrange(0, k + 1)) == escape(t.subrange(0, k)) + escape_char(t[k]),
        escape(t) == escape(t.subrange(0, k)) + escape_char(t[k]) + escape(t.subrange(k + 1, t.len() as int)),
{
    let next = t.subrange(0, k + 1);
    assert(next.drop_last() =~= t.subrange(0, k));
    assert(t =~= next + t.subrange(k + 1, t.len() as int));
    lemma_escape_append(next, t.subrange(k + 1, t.len() as int));
}

/// Scanning one more character keeps the scanner in step with the segment.
proof fn lemma_scan_char<P: Property>(cs: Seq<char>, t: Seq<char>, k: int, b: int, path: Seq<ItemView<P>>, st: ParseModel<P>)
    requires
        plain_segment(t),
        placed(cs, t, b),
        0 <= k < t.len(),
        scanned(st, t, k, b, path),
    ensures
        ({
            let i = b + escape(t.subrange(0, k)).len();
            let (s2, j) = advance(cs, i, st);
            &&& j == b + escape(t.subrange(0, k + 1)).len()
            &&& run(cs, i, st) == run(cs, j, s2)
            &&& scanned(s2, t, k + 1, b, path)
        }),
{
    let pre = t.subrange(0, k);
    let next = t.subrange(0, k + 1);
    let c = t[k];
    let i = b + escape(pre).len();
    lemma_escape_split(t, k);
    let ec = escape_char(c);
    assert(cs.subrange(b, b + escape(t).len()) == escape(t));
    assert(cs[i] == ec[0]) by {
        assert(escape(t)[escape(pre).len() as int] == ec[0]);
    }
    if c == '~' || c == '/' {
        assert(cs[i + 1] == ec[1]) by {
            assert(escape(t)[escape(pre).len() as int + 1] == ec[1]);
        }
    }
    assert(c != '\\');
    if k > 0 && (all_digits(pre) || pre == seq!['*']) {
        assert forall|m: int| 0 <= m < pre.len() implies pre[m] != '~' && pre[m] != '/' by {
            if pre == seq!['*'] {
                assert(pre[m] == '*');
            } else {
                assert(is_digit(pre[m]));
            }
        }
        lemma_escape_plain(pre);
        assert(cs.subrange(b, i) =~= escape(t).subrange(0, escape(pre).len() as int));
        assert(escape(t).subrange(0, escape(pre).len() as int) =~= escape(pre));
    }
    let (s2, j) = advance(cs, i, st);
    if c == '~' || c == '/' {
        let (s1, i1) = step(cs, i, st);
        assert(run(cs, i, st) == run(cs, i1, s1));
        assert(run(cs, i1, s1) == run(cs, j, s2));
    } else {
        assert(run(cs, i, st) == run(cs, j, s2));
    }
    if all_digits(next) {
        if k > 0 {
            assert forall|m: int| 0 <= m < pre.len() implies is_digit(#[trigger] pre[m]) by {
                assert(pre[m] == next[m]);
            }
        }
    } else if next != seq!['*'] {
        assert(next =~= pre.push(c));
        let bf = backfill(cs, i, st);
        if k == 0 {
            assert(st.buf =~= pre);
        } else if all_digits(pre) || pre == seq!['*'] {
            assert(bf =~= pre);
        }
        if c == '~' || c == '/' {
            assert(step(cs, i, st).0.buf == bf);
        } else {
            if is_digit(c) && (st.token == TokenType::Unknown || st.token == TokenType::Number) {
                assert forall|m: int| 0 <= m < next.len() implies is_digit(#[trigger] next[m]) by {
                    if m < k {
                        assert(next[m] == pre[m]);
                    }
                }
            }
            if c == '*' && st.token == TokenType::Unknown {
                assert(next =~= seq!['*']);
            }
        }
        assert(s2.buf =~= next);
    }
}

/// Scanning the rest of a plain segment ends holding it whole as text.
proof fn lemma_scan_rest<P: Property>(cs: Seq<char>, t: Seq<char>, k: int, b: int, path: Seq<ItemView<P>>, st: ParseModel<P>)
    requires
        plain_segment(t),
        placed(cs, t, b),
        0 <= k <= t.len(),
        scanned(st, t, k, b, path),
    ensures
        run(cs, b + escape(t.subrange(0, k)).len(), st) == run(
            cs,
            b + escape(t).len(),
            segment_done(t, b, path),
        ),
    decreases t.len() - k,
{
    if k == t.len() {
        assert(t.subrange(0, k) =~= t);
        assert(st == segment_done(t, b, path));
    } else {
        lemma_scan_char(cs, t, k, b, path, st);
        let (s2, j) = advance(cs, b + escape(t.subrange(0, k)).len(), st);
        lemma_scan_rest(cs, t, k + 1, b, path, s2);
    }
}

/// The text of a pointer starts with the text of its first segments.
proof fn lemma_join_prefix(parts: Seq<Seq<char>>, m: int)
    requires
        1 <= m <= parts.len(),
    ensures
        join(parts).subrange(0, join(parts.subrange(0, m)).len() as int) == join(parts.subrange(0, m)),
        join(parts.subrange(0, m)).len() <= join(parts).len(),
    decreases parts.len() - m,
{
    if m == parts.len() {
        assert(parts.subrange(0, m) =~= parts);
    } else {
        lemma_join_prefix(parts, m + 1);
        let a = parts.subrange(0, m);
        let b = parts.subrange(0, m + 1);
        assert(b.drop_last() =~= a);
        assert(join(b) == join(a) + seq!['/'] + b.last());
        assert(join(b).subrange(0, join(a).len() as int) =~= join(a));
        assert(join(parts).subrange(0, join(a).len() as int) =~= join(b).subrange(0, join(a).len() as int));
    }
}

/// The value of a run of decimal digits.
pub open spec fn digits_value(s: Seq<char>) -> int
    decreases s.len(),
{
    if s.len() == 0 {
        0
    } else {
        digits_value(s.drop_last()) * 10 + (s.last() as int - '0' as int)
    }
}

/// A digit character stands for its digit.
proof fn lemma_digit_char(d: nat)
    requires
        d < 10,
    ensures
        is_digit(digit_char(d)),
        digit_char(d) as int - '0' as int == d,
{
}

/// The decimal text of `n` is digits whose value is `n`.
proof fn lemma_decimal_value(n: nat)
    ensures
        all_digits(decimal_of(n)),
        decimal_of(n).len() > 0,
        digits_value(decimal_of(n)) == n,
    decreases n,
{
    lemma_digit_char(n % 10);
    if n >= 10 {
        lemma_decimal_value(n / 10);
        let s = decimal_of(n);
        assert(s.drop_last() == decimal_of(n / 10));
        assert forall|i: int| 0 <= i < s.len() implies is_digit(#[trigger] s[i]) by {
            if i < s.len() - 1 {
                assert(s[i] == decimal_of(n / 10)[i]);
            }
        }
        assert(s.last() == digit_char(n % 10));
        assert(digits_value(s) == digits_value(decimal_of(n / 10)) * 10 + (n % 10));
        assert((n / 10) * 10 + n % 10 == n) by (nonlinear_arith);
    } else {
        let s = decimal_of(n);
        assert(s.drop_last() =~= Seq::<char>::empty());
        assert(s.last() == digit_char(n));
        assert(n % 10 == n);
        assert(digits_value(s) == digits_value(s.drop_last()) * 10 + (n as int));
    }
}

/// A digit prefix is worth no more than the whole run.
proof fn lemma_digits_prefix(s: Seq<char>, k: int)
    requires
        0 <= k <= s.len(),
        all_digits(s),
    ensures
        0 <= digits_value(s.subrange(0, k)) <= digits_value(s),
    decreases s.len() - k,
{
    if k < s.len() {
        lemma_digits_prefix(s, k + 1);
        let a = s.subrange(0, k + 1);
        assert(a.drop_last() =~= s.subrange(0, k));
        assert(is_digit(s[k]));
        assert(a.last() == s[k]);
    } else {
        assert(s.subrange(0, k) =~= s);
    }
    lemma_digits_nonneg(s.subrange(0, k));
}

/// A digit run is worth at least zero.
proof fn lemma_digits_nonneg(s: Seq<char>)
    requires
        all_digits(s),
    ensures
        digits_value(s) >= 0,
    decreases s.len(),
{
    if s.len() > 0 {
        assert(all_digits(s.drop_last())) by {
            assert forall|i: int| 0 <= i < s.len() - 1 implies is_digit(#[trigger] s.drop_last()[i]) by {
                assert(s.drop_last()[i] == s[i]);
            }
        }
        lemma_digits_nonneg(s.drop_last());
        assert(is_digit(s.last()));
    }
}

/// Whether a segment comes back unchanged from its text form: an index, the
/// wildcard, or a plain text key that `P` makes no property of after the
/// key `prev`.
pub open spec fn faithful_item<P: Property>(it: ItemView<P>, prev: Option<KeyView<P>>) -> bool {
    match it {
        ItemView::Key(KeyView::Text(t)) => plain_segment(t) && P::classify(prev, t) is None,
        ItemView::Number(_) => true,
        ItemView::Wildcard => true,
        _ => false,
    }
}

/// The scanner state once the whole text of segment `it`, starting at `b`,
/// is scanned.
pub open spec fn item_done<P>(it: ItemView<P>, b: int, path: Seq<ItemView<P>>) -> ParseModel<P> {
    match it {
        ItemView::Key(KeyView::Text(t)) => segment_done(t, b, path),
        ItemView::Number(n) => ParseModel { num: n, buf: Seq::empty(), token: TokenType::Number, start: b, path },
        _ => ParseModel { num: 0, buf: Seq::empty(), token: TokenType::Wildcard, start: b, path },
    }
}

/// The scanner state at the start of a segment.
pub open spec fn segment_start<P>(b: int, path: Seq<ItemView<P>>) -> ParseModel<P> {
    ParseModel { num: 0, buf: Seq::empty(), token: TokenType::Unknown, start: b, path }
}

/// Scanning the digits of an index from position `b + k` on.
proof fn lemma_scan_digits<P: Property>(cs: Seq<char>, n: u64, k: int, b: int, path: Seq<ItemView<P>>)
    requires
        0 <= b,
        b + decimal_of(n as nat).len() <= cs.len(),
        cs.subrange(b, b + decimal_of(n as nat).len()) == decimal_of(n as nat),
        0 <= k <= decimal_of(n as nat).len(),
    ensures
        ({
            let s = decimal_of(n as nat);
            let st = if k == 0 {
                segment_start::<P>(b, path)
            } else {
                ParseModel {
                    num: digits_value(s.subrange(0, k)) as u64,
                    buf: Seq::empty(),
                    token: TokenType::Number,
                    start: b,
                    path,
                }
            };
            run(cs, b + k, st) == run(cs, b + s.len(), item_done(ItemView::Number(n), b, path))
        }),
    decreases decimal_of(n as nat).len() - k,
{
    let s = decimal_of(n as nat);
    lemma_decimal_value(n as nat);
    lemma_digits_prefix(s, k);
    if k == s.len() {
        assert(s.subrange(0, k) =~= s);
        if k == 0 {
            assert(false);
        }
    } else {
        lemma_digits_prefix(s, k + 1);
        let c = s[k];
        assert(is_digit(c));
        assert(cs[b + k] == c) by {
            assert(cs.subrange(b, b + s.len())[k] == s[k]);
        }
        let a = s.subrange(0, k + 1);
        assert(a.drop_last() =~= s.subrange(0, k));
        assert(a.last() == c);
        let m: int = if k == 0 { 0 } else { digits_value(s.subrange(0, k)) };
        if k == 0 {
            assert(s.subrange(0, 0) =~= Seq::<char>::empty());
        }
        assert(digits_value(a) == m * 10 + (c as int - '0' as int));
        assert(digits_value(a) <= u64::MAX);
        assert(next_num(m as u64, c as int - '0' as int) == digits_value(a));
        lemma_scan_digits::<P>(cs, n, k + 1, b, path);
    }
}

/// Scanning the whole text of one faithful segment from its start.
proof fn lemma_scan_item<P: Property>(cs: Seq<char>, it: ItemView<P>, b: int, path: Seq<ItemView<P>>)
    requires
        faithful_item(it, last_key(path)),
        0 <= b,
        b + render_item(it).len() <= cs.len(),
        cs.subrange(b, b + render_item(it).len()) == render_item(it),
    ensures
        run(cs, b, segment_start::<P>(b, path)) == run(cs, b + render_item(it).len(), item_done(it, b, path)),
{
    match it {
        ItemView::Key(KeyView::Text(t)) => {
            assert(t.subrange(0, 0) =~= Seq::<char>::empty());
            assert(scanned(segment_start::<P>(b, path), t, 0, b, path));
            lemma_scan_rest(cs, t, 0, b, path, segment_start::<P>(b, path));
        },
        ItemView::Number(n) => {
            lemma_scan_digits::<P>(cs, n, 0, b, path);
        },
        _ => {
            assert(cs[b] == '*') by {
                assert(cs.subrange(b, b + 1)[0] == '*');
            }
        },
    }
}

/// Ending a faithful segment emits exactly it.
proof fn lemma_finish_item<P: Property>(it: ItemView<P>, b: int, path: Seq<ItemView<P>>)
    requires
        faithful_item(it, last_key(path)),
    ensures
        finish_token(item_done(it, b, path)).path == path.push(it),
        finish_token(item_done(it, b, path)).buf.len() == 0,
        finish_token(item_done(it, b, path)).num == 0,
{
}

/// The segments as their text forms.
pub open spec fn rendered_items<P: Property>(its: Seq<ItemView<P>>) -> Seq<Seq<char>> {
    Seq::new(its.len(), |j: int| render_item(its[j]))
}

/// Whether every segment comes back unchanged from its text form, each
/// classified after the segments before it.
pub open spec fn faithful_pointer<P: Property>(its: Seq<ItemView<P>>) -> bool {
    forall|j: int| 0 <= j < its.len() ==> #[trigger] faithful_item(its[j], last_key(its.subrange(0, j)))
}

/// After the first `m` segments are scanned, the scanner holds the last of
/// them, the others emitted.
proof fn lemma_scan_items<P: Property>(its: Seq<ItemView<P>>, m: int)
    requires
        1 <= m <= its.len(),
        faithful_pointer(its),
    ensures
        ({
            let cs = join(rendered_items(its));
            let e = join(rendered_items(its).subrange(0, m)).len() as int;
            let b = e - render_item(its[m - 1]).len();
            run(cs, 0, initial_model::<P>()) == run(cs, e, item_done(its[m - 1], b, its.subrange(0, m - 1)))
        }),
    decreases m,
{
    let parts = rendered_items(its);
    let cs = join(parts);
    lemma_join_prefix(parts, m);
    let pm = parts.subrange(0, m);
    let e = join(pm).len() as int;
    let it = its[m - 1];
    assert(pm.last() == render_item(it));
    assert(faithful_item(its[m - 1], last_key(its.subrange(0, m - 1))));
    if m == 1 {
        assert(join(pm) == render_item(it));
        assert(cs.subrange(0, render_item(it).len() as int) == render_item(it));
        assert(its.subrange(0, 0) =~= Seq::<ItemView<P>>::empty());
        assert(initial_model::<P>() == segment_start::<P>(0, Seq::empty()));
        lemma_scan_item(cs, it, 0, Seq::<ItemView<P>>::empty());
    } else {
        lemma_scan_items::<P>(its, m - 1);
        let pl = parts.subrange(0, m - 1);
        assert(pm.drop_last() =~= pl);
        assert(join(pm) == join(pl) + seq!['/'] + render_item(it));
        let e0 = join(pl).len() as int;
        let u = its[m - 2];
        let b0 = e0 - render_item(u).len();
        let path0 = its.subrange(0, m - 2);
        assert(faithful_item(its[m - 2], last_key(its.subrange(0, m - 2))));
        let done = item_done(u, b0, path0);
        assert(cs[e0] == '/') by {
            assert(join(pm)[e0] == '/');
        }
        let (s1, i1) = step(cs, e0, done);
        assert(run(cs, e0, done) == run(cs, i1, s1));
        lemma_finish_item(u, b0, path0);
        let path1 = its.subrange(0, m - 1);
        assert(path0.push(u) =~= path1);
        assert(s1 == segment_start::<P>(e0 + 1, path1));
        assert(cs.subrange(e0 + 1, e) =~= render_item(it)) by {
            assert(cs.subrange(e0 + 1, e) =~= join(pm).subrange(e0 + 1, e));
        }
        lemma_scan_item(cs, it, e0 + 1, path1);
    }
}

/// A pointer of indexes, wildcards and plain text keys, written in its text
/// form, parses back to exactly those segments (when `P` makes no property
/// of any key), and rendering the parse gives the text again.
pub proof fn lemma_pointer_round_trip<P: Property>(its: Seq<ItemView<P>>)
    requires
        its.len() > 0,
        faithful_pointer(its),
    ensures
        parse_spec::<P>(render(its)) == its,
        render(parse_spec::<P>(render(its))) == render(its),
{
    let n = its.len() as int;
    let parts = rendered_items(its);
    let cs = join(parts);
    assert(render(its) == cs);
    lemma_scan_items::<P>(its, n);
    assert(parts.subrange(0, n) =~= parts);
    let it = its[n - 1];
    let b = cs.len() - render_item(it).len();
    let path0 = its.subrange(0, n - 1);
    assert(faithful_item(its[n - 1], last_key(its.subrange(0, n - 1))));
    lemma_finish_item(it, b, path0);
    assert(path0.push(it) =~= its);
}

/// The single-segment case: `~0~1` parses to the key `~/`, which renders
/// as `~0~1` again.
pub proof fn lemma_text_segment_round_trip<P: Property>(t: Seq<char>)
    requires
        plain_segment(t),
        (P::classify(None, t) is None),
    ensures
        parse_spec::<P>(escape(t)) == seq![ItemView::<P>::Key(KeyView::Text(t))],
        render(parse_spec::<P>(escape(t))) == escape(t),
{
    let its = seq![ItemView::<P>::Key(KeyView::Text(t))];
    assert(its.subrange(0, 0) =~= Seq::<ItemView<P>>::empty());
    assert(faithful_item(its[0], last_key(its.subrange(0, 0))));
    lemma_pointer_round_trip::<P>(its);
    assert(Seq::new(its.len(), |i: int| render_item(its[i])) =~= seq![escape(t)]);
}

} // verus!
