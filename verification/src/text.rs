//! Text as sequences of characters: ordering, trimming, splitting, numbers.

use vstd::prelude::*;
use vstd::string::*;

verus! {

// ------------------------------------------------------------------ order

/// Whether `a` comes strictly before `b`, character by character in code point
/// order, a prefix before what it is a prefix of.
pub open spec fn text_lt(a: Seq<char>, b: Seq<char>) -> bool
    decreases a.len(),
{
    if b.len() == 0 {
        false
    } else if a.len() == 0 {
        true
    } else if a[0] == b[0] {
        text_lt(a.drop_first(), b.drop_first())
    } else {
        a[0] < b[0]
    }
}

/// [`text_lt`] is a strict total order.
pub proof fn lemma_text_order(a: Seq<char>, b: Seq<char>, c: Seq<char>)
    ensures
        !text_lt(a, a),
        text_lt(a, b) ==> !text_lt(b, a),
        !text_lt(a, b) && !text_lt(b, a) ==> a == b,
        text_lt(a, b) && text_lt(b, c) ==> text_lt(a, c),
        !text_lt(b, a) && !text_lt(c, b) ==> !text_lt(c, a),
    decreases a.len() + b.len() + c.len(),
{
    if a.len() > 0 && b.len() > 0 && c.len() > 0 {
        lemma_text_order(a.drop_first(), b.drop_first(), c.drop_first());
    } else if a.len() > 0 && b.len() > 0 {
        lemma_text_order(a.drop_first(), b.drop_first(), c);
    } else if a.len() > 0 {
        lemma_text_order(a.drop_first(), b, c);
    }
    if !text_lt(a, b) && !text_lt(b, a) {
        if a.len() > 0 && b.len() > 0 {
            assert(a =~= seq![a[0]] + a.drop_first());
            assert(b =~= seq![b[0]] + b.drop_first());
        } else {
            assert(a =~= b);
        }
    }
}

// ------------------------------------------------------------- characters

/// The characters of a text.
pub(crate) fn chars_of(s: &str) -> (r: Vec<char>)
    ensures
        r@ == s@,
{
    let mut out: Vec<char> = Vec::new();
    for c in it: s.chars()
        invariant
            it.seq() == s@,
            out@ == s@.take(it.index() as int),
    {
        out.push(c);
        assert(out@ =~= s@.take(it.index() as int + 1));
    }
    assert(s@.take(s@.len() as int) =~= s@);
    out
}

/// Whether two texts are equal.
pub(crate) fn same(a: &str, b: &str) -> (r: bool)
    ensures
        r == (a@ == b@),
{
    let x = chars_of(a);
    let y = chars_of(b);
    if x.len() != y.len() {
        return false;
    }
    let mut i: usize = 0;
    while i < x.len()
        invariant
            x@ == a@,
            y@ == b@,
            x@.len() == y@.len(),
            i <= x@.len(),
            forall|k: int| 0 <= k < i ==> #[trigger] x@[k] == y@[k],
        decreases x@.len() - i,
    {
        if x[i] != y[i] {
            return false;
        }
        i = i + 1;
    }
    assert(x@ =~= y@);
    true
}

/// Whether a text comes strictly before another one.
pub(crate) fn before(a: &str, b: &str) -> (r: bool)
    ensures
        r == text_lt(a@, b@),
{
    let x = chars_of(a);
    let y = chars_of(b);
    let mut i: usize = 0;
    assert(x@.skip(0) =~= a@);
    assert(y@.skip(0) =~= b@);
    while i < x.len() && i < y.len()
        invariant
            i <= x@.len(),
            i <= y@.len(),
            text_lt(a@, b@) == text_lt(x@.skip(i as int), y@.skip(i as int)),
        decreases x@.len() - i,
    {
        if x[i] != y[i] {
            return x[i] < y[i];
        }
        assert(x@.skip(i as int).drop_first() =~= x@.skip(i + 1));
        assert(y@.skip(i as int).drop_first() =~= y@.skip(i + 1));
        i = i + 1;
    }
    i < y.len()
}

/// Whether a text starts with another one.
pub(crate) fn starts_with(s: &str, start: &str) -> (r: bool)
    ensures
        r == start@.is_prefix_of(s@),
{
    let n: usize = start.unicode_len();
    if s.unicode_len() < n {
        return false;
    }
    let head = s.substring_char(0, n);
    assert(head@ == s@.take(n as int));
    same(head, start)
}

// --------------------------------------------------------------- trimming

/// Whether a character has the Unicode property White_Space.
pub open spec fn is_white_space(c: char) -> bool {
    let p = c as u32;
    ||| 0x9 <= p <= 0xd
    ||| p == 0x20
    ||| p == 0x85
    ||| p == 0xa0
    ||| p == 0x1680
    ||| 0x2000 <= p <= 0x200a
    ||| p == 0x2028
    ||| p == 0x2029
    ||| p == 0x202f
    ||| p == 0x205f
    ||| p == 0x3000
}

fn white_space(c: char) -> (r: bool)
    ensures
        r == is_white_space(c),
{
    let p: u32 = c as u32;
    (0x9 <= p && p <= 0xd) || p == 0x20 || p == 0x85 || p == 0xa0 || p == 0x1680 || (0x2000 <= p
        && p <= 0x200a) || p == 0x2028 || p == 0x2029 || p == 0x202f || p == 0x205f || p == 0x3000
}

/// A text without the characters at either end that are to be dropped.
pub open spec fn trimmed_of(s: Seq<char>, dropped: spec_fn(char) -> bool) -> Seq<char>
    decreases s.len(),
{
    if s.len() > 0 && dropped(s[0]) {
        trimmed_of(s.drop_first(), dropped)
    } else if s.len() > 0 && dropped(s.last()) {
        trimmed_of(s.drop_last(), dropped)
    } else {
        s
    }
}

/// A text without leading and trailing white space.
pub open spec fn trimmed(s: Seq<char>) -> Seq<char> {
    trimmed_of(s, |c: char| is_white_space(c))
}

/// A text without any leading character `c`.
pub open spec fn without_leading(s: Seq<char>, c: char) -> Seq<char>
    decreases s.len(),
{
    if s.len() > 0 && s[0] == c {
        without_leading(s.drop_first(), c)
    } else {
        s
    }
}

proof fn lemma_trim_front(s: Seq<char>, dropped: spec_fn(char) -> bool, from: int)
    requires
        0 <= from <= s.len(),
        forall|i: int| 0 <= i < from ==> dropped(#[trigger] s[i]),
    ensures
        trimmed_of(s, dropped) == trimmed_of(s.skip(from), dropped),
    decreases from,
{
    if from > 0 {
        assert(dropped(s[0]));
        let rest = s.drop_first();
        assert forall|i: int| 0 <= i < from - 1 implies dropped(#[trigger] rest[i]) by {
            assert(rest[i] == s[i + 1]);
        }
        lemma_trim_front(rest, dropped, from - 1);
        assert(rest.skip(from - 1) =~= s.skip(from));
    } else {
        assert(s.skip(0) =~= s);
    }
}

proof fn lemma_trim_back(s: Seq<char>, dropped: spec_fn(char) -> bool, to: int)
    requires
        0 <= to <= s.len(),
        s.len() == 0 || !dropped(s[0]),
        to > 0 ==> !dropped(s[to - 1]),
        forall|i: int| to <= i < s.len() ==> dropped(#[trigger] s[i]),
    ensures
        trimmed_of(s, dropped) == s.take(to),
    decreases s.len(),
{
    if to < s.len() {
        assert(dropped(s[s.len() - 1]));
        if s.len() == 1 {
            assert(false);
        }
        lemma_trim_back(s.drop_last(), dropped, to);
        assert(s.drop_last().take(to) =~= s.take(to));
    } else {
        assert(s.take(to) =~= s);
    }
}

/// The part of a text between the first and the last character to keep.
fn cut<'a>(s: &'a str, drop: &Vec<bool>, dropped: Ghost<spec_fn(char) -> bool>) -> (r: &'a str)
    requires
        drop@.len() == s@.len(),
        forall|i: int| 0 <= i < s@.len() ==> #[trigger] drop@[i] == (dropped@)(s@[i]),
    ensures
        r@ == trimmed_of(s@, dropped@),
{
    let n: usize = drop.len();
    let mut from: usize = 0;
    while from < n && drop[from]
        invariant
            from <= n,
            n == drop@.len(),
            forall|i: int| 0 <= i < from ==> #[trigger] drop@[i],
        decreases n - from,
    {
        from = from + 1;
    }
    let mut to: usize = n;
    while to > from && drop[to - 1]
        invariant
            from <= to <= n,
            n == drop@.len(),
            forall|i: int| to <= i < n ==> #[trigger] drop@[i],
        decreases to,
    {
        to = to - 1;
    }
    proof {
        assert forall|i: int| 0 <= i < from implies (dropped@)(#[trigger] s@[i]) by {
            assert(drop@[i]);
        }
        lemma_trim_front(s@, dropped@, from as int);
        let rest = s@.skip(from as int);
        assert forall|i: int| to - from <= i < rest.len() implies (dropped@)(
            #[trigger] rest[i],
        ) by {
            assert(drop@[i + from]);
        }
        if rest.len() > 0 {
            assert(rest[0] == s@[from as int]);
            assert(!drop@[from as int]);
        }
        if to > from {
            assert(rest[to - from - 1] == s@[to - 1]);
            assert(!drop@[to - 1]);
        }
        lemma_trim_back(rest, dropped@, to - from);
        assert(rest.take(to - from) =~= s@.subrange(from as int, to as int));
    }
    s.substring_char(from, to)
}

/// Trims white space off both ends.
pub fn trim(s: &str) -> (r: &str)
    ensures
        r@ == trimmed(s@),
{
    let chars = chars_of(s);
    let mut drop: Vec<bool> = Vec::new();
    let mut i: usize = 0;
    while i < chars.len()
        invariant
            chars@ == s@,
            i <= chars@.len(),
            drop@.len() == i,
            forall|j: int| 0 <= j < i ==> #[trigger] drop@[j] == is_white_space(s@[j]),
        decreases chars@.len() - i,
    {
        drop.push(white_space(chars[i]));
        i = i + 1;
    }
    cut(s, &drop, Ghost(|c: char| is_white_space(c)))
}

/// Trims one character off both ends, however often it stands there.
pub fn trim_char(s: &str, mark: char) -> (r: &str)
    ensures
        r@ == trimmed_of(s@, |c: char| c == mark),
{
    let chars = chars_of(s);
    let mut drop: Vec<bool> = Vec::new();
    let mut i: usize = 0;
    while i < chars.len()
        invariant
            chars@ == s@,
            i <= chars@.len(),
            drop@.len() == i,
            forall|j: int| 0 <= j < i ==> #[trigger] drop@[j] == (s@[j] == mark),
        decreases chars@.len() - i,
    {
        drop.push(chars[i] == mark);
        i = i + 1;
    }
    cut(s, &drop, Ghost(|c: char| c == mark))
}

/// Trims one character off the front, however often it stands there.
pub fn trim_start_char(s: &str, mark: char) -> (r: &str)
    ensures
        r@ == without_leading(s@, mark),
{
    let chars = chars_of(s);
    let mut from: usize = 0;
    assert(s@.skip(0) =~= s@);
    while from < chars.len() && chars[from] == mark
        invariant
            chars@ == s@,
            from <= chars@.len(),
            without_leading(s@.skip(from as int), mark) == without_leading(s@, mark),
        decreases chars@.len() - from,
    {
        assert(s@.skip(from as int).drop_first() =~= s@.skip(from + 1));
        from = from + 1;
    }
    let rest = s.substring_char(from, chars.len());
    assert(rest@ =~= s@.skip(from as int));
    rest
}

// -------------------------------------------------------------- splitting

/// The pieces of a text between the separators, empty ones included.
pub open spec fn pieces(s: Seq<char>, sep: char) -> Seq<Seq<char>>
    decreases s.len(),
{
    if s.len() == 0 {
        seq![s]
    } else {
        let front = pieces(s.drop_last(), sep);
        if s.last() == sep {
            front.push(Seq::empty())
        } else {
            front.drop_last().push(front.last().push(s.last()))
        }
    }
}

/// The contents of a list of strings.
pub open spec fn texts(v: Seq<String>) -> Seq<Seq<char>> {
    Seq::new(v.len(), |i: int| v[i]@)
}

/// Splits a text at every separator.
pub fn split(s: &str, sep: char) -> (r: Vec<String>)
    ensures
        texts(r@) == pieces(s@, sep),
{
    let chars = chars_of(s);
    let mut out: Vec<String> = Vec::new();
    let mut from: usize = 0;
    let mut i: usize = 0;
    assert(s@.take(0) =~= Seq::empty());
    assert(s@.subrange(0, 0) =~= Seq::empty());
    assert(texts(out@).push(s@.subrange(0, 0)) =~= pieces(s@.take(0), sep));
    while i < chars.len()
        invariant
            chars@ == s@,
            from <= i <= chars@.len(),
            texts(out@).push(s@.subrange(from as int, i as int)) == pieces(s@.take(i as int), sep),
        decreases chars@.len() - i,
    {
        let ghost head = s@.take(i + 1);
        let ghost done = texts(out@);
        let ghost piece = s@.subrange(from as int, i as int);
        assert(head.drop_last() =~= s@.take(i as int));
        assert(head.last() == s@[i as int]);
        assert(done.push(piece).drop_last() =~= done);
        if chars[i] == sep {
            out.push(s.substring_char(from, i).to_owned());
            assert(texts(out@) =~= done.push(piece));
            from = i + 1;
            assert(s@.subrange(from as int, i + 1) =~= Seq::empty());
        } else {
            assert(s@.subrange(from as int, i + 1) =~= piece.push(s@[i as int]));
        }
        i = i + 1;
    }
    let ghost done = texts(out@);
    out.push(s.substring_char(from, chars.len()).to_owned());
    assert(texts(out@) =~= done.push(s@.subrange(from as int, i as int)));
    assert(s@.take(i as int) =~= s@);
    out
}

// ---------------------------------------------------------------- numbers

/// Whether every character is a decimal digit.
pub open spec fn all_digits(s: Seq<char>) -> bool {
    forall|i: int| 0 <= i < s.len() ==> '0' <= #[trigger] s[i] <= '9'
}

/// The number that a run of decimal digits stands for.
pub open spec fn decimal(s: Seq<char>) -> nat
    decreases s.len(),
{
    if s.len() == 0 {
        0
    } else {
        decimal(s.drop_last()) * 10 + (s.last() as nat - '0' as nat) as nat
    }
}

/// A text without one leading plus sign.
pub open spec fn unsigned(s: Seq<char>) -> Seq<char> {
    if s.len() > 0 && s[0] == '+' {
        s.drop_first()
    } else {
        s
    }
}

/// The number a text stands for: digits, at least one, after an optional plus
/// sign, not above the largest 32-bit number.
pub open spec fn parsed_u32(s: Seq<char>) -> Option<u32> {
    let digits = unsigned(s);
    if digits.len() > 0 && all_digits(digits) && decimal(digits) <= u32::MAX {
        Some(decimal(digits) as u32)
    } else {
        None
    }
}

proof fn lemma_decimal_grows(s: Seq<char>, k: int)
    requires
        0 <= k <= s.len(),
        all_digits(s),
    ensures
        decimal(s.take(k)) <= decimal(s),
    decreases s.len(),
{
    if k == s.len() {
        assert(s.take(k) =~= s);
    } else {
        let front = s.drop_last();
        assert forall|i: int| 0 <= i < front.len() implies '0' <= #[trigger] front[i] <= '9' by {
            assert(front[i] == s[i]);
        }
        lemma_decimal_grows(front, k);
        assert(front.take(k) =~= s.take(k));
        assert('0' <= s[s.len() - 1]);
    }
}

/// Reads a 32-bit number.
pub fn parse_u32(s: &str) -> (r: Option<u32>)
    ensures
        r == parsed_u32(s@),
{
    let chars = chars_of(s);
    let from: usize = if chars.len() > 0 && chars[0] == '+' {
        1
    } else {
        0
    };
    let ghost digits = unsigned(s@);
    assert(digits =~= s@.skip(from as int));
    if chars.len() == from {
        return None;
    }
    let mut value: u64 = 0;
    let mut i: usize = from;
    assert(digits.take(0) =~= Seq::empty());
    while i < chars.len()
        invariant
            chars@ == s@,
            from <= i <= chars@.len(),
            from < chars@.len(),
            digits == unsigned(s@),
            digits == s@.skip(from as int),
            all_digits(digits.take(i - from)),
            value == decimal(digits.take(i - from)),
            value <= u32::MAX,
        decreases chars@.len() - i,
    {
        let c = chars[i];
        let ghost k = i - from;
        assert(digits[k] == c);
        let ghost head = digits.take(k + 1);
        assert(head[k] == c);
        assert(head.drop_last() =~= digits.take(k));
        if !('0' <= c && c <= '9') {
            assert(!all_digits(digits));
            return None;
        }
        let d: u64 = (c as u64) - ('0' as u64);
        value = value * 10 + d;
        assert(value == decimal(head));
        assert forall|j: int| 0 <= j < head.len() implies '0' <= #[trigger] head[j] <= '9' by {
            if j < k {
                assert(head[j] == digits.take(k)[j]);
            }
        }
        if value > u32::MAX as u64 {
            proof {
                if all_digits(digits) {
                    lemma_decimal_grows(digits, k + 1);
                }
            }
            return None;
        }
        i = i + 1;
    }
    assert(digits.take(i - from) =~= digits);
    Some(value as u32)
}

// ------------------------------------------------------ what the texts mean

/// Texts come in dictionary order: behind a common beginning `head`, the smaller next
/// character decides, and a text that ends there comes before any that goes on.
pub proof fn law_texts_come_in_dictionary_order(
    head: Seq<char>,
    x: char,
    a: Seq<char>,
    y: char,
    b: Seq<char>,
)
    ensures
        x != y ==> (text_lt(head + seq![x] + a, head + seq![y] + b) <==> x < y),
        text_lt(head, head + seq![x] + a),
        !text_lt(head + seq![x] + a, head),
        !text_lt(head, head),
    decreases head.len(),
{
    let p = head + seq![x] + a;
    let q = head + seq![y] + b;
    if head.len() == 0 {
        assert(p[0] == x && q[0] == y);
    } else {
        let rest = head.drop_first();
        law_texts_come_in_dictionary_order(rest, x, a, y, b);
        assert(p[0] == head[0] && q[0] == head[0]);
        assert(p.drop_first() =~= rest + seq![x] + a);
        assert(q.drop_first() =~= rest + seq![y] + b);
    }
}

/// Trimming takes off exactly the white space at both ends: what is left begins and
/// ends with something else, and only white space was before and behind it.
pub proof fn law_trimming_takes_white_space_off(s: Seq<char>) -> (r: (Seq<char>, Seq<char>))
    ensures
        s == r.0 + trimmed(s) + r.1,
        forall|i: int| 0 <= i < r.0.len() ==> is_white_space(#[trigger] r.0[i]),
        forall|i: int| 0 <= i < r.1.len() ==> is_white_space(#[trigger] r.1[i]),
        trimmed(s).len() > 0 ==> !is_white_space(trimmed(s)[0]) && !is_white_space(
            trimmed(s).last(),
        ),
{
    law_trimming_takes_ends_off(s, |c: char| is_white_space(c))
}

/// Trimming takes off exactly the unwanted characters at both ends.
pub proof fn law_trimming_takes_ends_off(s: Seq<char>, dropped: spec_fn(char) -> bool) -> (r: (
    Seq<char>,
    Seq<char>,
))
    ensures
        s == r.0 + trimmed_of(s, dropped) + r.1,
        forall|i: int| 0 <= i < r.0.len() ==> dropped(#[trigger] r.0[i]),
        forall|i: int| 0 <= i < r.1.len() ==> dropped(#[trigger] r.1[i]),
        trimmed_of(s, dropped).len() > 0 ==> !dropped(trimmed_of(s, dropped)[0]) && !dropped(
            trimmed_of(s, dropped).last(),
        ),
    decreases s.len(),
{
    let rest = trimmed_of(s, dropped);
    if s.len() > 0 && dropped(s[0]) {
        let r = law_trimming_takes_ends_off(s.drop_first(), dropped);
        assert(s =~= seq![s[0]] + s.drop_first());
        assert(s =~= (seq![s[0]] + r.0) + rest + r.1);
        (seq![s[0]] + r.0, r.1)
    } else if s.len() > 0 && dropped(s.last()) {
        let r = law_trimming_takes_ends_off(s.drop_last(), dropped);
        assert(s =~= s.drop_last().push(s.last()));
        assert(s =~= r.0 + rest + r.1.push(s.last()));
        (r.0, r.1.push(s.last()))
    } else {
        assert(s =~= Seq::<char>::empty() + rest + Seq::<char>::empty());
        (Seq::empty(), Seq::empty())
    }
}

/// What counts as white space.
pub proof fn law_white_space_is_unicode_white_space(c: char)
    ensures
        is_white_space(c) <==> {
            ||| c == '\t' || c == '\n' || c == '\u{b}' || c == '\u{c}' || c == '\r' || c == ' '
            ||| c == '\u{85}' || c == '\u{a0}' || c == '\u{1680}'
            ||| '\u{2000}' <= c <= '\u{200a}'
            ||| c == '\u{2028}' || c == '\u{2029}' || c == '\u{202f}' || c == '\u{205f}' || c
                == '\u{3000}'
        },
{
}

/// A leading mark is taken off as often as it stands there, and nothing else.
pub proof fn law_leading_marks_come_off(s: Seq<char>, c: char) -> (n: nat)
    ensures
        n <= s.len(),
        without_leading(s, c) == s.skip(n as int),
        forall|i: int| 0 <= i < n ==> #[trigger] s[i] == c,
        n < s.len() ==> s[n as int] != c,
    decreases s.len(),
{
    if s.len() > 0 && s[0] == c {
        let m = law_leading_marks_come_off(s.drop_first(), c);
        let rest = s.drop_first();
        assert forall|i: int| 0 <= i < m + 1 implies #[trigger] s[i] == c by {
            if i > 0 {
                assert(rest[i - 1] == c);
            }
        }
        assert(rest.skip(m as int) =~= s.skip(m as int + 1));
        m + 1
    } else {
        assert(s.skip(0) =~= s);
        0
    }
}

/// A text without the separator is one piece; what stands behind the last separator
/// is the last piece, and the others are those of what stands before it.
pub proof fn law_pieces_lie_between_separators(head: Seq<char>, tail: Seq<char>, sep: char)
    requires
        !tail.contains(sep),
    ensures
        pieces(tail, sep) == seq![tail],
        pieces(head.push(sep) + tail, sep) == pieces(head, sep).push(tail),
    decreases tail.len(),
{
    if tail.len() == 0 {
        assert(tail =~= Seq::empty());
        assert(head.push(sep) + tail =~= head.push(sep));
        assert(head.push(sep).drop_last() =~= head);
        assert(pieces(tail, sep) =~= seq![tail]);
    } else {
        let front = tail.drop_last();
        assert(!front.contains(sep)) by {
            if front.contains(sep) {
                let i = choose|i: int| 0 <= i < front.len() && front[i] == sep;
                assert(tail[i] == sep);
            }
        }
        law_pieces_lie_between_separators(head, front, sep);
        assert(tail.last() != sep) by {
            assert(tail[tail.len() - 1] == tail.last());
        }
        let whole = head.push(sep) + tail;
        assert(whole.drop_last() =~= head.push(sep) + front);
        assert(whole.last() == tail.last());
        assert(front.push(tail.last()) =~= tail);
        assert(pieces(tail, sep) =~= seq![tail]);
        assert(pieces(whole, sep) =~= pieces(head, sep).push(tail));
    }
}

/// How a number is read: digits in base ten, the first one worth most, with an
/// optional plus sign before them, and nothing where there is no digit, something
/// else, or more than 32 bits hold.
pub proof fn law_numbers_are_read_in_base_ten(s: Seq<char>, d: char)
    ensures
        '0' <= d <= '9' ==> decimal(s.push(d)) == 10 * decimal(s) + (d as int - '0' as int),
        decimal(Seq::empty()) == 0,
        parsed_u32(Seq::empty()) is None,
        parsed_u32(seq!['+']) is None,
        s.len() > 0 && s[0] != '+' ==> parsed_u32(seq!['+'] + s) == parsed_u32(s),
        s.len() > 0 && s[0] != '+' ==> (parsed_u32(s) is Some <==> decimal(s) <= u32::MAX
            && forall|i: int| 0 <= i < s.len() ==> '0' <= #[trigger] s[i] <= '9'),
        s.len() > 0 && s[0] != '+' && parsed_u32(s) is Some ==> parsed_u32(s)->0 == decimal(s),
{
    if '0' <= d <= '9' {
        assert(s.push(d).drop_last() =~= s);
    }
    assert(seq!['+'].drop_first() =~= Seq::<char>::empty());
    let signed = seq!['+'] + s;
    assert(signed.drop_first() =~= s);
}

} // verus!
