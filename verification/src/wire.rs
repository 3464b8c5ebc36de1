//! Records on the wire: one line of text made of fixed pieces (the frame) with
//! a field between each two of them. A field is a quoted text, a signed whole
//! number or `null`. Every record has exactly one line that stands for it, and
//! a line is read back only if it is that line.
use vstd::prelude::*;
use crate::text::{
    decimal, digit_char, is_digit, is_prefix, lemma_decimal_injective, lemma_decimal_shape,
    lemma_numeral_unique, push_decimal, push_text, scan_decimal, to_chars,
};

verus! {

/// The lower-case hexadecimal digit for `d` in `0..16`.
pub open spec fn hex_char(d: int) -> char {
    if d < 10 {
        digit_char(d)
    } else {
        ('a' as u8 + (d - 10)) as u8 as char
    }
}

/// Characters below the space character, which never stand for themselves in a quoted text.
pub open spec fn is_control(c: char) -> bool {
    c < ' '
}

/// How one character is written inside quotes: the quote and the backslash
/// behind a backslash, a control character as `\u00` and two hexadecimal
/// digits, anything else as itself.
pub open spec fn escape_char(c: char) -> Seq<char> {
    if c == '"' {
        seq!['\\', '"']
    } else if c == '\\' {
        seq!['\\', '\\']
    } else if is_control(c) {
        seq!['\\', 'u', '0', '0', hex_char(c as int / 16), hex_char(c as int % 16)]
    } else {
        seq![c]
    }
}

/// The escaped form of a whole text.
pub open spec fn escape(s: Seq<char>) -> Seq<char>
    decreases s.len(),
{
    if s.len() == 0 {
        Seq::empty()
    } else {
        escape(s.drop_last()) + escape_char(s.last())
    }
}

/// A text on the wire: its escaped form between two quotes.
pub open spec fn quoted(s: Seq<char>) -> Seq<char> {
    seq!['"'] + escape(s) + seq!['"']
}

/// The escaped form of a concatenation is the concatenation of the escaped forms.
pub proof fn lemma_escape_concat(a: Seq<char>, b: Seq<char>)
    ensures
        escape(a + b) == escape(a) + escape(b),
    decreases b.len(),
{
    if b.len() == 0 {
        assert(a + b == a);
        assert(escape(a) + escape(b) == escape(a));
    } else {
        assert((a + b).drop_last() == a + b.drop_last());
        assert((a + b).last() == b.last());
        lemma_escape_concat(a, b.drop_last());
        assert(escape(a + b) == (escape(a) + escape(b.drop_last())) + escape_char(b.last()));
        assert((escape(a) + escape(b.drop_last())) + escape_char(b.last()) == escape(a) + (escape(
            b.drop_last(),
        ) + escape_char(b.last())));
    }
}

/// The escaped form of a non-empty text starts with the escaped form of its first character.
pub proof fn lemma_escape_first(s: Seq<char>)
    requires
        s.len() > 0,
    ensures
        escape(s) == escape_char(s[0]) + escape(s.drop_first()),
{
    let head = seq![s[0]];
    assert(s == head + s.drop_first());
    lemma_escape_concat(head, s.drop_first());
    assert(head.drop_last() == Seq::<char>::empty());
    assert(escape(head.drop_last()) == Seq::<char>::empty());
    assert(escape(head) == escape(head.drop_last()) + escape_char(head.last()));
    assert(Seq::<char>::empty() + escape_char(s[0]) == escape_char(s[0]));
}

/// No escaped character is the beginning of another: where two of them are
/// followed by anything and give the same text, they are the same character.
pub proof fn lemma_escape_char_unique(c: char, x: Seq<char>, d: char, y: Seq<char>)
    requires
        escape_char(c) + x == escape_char(d) + y,
    ensures
        c == d,
        x == y,
{
    let l = escape_char(c) + x;
    let r = escape_char(d) + y;
    assert(l[0] == r[0]);
    assert(l[0] == escape_char(c)[0]);
    assert(r[0] == escape_char(d)[0]);
    if escape_char(c)[0] == '\\' {
        assert(l[1] == escape_char(c)[1]);
        assert(r[1] == escape_char(d)[1]);
        if is_control(c) && c != '"' && c != '\\' {
            assert(l[4] == escape_char(c)[4]);
            assert(r[4] == escape_char(d)[4]);
            assert(l[5] == escape_char(c)[5]);
            assert(r[5] == escape_char(d)[5]);
            let ch = c as int / 16;
            let cl = c as int % 16;
            let dh = d as int / 16;
            let dl = d as int % 16;
            assert(hex_char(ch) == hex_char(dh));
            assert(hex_char(cl) == hex_char(dl));
            assert(ch == dh && cl == dl);
            assert(c as int == d as int);
        }
    }
    assert(escape_char(c) == escape_char(d));
    assert(x == l.subrange(escape_char(c).len() as int, l.len() as int));
    assert(y == r.subrange(escape_char(d).len() as int, r.len() as int));
}

/// Reading an escaped text from the left: where the escaped form of `a`,
/// followed by `r`, is also the escaped form of `t` followed by a quote and
/// `tail`, `a` is the beginning of `t` and `r` is what is left of `t`, the
/// quote and `tail`.
pub proof fn lemma_escape_prefix(a: Seq<char>, r: Seq<char>, t: Seq<char>, tail: Seq<char>)
    requires
        escape(a) + r == escape(t) + seq!['"'] + tail,
    ensures
        a.len() <= t.len(),
        t.subrange(0, a.len() as int) == a,
        r == escape(t.skip(a.len() as int)) + seq!['"'] + tail,
    decreases a.len(),
{
    if a.len() == 0 {
        assert(escape(a) + r == r);
        assert(t.skip(0) == t);
    } else {
        lemma_escape_first(a);
        let c = a[0];
        let x = escape(a.drop_first()) + r;
        assert(escape(a) + r == escape_char(c) + x);
        let whole = escape(t) + seq!['"'] + tail;
        if t.len() == 0 {
            assert(whole[0] == '"');
            assert((escape_char(c) + x)[0] == escape_char(c)[0]);
            assert(false);
        } else {
            lemma_escape_first(t);
            let d = t[0];
            let y = escape(t.drop_first()) + seq!['"'] + tail;
            assert(whole == escape_char(d) + y);
            lemma_escape_char_unique(c, x, d, y);
            lemma_escape_prefix(a.drop_first(), r, t.drop_first(), tail);
            assert(t.subrange(0, a.len() as int) == a) by {
                assert(t.drop_first().subrange(0, a.len() - 1) == a.drop_first());
                assert forall|i: int| 0 <= i < a.len() implies t[i] == a[i] by {
                    if i > 0 {
                        assert(t.drop_first().subrange(0, a.len() - 1)[i - 1] == t[i]);
                        assert(a.drop_first()[i - 1] == a[i]);
                    }
                }
            }
            assert(t.drop_first().skip(a.len() - 1) == t.skip(a.len() as int));
        }
    }
}

/// What stands at `i` in a buffer that holds a quoted text from `pos` on, once
/// the part up to `i` has been read as the escaped form of `acc`: the closing
/// quote, or the escaped form of the text's next character `d` with more
/// behind it.
pub proof fn lemma_quoted_next(
    buf: Seq<char>,
    pos: int,
    i: int,
    acc: Seq<char>,
    t: Seq<char>,
    e: int,
) -> (d: char)
    requires
        0 <= pos < i <= buf.len(),
        buf[pos] == '"',
        buf.subrange(pos + 1, i) == escape(acc),
        pos <= e <= buf.len(),
        buf.subrange(pos, e) == quoted(t),
    ensures
        i < buf.len(),
        acc.len() <= t.len(),
        t.subrange(0, acc.len() as int) == acc,
        acc.len() == t.len() ==> buf[i] == '"' && e == i + 1,
        acc.len() < t.len() ==> d == t[acc.len() as int] && i + escape_char(d).len() < buf.len(),
        acc.len() < t.len() && d == '"' ==> buf[i] == '\\' && buf[i + 1] == '"',
        acc.len() < t.len() && d == '\\' ==> buf[i] == '\\' && buf[i + 1] == '\\',
        acc.len() < t.len() && d != '"' && d != '\\' && is_control(d) ==> {
            &&& buf[i] == '\\'
            &&& buf[i + 1] == 'u'
            &&& buf[i + 2] == '0'
            &&& buf[i + 3] == '0'
            &&& buf[i + 4] == hex_char(d as int / 16)
            &&& buf[i + 5] == hex_char(d as int % 16)
        },
        acc.len() < t.len() && d != '"' && d != '\\' && !is_control(d) ==> buf[i] == d,
{
    let len = buf.len() as int;
    let r = buf.subrange(i, len);
    let tail = buf.subrange(e, len);
    let inner = buf.subrange(pos + 1, len);
    assert(quoted(t).len() == escape(t).len() + 2);
    assert(inner == escape(acc) + r);
    assert(inner == escape(t) + seq!['"'] + tail) by {
        let q = quoted(t);
        assert forall|k: int| 0 <= k < inner.len() implies inner[k] == (escape(t) + seq!['"']
            + tail)[k] by {
            if k < escape(t).len() + 1 {
                assert(buf.subrange(pos, e)[k + 1] == buf[pos + 1 + k]);
                assert(q[k + 1] == (escape(t) + seq!['"'])[k]);
            } else {
                assert(tail[k - escape(t).len() - 1] == buf[pos + 1 + k]);
            }
        }
    }
    lemma_escape_prefix(acc, r, t, tail);
    let rest = t.skip(acc.len() as int);
    assert(r == escape(rest) + seq!['"'] + tail);
    if rest.len() == 0 {
        assert(r[0] == '"');
        assert(r[0] == buf[i]);
        assert(t == acc);
        assert(escape(acc).len() == i - pos - 1);
        'x'
    } else {
        lemma_escape_first(rest);
        let d = rest[0];
        let y = escape(rest.drop_first()) + seq!['"'] + tail;
        assert(r == escape_char(d) + y);
        assert(y.len() >= 1);
        assert forall|k: int| 0 <= k < escape_char(d).len() implies buf[i + k] == escape_char(
            d,
        )[k] by {
            assert(r[k] == buf[i + k]);
        }
        if d != '"' && d != '\\' && is_control(d) {
            assert(buf[i + 4] == escape_char(d)[4]);
            assert(buf[i + 5] == escape_char(d)[5]);
            assert(buf[i + 1] == escape_char(d)[1]);
            assert(buf[i + 2] == escape_char(d)[2]);
            assert(buf[i + 3] == escape_char(d)[3]);
        }
        assert(buf[i] == escape_char(d)[0]);
        assert(escape_char(d).len() >= 2 ==> buf[i + 1] == escape_char(d)[1]);
        d
    }
}

fn below_space(c: char) -> (yes: bool)
    ensures
        yes == is_control(c),
{
    ' ' > c
}

fn hex_digit(d: u8) -> (c: char)
    requires
        d < 16,
    ensures
        c == hex_char(d as int),
{
    if d < 10 {
        let unit: u8 = 48 + d;
        unit as char
    } else {
        let unit: u8 = 87 + d;
        unit as char
    }
}

/// Appends the escaped form of `c` to `out`.
pub fn push_escaped(out: &mut String, c: char)
    ensures
        final(out)@ == old(out)@ + escape_char(c),
{
    if c == '"' {
        out.push('\\');
        out.push('"');
        assert(out@ == old(out)@ + escape_char(c));
    } else if c == '\\' {
        out.push('\\');
        out.push('\\');
        assert(out@ == old(out)@ + escape_char(c));
    } else if below_space(c) {
        let code: u8 = c as u8;
        out.push('\\');
        out.push('u');
        out.push('0');
        out.push('0');
        out.push(hex_digit(code / 16));
        out.push(hex_digit(code % 16));
        assert(out@ == old(out)@ + escape_char(c));
    } else {
        out.push(c);
        assert(out@ == old(out)@ + escape_char(c));
    }
}

/// Appends `s`, escaped and between quotes, to `out`.
pub fn push_quoted(out: &mut String, s: &str)
    ensures
        final(out)@ == old(out)@ + quoted(s@),
{
    out.push('"');
    for c in it: s.chars()
        invariant
            it.seq() == s@,
            out@ == old(out)@.push('"') + escape(it.seq().take(it.index() as int)),
    {
        let ghost before = it.seq().take(it.index() as int);
        push_escaped(out, c);
        proof {
            let after = it.seq().take(it.index() + 1);
            assert(after.drop_last() == before);
            assert(after.last() == c);
            assert(old(out)@.push('"') + escape(before) + escape_char(c) == old(out)@.push('"')
                + escape(after));
        }
    }
    out.push('"');
    proof {
        assert(s@.take(s@.len() as int) == s@);
        assert((old(out)@.push('"') + escape(s@)).push('"') == old(out)@ + quoted(s@));
    }
}

/// Reads the quoted text that starts at `pos`.
///
/// `Some((s, end))` when `buf[pos..end]` is `s` between quotes, escaped as
/// `quoted` writes it; `None` when no text written that way starts at `pos`.
pub fn parse_quoted(buf: &Vec<char>, pos: usize) -> (r: Option<(String, usize)>)
    ensures
        match r {
            Some((s, end)) => pos < end <= buf.len() && buf@.subrange(pos as int, end as int)
                == quoted(s@),
            None => forall|t: Seq<char>, e: int|
                #![trigger buf@.subrange(pos as int, e), quoted(t)]
                pos <= e <= buf.len() ==> buf@.subrange(pos as int, e) != quoted(t),
        },
{
    if pos > buf.len() {
        return None;
    }
    if pos >= buf.len() || buf[pos] != '"' {
        proof {
            assert forall|t: Seq<char>, e: int|
                #![trigger buf@.subrange(pos as int, e), quoted(t)]
                pos <= e <= buf.len() implies buf@.subrange(pos as int, e) != quoted(t) by {
                if buf@.subrange(pos as int, e) == quoted(t) {
                    assert(quoted(t).len() >= 2);
                    assert(quoted(t)[0] == '"');
                    assert(buf@.subrange(pos as int, e)[0] == buf@[pos as int]);
                }
            }
        }
        return None;
    }
    let mut acc = String::new();
    let mut i: usize = pos + 1;
    assert(buf@.subrange(pos + 1, i as int) == escape(acc@));
    loop
        invariant
            pos < i <= buf.len(),
            buf@[pos as int] == '"',
            buf@.subrange(pos + 1, i as int) == escape(acc@),
        decreases buf.len() - i,
    {
        let ghost seen = acc@;
        let ghost at = i as int;
        if i >= buf.len() {
            proof {
                assert forall|t: Seq<char>, e: int|
                    #![trigger buf@.subrange(pos as int, e), quoted(t)]
                    pos <= e <= buf.len() implies buf@.subrange(pos as int, e) != quoted(t) by {
                    if buf@.subrange(pos as int, e) == quoted(t) {
                        lemma_quoted_next(buf@, pos as int, at, seen, t, e);
                    }
                }
            }
            return None;
        }
        let c = buf[i];
        let mut taken: usize = 0;
        if c == '"' {
            assert(buf@.subrange(pos as int, i + 1) == quoted(acc@)) by {
                assert(buf@.subrange(pos as int, i + 1) == seq!['"'] + buf@.subrange(
                    pos + 1,
                    i as int,
                ) + seq!['"']);
            }
            return Some((acc, i + 1));
        } else if c == '\\' {
            if i + 1 < buf.len() {
                let e1 = buf[i + 1];
                if e1 == '"' || e1 == '\\' {
                    acc.push(e1);
                    taken = 2;
                    assert(buf@.subrange(at, at + 2) == escape_char(e1));
                } else if e1 == 'u' && buf.len() - i > 5 && buf[i + 2] == '0' && buf[i + 3]
                    == '0' {
                    let h1 = buf[i + 4];
                    let h2 = buf[i + 5];
                    let hi: u8 = if h1 == '0' {
                        0
                    } else if h1 == '1' {
                        1
                    } else {
                        16
                    };
                    let lo: u8 = if '0' <= h2 && h2 <= '9' {
                        (h2 as u32 - 48) as u8
                    } else if 'a' <= h2 && h2 <= 'f' {
                        (h2 as u32 - 87) as u8
                    } else {
                        16
                    };
                    if hi < 16 && lo < 16 {
                        let code: u8 = hi * 16 + lo;
                        let x = code as char;
                        acc.push(x);
                        taken = 6;
                        assert(hex_char(x as int / 16) == h1);
                        assert(hex_char(x as int % 16) == h2);
                        assert(buf@.subrange(at, at + 6) == escape_char(x));
                    }
                }
            }
        } else if !below_space(c) {
            acc.push(c);
            taken = 1;
            assert(buf@.subrange(at, at + 1) == escape_char(c));
        }
        if taken == 0 {
            proof {
                assert forall|t: Seq<char>, e: int|
                    #![trigger buf@.subrange(pos as int, e), quoted(t)]
                    pos <= e <= buf.len() implies buf@.subrange(pos as int, e) != quoted(t) by {
                    if buf@.subrange(pos as int, e) == quoted(t) {
                        let d = lemma_quoted_next(buf@, pos as int, at, seen, t, e);
                        if d != '"' && d != '\\' && is_control(d) {
                            let dh = d as int / 16;
                            let dl = d as int % 16;
                            assert(hex_char(dh) == '0' || hex_char(dh) == '1');
                            assert(('0' <= hex_char(dl) && hex_char(dl) <= '9') || ('a'
                                <= hex_char(dl) && hex_char(dl) <= 'f'));
                        }
                    }
                }
            }
            return None;
        }
        proof {
            assert(acc@.drop_last() == seen);
            assert(buf@.subrange(pos + 1, at + taken) == buf@.subrange(pos + 1, at)
                + buf@.subrange(at, at + taken));
        }
        i = i + taken;
    }
}

/// One field of a record.
#[derive(Debug, Clone, PartialEq, Eq)]
pub enum Field {
    /// A text.
    Text(String),
    /// A whole number.
    Number(i128),
    /// The absent value.
    Null,
}

/// What a field holds, as mathematical values.
pub enum FieldView {
    Text(Seq<char>),
    Number(int),
    Null,
}

impl View for Field {
    type V = FieldView;

    open spec fn view(&self) -> FieldView {
        match self {
            Field::Text(s) => FieldView::Text(s@),
            Field::Number(v) => FieldView::Number(*v as int),
            Field::Null => FieldView::Null,
        }
    }
}

/// A whole number on the wire: a minus sign for a negative one, then the
/// canonical numeral of its magnitude.
pub open spec fn signed_decimal(v: int) -> Seq<char> {
    if v < 0 {
        seq!['-'] + decimal((-v) as nat)
    } else {
        decimal(v as nat)
    }
}

/// The absent value on the wire.
pub open spec fn null_text() -> Seq<char> {
    seq!['n', 'u', 'l', 'l']
}

impl FieldView {
    /// A number on the wire fits a whole number of 128 bits.
    pub open spec fn wf(self) -> bool {
        self matches FieldView::Number(v) ==> i128::MIN <= v <= i128::MAX
    }

    /// The field as it stands on the wire.
    pub open spec fn text(self) -> Seq<char> {
        match self {
            FieldView::Text(s) => quoted(s),
            FieldView::Number(v) => signed_decimal(v),
            FieldView::Null => null_text(),
        }
    }
}

/// The views of a sequence of fields.
pub open spec fn field_views(fields: Seq<Field>) -> Seq<FieldView> {
    Seq::new(fields.len(), |i: int| fields[i]@)
}

/// Two fields that stand at the same place of a buffer, each followed by the
/// end of the buffer or by a character that cannot continue it, are the same
/// field and end at the same place.
pub proof fn lemma_field_unique(
    buf: Seq<char>,
    pos: int,
    f: FieldView,
    e1: int,
    g: FieldView,
    e2: int,
)
    requires
        0 <= pos <= e1 <= buf.len(),
        pos <= e2 <= buf.len(),
        f.wf(),
        g.wf(),
        buf.subrange(pos, e1) == f.text(),
        buf.subrange(pos, e2) == g.text(),
        f is Number ==> e1 == buf.len() || !is_digit(buf[e1]),
        g is Number ==> e2 == buf.len() || !is_digit(buf[e2]),
    ensures
        f == g,
        e1 == e2,
{
    let a = buf.subrange(pos, e1);
    let b = buf.subrange(pos, e2);
    match f {
        FieldView::Number(v) => {
            lemma_decimal_shape((-v) as nat);
            lemma_decimal_shape(v as nat);
        },
        _ => {},
    }
    match g {
        FieldView::Number(w) => {
            lemma_decimal_shape((-w) as nat);
            lemma_decimal_shape(w as nat);
        },
        _ => {},
    }
    assert(a.len() >= 1 && b.len() >= 1);
    assert(a[0] == buf[pos] && b[0] == buf[pos]);
    assert(f.text()[0] == g.text()[0]);
    match (f, g) {
        (FieldView::Text(s), FieldView::Text(t)) => {
            let len = buf.len() as int;
            assert(quoted(s).len() == escape(s).len() + 2);
            assert(quoted(s)[0] == '"');
            assert(buf.subrange(pos + 1, e1 - 1) == escape(s)) by {
                assert forall|k: int| 0 <= k < escape(s).len() implies buf.subrange(
                    pos + 1,
                    e1 - 1,
                )[k] == escape(s)[k] by {
                    assert(a[k + 1] == buf[pos + 1 + k]);
                    assert(quoted(s)[k + 1] == escape(s)[k]);
                }
            }
            let d = lemma_quoted_next(buf, pos, e1 - 1, s, t, e2);
            if s.len() < t.len() {
                assert(a[e1 - 1 - pos] == buf[e1 - 1]);
                assert(quoted(s)[e1 - 1 - pos] == '"');
                assert(false);
            }
            assert(t.subrange(0, s.len() as int) == t);
        },
        (FieldView::Number(v), FieldView::Number(w)) => {
            let m: nat = if v < 0 {
                (-v) as nat
            } else {
                v as nat
            };
            let n: nat = if w < 0 {
                (-w) as nat
            } else {
                w as nat
            };
            assert(v < 0 <==> buf[pos] == '-');
            assert(w < 0 <==> buf[pos] == '-');
            if e1 < e2 {
                assert(b[e1 - pos] == buf[e1]);
                assert(is_digit(buf[e1])) by {
                    if w < 0 {
                        assert(b[e1 - pos] == decimal(n)[e1 - pos - 1]);
                    }
                }
                assert(false);
            }
            if e2 < e1 {
                assert(a[e2 - pos] == buf[e2]);
                assert(is_digit(buf[e2])) by {
                    if v < 0 {
                        assert(a[e2 - pos] == decimal(m)[e2 - pos - 1]);
                    }
                }
                assert(false);
            }
            assert(decimal(m) == decimal(n)) by {
                if v < 0 {
                    assert(decimal(m) == a.subrange(1, a.len() as int));
                    assert(decimal(n) == b.subrange(1, b.len() as int));
                }
            }
            lemma_decimal_injective(m, n);
        },
        (FieldView::Null, FieldView::Null) => {
            assert(a.len() == 4 && b.len() == 4);
        },
        _ => {
            assert(false);
        },
    }
}

/// Appends `field` to `out` as it stands on the wire.
pub fn push_field(out: &mut String, field: &Field)
    ensures
        final(out)@ == old(out)@ + field@.text(),
{
    match field {
        Field::Text(s) => {
            push_quoted(out, s.as_str());
        },
        Field::Number(v) => {
            if *v < 0 {
                out.push('-');
                let magnitude: u128 = if *v == i128::MIN {
                    0x8000_0000_0000_0000_0000_0000_0000_0000
                } else {
                    (-*v) as u128
                };
                push_decimal(out, magnitude);
                assert(out@ == old(out)@ + (seq!['-'] + decimal(magnitude as nat)));
            } else {
                push_decimal(out, *v as u128);
            }
        },
        Field::Null => {
            out.push('n');
            out.push('u');
            out.push('l');
            out.push('l');
            assert(out@ == old(out)@ + null_text());
        },
    }
}

/// Reads the field that starts at `pos`.
///
/// `Some((f, end))` when `buf[pos..end]` is `f` as it stands on the wire; a
/// number is read up to the first character that is not a digit. `None` when
/// no field stands at `pos` that is followed by the end of the buffer or by a
/// character that cannot continue it.
pub fn parse_field(buf: &Vec<char>, pos: usize) -> (r: Option<(Field, usize)>)
    ensures
        match r {
            Some((f, end)) => {
                &&& pos < end <= buf.len()
                &&& f@.wf()
                &&& buf@.subrange(pos as int, end as int) == f@.text()
                &&& (f is Number && end < buf.len() ==> !is_digit(buf@[end as int]))
            },
            None => forall|g: FieldView, e: int|
                #![trigger buf@.subrange(pos as int, e), g.text()]
                g.wf() && pos <= e <= buf.len() && buf@.subrange(pos as int, e) == g.text() ==> g
                    is Number && e < buf.len() && is_digit(buf@[e]),
        },
{
    if pos > buf.len() {
        return None;
    }
    if pos >= buf.len() {
        proof {
            assert forall|g: FieldView, e: int|
                #![trigger buf@.subrange(pos as int, e), g.text()]
                g.wf() && pos <= e <= buf.len() && buf@.subrange(pos as int, e)
                    == g.text() implies g is Number && e < buf.len() && is_digit(buf@[e]) by {
                lemma_text_shape(g);
            }
        }
        return None;
    }
    let c = buf[pos];
    if c == '"' {
        match parse_quoted(buf, pos) {
            Some((s, end)) => Some((Field::Text(s), end)),
            None => {
                proof {
                    assert forall|g: FieldView, e: int|
                        #![trigger buf@.subrange(pos as int, e), g.text()]
                        g.wf() && pos <= e <= buf.len() && buf@.subrange(pos as int, e)
                            == g.text() implies g is Number && e < buf.len() && is_digit(
                        buf@[e],
                    ) by {
                        lemma_text_shape(g);
                        assert(buf@.subrange(pos as int, e)[0] == c);
                        if let FieldView::Text(t) = g {
                            assert(buf@.subrange(pos as int, e) == quoted(t));
                        }
                    }
                }
                None
            },
        }
    } else if c == 'n' {
        if buf.len() - pos >= 4 && buf[pos + 1] == 'u' && buf[pos + 2] == 'l' && buf[pos + 3]
            == 'l' {
            assert(buf@.subrange(pos as int, pos + 4) == null_text());
            Some((Field::Null, pos + 4))
        } else {
            proof {
                assert forall|g: FieldView, e: int|
                    #![trigger buf@.subrange(pos as int, e), g.text()]
                    g.wf() && pos <= e <= buf.len() && buf@.subrange(pos as int, e)
                        == g.text() implies g is Number && e < buf.len() && is_digit(buf@[e]) by {
                    lemma_text_shape(g);
                    let x = buf@.subrange(pos as int, e);
                    assert(x[0] == c);
                    if g is Null {
                        assert(x[1] == buf@[pos + 1]);
                        assert(x[2] == buf@[pos + 2]);
                        assert(x[3] == buf@[pos + 3]);
                    }
                }
            }
            None
        }
    } else if c == '-' {
        match scan_decimal(buf, pos + 1) {
            Some((n, end)) => {
                let limit: u128 = 0x8000_0000_0000_0000_0000_0000_0000_0000;
                if n == 0 || n > limit {
                    proof {
                        assert forall|g: FieldView, e: int|
                            #![trigger buf@.subrange(pos as int, e), g.text()]
                            g.wf() && pos <= e <= buf.len() && buf@.subrange(pos as int, e)
                                == g.text() implies g is Number && e < buf.len() && is_digit(
                            buf@[e],
                        ) by {
                            lemma_text_shape(g);
                            let x = buf@.subrange(pos as int, e);
                            assert(x[0] == c);
                            if let FieldView::Number(w) = g {
                                if !(e < buf.len() && is_digit(buf@[e])) {
                                    let m = (-w) as nat;
                                    assert(buf@.subrange(pos + 1, e) == decimal(m)) by {
                                        assert(buf@.subrange(pos + 1, e) == x.subrange(
                                            1,
                                            x.len() as int,
                                        ));
                                    }
                                    lemma_numeral_unique(
                                        buf@,
                                        pos + 1,
                                        n as nat,
                                        end as int,
                                        m,
                                        e,
                                    );
                                }
                            }
                        }
                    }
                    None
                } else {
                    let v: i128 = if n == limit {
                        i128::MIN
                    } else {
                        -(n as i128)
                    };
                    assert(buf@.subrange(pos as int, end as int) == seq!['-'] + buf@.subrange(
                        pos + 1,
                        end as int,
                    ));
                    Some((Field::Number(v), end))
                }
            },
            None => {
                proof {
                    assert forall|g: FieldView, e: int|
                        #![trigger buf@.subrange(pos as int, e), g.text()]
                        g.wf() && pos <= e <= buf.len() && buf@.subrange(pos as int, e)
                            == g.text() implies g is Number && e < buf.len() && is_digit(
                        buf@[e],
                    ) by {
                        lemma_text_shape(g);
                        let x = buf@.subrange(pos as int, e);
                        assert(x[0] == c);
                        if let FieldView::Number(w) = g {
                            let m = (-w) as nat;
                            assert(buf@.subrange(pos + 1, e) == decimal(m)) by {
                                assert(buf@.subrange(pos + 1, e) == x.subrange(1, x.len() as int));
                            }
                        }
                    }
                }
                None
            },
        }
    } else {
        match scan_decimal(buf, pos) {
            Some((n, end)) => {
                let limit: u128 = 0x7fff_ffff_ffff_ffff_ffff_ffff_ffff_ffff;
                if n > limit {
                    proof {
                        assert forall|g: FieldView, e: int|
                            #![trigger buf@.subrange(pos as int, e), g.text()]
                            g.wf() && pos <= e <= buf.len() && buf@.subrange(pos as int, e)
                                == g.text() implies g is Number && e < buf.len() && is_digit(
                            buf@[e],
                        ) by {
                            lemma_text_shape(g);
                            let x = buf@.subrange(pos as int, e);
                            assert(x[0] == c);
                            lemma_decimal_shape(n as nat);
                            assert(buf@.subrange(pos as int, end as int)[0] == c);
                            if let FieldView::Number(w) = g {
                                if !(e < buf.len() && is_digit(buf@[e])) {
                                    assert(x == decimal(w as nat));
                                    lemma_numeral_unique(
                                        buf@,
                                        pos as int,
                                        n as nat,
                                        end as int,
                                        w as nat,
                                        e,
                                    );
                                }
                            }
                        }
                    }
                    None
                } else {
                    Some((Field::Number(n as i128), end))
                }
            },
            None => {
                proof {
                    assert forall|g: FieldView, e: int|
                        #![trigger buf@.subrange(pos as int, e), g.text()]
                        g.wf() && pos <= e <= buf.len() && buf@.subrange(pos as int, e)
                            == g.text() implies g is Number && e < buf.len() && is_digit(
                        buf@[e],
                    ) by {
                        lemma_text_shape(g);
                        let x = buf@.subrange(pos as int, e);
                        assert(x[0] == c);
                        if let FieldView::Number(w) = g {
                            assert(x == decimal(w as nat));
                        }
                    }
                }
                None
            },
        }
    }
}

/// How a field begins on the wire: a text with a quote, the absent value with
/// `n`, a negative number with a minus sign, any other number with a digit.
pub proof fn lemma_text_shape(g: FieldView)
    ensures
        g.text().len() >= 1,
        g is Text ==> g.text()[0] == '"',
        g is Null ==> g.text() == null_text() && g.text().len() == 4,
        g matches FieldView::Number(w) ==> (if w < 0 {
            g.text()[0] == '-' && g.text() == seq!['-'] + decimal((-w) as nat)
        } else {
            is_digit(g.text()[0]) && g.text() == decimal(w as nat)
        }),
{
    if let FieldView::Number(w) = g {
        lemma_decimal_shape((-w) as nat);
        lemma_decimal_shape(w as nat);
    }
}

/// The fixed pieces of a record, as texts.
pub open spec fn frame_texts(frame: Seq<&'static str>) -> Seq<Seq<char>> {
    Seq::new(frame.len(), |i: int| frame[i]@)
}

/// A frame has a piece before the first field and one behind each field, and
/// each piece behind a field begins with a character that is no digit, so
/// that a number before it ends where the piece begins.
pub open spec fn frame_ok(frame: Seq<Seq<char>>) -> bool {
    &&& frame.len() >= 1
    &&& forall|i: int| 1 <= i < frame.len() ==> (#[trigger] frame[i]).len() > 0 && !is_digit(frame[i][0])
}

/// The beginning of a record: the first `k` fields, each between two pieces.
pub open spec fn render_upto(frame: Seq<Seq<char>>, fields: Seq<FieldView>, k: nat) -> Seq<char>
    decreases k,
{
    if k == 0 {
        frame[0]
    } else {
        render_upto(frame, fields, (k - 1) as nat) + fields[k - 1].text() + frame[k as int]
    }
}

/// The line that stands for a record: its fields, in order, between the
/// pieces of the frame.
pub open spec fn render(frame: Seq<Seq<char>>, fields: Seq<FieldView>) -> Seq<char> {
    render_upto(frame, fields, fields.len())
}

/// All fields of a sequence can stand on the wire.
pub open spec fn all_wf(fields: Seq<FieldView>) -> bool {
    forall|i: int| 0 <= i < fields.len() ==> (#[trigger] fields[i]).wf()
}

/// The beginning of a record depends on its first `k` fields only.
pub proof fn lemma_render_agree(
    frame: Seq<Seq<char>>,
    fs: Seq<FieldView>,
    gs: Seq<FieldView>,
    k: nat,
)
    requires
        forall|i: int| 0 <= i < k ==> fs[i] == gs[i],
    ensures
        render_upto(frame, fs, k) == render_upto(frame, gs, k),
    decreases k,
{
    if k > 0 {
        lemma_render_agree(frame, fs, gs, (k - 1) as nat);
    }
}

/// A shorter beginning of a record is the beginning of a longer one.
pub proof fn lemma_render_prefix(frame: Seq<Seq<char>>, gs: Seq<FieldView>, k: nat, n: nat)
    requires
        k <= n,
    ensures
        is_prefix(render_upto(frame, gs, k), render_upto(frame, gs, n)),
    decreases n - k,
{
    let short = render_upto(frame, gs, k);
    if k == n {
        assert(short.subrange(0, short.len() as int) == short);
    } else {
        lemma_render_prefix(frame, gs, k, (n - 1) as nat);
        let mid = render_upto(frame, gs, (n - 1) as nat);
        let long = render_upto(frame, gs, n);
        assert(long == mid + gs[n - 1].text() + frame[n as int]);
        assert(long.subrange(0, short.len() as int) == mid.subrange(0, short.len() as int));
    }
}

/// Where a buffer holds the record `gs` and begins like a record whose first
/// `k` fields are those of `fs`, the first `k` fields of `gs` are those of `fs`.
pub proof fn lemma_same_fields(
    frame: Seq<Seq<char>>,
    buf: Seq<char>,
    fs: Seq<FieldView>,
    gs: Seq<FieldView>,
    k: nat,
)
    requires
        frame_ok(frame),
        frame.len() == gs.len() + 1,
        k <= fs.len(),
        k <= gs.len(),
        all_wf(gs),
        forall|i: int| 0 <= i < k ==> (#[trigger] fs[i]).wf(),
        is_prefix(render_upto(frame, fs, k), buf),
        buf == render(frame, gs),
    ensures
        forall|i: int| 0 <= i < k ==> fs[i] == gs[i],
        render_upto(frame, fs, k) == render_upto(frame, gs, k),
    decreases k,
{
    if k > 0 {
        let j = (k - 1) as nat;
        let head = render_upto(frame, fs, j);
        let whole = render_upto(frame, fs, k);
        let f = fs[j as int];
        let g = gs[j as int];
        assert(whole == head + f.text() + frame[k as int]);
        assert(is_prefix(head, buf)) by {
            assert(buf.subrange(0, head.len() as int) == whole.subrange(0, head.len() as int));
            assert(whole.subrange(0, head.len() as int) == head);
        }
        lemma_same_fields(frame, buf, fs, gs, j);
        let p = head.len() as int;
        let e1 = p + f.text().len();
        let e2 = p + g.text().len();
        let other = render_upto(frame, gs, k);
        assert(other == head + g.text() + frame[k as int]);
        lemma_render_prefix(frame, gs, k, gs.len());
        assert(frame[k as int].len() > 0 && !is_digit(frame[k as int][0]));
        assert(buf.subrange(p, e1) == f.text()) by {
            assert(buf.subrange(p, e1) == whole.subrange(p, e1));
            assert(whole.subrange(p, e1) == f.text());
        }
        assert(buf[e1] == frame[k as int][0]) by {
            assert(buf[e1] == buf.subrange(0, whole.len() as int)[e1]);
            assert(whole[e1] == frame[k as int][0]);
        }
        assert(buf.subrange(p, e2) == g.text()) by {
            assert(buf.subrange(p, e2) == other.subrange(p, e2)) by {
                assert forall|x: int| 0 <= x < e2 - p implies buf.subrange(p, e2)[x]
                    == other.subrange(p, e2)[x] by {
                    assert(buf.subrange(0, other.len() as int)[p + x] == buf[p + x]);
                }
            }
            assert(other.subrange(p, e2) == g.text());
        }
        assert(buf[e2] == frame[k as int][0]) by {
            assert(buf[e2] == buf.subrange(0, other.len() as int)[e2]);
            assert(other[e2] == frame[k as int][0]);
        }
        lemma_field_unique(buf, p, f, e1, g, e2);
        lemma_render_agree(frame, fs, gs, k);
    }
}

/// Where a buffer holds the record `gs` and has been read as far as the first
/// `k` fields `fs`, field `k` of `gs` and the piece behind it stand next.
pub proof fn lemma_next_field(
    frame: Seq<Seq<char>>,
    buf: Seq<char>,
    fs: Seq<FieldView>,
    gs: Seq<FieldView>,
    k: nat,
)
    requires
        frame_ok(frame),
        frame.len() == gs.len() + 1,
        k <= fs.len(),
        k < gs.len(),
        all_wf(gs),
        forall|i: int| 0 <= i < k ==> (#[trigger] fs[i]).wf(),
        is_prefix(render_upto(frame, fs, k), buf),
        buf == render(frame, gs),
    ensures
        ({
            let p = render_upto(frame, fs, k).len() as int;
            let e = p + gs[k as int].text().len();
            let q = e + frame[k as int + 1].len();
            &&& q <= buf.len()
            &&& buf.subrange(p, e) == gs[k as int].text()
            &&& buf.subrange(e, q) == frame[k as int + 1]
            &&& !is_digit(buf[e])
        }),
{
    lemma_same_fields(frame, buf, fs, gs, k);
    let head = render_upto(frame, gs, k);
    let g = gs[k as int];
    let next = render_upto(frame, gs, (k + 1) as nat);
    assert(next == head + g.text() + frame[k as int + 1]);
    lemma_render_prefix(frame, gs, (k + 1) as nat, gs.len());
    let p = head.len() as int;
    let e = p + g.text().len();
    let q = e + frame[k as int + 1].len();
    assert(frame[k as int + 1].len() > 0 && !is_digit(frame[k as int + 1][0]));
    assert(buf.subrange(p, e) == g.text()) by {
        assert forall|x: int| 0 <= x < e - p implies buf.subrange(p, e)[x] == g.text()[x] by {
            assert(buf.subrange(0, next.len() as int)[p + x] == buf[p + x]);
            assert(next[p + x] == g.text()[x]);
        }
    }
    assert(buf.subrange(e, q) == frame[k as int + 1]) by {
        assert forall|x: int| 0 <= x < q - e implies buf.subrange(e, q)[x] == frame[k as int + 1][x] by {
            assert(buf.subrange(0, next.len() as int)[e + x] == buf[e + x]);
            assert(next[e + x] == frame[k as int + 1][x]);
        }
    }
    assert(buf[e] == buf.subrange(e, q)[0]);
}

/// Two records with the same frame and the same line are the same record.
pub proof fn lemma_render_injective(
    frame: Seq<Seq<char>>,
    fs: Seq<FieldView>,
    gs: Seq<FieldView>,
)
    requires
        frame_ok(frame),
        frame.len() == fs.len() + 1,
        fs.len() == gs.len(),
        all_wf(fs),
        all_wf(gs),
        render(frame, fs) == render(frame, gs),
    ensures
        fs == gs,
{
    let buf = render(frame, gs);
    assert(render(frame, fs).subrange(0, buf.len() as int) == buf);
    lemma_same_fields(frame, buf, fs, gs, fs.len());
    assert(fs =~= gs);
}

/// Whether `piece` stands in `buf` at `pos`; if so, where it ends.
pub fn expect_piece(buf: &Vec<char>, pos: usize, piece: &str) -> (r: Option<usize>)
    ensures
        match r {
            Some(end) => end == pos + piece@.len() && end <= buf.len() && buf@.subrange(
                pos as int,
                end as int,
            ) == piece@,
            None => !(pos + piece@.len() <= buf.len() && buf@.subrange(
                pos as int,
                pos + piece@.len(),
            ) == piece@),
        },
{
    if pos > buf.len() {
        return None;
    }
    let want = to_chars(piece);
    if want.len() > buf.len() - pos {
        return None;
    }
    let mut i: usize = 0;
    while i < want.len()
        invariant
            i <= want.len(),
            want@ == piece@,
            pos + want.len() <= buf.len(),
            buf@.subrange(pos as int, pos + i) == want@.subrange(0, i as int),
        decreases want.len() - i,
    {
        if buf[pos + i] != want[i] {
            assert(buf@.subrange(pos as int, pos + piece@.len())[i as int] != piece@[i as int]);
            return None;
        }
        assert(buf@.subrange(pos as int, pos + i + 1) == buf@.subrange(pos as int, pos + i).push(
            buf@[pos + i],
        ));
        assert(want@.subrange(0, i + 1) == want@.subrange(0, i as int).push(want@[i as int]));
        i += 1;
    }
    assert(want@.subrange(0, want@.len() as int) == want@);
    Some(pos + want.len())
}

/// The line that stands for the record `fields` in `frame`; nothing where
/// the frame does not have one piece more than there are fields.
pub fn write_record(frame: &Vec<&'static str>, fields: &Vec<Field>) -> (line: Option<String>)
    ensures
        match line {
            Some(text) => frame.len() == fields.len() + 1 && text@ == render(
                frame_texts(frame@),
                field_views(fields@),
            ),
            None => frame.len() != fields.len() + 1,
        },
{
    if fields.len() >= frame.len() || frame.len() - fields.len() != 1 {
        return None;
    }
    let ghost pieces = frame_texts(frame@);
    let ghost views = field_views(fields@);
    let mut line = String::new();
    push_text(&mut line, frame[0]);
    assert(line@ == render_upto(pieces, views, 0)) by {
        assert(Seq::<char>::empty() + frame@[0]@ == frame@[0]@);
    }
    let mut i: usize = 0;
    while i < fields.len()
        invariant
            i <= fields.len(),
            frame.len() == fields.len() + 1,
            pieces == frame_texts(frame@),
            views == field_views(fields@),
            line@ == render_upto(pieces, views, i as nat),
        decreases fields.len() - i,
    {
        push_field(&mut line, &fields[i]);
        push_text(&mut line, frame[i + 1]);
        i += 1;
    }
    Some(line)
}

/// Whether `frame` is well formed.
pub fn check_frame(frame: &Vec<&'static str>) -> (ok: bool)
    ensures
        ok == frame_ok(frame_texts(frame@)),
{
    if frame.len() == 0 {
        return false;
    }
    let mut i: usize = 1;
    while i < frame.len()
        invariant
            1 <= i <= frame.len(),
            forall|j: int|
                1 <= j < i ==> (#[trigger] frame_texts(frame@)[j]).len() > 0 && !is_digit(
                    frame_texts(frame@)[j][0],
                ),
        decreases frame.len() - i,
    {
        let piece = to_chars(frame[i]);
        assert(frame_texts(frame@)[i as int] == piece@);
        if piece.len() == 0 || ('0' <= piece[0] && piece[0] <= '9') {
            return false;
        }
        i += 1;
    }
    true
}

/// Reads `buf` as a record in `frame`.
///
/// `Some(fields)` when the frame is well formed and `buf` is the line that
/// stands for `fields`; `None` when the frame is not well formed or no
/// record in it has `buf` as its line.
pub fn parse_record(buf: &Vec<char>, frame: &Vec<&'static str>) -> (r: Option<Vec<Field>>)
    ensures
        match r {
            Some(fields) => {
                &&& frame_ok(frame_texts(frame@))
                &&& fields.len() + 1 == frame.len()
                &&& all_wf(field_views(fields@))
                &&& buf@ == render(frame_texts(frame@), field_views(fields@))
            },
            None => !frame_ok(frame_texts(frame@)) || forall|gs: Seq<FieldView>|
                #![trigger render(frame_texts(frame@), gs)]
                gs.len() + 1 == frame.len() && all_wf(gs) ==> buf@ != render(
                    frame_texts(frame@),
                    gs,
                ),
        },
{
    if !check_frame(frame) {
        return None;
    }
    let ghost pieces = frame_texts(frame@);
    let count: usize = frame.len() - 1;
    let mut fields: Vec<Field> = Vec::new();
    let mut pos: usize = match expect_piece(buf, 0, frame[0]) {
        Some(end) => end,
        None => {
            proof {
                assert forall|gs: Seq<FieldView>|
                    #![trigger render(pieces, gs)]
                    gs.len() + 1 == frame.len() && all_wf(gs) implies buf@ != render(
                    pieces,
                    gs,
                ) by {
                    lemma_render_prefix(pieces, gs, 0, gs.len());
                }
            }
            return None;
        },
    };
    while fields.len() < count
        invariant
            count + 1 == frame.len(),
            pieces == frame_texts(frame@),
            frame_ok(pieces),
            fields.len() <= count,
            pos <= buf.len(),
            all_wf(field_views(fields@)),
            pos == render_upto(pieces, field_views(fields@), fields.len() as nat).len(),
            buf@.subrange(0, pos as int) == render_upto(
                pieces,
                field_views(fields@),
                fields.len() as nat,
            ),
        decreases count - fields.len(),
    {
        let ghost fs = field_views(fields@);
        let ghost k = fields.len() as nat;
        let (field, end) = match parse_field(buf, pos) {
            Some(found) => found,
            None => {
                proof {
                    assert forall|gs: Seq<FieldView>|
                        #![trigger render(pieces, gs)]
                        gs.len() + 1 == frame.len() && all_wf(gs) implies buf@ != render(
                        pieces,
                        gs,
                    ) by {
                        if buf@ == render(pieces, gs) {
                            lemma_next_field(pieces, buf@, fs, gs, k);
                            let e = pos + gs[k as int].text().len();
                            assert(buf@.subrange(pos as int, e) == gs[k as int].text());
                            assert(gs[k as int].wf());
                        }
                    }
                }
                return None;
            },
        };
        let next = match expect_piece(buf, end, frame[fields.len() + 1]) {
            Some(next) => next,
            None => {
                proof {
                    assert forall|gs: Seq<FieldView>|
                        #![trigger render(pieces, gs)]
                        gs.len() + 1 == frame.len() && all_wf(gs) implies buf@ != render(
                        pieces,
                        gs,
                    ) by {
                        if buf@ == render(pieces, gs) {
                            lemma_next_field(pieces, buf@, fs, gs, k);
                            let e = pos + gs[k as int].text().len();
                            assert(gs[k as int].wf());
                            lemma_field_unique(
                                buf@,
                                pos as int,
                                field@,
                                end as int,
                                gs[k as int],
                                e,
                            );
                        }
                    }
                }
                return None;
            },
        };
        fields.push(field);
        proof {
            let now = field_views(fields@);
            assert forall|i: int| 0 <= i < now.len() implies (#[trigger] now[i]).wf() by {
                if i < k {
                    assert(now[i] == fs[i]);
                    assert(fs[i].wf());
                }
            }
            lemma_render_agree(pieces, fs, now, k);
            assert(buf@.subrange(0, next as int) == buf@.subrange(0, pos as int) + buf@.subrange(
                pos as int,
                end as int,
            ) + buf@.subrange(end as int, next as int));
        }
        pos = next;
    }
    if pos != buf.len() {
        proof {
            let fs = field_views(fields@);
            assert forall|gs: Seq<FieldView>|
                #![trigger render(pieces, gs)]
                gs.len() + 1 == frame.len() && all_wf(gs) implies buf@ != render(pieces, gs) by {
                if buf@ == render(pieces, gs) {
                    lemma_same_fields(pieces, buf@, fs, gs, fs.len());
                }
            }
        }
        return None;
    }
    assert(buf@.subrange(0, pos as int) == buf@);
    Some(fields)
}

/// A text without control characters: it holds no line break.
pub open spec fn printable(s: Seq<char>) -> bool {
    forall|i: int| 0 <= i < s.len() ==> !is_control(#[trigger] s[i])
}

/// The code of a character is not below zero.
proof fn lemma_char_code(c: char)
    ensures
        0 <= c as int,
{
}

/// The escaped form of a text holds no control character.
pub proof fn lemma_escape_printable(s: Seq<char>)
    ensures
        printable(escape(s)),
    decreases s.len(),
{
    if s.len() > 0 {
        lemma_escape_printable(s.drop_last());
        let c = s.last();
        let front = escape(s.drop_last());
        let dh = c as int / 16;
        let dl = c as int % 16;
        assert forall|i: int| 0 <= i < escape(s).len() implies !is_control(#[trigger] escape(s)[i]) by {
            if i < front.len() {
                assert(escape(s)[i] == front[i]);
            } else {
                let k = i - front.len();
                assert(escape(s)[i] == escape_char(c)[k]);
                if c != '"' && c != '\\' && is_control(c) {
                    lemma_char_code(c);
                    assert(0 <= dh < 2 && 0 <= dl < 16);
                    assert(!is_control(hex_char(dh)));
                    assert(!is_control(hex_char(dl)));
                }
            }
        }
    }
}

/// No field holds a control character on the wire.
pub proof fn lemma_field_printable(f: FieldView)
    ensures
        printable(f.text()),
{
    match f {
        FieldView::Text(s) => {
            lemma_escape_printable(s);
            assert forall|i: int| 0 <= i < quoted(s).len() implies !is_control(
                #[trigger] quoted(s)[i],
            ) by {
                if 0 < i && i <= escape(s).len() {
                    assert(quoted(s)[i] == escape(s)[i - 1]);
                }
            }
        },
        FieldView::Number(v) => {
            lemma_decimal_shape((-v) as nat);
            lemma_decimal_shape(v as nat);
            assert forall|i: int| 0 <= i < f.text().len() implies !is_control(
                #[trigger] f.text()[i],
            ) by {
                if v < 0 && i > 0 {
                    assert(f.text()[i] == decimal((-v) as nat)[i - 1]);
                    assert(is_digit(decimal((-v) as nat)[i - 1]));
                } else if v >= 0 {
                    assert(is_digit(decimal(v as nat)[i]));
                }
            }
        },
        FieldView::Null => {},
    }
}

/// A record whose frame holds no control character is one line: it holds
/// no line break, whatever its fields are.
pub proof fn lemma_render_printable(frame: Seq<Seq<char>>, fields: Seq<FieldView>, k: nat)
    requires
        k <= fields.len(),
        frame.len() == fields.len() + 1,
        forall|i: int| 0 <= i < frame.len() ==> printable(#[trigger] frame[i]),
    ensures
        printable(render_upto(frame, fields, k)),
    decreases k,
{
    if k == 0 {
        assert(printable(frame[0]));
    } else {
        lemma_render_printable(frame, fields, (k - 1) as nat);
        lemma_field_printable(fields[k - 1]);
        let head = render_upto(frame, fields, (k - 1) as nat);
        let text = fields[k - 1].text();
        let piece = frame[k as int];
        assert(printable(piece));
        let whole = render_upto(frame, fields, k);
        assert forall|i: int| 0 <= i < whole.len() implies !is_control(#[trigger] whole[i]) by {
            if i < head.len() {
                assert(whole[i] == head[i]);
            } else if i < head.len() + text.len() {
                assert(whole[i] == text[i - head.len()]);
            } else {
                assert(whole[i] == piece[i - head.len() - text.len()]);
            }
        }
    }
}

} // verus!
