//! Character-level helpers shared by the wire codec, the result tables, the
//! data sets and the worker command line: the characters of a string,
//! prefixes, the order of a dictionary, and canonical decimal numerals.
use vstd::prelude::*;

verus! {

/// `String::push` appends one character to the end of the string.
pub assume_specification[ String::push ](s: &mut String, c: char)
    ensures
        final(s)@ == old(s)@.push(c),
;

/// The characters of `s`, in order.
pub fn to_chars(s: &str) -> (chars: Vec<char>)
    ensures
        chars@ == s@,
{
    let mut chars: Vec<char> = Vec::new();
    for c in it: s.chars()
        invariant
            chars@ == it.seq().take(it.index() as int),
            it.seq() == s@,
    {
        chars.push(c);
    }
    chars
}

/// Appends the characters of `piece` to `out`.
pub fn push_text(out: &mut String, piece: &str)
    ensures
        final(out)@ == old(out)@ + piece@,
{
    for c in it: piece.chars()
        invariant
            out@ == old(out)@ + it.seq().take(it.index() as int),
            it.seq() == piece@,
    {
        out.push(c);
    }
}

/// `prefix` is an initial segment of `s`.
pub open spec fn is_prefix(prefix: Seq<char>, s: Seq<char>) -> bool {
    prefix.len() <= s.len() && s.subrange(0, prefix.len() as int) == prefix
}

/// Whether `s` begins with `prefix`.
pub fn starts_with(s: &str, prefix: &str) -> (yes: bool)
    ensures
        yes == is_prefix(prefix@, s@),
{
    let text = to_chars(s);
    let head = to_chars(prefix);
    if head.len() > text.len() {
        return false;
    }
    let mut i: usize = 0;
    while i < head.len()
        invariant
            i <= head.len() <= text.len(),
            text@ == s@,
            head@ == prefix@,
            text@.subrange(0, i as int) == head@.subrange(0, i as int),
        decreases head.len() - i,
    {
        if text[i] != head[i] {
            assert(s@.subrange(0, prefix@.len() as int)[i as int] != prefix@[i as int]);
            return false;
        }
        assert(text@.subrange(0, i + 1) == text@.subrange(0, i as int).push(text@[i as int]));
        assert(head@.subrange(0, i + 1) == head@.subrange(0, i as int).push(head@[i as int]));
        i += 1;
    }
    assert(head@.subrange(0, head@.len() as int) == head@);
    true
}

/// Whether `a` and `b` are the same text.
pub fn same_text(a: &str, b: &str) -> (yes: bool)
    ensures
        yes == (a@ == b@),
{
    let left = to_chars(a);
    let right = to_chars(b);
    if left.len() != right.len() {
        return false;
    }
    let mut i: usize = 0;
    while i < left.len()
        invariant
            i <= left.len(),
            left.len() == right.len(),
            left@ == a@,
            right@ == b@,
            forall|j: int| 0 <= j < i ==> left@[j] == right@[j],
        decreases left.len() - i,
    {
        if left[i] != right[i] {
            return false;
        }
        i += 1;
    }
    assert(left@ =~= right@);
    true
}

/// `a` stands before `b` in the order of a dictionary, or is `b`: at the
/// first place where the two differ `a` has the lesser character, or `a`
/// ends there.
pub open spec fn text_le(a: Seq<char>, b: Seq<char>) -> bool
    decreases a.len(),
{
    if a.len() == 0 {
        true
    } else if b.len() == 0 {
        false
    } else if a[0] != b[0] {
        a[0] < b[0]
    } else {
        text_le(a.drop_first(), b.drop_first())
    }
}

/// Of two texts, one stands before the other or they are the same.
pub proof fn lemma_text_le_total(a: Seq<char>, b: Seq<char>)
    ensures
        text_le(a, b) || text_le(b, a),
    decreases a.len(),
{
    if a.len() > 0 && b.len() > 0 && a[0] == b[0] {
        lemma_text_le_total(a.drop_first(), b.drop_first());
    }
}

/// What stands before a text stands before all that the text stands before.
pub proof fn lemma_text_le_transitive(a: Seq<char>, b: Seq<char>, c: Seq<char>)
    requires
        text_le(a, b),
        text_le(b, c),
    ensures
        text_le(a, c),
    decreases a.len(),
{
    if a.len() > 0 && b.len() > 0 && c.len() > 0 && a[0] == b[0] && b[0] == c[0] {
        lemma_text_le_transitive(a.drop_first(), b.drop_first(), c.drop_first());
    }
}

/// Whether `a` stands before `b` in the order of a dictionary, or is `b`.
pub fn in_order(a: &str, b: &str) -> (yes: bool)
    ensures
        yes == text_le(a@, b@),
{
    let left = to_chars(a);
    let right = to_chars(b);
    let mut i: usize = 0;
    assert(left@.skip(0) == left@ && right@.skip(0) == right@);
    while i < left.len()
        invariant
            i <= left.len(),
            i <= right.len(),
            left@ == a@,
            right@ == b@,
            text_le(a@, b@) == text_le(left@.skip(i as int), right@.skip(i as int)),
        decreases left.len() - i,
    {
        if i >= right.len() {
            return false;
        }
        if left[i] != right[i] {
            return left[i] < right[i];
        }
        assert(left@.skip(i as int).drop_first() == left@.skip(i + 1));
        assert(right@.skip(i as int).drop_first() == right@.skip(i + 1));
        i += 1;
    }
    true
}

/// The characters `'0'` to `'9'`.
pub open spec fn is_digit(c: char) -> bool {
    '0' <= c && c <= '9'
}

/// The numeral for a single digit `d` in `0..10`.
pub open spec fn digit_char(d: int) -> char {
    ('0' as u8 + d) as u8 as char
}

/// The number a digit character stands for.
pub open spec fn digit_value(c: char) -> int {
    c as u8 - '0' as u8
}

/// The canonical decimal numeral of `n`: no sign, no leading zero, `"0"` for zero.
pub open spec fn decimal(n: nat) -> Seq<char>
    decreases n,
{
    if n < 10 {
        seq![digit_char(n as int)]
    } else {
        decimal(n / 10).push(digit_char((n % 10) as int))
    }
}

/// A numeral is a non-empty run of digits, and starts with `'0'` only for zero.
pub proof fn lemma_decimal_shape(n: nat)
    ensures
        decimal(n).len() >= 1,
        forall|i: int| 0 <= i < decimal(n).len() ==> is_digit(#[trigger] decimal(n)[i]),
        n < 10 <==> decimal(n).len() == 1,
        n >= 10 ==> decimal(n)[0] != '0',
        n >= 1 ==> decimal(n)[0] != '0',
        decimal(n).last() == digit_char((n % 10) as int),
    decreases n,
{
    if n >= 10 {
        lemma_decimal_shape(n / 10);
    }
}

/// For `m >= 1`, appending a digit to the numeral of `m` gives the numeral of `10 m + d`.
pub proof fn lemma_decimal_push(m: nat, d: nat)
    requires
        m >= 1,
        d < 10,
    ensures
        decimal(m * 10 + d) == decimal(m).push(digit_char(d as int)),
{
    assert((m * 10 + d) / 10 == m);
    assert((m * 10 + d) % 10 == d);
}

/// Different numbers have different numerals.
pub proof fn lemma_decimal_injective(a: nat, b: nat)
    requires
        decimal(a) == decimal(b),
    ensures
        a == b,
    decreases a,
{
    lemma_decimal_shape(a);
    lemma_decimal_shape(b);
    if a >= 10 {
        assert(decimal(a).drop_last() == decimal(a / 10));
        assert(decimal(b).drop_last() == decimal(b / 10));
        lemma_decimal_injective(a / 10, b / 10);
        assert(digit_char((a % 10) as int) == digit_char((b % 10) as int));
    } else {
        assert(decimal(a)[0] == decimal(b)[0]);
    }
}

/// A number whose numeral extends the numeral of `m` by further digits is at
/// least `10 m + d`, where `d` is the first of those digits.
pub proof fn lemma_decimal_extends(n: nat, m: nat, k: int)
    requires
        1 <= k < decimal(n).len(),
        decimal(n).subrange(0, k) == decimal(m),
    ensures
        n >= m * 10 + digit_value(decimal(n)[k]),
    decreases n,
{
    lemma_decimal_shape(n);
    lemma_decimal_shape(n / 10);
    let upper = decimal(n / 10);
    assert(decimal(n) == upper.push(digit_char((n % 10) as int)));
    if k == upper.len() {
        assert(decimal(n).subrange(0, k) == upper);
        lemma_decimal_injective(n / 10, m);
    } else {
        assert(upper.subrange(0, k) == decimal(n).subrange(0, k));
        lemma_decimal_extends(n / 10, m, k);
        assert(upper[k] == decimal(n)[k]);
    }
}

/// Two numerals that start at the same place of a buffer, each followed by
/// the end of the buffer or by a character that is no digit, are the
/// numeral of the same number and end at the same place.
pub proof fn lemma_numeral_unique(buf: Seq<char>, pos: int, a: nat, e1: int, b: nat, e2: int)
    requires
        0 <= pos <= e1 <= buf.len(),
        pos <= e2 <= buf.len(),
        buf.subrange(pos, e1) == decimal(a),
        buf.subrange(pos, e2) == decimal(b),
        e1 == buf.len() || !is_digit(buf[e1]),
        e2 == buf.len() || !is_digit(buf[e2]),
    ensures
        a == b,
        e1 == e2,
{
    lemma_decimal_shape(a);
    lemma_decimal_shape(b);
    if e1 < e2 {
        assert(buf.subrange(pos, e2)[e1 - pos] == buf[e1]);
        assert(is_digit(decimal(b)[e1 - pos]));
    }
    if e2 < e1 {
        assert(buf.subrange(pos, e1)[e2 - pos] == buf[e2]);
        assert(is_digit(decimal(a)[e2 - pos]));
    }
    lemma_decimal_injective(a, b);
}

/// Appends the canonical decimal numeral of `n` to `out`.
pub fn push_decimal(out: &mut String, n: u128)
    ensures
        final(out)@ == old(out)@ + decimal(n as nat),
    decreases n,
{
    if n >= 10 {
        push_decimal(out, n / 10);
    }
    let d: u8 = (n % 10) as u8;
    let unit: u8 = 48 + d;
    out.push(unit as char);
    proof {
        if n >= 10 {
            assert(old(out)@ + decimal(n as nat / 10).push(digit_char(d as int)) == (old(out)@
                + decimal(n as nat / 10)).push(digit_char(d as int)));
        } else {
            assert(old(out)@ + seq![digit_char(d as int)] == old(out)@.push(digit_char(d as int)));
        }
    }
}

/// The canonical decimal numeral of `n`, as a string.
pub fn decimal_string(n: u64) -> (s: String)
    ensures
        s@ == decimal(n as nat),
{
    let mut s = String::new();
    push_decimal(&mut s, n as u128);
    assert(Seq::<char>::empty() + decimal(n as nat) == decimal(n as nat));
    s
}

/// Reads the numeral that starts at `pos` and runs up to the first character
/// that is not a digit.
///
/// `Some((n, end))` when `buf[pos..end]` is that run and is the canonical
/// numeral of `n`. `None` when the run is empty, has a leading zero, or stands
/// for a number above `u128::MAX`: then no numeral of a `u128` starts at `pos`
/// and ends where the digits end.
pub fn scan_decimal(buf: &Vec<char>, pos: usize) -> (r: Option<(u128, usize)>)
    ensures
        match r {
            Some((n, end)) => {
                &&& pos < end <= buf.len()
                &&& buf@.subrange(pos as int, end as int) == decimal(n as nat)
                &&& (end < buf.len() ==> !is_digit(buf@[end as int]))
            },
            None => forall|n: nat, end: int|
                #![trigger buf@.subrange(pos as int, end), decimal(n)]
                pos <= end <= buf.len() && n <= u128::MAX && buf@.subrange(pos as int, end)
                    == decimal(n) ==> end < buf.len() && is_digit(buf@[end]),
        },
{
    if pos > buf.len() {
        return None;
    }
    let mut end: usize = pos;
    while end < buf.len() && '0' <= buf[end] && buf[end] <= '9'
        invariant
            pos <= end <= buf.len(),
            forall|i: int| pos <= i < end ==> is_digit(#[trigger] buf@[i]),
        decreases buf.len() - end,
    {
        end += 1;
    }
    // Whatever numeral starts at `pos` and is not followed by a digit is the whole run.
    assert forall|n: nat, e: int|
        #![trigger buf@.subrange(pos as int, e), decimal(n)]
        pos <= e <= buf.len() && buf@.subrange(pos as int, e) == decimal(n) && !(e < buf.len()
            && is_digit(buf@[e])) implies e == end by {
        lemma_decimal_shape(n);
        if e < end {
            assert(is_digit(buf@[e]));
        } else if e > end {
            assert(buf@.subrange(pos as int, e)[end - pos] == buf@[end as int]);
            assert(is_digit(decimal(n)[end - pos]));
        }
    }
    if end == pos {
        proof {
            assert forall|n: nat, e: int|
                #![trigger buf@.subrange(pos as int, e), decimal(n)]
                pos <= e <= buf.len() && n <= u128::MAX && buf@.subrange(pos as int, e) == decimal(
                    n,
                ) implies e < buf.len() && is_digit(buf@[e]) by {
                lemma_decimal_shape(n);
            }
        }
        return None;
    }
    if buf[pos] == '0' && end - pos > 1 {
        proof {
            assert forall|n: nat, e: int|
                #![trigger buf@.subrange(pos as int, e), decimal(n)]
                pos <= e <= buf.len() && n <= u128::MAX && buf@.subrange(pos as int, e) == decimal(
                    n,
                ) implies e < buf.len() && is_digit(buf@[e]) by {
                lemma_decimal_shape(n);
                if !(e < buf.len() && is_digit(buf@[e])) {
                    assert(e == end);
                    assert(buf@.subrange(pos as int, e)[0] == buf@[pos as int]);
                }
            }
        }
        return None;
    }
    let first: u8 = (buf[pos] as u32 - 48) as u8;
    let mut value: u128 = first as u128;
    let mut i: usize = pos + 1;
    assert(buf@.subrange(pos as int, i as int) == decimal(value as nat)) by {
        assert(buf@.subrange(pos as int, i as int) == seq![buf@[pos as int]]);
        assert(digit_char(first as int) == buf@[pos as int]);
    }
    while i < end
        invariant
            pos < i <= end <= buf.len(),
            forall|j: int| pos <= j < end ==> is_digit(#[trigger] buf@[j]),
            buf@.subrange(pos as int, i as int) == decimal(value as nat),
            i < end ==> value >= 1,
            forall|n: nat, e: int|
                #![trigger buf@.subrange(pos as int, e), decimal(n)]
                pos <= e <= buf.len() && buf@.subrange(pos as int, e) == decimal(n) && !(e
                    < buf.len() && is_digit(buf@[e])) ==> e == end,
        decreases end - i,
    {
        assert(is_digit(buf@[i as int]));
        let d: u8 = (buf[i] as u32 - 48) as u8;
        let grown = match value.checked_mul(10) {
            Some(tens) => tens.checked_add(d as u128),
            None => None,
        };
        match grown {
            Some(next) => {
                proof {
                    lemma_decimal_push(value as nat, d as nat);
                    assert(buf@.subrange(pos as int, i + 1) == buf@.subrange(
                        pos as int,
                        i as int,
                    ).push(buf@[i as int]));
                    assert(digit_char(d as int) == buf@[i as int]);
                }
                value = next;
                i += 1;
            },
            None => {
                proof {
                    assert(value * 10 + d > u128::MAX);
                    assert forall|n: nat, e: int|
                        #![trigger buf@.subrange(pos as int, e), decimal(n)]
                        pos <= e <= buf.len() && n <= u128::MAX && buf@.subrange(pos as int, e)
                            == decimal(n) implies e < buf.len() && is_digit(buf@[e]) by {
                        if !(e < buf.len() && is_digit(buf@[e])) {
                            assert(e == end);
                            let k = i - pos;
                            assert(decimal(n).subrange(0, k) == buf@.subrange(
                                pos as int,
                                i as int,
                            ));
                            lemma_decimal_extends(n, value as nat, k);
                            assert(decimal(n)[k] == buf@[i as int]);
                        }
                    }
                }
                return None;
            },
        }
    }
    Some((value, end))
}

} // verus!
