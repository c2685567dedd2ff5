//! The pieces of which the text of a field is made: lines and the parts of a
//! line, numbers, and surrounding white space, each as a function on bytes.

use vstd::prelude::*;

verus! {

/// A stretch of a text: the bytes from `start` up to, not including, `end`.
#[derive(Clone, Copy, Debug, PartialEq, Eq, Structural)]
pub struct Span {
    pub start: usize,
    pub end: usize,
}

impl Span {
    /// The stretch lies within a text of `len` bytes.
    pub open spec fn within(self, len: nat) -> bool {
        self.start <= self.end <= len
    }

    /// The bytes of `text` that the stretch covers.
    pub open spec fn of(self, text: Seq<u8>) -> Seq<u8> {
        text.subrange(self.start as int, self.end as int)
    }
}

/// The number of bytes of `s` that stand before the first `sep`: all of them
/// where there is none.
pub open spec fn find(s: Seq<u8>, sep: u8) -> nat
    decreases s.len(),
{
    if s.len() == 0 || s[0] == sep {
        0
    } else {
        1 + find(s.drop_first(), sep)
    }
}

/// The parts into which the occurrences of `sep` divide `s`. There is one
/// part more than there are occurrences, so at least one, and a part may be
/// empty.
pub open spec fn split(s: Seq<u8>, sep: u8) -> Seq<Seq<u8>>
    decreases s.len(),
{
    let n = find(s, sep) as int;
    if n >= s.len() {
        seq![s]
    } else {
        seq![s.take(n)] + split(s.skip(n + 1), sep)
    }
}

/// `find` gives the least position of `sep`, and the length where there is none.
pub proof fn lemma_find(s: Seq<u8>, sep: u8)
    ensures
        find(s, sep) <= s.len(),
        forall|i: int| 0 <= i < find(s, sep) ==> s[i] != sep,
        find(s, sep) < s.len() ==> s[find(s, sep) as int] == sep,
    decreases s.len(),
{
    if !(s.len() == 0 || s[0] == sep) {
        let rest = s.drop_first();
        lemma_find(rest, sep);
        assert forall|i: int| 0 <= i < find(s, sep) implies s[i] != sep by {
            if i > 0 {
                assert(rest[i - 1] == s[i]);
            }
        }
    }
}

/// A position before which no `sep` stands, and which holds one or ends the
/// text, is the one that `find` gives.
pub proof fn lemma_find_unique(s: Seq<u8>, sep: u8, n: int)
    requires
        0 <= n <= s.len(),
        forall|i: int| 0 <= i < n ==> s[i] != sep,
        n < s.len() ==> s[n] == sep,
    ensures
        find(s, sep) == n,
{
    lemma_find(s, sep);
    let m = find(s, sep) as int;
    if m < n {
        assert(s[m] == sep);
    }
}

/// The first part is what stands before the first `sep`; the others are the
/// parts of what follows it.
pub proof fn lemma_split_first(s: Seq<u8>, sep: u8)
    ensures
        split(s, sep).len() >= 1,
        split(s, sep)[0] == s.take(find(s, sep) as int),
        find(s, sep) < s.len() ==> split(s, sep).skip(1) == split(
            s.skip(find(s, sep) as int + 1),
            sep,
        ),
        find(s, sep) >= s.len() ==> split(s, sep).len() == 1,
{
    lemma_find(s, sep);
    let n = find(s, sep) as int;
    if n >= s.len() {
        assert(s.take(n) =~= s);
    } else {
        assert(split(s, sep).skip(1) =~= split(s.skip(n + 1), sep));
    }
}

/// The position of the first `sep` in `text` from `from` on, and `to` where
/// none stands before `to`.
pub fn find_byte(text: &[u8], from: usize, to: usize, sep: u8) -> (at: usize)
    requires
        from <= to <= text@.len(),
    ensures
        at == from + find(text@.subrange(from as int, to as int), sep),
        from <= at <= to,
{
    let mut i: usize = from;
    while i < to && text[i] != sep
        invariant
            from <= i <= to <= text@.len(),
            forall|j: int| from <= j < i ==> text@[j] != sep,
        decreases to - i,
    {
        i += 1;
    }
    proof {
        lemma_find_unique(text@.subrange(from as int, to as int), sep, i - from);
    }
    i
}

/// The parts of `text` between the occurrences of `sep`, each as a stretch of `text`.
pub fn split_spans(text: &[u8], sep: u8) -> (parts: Vec<Span>)
    ensures
        parts@.len() == split(text@, sep).len(),
        forall|k: int|
            0 <= k < parts@.len() ==> (#[trigger] parts@[k]).within(text@.len()) && parts@[k].of(
                text@,
            ) == split(text@, sep)[k],
{
    let len = text.len();
    let mut parts: Vec<Span> = Vec::new();
    let mut start: usize = 0;
    let ghost mut done: Seq<Seq<u8>> = Seq::empty();
    proof {
        assert(text@.skip(0) =~= text@);
        assert(done + split(text@, sep) =~= split(text@, sep));
    }
    loop
        invariant_except_break
            split(text@, sep) == done + split(text@.skip(start as int), sep),
        invariant
            len == text@.len(),
            start <= len,
            done.len() == parts@.len(),
            forall|k: int|
                0 <= k < parts@.len() ==> (#[trigger] parts@[k]).within(text@.len())
                    && parts@[k].of(text@) == done[k],
        ensures
            parts@.len() == split(text@, sep).len(),
            forall|k: int|
                0 <= k < parts@.len() ==> (#[trigger] parts@[k]).within(text@.len())
                    && parts@[k].of(text@) == split(text@, sep)[k],
        decreases len - start,
    {
        let end = find_byte(text, start, len, sep);
        let ghost rest = text@.skip(start as int);
        assert(rest =~= text@.subrange(start as int, len as int));
        assert(rest.take(end - start) =~= text@.subrange(start as int, end as int));
        parts.push(Span { start, end });
        if end == len {
            proof {
                assert(rest.take(end - start) =~= rest);
                assert(done + seq![rest] =~= done.push(rest));
                done = done.push(rest);
                assert(split(text@, sep) == done);
            }
            break ;
        }
        proof {
            assert(rest.skip(end - start + 1) =~= text@.skip(end + 1));
            let part = rest.take(end - start);
            let others = split(text@.skip(end + 1), sep);
            assert(done + (seq![part] + others) =~= done.push(part) + others);
            done = done.push(rest.take(end - start));
        }
        start = end + 1;
    }
    parts
}

/// `b` is a decimal digit.
pub open spec fn is_digit(b: u8) -> bool {
    0x30 <= b <= 0x39
}

/// Every byte of `s` is a decimal digit.
pub open spec fn all_digits(s: Seq<u8>) -> bool {
    forall|i: int| 0 <= i < s.len() ==> is_digit(#[trigger] s[i])
}

/// The number that the decimal digits `s` write; leading zeros count for nothing.
pub open spec fn digits_value(s: Seq<u8>) -> nat
    decreases s.len(),
{
    if s.len() == 0 {
        0
    } else {
        10 * digits_value(s.drop_last()) + (s.last() - 0x30) as nat
    }
}

/// The number that `s` writes: one `+` may lead, and at least one decimal
/// digit follows, and nothing else.
pub open spec fn number(s: Seq<u8>) -> Option<nat> {
    let digits = if s.len() > 0 && s[0] == 0x2b {
        s.drop_first()
    } else {
        s
    };
    if digits.len() > 0 && all_digits(digits) {
        Some(digits_value(digits))
    } else {
        None
    }
}

/// The digits read so far never write more than all of them do.
pub proof fn lemma_digits_value_grows(s: Seq<u8>, n: int)
    requires
        all_digits(s),
        0 <= n <= s.len(),
    ensures
        digits_value(s.take(n)) <= digits_value(s),
    decreases s.len(),
{
    if n < s.len() {
        let front = s.drop_last();
        assert(is_digit(s.last()));
        assert(front.take(n) =~= s.take(n));
        lemma_digits_value_grows(front, n);
    } else {
        assert(s.take(n) =~= s);
    }
}

/// Reads the number that the stretch `at` of `text` writes. There is none
/// where the stretch is no number or the number does not fit.
pub fn parse_number(text: &[u8], at: Span) -> (value: Option<usize>)
    requires
        at.within(text@.len()),
    ensures
        value == match number(at.of(text@)) {
            Some(n) if n <= usize::MAX => Some(n as usize),
            _ => None::<usize>,
        },
{
    let ghost whole = at.of(text@);
    let mut i: usize = at.start;
    if i < at.end && text[i] == 0x2b {
        i += 1;
    }
    let first = i;
    let ghost digits = text@.subrange(first as int, at.end as int);
    assert(digits =~= if whole.len() > 0 && whole[0] == 0x2b {
        whole.drop_first()
    } else {
        whole
    });
    if first == at.end {
        return None;
    }
    let mut value: usize = 0;
    while i < at.end
        invariant
            at.start <= first <= i <= at.end <= text@.len(),
            digits == text@.subrange(first as int, at.end as int),
            number(at.of(text@)) == if all_digits(digits) {
                Some(digits_value(digits))
            } else {
                None
            },
            all_digits(digits.take(i - first)),
            value == digits_value(digits.take(i - first)),
        decreases at.end - i,
    {
        let b = text[i];
        let ghost seen = digits.take(i - first + 1);
        proof {
            assert(seen.drop_last() =~= digits.take(i - first));
            assert(seen.last() == b);
        }
        if b < 0x30 || b > 0x39 {
            assert(!is_digit(digits[i - first]));
            return None;
        }
        assert(all_digits(seen)) by {
            assert forall|j: int| 0 <= j < seen.len() implies is_digit(#[trigger] seen[j]) by {
                if j < i - first {
                    assert(seen[j] == digits.take(i - first)[j]);
                }
            }
        }
        let next = match value.checked_mul(10) {
            Some(tens) => tens.checked_add((b - 0x30) as usize),
            None => None,
        };
        match next {
            Some(n) => {
                value = n;
            },
            None => {
                proof {
                    if all_digits(digits) {
                        lemma_digits_value_grows(digits, i - first + 1);
                    }
                }
                return None;
            },
        }
        i += 1;
    }
    assert(digits.take(i - first) =~= digits);
    Some(value)
}

/// `a` alone is a white-space character: U+0009 to U+000D, or U+0020.
pub open spec fn is_space1(a: u8) -> bool {
    0x09 <= a <= 0x0d || a == 0x20
}

/// `a, b` are the UTF-8 form of a white-space character: U+0085 or U+00A0.
pub open spec fn is_space2(a: u8, b: u8) -> bool {
    a == 0xc2 && (b == 0x85 || b == 0xa0)
}

/// `a, b, c` are the UTF-8 form of a white-space character: U+1680,
/// U+2000 to U+200A, U+2028, U+2029, U+202F, U+205F or U+3000.
pub open spec fn is_space3(a: u8, b: u8, c: u8) -> bool {
    ||| a == 0xe1 && b == 0x9a && c == 0x80
    ||| a == 0xe2 && b == 0x80 && (0x80 <= c <= 0x8a || c == 0xa8 || c == 0xa9 || c == 0xaf)
    ||| a == 0xe2 && b == 0x81 && c == 0x9f
    ||| a == 0xe3 && b == 0x80 && c == 0x80
}

/// The number of bytes that a white-space character takes at the start of
/// `s`: 0 where `s` starts with none.
pub open spec fn space_first(s: Seq<u8>) -> nat {
    if s.len() >= 1 && is_space1(s[0]) {
        1
    } else if s.len() >= 2 && is_space2(s[0], s[1]) {
        2
    } else if s.len() >= 3 && is_space3(s[0], s[1], s[2]) {
        3
    } else {
        0
    }
}

/// The number of bytes that a white-space character takes at the end of
/// `s`: 0 where `s` ends with none.
pub open spec fn space_last(s: Seq<u8>) -> nat {
    let n = s.len() as int;
    if n >= 1 && is_space1(s[n - 1]) {
        1
    } else if n >= 2 && is_space2(s[n - 2], s[n - 1]) {
        2
    } else if n >= 3 && is_space3(s[n - 3], s[n - 2], s[n - 1]) {
        3
    } else {
        0
    }
}

/// `s` without the white space that leads it.
pub open spec fn trim_start(s: Seq<u8>) -> Seq<u8>
    decreases s.len(),
{
    let n = space_first(s) as int;
    if n == 0 {
        s
    } else {
        trim_start(s.skip(n))
    }
}

/// `s` without the white space that ends it.
pub open spec fn trim_end(s: Seq<u8>) -> Seq<u8>
    decreases s.len(),
{
    let n = space_last(s) as int;
    if n == 0 {
        s
    } else {
        trim_end(s.take(s.len() - n))
    }
}

/// `s` without the white space around it.
pub open spec fn trim(s: Seq<u8>) -> Seq<u8> {
    trim_end(trim_start(s))
}

fn is_space1_byte(a: u8) -> (yes: bool)
    ensures
        yes == is_space1(a),
{
    (0x09 <= a && a <= 0x0d) || a == 0x20
}

fn is_space2_bytes(a: u8, b: u8) -> (yes: bool)
    ensures
        yes == is_space2(a, b),
{
    a == 0xc2 && (b == 0x85 || b == 0xa0)
}

fn is_space3_bytes(a: u8, b: u8, c: u8) -> (yes: bool)
    ensures
        yes == is_space3(a, b, c),
{
    (a == 0xe1 && b == 0x9a && c == 0x80) || (a == 0xe2 && b == 0x80 && ((0x80 <= c && c <= 0x8a)
        || c == 0xa8 || c == 0xa9 || c == 0xaf)) || (a == 0xe2 && b == 0x81 && c == 0x9f) || (a
        == 0xe3 && b == 0x80 && c == 0x80)
}

/// The number of bytes of the white-space character with which the stretch
/// `at` of `text` starts, 0 where it starts with none.
pub fn leading_space(text: &[u8], at: Span) -> (n: usize)
    requires
        at.within(text@.len()),
    ensures
        n == space_first(at.of(text@)),
        n <= at.end - at.start,
{
    let len = at.end - at.start;
    let i = at.start;
    if len >= 1 && is_space1_byte(text[i]) {
        1
    } else if len >= 2 && is_space2_bytes(text[i], text[i + 1]) {
        2
    } else if len >= 3 && is_space3_bytes(text[i], text[i + 1], text[i + 2]) {
        3
    } else {
        0
    }
}

/// The number of bytes of the white-space character with which the stretch
/// `at` of `text` ends, 0 where it ends with none.
pub fn trailing_space(text: &[u8], at: Span) -> (n: usize)
    requires
        at.within(text@.len()),
    ensures
        n == space_last(at.of(text@)),
        n <= at.end - at.start,
{
    let len = at.end - at.start;
    let i = at.end;
    if len >= 1 && is_space1_byte(text[i - 1]) {
        1
    } else if len >= 2 && is_space2_bytes(text[i - 2], text[i - 1]) {
        2
    } else if len >= 3 && is_space3_bytes(text[i - 3], text[i - 2], text[i - 1]) {
        3
    } else {
        0
    }
}

/// The stretch `at` of `text` without the white space around it.
pub fn trim_span(text: &[u8], at: Span) -> (inner: Span)
    requires
        at.within(text@.len()),
    ensures
        inner.within(text@.len()),
        at.start <= inner.start,
        inner.end <= at.end,
        inner.of(text@) == trim(at.of(text@)),
{
    let mut start = at.start;
    let mut end = at.end;
    loop
        invariant
            at.start <= start <= end <= at.end <= text@.len(),
            end == at.end,
            trim_start(at.of(text@)) == trim_start(text@.subrange(start as int, end as int)),
        ensures
            at.start <= start <= end <= at.end <= text@.len(),
            end == at.end,
            trim_start(at.of(text@)) == text@.subrange(start as int, end as int),
        decreases end - start,
    {
        let n = leading_space(text, Span { start, end });
        if n == 0 {
            break ;
        }
        assert(text@.subrange(start as int, end as int).skip(n as int) =~= text@.subrange(
            start + n,
            end as int,
        ));
        start += n;
    }
    loop
        invariant
            at.start <= start <= end <= at.end <= text@.len(),
            trim(at.of(text@)) == trim_end(text@.subrange(start as int, end as int)),
        ensures
            at.start <= start <= end <= at.end <= text@.len(),
            trim(at.of(text@)) == text@.subrange(start as int, end as int),
        decreases end - start,
    {
        let n = trailing_space(text, Span { start, end });
        if n == 0 {
            break ;
        }
        assert(text@.subrange(start as int, end as int).take(end - start - n) =~= text@.subrange(
            start as int,
            end - n,
        ));
        end -= n;
    }
    Span { start, end }
}

} // verus!
