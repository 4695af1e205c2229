//! Text helpers: characters of a string, decimal numbers.

use vstd::prelude::*;

verus! {

broadcast use vstd::string::group_string_axioms;

/// `String::push` appends one character.
pub assume_specification[ std::string::String::push ](s: &mut String, c: char)
    ensures
        final(s)@ == old(s)@.push(c),
;

/// The characters of each string of `s`.
pub open spec fn texts(s: Seq<String>) -> Seq<Seq<char>> {
    Seq::new(s.len(), |i: int| s[i]@)
}

/// A copy of `v`.
pub fn clone_texts(v: &Vec<String>) -> (r: Vec<String>)
    ensures
        texts(r@) == texts(v@),
{
    let mut r: Vec<String> = Vec::new();
    let mut i: usize = 0;
    while i < v.len()
        invariant
            i <= v.len(),
            r@.len() == i,
            forall|j: int| 0 <= j < i ==> r@[j]@ == v@[j]@,
        decreases v.len() - i,
    {
        r.push(v[i].clone());
        i = i + 1;
    }
    assert(texts(r@) =~= texts(v@));
    r
}

/// The characters of `s`, in order.
pub fn to_chars(s: &str) -> (v: Vec<char>)
    ensures
        v@ == s@,
{
    let mut v: Vec<char> = Vec::new();
    for c in it: s.chars()
        invariant
            it.seq() == s@,
            v@ == it.seq().take(it.index() as int),
    {
        v.push(c);
    }
    v
}

/// `==` on string slices compares their characters.
pub assume_specification[ <str as PartialEq>::eq ](a: &str, b: &str) -> (r: bool)
    ensures
        r == (a@ == b@),
;

/// Whether two strings hold the same characters.
pub fn str_eq(a: &str, b: &str) -> (r: bool)
    ensures
        r == (a@ == b@),
{
    a.eq(b)
}


/// Whether `c` is one of the ten ASCII digits.
pub open spec fn is_digit(c: char) -> bool {
    '0' <= c && c <= '9'
}

/// The number a digit stands for.
pub open spec fn digit_value(c: char) -> int {
    c as int - '0' as int
}

/// Whether every character of `s` is an ASCII digit.
pub open spec fn all_digits(s: Seq<char>) -> bool {
    forall|i: int| 0 <= i < s.len() ==> is_digit(#[trigger] s[i])
}

/// The number written by a run of digits, most significant first.
pub open spec fn digits_value(s: Seq<char>) -> int
    decreases s.len(),
{
    if s.len() == 0 {
        0
    } else {
        digits_value(s.drop_last()) * 10 + digit_value(s.last())
    }
}

/// Whether `s` starts with a sign character.
pub open spec fn has_sign(s: Seq<char>) -> bool {
    s.len() > 0 && (s[0] == '-' || s[0] == '+')
}

/// The digits of a signed decimal numeral: what follows the optional sign.
pub open spec fn numeral_body(s: Seq<char>) -> Seq<char> {
    if has_sign(s) {
        s.drop_first()
    } else {
        s
    }
}

/// The integer that the numeral `s` denotes: an optional `+` or `-`, then
/// one or more ASCII digits and nothing else. `None` for any other text.
pub open spec fn numeral_value(s: Seq<char>) -> Option<int> {
    let body = numeral_body(s);
    if body.len() == 0 || !all_digits(body) {
        None
    } else if s[0] == '-' {
        Some(-digits_value(body))
    } else {
        Some(digits_value(body))
    }
}

/// The 64-bit signed integer that `s` denotes, if it denotes one that fits.
pub open spec fn spec_parse_i64(s: Seq<char>) -> Option<i64> {
    match numeral_value(s) {
        Some(v) => if i64::MIN <= v <= i64::MAX {
            Some(v as i64)
        } else {
            None
        },
        None => None,
    }
}

/// A run of digits never denotes a negative number, and appending digits
/// never makes the number smaller.
pub proof fn lemma_digits_value_grows(s: Seq<char>, n: int)
    requires
        all_digits(s),
        0 <= n <= s.len(),
    ensures
        0 <= digits_value(s.take(n)) <= digits_value(s),
    decreases s.len() - n,
{
    lemma_digits_value_nonneg(s.take(n));
    if n < s.len() {
        lemma_digits_value_grows(s, n + 1);
        let t = s.take(n + 1);
        assert(t.drop_last() == s.take(n));
        assert(t.last() == s[n]);
    } else {
        assert(s.take(n) == s);
    }
}

proof fn lemma_digits_value_nonneg(s: Seq<char>)
    requires
        all_digits(s),
    ensures
        0 <= digits_value(s),
    decreases s.len(),
{
    if s.len() > 0 {
        lemma_digits_value_nonneg(s.drop_last());
    }
}

/// Reads a signed decimal numeral into an `i64`.
pub fn parse_i64(s: &str) -> (r: Option<i64>)
    ensures
        r == spec_parse_i64(s@),
{
    let chars = to_chars(s);
    let n = chars.len();
    if n == 0 {
        return None;
    }
    let negative = chars[0] == '-';
    let start: usize = if chars[0] == '-' || chars[0] == '+' {
        1
    } else {
        0
    };
    if start == n {
        return None;
    }
    let ghost body = numeral_body(s@);
    assert(body == chars@.subrange(start as int, n as int));
    // The magnitude never exceeds 2^63 while the loop runs.
    let limit: u64 = 9223372036854775808;
    let mut acc: u64 = 0;
    let mut i: usize = start;
    while i < n
        invariant
            start <= i <= n,
            n == chars.len(),
            chars@ == s@,
            body == numeral_body(s@),
            body == chars@.subrange(start as int, n as int),
            negative == (s@[0] == '-'),
            all_digits(body.take(i - start)),
            acc as int == digits_value(body.take(i - start)),
            acc <= limit,
            limit == 9223372036854775808,
        decreases n - i,
    {
        let c = chars[i];
        if !('0' <= c && c <= '9') {
            assert(body[i - start] == c);
            return None;
        }
        let d: u64 = (c as u32 - '0' as u32) as u64;
        let ghost next = body.take(i - start + 1);
        proof {
            assert(next.drop_last() == body.take(i - start));
            assert(next.last() == c);
            assert forall|j: int| 0 <= j < next.len() implies is_digit(#[trigger] next[j]) by {
                if j < i - start {
                    assert(body.take(i - start)[j] == next[j]);
                }
            }
            assert(digit_value(c) == d);
            assert(digits_value(next) == acc * 10 + d);
        }
        if acc > 922337203685477580 || acc * 10 + d > limit {
            proof {
                // The prefix already exceeds every 64-bit magnitude; the
                // whole body is either larger still or not a numeral.
                if all_digits(body) {
                    lemma_digits_value_grows(body, i - start + 1);
                }
            }
            return None;
        }
        acc = acc * 10 + d;
        i = i + 1;
    }
    assert(body.take(n - start) == body);
    if negative {
        if acc == limit {
            Some(i64::MIN)
        } else {
            Some(-(acc as i64))
        }
    } else {
        if acc == limit {
            None
        } else {
            Some(acc as i64)
        }
    }
}

/// The character that writes the digit `d`.
pub open spec fn digit_char(d: int) -> char {
    if d == 0 {
        '0'
    } else if d == 1 {
        '1'
    } else if d == 2 {
        '2'
    } else if d == 3 {
        '3'
    } else if d == 4 {
        '4'
    } else if d == 5 {
        '5'
    } else if d == 6 {
        '6'
    } else if d == 7 {
        '7'
    } else if d == 8 {
        '8'
    } else {
        '9'
    }
}

/// The shortest decimal numeral of a natural number.
pub open spec fn nat_decimal(n: nat) -> Seq<char>
    decreases n,
{
    if n < 10 {
        seq![digit_char(n as int)]
    } else {
        nat_decimal(n / 10).push(digit_char((n % 10) as int))
    }
}

/// The digits written so far when `rest` is what remains to be divided.
spec fn leading_digits(rest: nat) -> Seq<char> {
    if rest == 0 {
        Seq::empty()
    } else {
        nat_decimal(rest)
    }
}

proof fn lemma_leading_digits(n: nat)
    ensures
        nat_decimal(n) == leading_digits(n / 10).push(digit_char((n % 10) as int)),
{
    if n < 10 {
        assert(n / 10 == 0);
        assert(nat_decimal(n) =~= Seq::<char>::empty().push(digit_char((n % 10) as int)));
    }
}

/// The decimal numeral of an integer: a `-` before the digits of a
/// negative number, no sign otherwise.
pub open spec fn spec_decimal(n: int) -> Seq<char> {
    if n < 0 {
        seq!['-'] + nat_decimal((-n) as nat)
    } else {
        nat_decimal(n as nat)
    }
}

fn digit_of(d: u64) -> (c: char)
    requires
        d < 10,
    ensures
        c == digit_char(d as int),
{
    if d == 0 {
        '0'
    } else if d == 1 {
        '1'
    } else if d == 2 {
        '2'
    } else if d == 3 {
        '3'
    } else if d == 4 {
        '4'
    } else if d == 5 {
        '5'
    } else if d == 6 {
        '6'
    } else if d == 7 {
        '7'
    } else if d == 8 {
        '8'
    } else {
        '9'
    }
}

/// Writes `n` as a decimal numeral.
pub fn decimal(n: i64) -> (s: String)
    ensures
        s@ == spec_decimal(n as int),
{
    let magnitude: u64 = if n < 0 {
        ((-(n + 1)) as u64) + 1
    } else {
        n as u64
    };
    // Digits, least significant first.
    let mut reversed: Vec<char> = Vec::new();
    let mut rest: u64 = magnitude;
    reversed.push(digit_of(rest % 10));
    proof {
        lemma_leading_digits(rest as nat);
        assert(reversed@.reverse() == seq![digit_char((rest % 10) as int)]);
    }
    rest = rest / 10;
    while rest > 0
        invariant
            reversed@.len() > 0,
            nat_decimal(magnitude as nat) == leading_digits(rest as nat) + reversed@.reverse(),
        decreases rest,
    {
        let ghost before = reversed@;
        reversed.push(digit_of(rest % 10));
        proof {
            let d = digit_char((rest % 10) as int);
            lemma_leading_digits(rest as nat);
            assert(reversed@.reverse() == seq![d] + before.reverse());
            assert(leading_digits((rest / 10) as nat).push(d) + before.reverse()
                == leading_digits((rest / 10) as nat) + (seq![d] + before.reverse()));
        }
        rest = rest / 10;
    }
    let mut s = String::new();
    if n < 0 {
        s.push('-');
    }
    let ghost head = s@;
    let mut i: usize = reversed.len();
    while i > 0
        invariant
            i <= reversed.len(),
            s@ == head + reversed@.reverse().take(reversed.len() - i),
        decreases i,
    {
        i = i - 1;
        s.push(reversed[i]);
        proof {
            let r = reversed@.reverse();
            let k = reversed.len() - 1 - i;
            assert(r.take(k + 1) == r.take(k).push(r[k]));
            assert(r[k] == reversed@[i as int]);
        }
    }
    proof {
        let r = reversed@.reverse();
        assert(r.take(reversed.len() as int) == r);
        assert(nat_decimal(magnitude as nat) == r);
    }
    s
}


/// Whether `c` is white space, as `char::is_whitespace` has it: one of the
/// code points with the Unicode property `White_Space`.
pub open spec fn is_space(c: char) -> bool {
    ||| ('\u{9}' <= c && c <= '\u{d}')
    ||| c == ' '
    ||| c == '\u{85}'
    ||| c == '\u{a0}'
    ||| c == '\u{1680}'
    ||| ('\u{2000}' <= c && c <= '\u{200a}')
    ||| c == '\u{2028}'
    ||| c == '\u{2029}'
    ||| c == '\u{202f}'
    ||| c == '\u{205f}'
    ||| c == '\u{3000}'
}

/// Whether `c` is ASCII white space, as `char::is_ascii_whitespace` has
/// it: space, tab, line feed, form feed or carriage return.
pub open spec fn is_ascii_space(c: char) -> bool {
    c == ' ' || c == '\u{9}' || c == '\u{a}' || c == '\u{c}' || c == '\u{d}'
}

/// Whether `c` is white space.
pub fn char_is_space(c: char) -> (b: bool)
    ensures
        b == is_space(c),
{
    ('\u{9}' <= c && c <= '\u{d}') || c == ' ' || c == '\u{85}' || c == '\u{a0}' || c
        == '\u{1680}' || ('\u{2000}' <= c && c <= '\u{200a}') || c == '\u{2028}' || c
        == '\u{2029}' || c == '\u{202f}' || c == '\u{205f}' || c == '\u{3000}'
}

/// Whether `c` is ASCII white space.
pub fn char_is_ascii_space(c: char) -> (b: bool)
    ensures
        b == is_ascii_space(c),
{
    c == ' ' || c == '\u{9}' || c == '\u{a}' || c == '\u{c}' || c == '\u{d}'
}

/// What to strip from the ends of a text.
#[derive(Debug, Clone, Copy, PartialEq, Eq, Structural)]
pub enum Strip {
    /// White space.
    Space,
    /// Every occurrence of one character.
    Char(char),
}

/// Whether `c` is among what `kind` strips.
pub open spec fn strips(kind: Strip, c: char) -> bool {
    match kind {
        Strip::Space => is_space(c),
        Strip::Char(x) => c == x,
    }
}

/// Whether `c` is among what `kind` strips.
pub fn is_stripped(kind: Strip, c: char) -> (b: bool)
    ensures
        b == strips(kind, c),
{
    match kind {
        Strip::Space => char_is_space(c),
        Strip::Char(x) => c == x,
    }
}

/// `s` without what `kind` strips at its start.
pub open spec fn strip_start(s: Seq<char>, kind: Strip) -> Seq<char>
    decreases s.len(),
{
    if s.len() > 0 && strips(kind, s[0]) {
        strip_start(s.drop_first(), kind)
    } else {
        s
    }
}

/// `s` without what `kind` strips at its end.
pub open spec fn strip_end(s: Seq<char>, kind: Strip) -> Seq<char>
    decreases s.len(),
{
    if s.len() > 0 && strips(kind, s.last()) {
        strip_end(s.drop_last(), kind)
    } else {
        s
    }
}

/// `s` without what `kind` strips at both ends.
pub open spec fn stripped(s: Seq<char>, kind: Strip) -> Seq<char> {
    strip_end(strip_start(s, kind), kind)
}

/// `s` without the white space around it.
pub open spec fn trimmed(s: Seq<char>) -> Seq<char> {
    stripped(s, Strip::Space)
}

/// The characters of `chars` from `from` up to `to`, as a string.
pub fn slice_string(chars: &Vec<char>, from: usize, to: usize) -> (s: String)
    requires
        from <= to <= chars.len(),
    ensures
        s@ == chars@.subrange(from as int, to as int),
{
    let mut s = String::new();
    let mut i: usize = from;
    while i < to
        invariant
            from <= i <= to <= chars.len(),
            s@ == chars@.subrange(from as int, i as int),
        decreases to - i,
    {
        s.push(chars[i]);
        assert(chars@.subrange(from as int, i + 1) == chars@.subrange(from as int, i as int).push(
            chars@[i as int],
        ));
        i = i + 1;
    }
    s
}

/// Removes what `kind` strips from both ends of `s`.
pub fn strip(s: &str, kind: Strip) -> (t: String)
    ensures
        t@ == stripped(s@, kind),
{
    let chars = to_chars(s);
    let n = chars.len();
    let mut from: usize = 0;
    assert(chars@.skip(0) == chars@);
    while from < n && is_stripped(kind, chars[from])
        invariant
            from <= n,
            n == chars.len(),
            strip_start(chars@, kind) == strip_start(chars@.skip(from as int), kind),
        decreases n - from,
    {
        assert(chars@.skip(from as int).drop_first() == chars@.skip(from + 1));
        from = from + 1;
    }
    assert(strip_start(chars@, kind) == chars@.skip(from as int));
    let ghost rest = chars@.skip(from as int);
    let mut to: usize = n;
    assert(rest.take(n - from) == rest);
    while to > from && is_stripped(kind, chars[to - 1])
        invariant
            from <= to <= n,
            n == chars.len(),
            rest == chars@.skip(from as int),
            strip_end(rest, kind) == strip_end(rest.take(to - from), kind),
        decreases to,
    {
        assert(rest.take(to - from).drop_last() == rest.take(to - from - 1));
        assert(rest.take(to - from).last() == chars@[to - 1]);
        to = to - 1;
    }
    proof {
        let kept = rest.take(to - from);
        if kept.len() > 0 {
            assert(kept.last() == chars@[to - 1]);
        }
        assert(strip_end(rest, kind) == kept);
        assert(kept == chars@.subrange(from as int, to as int));
    }
    slice_string(&chars, from, to)
}

/// Removes the white space around `s`.
pub fn trim(s: &str) -> (t: String)
    ensures
        t@ == trimmed(s@),
{
    strip(s, Strip::Space)
}

/// Whether `i` is the position of the first `c` in `s`.
pub open spec fn is_first_char(s: Seq<char>, c: char, i: int) -> bool {
    &&& 0 <= i < s.len()
    &&& s[i] == c
    &&& forall|j: int| 0 <= j < i ==> s[j] != c
}

/// The position of the first `c` in `s`, if `c` occurs.
pub open spec fn first_char(s: Seq<char>, c: char) -> Option<int> {
    if exists|i: int| is_first_char(s, c, i) {
        Some(choose|i: int| is_first_char(s, c, i))
    } else {
        None
    }
}

/// The position of the first `c` in `chars` at or after `from`.
fn find_char(chars: &Vec<char>, c: char, from: usize) -> (r: Option<usize>)
    requires
        from <= chars.len(),
    ensures
        match r {
            Some(i) => from <= i < chars.len() && first_char(chars@.skip(from as int), c) == Some(
                i - from,
            ),
            None => first_char(chars@.skip(from as int), c) is None,
        },
{
    let ghost rest = chars@.skip(from as int);
    let mut i: usize = from;
    while i < chars.len()
        invariant
            from <= i <= chars.len(),
            rest == chars@.skip(from as int),
            forall|j: int| 0 <= j < i - from ==> rest[j] != c,
        decreases chars.len() - i,
    {
        if chars[i] == c {
            proof {
                assert(is_first_char(rest, c, i - from));
                let k = choose|k: int| is_first_char(rest, c, k);
                assert(k == i - from) by {
                    if k < i - from {
                        assert(rest[k] != c);
                    }
                }
            }
            return Some(i);
        }
        i = i + 1;
    }
    proof {
        assert forall|k: int| !is_first_char(rest, c, k) by {
            if is_first_char(rest, c, k) {
                assert(rest[k] != c);
            }
        }
    }
    None
}

/// `s` split at its first `c`: what comes before and what comes after.
pub open spec fn spec_split_once(s: Seq<char>, c: char) -> Option<(Seq<char>, Seq<char>)> {
    match first_char(s, c) {
        Some(i) => Some((s.take(i), s.skip(i + 1))),
        None => None,
    }
}

/// Splits `s` at its first `c`.
pub fn split_once(s: &str, c: char) -> (r: Option<(String, String)>)
    ensures
        match r {
            Some(pair) => spec_split_once(s@, c) == Some((pair.0@, pair.1@)),
            None => spec_split_once(s@, c) is None,
        },
{
    let chars = to_chars(s);
    assert(chars@.skip(0) == chars@);
    match find_char(&chars, c, 0) {
        Some(i) => {
            let before = slice_string(&chars, 0, i);
            let after = slice_string(&chars, i + 1, chars.len());
            assert(chars@.take(i as int) == chars@.subrange(0, i as int));
            assert(chars@.skip(i + 1) == chars@.subrange(i + 1, chars.len() as int));
            Some((before, after))
        },
        None => None,
    }
}

/// The pieces of `s` between the occurrences of `c`.
pub open spec fn spec_split(s: Seq<char>, c: char) -> Seq<Seq<char>>
    decreases s.len(),
{
    match first_char(s, c) {
        Some(i) => if 0 <= i < s.len() {
            seq![s.take(i)] + spec_split(s.skip(i + 1), c)
        } else {
            seq![s]
        },
        None => seq![s],
    }
}

/// Splits `s` at every `c`.
pub fn split(s: &str, c: char) -> (out: Vec<String>)
    ensures
        texts(out@) == spec_split(s@, c),
{
    let chars = to_chars(s);
    let n = chars.len();
    let mut out: Vec<String> = Vec::new();
    let mut from: usize = 0;
    assert(chars@.skip(0) == chars@);
    assert(texts(out@) =~= Seq::<Seq<char>>::empty());
    loop
        invariant
            from <= n,
            n == chars.len(),
            chars@ == s@,
            spec_split(s@, c) == texts(out@) + spec_split(chars@.skip(from as int), c),
        decreases n - from,
    {
        let ghost rest = chars@.skip(from as int);
        let ghost before = texts(out@);
        match find_char(&chars, c, from) {
            Some(i) => {
                let piece = slice_string(&chars, from, i);
                out.push(piece);
                proof {
                    assert(rest.take(i - from) == chars@.subrange(from as int, i as int));
                    assert(rest.skip(i - from + 1) == chars@.skip(i + 1));
                    assert(texts(out@) =~= before.push(piece@));
                    assert(before + (seq![piece@] + spec_split(chars@.skip(i + 1), c))
                        =~= before.push(piece@) + spec_split(chars@.skip(i + 1), c));
                }
                from = i + 1;
            },
            None => {
                let piece = slice_string(&chars, from, n);
                out.push(piece);
                proof {
                    assert(rest == chars@.subrange(from as int, n as int));
                    assert(texts(out@) =~= before.push(piece@));
                    assert(before + seq![piece@] =~= before.push(piece@));
                }
                return out;
            },
        }
    }
}

/// `s` with every `from` replaced by `to`.
pub open spec fn spec_replace(s: Seq<char>, from: char, to: char) -> Seq<char> {
    Seq::new(s.len(), |i: int| if s[i] == from { to } else { s[i] })
}

/// Replaces every `from` in `s` by `to`.
pub fn replace(s: &str, from: char, to: char) -> (t: String)
    ensures
        t@ == spec_replace(s@, from, to),
{
    let chars = to_chars(s);
    let mut t = String::new();
    let mut i: usize = 0;
    while i < chars.len()
        invariant
            i <= chars.len(),
            chars@ == s@,
            t@ == spec_replace(s@, from, to).take(i as int),
        decreases chars.len() - i,
    {
        let c = if chars[i] == from { to } else { chars[i] };
        t.push(c);
        assert(spec_replace(s@, from, to).take(i + 1) =~= spec_replace(s@, from, to).take(
            i as int,
        ).push(c));
        i = i + 1;
    }
    assert(spec_replace(s@, from, to).take(chars.len() as int) =~= spec_replace(s@, from, to));
    t
}

/// Whether `s` starts with `prefix`.
pub open spec fn spec_starts_with(s: Seq<char>, prefix: Seq<char>) -> bool {
    prefix.len() <= s.len() && s.take(prefix.len() as int) == prefix
}

/// Whether `s` starts with `prefix`.
pub fn starts_with(s: &str, prefix: &str) -> (b: bool)
    ensures
        b == spec_starts_with(s@, prefix@),
{
    let a = to_chars(s);
    let p = to_chars(prefix);
    if p.len() > a.len() {
        return false;
    }
    let mut i: usize = 0;
    while i < p.len()
        invariant
            i <= p.len() <= a.len(),
            a@ == s@,
            p@ == prefix@,
            forall|j: int| 0 <= j < i ==> a@[j] == p@[j],
        decreases p.len() - i,
    {
        if a[i] != p[i] {
            assert(a@.take(p.len() as int)[i as int] != p@[i as int]);
            return false;
        }
        i = i + 1;
    }
    assert(a@.take(p.len() as int) =~= p@);
    true
}


/// How many characters of `s` come before its first ASCII white space.
pub open spec fn word_len(s: Seq<char>) -> nat
    decreases s.len(),
{
    if s.len() == 0 || is_ascii_space(s[0]) {
        0
    } else {
        1 + word_len(s.drop_first())
    }
}

/// `s` without the ASCII white space it starts with.
pub open spec fn skip_spaces(s: Seq<char>) -> Seq<char>
    decreases s.len(),
{
    if s.len() > 0 && is_ascii_space(s[0]) {
        skip_spaces(s.drop_first())
    } else {
        s
    }
}

/// The words of `s`: its longest runs of characters that are not ASCII
/// white space, in order.
pub open spec fn words(s: Seq<char>) -> Seq<Seq<char>>
    decreases s.len(),
{
    let t = skip_spaces(s);
    if t.len() == 0 {
        Seq::empty()
    } else {
        proof {
            lemma_skip_spaces(s);
            lemma_word_len(t);
        }
        seq![t.take(word_len(t) as int)] + words(t.skip(word_len(t) as int))
    }
}

/// A word is no longer than the text it starts, and is not empty where the
/// text starts with something other than white space.
pub proof fn lemma_word_len(s: Seq<char>)
    ensures
        word_len(s) <= s.len(),
        s.len() > 0 && !is_ascii_space(s[0]) ==> word_len(s) > 0,
    decreases s.len(),
{
    if s.len() > 0 && !is_ascii_space(s[0]) {
        lemma_word_len(s.drop_first());
    }
}

/// Skipping white space leaves a suffix that does not start with any.
pub proof fn lemma_skip_spaces(s: Seq<char>)
    ensures
        skip_spaces(s).len() <= s.len(),
        skip_spaces(s).len() > 0 ==> !is_ascii_space(skip_spaces(s)[0]),
    decreases s.len(),
{
    if s.len() > 0 && is_ascii_space(s[0]) {
        lemma_skip_spaces(s.drop_first());
    }
}

/// Splits `s` into its words.
pub fn split_words(s: &str) -> (out: Vec<String>)
    ensures
        texts(out@) == words(s@),
{
    let chars = to_chars(s);
    let n = chars.len();
    let mut out: Vec<String> = Vec::new();
    let mut i: usize = 0;
    assert(chars@.skip(0) == chars@);
    assert(texts(out@) =~= Seq::<Seq<char>>::empty());
    loop
        invariant
            i <= n,
            n == chars.len(),
            chars@ == s@,
            words(s@) == texts(out@) + words(chars@.skip(i as int)),
        decreases n - i,
    {
        // Skip the white space before the next word.
        let ghost rest = chars@.skip(i as int);
        let ghost entry = i;
        while i < n && char_is_ascii_space(chars[i])
            invariant
                entry <= i <= n,
                n == chars.len(),
                skip_spaces(rest) == skip_spaces(chars@.skip(i as int)),
            decreases n - i,
        {
            assert(chars@.skip(i as int).drop_first() == chars@.skip(i + 1));
            i = i + 1;
        }
        let ghost t = chars@.skip(i as int);
        assert(skip_spaces(rest) == t);
        if i == n {
            assert(words(rest) == Seq::<Seq<char>>::empty());
            assert(texts(out@) + Seq::<Seq<char>>::empty() == texts(out@));
            return out;
        }
        let from = i;
        while i < n && !char_is_ascii_space(chars[i])
            invariant
                from <= i <= n,
                n == chars.len(),
                t == chars@.skip(from as int),
                word_len(t) == (i - from) + word_len(chars@.skip(i as int)),
            decreases n - i,
        {
            assert(chars@.skip(i as int).drop_first() == chars@.skip(i + 1));
            i = i + 1;
        }
        proof {
            assert(word_len(t) == i - from);
            assert(t.take((i - from) as int) == chars@.subrange(from as int, i as int));
            assert(t.skip((i - from) as int) == chars@.skip(i as int));
            assert(i > from);
        }
        let word = slice_string(&chars, from, i);
        let ghost before = texts(out@);
        out.push(word);
        proof {
            assert(texts(out@) =~= before.push(word@));
            assert(words(rest) == seq![word@] + words(chars@.skip(i as int)));
            assert(before + (seq![word@] + words(chars@.skip(i as int))) =~= before.push(word@)
                + words(chars@.skip(i as int)));
        }
    }
}


/// The numeral of a natural number is made of digits, at least one, and
/// denotes that number.
pub proof fn lemma_nat_decimal(n: nat)
    ensures
        nat_decimal(n).len() >= 1,
        all_digits(nat_decimal(n)),
        digits_value(nat_decimal(n)) == n,
    decreases n,
{
    if n < 10 {
        let s = nat_decimal(n);
        assert(s.drop_last() =~= Seq::<char>::empty());
        assert(digits_value(s.drop_last()) == 0);
        assert(digit_value(s.last()) == n);
    } else {
        lemma_nat_decimal(n / 10);
        let head = nat_decimal(n / 10);
        let d = digit_char((n % 10) as int);
        let s = head.push(d);
        assert(s.drop_last() =~= head);
        assert(s.last() == d);
        assert(digit_value(d) == n % 10);
        assert forall|i: int| 0 <= i < s.len() implies is_digit(#[trigger] s[i]) by {
            if i < head.len() {
                assert(s[i] == head[i]);
            }
        }
    }
}

/// Reading back what was written gives the number that was written.
pub proof fn law_decimal_reads_back(n: i64)
    ensures
        spec_parse_i64(spec_decimal(n as int)) == Some(n),
{
    let s = spec_decimal(n as int);
    if n < 0 {
        let digits = nat_decimal((-n) as nat);
        lemma_nat_decimal((-n) as nat);
        assert(s[0] == '-');
        assert(s.drop_first() =~= digits);
        assert(numeral_body(s) == digits);
    } else {
        lemma_nat_decimal(n as nat);
        assert(is_digit(s[0]));
        assert(!has_sign(s));
        assert(numeral_body(s) == s);
    }
}

} // verus!
