//! Text at the level of characters: white space, ASCII case, numbers in
//! decimal and hexadecimal, splitting and joining.
//!
//! A string's view is the sequence of its characters, so every contract here
//! speaks of `Seq<char>`.

use vstd::prelude::*;

verus! {

/// `String::push`: the character is added at the end.
pub assume_specification[ String::push ](s: &mut String, c: char)
    ensures
        final(s)@ == old(s)@.push(c),
;

/// The views of a sequence of strings.
pub open spec fn views(v: Seq<String>) -> Seq<Seq<char>> {
    v.map_values(|s: String| s@)
}

/// The view of an optional string.
pub open spec fn opt_view(s: Option<String>) -> Option<Seq<char>> {
    match s {
        Some(s) => Some(s@),
        None => None,
    }
}

/// A character with the Unicode property `White_Space`.
pub open spec fn is_space(c: char) -> bool {
    ||| '\u{9}' <= c <= '\u{d}'
    ||| c == ' '
    ||| c == '\u{85}'
    ||| c == '\u{a0}'
    ||| c == '\u{1680}'
    ||| '\u{2000}' <= c <= '\u{200a}'
    ||| c == '\u{2028}'
    ||| c == '\u{2029}'
    ||| c == '\u{202f}'
    ||| c == '\u{205f}'
    ||| c == '\u{3000}'
}

/// An ASCII punctuation character: a graphic one that is no letter and no digit.
pub open spec fn is_punctuation(c: char) -> bool {
    ||| '!' <= c <= '/'
    ||| ':' <= c <= '@'
    ||| '[' <= c <= '`'
    ||| '{' <= c <= '~'
}

pub open spec fn is_digit(c: char) -> bool {
    '0' <= c <= '9'
}

/// The lower-case form of an ASCII letter; any other character is its own.
pub open spec fn lower(c: char) -> char {
    if 'A' <= c <= 'Z' {
        (c as u32 + 32) as char
    } else {
        c
    }
}

/// The upper-case form of an ASCII letter; any other character is its own.
pub open spec fn upper(c: char) -> char {
    if 'a' <= c <= 'z' {
        (c as u32 - 32) as char
    } else {
        c
    }
}

pub open spec fn lowered(s: Seq<char>) -> Seq<char> {
    s.map_values(|c: char| lower(c))
}

pub open spec fn uppered(s: Seq<char>) -> Seq<char> {
    s.map_values(|c: char| upper(c))
}

/// Two texts that differ at most in the case of ASCII letters.
pub open spec fn same_ignoring_case(a: Seq<char>, b: Seq<char>) -> bool {
    lowered(a) == lowered(b)
}

/// The classes of characters that are trimmed off the ends of a text.
#[derive(Clone, Copy, PartialEq, Eq, Debug, Structural)]
pub enum Class {
    Space,
    Punctuation,
    Slash,
}

impl Class {
    pub open spec fn admits(self, c: char) -> bool {
        match self {
            Class::Space => is_space(c),
            Class::Punctuation => is_punctuation(c),
            Class::Slash => c == '/',
        }
    }

    /// Whether the character belongs to the class.
    pub fn holds(self, c: char) -> (r: bool)
        ensures
            r == self.admits(c),
    {
        match self {
            Class::Space => is_white(c),
            Class::Punctuation => ('!' <= c && c <= '/') || (':' <= c && c <= '@') || ('[' <= c && c
                <= '`') || ('{' <= c && c <= '~'),
            Class::Slash => c == '/',
        }
    }
}

/// Whether a character has the Unicode property `White_Space`.
pub fn is_white(c: char) -> (r: bool)
    ensures
        r == is_space(c),
{
    ('\u{9}' <= c && c <= '\u{d}') || c == ' ' || c == '\u{85}' || c == '\u{a0}' || c == '\u{1680}'
        || ('\u{2000}' <= c && c <= '\u{200a}') || c == '\u{2028}' || c == '\u{2029}' || c
        == '\u{202f}' || c == '\u{205f}' || c == '\u{3000}'
}

/// The text without the leading characters of a class.
pub open spec fn drop_leading(s: Seq<char>, class: Class) -> Seq<char>
    decreases s.len(),
{
    if s.len() > 0 && class.admits(s[0]) {
        drop_leading(s.drop_first(), class)
    } else {
        s
    }
}

/// The text without the trailing characters of a class.
pub open spec fn drop_trailing(s: Seq<char>, class: Class) -> Seq<char>
    decreases s.len(),
{
    if s.len() > 0 && class.admits(s.last()) {
        drop_trailing(s.drop_last(), class)
    } else {
        s
    }
}

/// The text without the characters of a class at either end.
pub open spec fn trimmed_of(s: Seq<char>, class: Class) -> Seq<char> {
    drop_trailing(drop_leading(s, class), class)
}

/// The text without white space at either end.
pub open spec fn trimmed(s: Seq<char>) -> Seq<char> {
    trimmed_of(s, Class::Space)
}

/// How many characters come before the first white space (all of them, where
/// there is none).
pub open spec fn word_len(s: Seq<char>) -> nat
    decreases s.len(),
{
    if s.len() == 0 || is_space(s[0]) {
        0
    } else {
        1 + word_len(s.drop_first())
    }
}

/// The words of a text: its maximal runs of characters that are no white space.
pub open spec fn words(s: Seq<char>) -> Seq<Seq<char>>
    decreases s.len(),
{
    if s.len() == 0 {
        Seq::empty()
    } else if is_space(s[0]) {
        words(s.drop_first())
    } else {
        let n = word_len(s) as int;
        if 0 < n <= s.len() {
            seq![s.take(n)] + words(s.skip(n))
        } else {
            Seq::empty()
        }
    }
}

/// The parts one after another, with `sep` between each two.
pub open spec fn joined(parts: Seq<Seq<char>>, sep: Seq<char>) -> Seq<char>
    decreases parts.len(),
{
    if parts.len() == 0 {
        Seq::empty()
    } else if parts.len() == 1 {
        parts[0]
    } else {
        joined(parts.drop_last(), sep) + sep + parts.last()
    }
}

/// The digit of a number below sixteen, in lower case.
pub open spec fn digit_char(d: nat) -> char {
    if d < 10 {
        (48 + d) as char
    } else {
        (87 + d) as char
    }
}

/// A number in decimal, without leading zeros.
pub open spec fn decimal(n: nat) -> Seq<char>
    decreases n,
{
    if n < 10 {
        seq![digit_char(n)]
    } else {
        decimal(n / 10).push(digit_char(n % 10))
    }
}

/// A number in lower-case hexadecimal, without leading zeros.
pub open spec fn hexadecimal(n: nat) -> Seq<char>
    decreases n,
{
    if n < 16 {
        seq![digit_char(n)]
    } else {
        hexadecimal(n / 16).push(digit_char(n % 16))
    }
}

/// A text filled up with leading zeros to at least `width` characters.
pub open spec fn zero_padded(s: Seq<char>, width: nat) -> Seq<char> {
    if s.len() < width {
        Seq::new((width - s.len()) as nat, |i: int| '0') + s
    } else {
        s
    }
}

/// The number that a run of decimal digits stands for.
pub open spec fn digits_value(s: Seq<char>) -> nat
    decreases s.len(),
{
    if s.len() == 0 {
        0
    } else {
        digits_value(s.drop_last()) * 10 + (s.last() as nat - 48) as nat
    }
}

pub open spec fn all_digits(s: Seq<char>) -> bool {
    forall|i: int| 0 <= i < s.len() ==> is_digit(#[trigger] s[i])
}

/// The number a text stands for: one or more decimal digits, behind at most
/// one plus sign.
pub open spec fn parsed_number(s: Seq<char>) -> Option<nat> {
    let d = if s.len() > 0 && s[0] == '+' {
        s.drop_first()
    } else {
        s
    };
    if d.len() > 0 && all_digits(d) {
        Some(digits_value(d))
    } else {
        None
    }
}

/// The characters of a string.
pub fn chars_of(s: &str) -> (r: Vec<char>)
    ensures
        r@ == s@,
{
    let mut out: Vec<char> = Vec::new();
    for c in it: s.chars()
        invariant
            it.seq() == s@,
            out@ == s@.take(it.index()),
    {
        out.push(c);
    }
    out
}

/// The string of the characters from `from` up to `to`.
pub fn string_of(chars: &Vec<char>, from: usize, to: usize) -> (r: String)
    requires
        from <= to <= chars.len(),
    ensures
        r@ == chars@.subrange(from as int, to as int),
{
    let mut out = String::new();
    let mut i: usize = from;
    while i < to
        invariant
            from <= i <= to <= chars.len(),
            out@ == chars@.subrange(from as int, i as int),
        decreases to - i,
    {
        out.push(chars[i]);
        i += 1;
        assert(chars@.subrange(from as int, i as int) == chars@.subrange(
            from as int,
            i - 1,
        ).push(chars@[i - 1]));
    }
    out
}


/// The text without the characters of a class at its end.
pub fn trim_end_of(s: &str, class: Class) -> (r: String)
    ensures
        r@ == drop_trailing(s@, class),
{
    let chars = chars_of(s);
    let end = trailing_cut(&chars, 0, chars.len(), class);
    assert(s@.subrange(0, s@.len() as int) == s@);
    string_of(&chars, 0, end)
}

/// Where the text from `from` ends once its trailing characters of a class are
/// cut off.
fn trailing_cut(chars: &Vec<char>, from: usize, to: usize, class: Class) -> (end: usize)
    requires
        from <= to <= chars.len(),
    ensures
        from <= end <= to,
        chars@.subrange(from as int, end as int) == drop_trailing(
            chars@.subrange(from as int, to as int),
            class,
        ),
{
    let mut end: usize = to;
    while end > from && class.holds(chars[end - 1])
        invariant
            from <= end <= to <= chars.len(),
            drop_trailing(chars@.subrange(from as int, to as int), class) == drop_trailing(
                chars@.subrange(from as int, end as int),
                class,
            ),
        decreases end,
    {
        assert(chars@.subrange(from as int, end as int).drop_last() == chars@.subrange(
            from as int,
            end - 1,
        ));
        end = end - 1;
    }
    end
}

/// The text without the characters of a class at either end.
pub fn trim_of(s: &str, class: Class) -> (r: String)
    ensures
        r@ == trimmed_of(s@, class),
{
    let chars = chars_of(s);
    let n: usize = chars.len();
    let mut start: usize = 0;
    assert(s@.subrange(0, n as int) == s@);
    while start < n && class.holds(chars[start])
        invariant
            start <= n == chars.len(),
            chars@ == s@,
            drop_leading(s@, class) == drop_leading(s@.subrange(start as int, n as int), class),
        decreases n - start,
    {
        assert(s@.subrange(start as int, n as int).drop_first() == s@.subrange(
            start + 1,
            n as int,
        ));
        start = start + 1;
    }
    let end = trailing_cut(&chars, start, n, class);
    string_of(&chars, start, end)
}

/// The text without white space at either end.
pub fn trim(s: &str) -> (r: String)
    ensures
        r@ == trimmed(s@),
{
    trim_of(s, Class::Space)
}

/// The lower-case form of an ASCII letter.
pub fn lower_char(c: char) -> (r: char)
    ensures
        r == lower(c),
{
    if 'A' <= c && c <= 'Z' {
        (c as u8 + 32) as char
    } else {
        c
    }
}

/// The upper-case form of an ASCII letter.
pub fn upper_char(c: char) -> (r: char)
    ensures
        r == upper(c),
{
    if 'a' <= c && c <= 'z' {
        (c as u8 - 32) as char
    } else {
        c
    }
}

/// The text with its ASCII letters in lower case.
pub fn to_lower(s: &str) -> (r: String)
    ensures
        r@ == lowered(s@),
{
    let mut out = String::new();
    for c in it: s.chars()
        invariant
            it.seq() == s@,
            out@ == lowered(s@.take(it.index())),
    {
        out.push(lower_char(c));
    }
    out
}

/// The text with its ASCII letters in upper case.
pub fn to_upper(s: &str) -> (r: String)
    ensures
        r@ == uppered(s@),
{
    let mut out = String::new();
    for c in it: s.chars()
        invariant
            it.seq() == s@,
            out@ == uppered(s@.take(it.index())),
    {
        out.push(upper_char(c));
    }
    out
}

/// Whether two texts hold the same characters.
pub fn same(a: &str, b: &str) -> (r: bool)
    ensures
        r == (a@ == b@),
{
    let x: String = a.to_owned();
    let y: String = b.to_owned();
    x == y
}

/// Whether two texts differ at most in the case of ASCII letters.
pub fn same_ignore_case(a: &str, b: &str) -> (r: bool)
    ensures
        r == same_ignoring_case(a@, b@),
{
    to_lower(a) == to_lower(b)
}

/// A copy of a list of strings.
pub fn copy_list(v: &Vec<String>) -> (r: Vec<String>)
    ensures
        r@ == v@,
{
    let mut out: Vec<String> = Vec::new();
    let mut i: usize = 0;
    while i < v.len()
        invariant
            i <= v.len(),
            out@ == v@.take(i as int),
        decreases v.len() - i,
    {
        out.push(v[i].clone());
        i += 1;
    }
    out
}

/// The words of a text.
pub fn split_words(s: &str) -> (r: Vec<String>)
    ensures
        views(r@) == words(s@),
{
    let chars = chars_of(s);
    let n: usize = chars.len();
    let mut out: Vec<String> = Vec::new();
    let mut i: usize = 0;
    assert(s@.subrange(0, n as int) == s@);
    while i < n
        invariant
            i <= n == chars.len(),
            chars@ == s@,
            words(s@) == views(out@) + words(s@.subrange(i as int, n as int)),
        decreases n - i,
    {
        let ghost rest = s@.subrange(i as int, n as int);
        if is_white(chars[i]) {
            assert(rest.drop_first() == s@.subrange(i + 1, n as int));
            i += 1;
        } else {
            let start: usize = i;
            while i < n && !is_white(chars[i])
                invariant
                    start <= i <= n == chars.len(),
                    chars@ == s@,
                    rest == s@.subrange(start as int, n as int),
                    word_len(rest) == (i - start) + word_len(s@.subrange(i as int, n as int)),
                decreases n - i,
            {
                assert(s@.subrange(i as int, n as int).drop_first() == s@.subrange(
                    i + 1,
                    n as int,
                ));
                i += 1;
            }
            assert(word_len(s@.subrange(i as int, n as int)) == 0);
            assert(rest.take(i - start) == s@.subrange(start as int, i as int));
            assert(rest.skip(i - start) == s@.subrange(i as int, n as int));
            let ghost before = views(out@);
            let word = string_of(&chars, start, i);
            out.push(word);
            assert(views(out@) == before.push(word@));
            assert(words(rest) == seq![word@] + words(s@.subrange(i as int, n as int)));
            assert(words(s@) == views(out@) + words(s@.subrange(i as int, n as int)));
        }
    }
    assert(words(s@.subrange(n as int, n as int)) == Seq::<Seq<char>>::empty());
    out
}

/// The parts from `from` up to `to`, with `sep` between each two.
pub fn join_range(parts: &Vec<String>, from: usize, to: usize, sep: &str) -> (r: String)
    requires
        from <= to <= parts.len(),
    ensures
        r@ == joined(views(parts@).subrange(from as int, to as int), sep@),
{
    let mut out = String::new();
    let mut i: usize = from;
    let ghost all = views(parts@);
    while i < to
        invariant
            from <= i <= to <= parts.len(),
            all == views(parts@),
            out@ == joined(all.subrange(from as int, i as int), sep@),
        decreases to - i,
    {
        let ghost next = all.subrange(from as int, i + 1);
        assert(next.drop_last() == all.subrange(from as int, i as int));
        if i > from {
            out.append(sep);
        }
        out.append(parts[i].as_str());
        i += 1;
        assert(out@ == joined(next, sep@));
    }
    out
}

/// The parts one after another, with `sep` between each two.
pub fn join(parts: &Vec<String>, sep: &str) -> (r: String)
    ensures
        r@ == joined(views(parts@), sep@),
{
    let r = join_range(parts, 0, parts.len(), sep);
    assert(views(parts@).subrange(0, parts@.len() as int) == views(parts@));
    r
}

fn digit_of(d: u8) -> (r: char)
    requires
        d < 16,
    ensures
        r == digit_char(d as nat),
{
    if d < 10 {
        (48 + d) as char
    } else {
        (87 + d) as char
    }
}

/// Adds a number in decimal at the end of a text.
pub fn push_decimal(out: &mut String, n: u64)
    ensures
        final(out)@ == old(out)@ + decimal(n as nat),
    decreases n,
{
    if n >= 10 {
        push_decimal(out, n / 10);
    }
    out.push(digit_of((n % 10) as u8));
}

/// A number in decimal.
pub fn decimal_of(n: u64) -> (r: String)
    ensures
        r@ == decimal(n as nat),
{
    let mut out = String::new();
    push_decimal(&mut out, n);
    out
}

/// Adds a number in hexadecimal at the end of a text.
pub fn push_hex(out: &mut String, n: u64)
    ensures
        final(out)@ == old(out)@ + hexadecimal(n as nat),
    decreases n,
{
    if n >= 16 {
        push_hex(out, n / 16);
    }
    out.push(digit_of((n % 16) as u8));
}

/// A number in hexadecimal.
pub fn hex_of(n: u64) -> (r: String)
    ensures
        r@ == hexadecimal(n as nat),
{
    let mut out = String::new();
    push_hex(&mut out, n);
    out
}

/// A text filled up with leading zeros.
pub fn pad_zeros(s: &String, width: usize) -> (r: String)
    ensures
        r@ == zero_padded(s@, width as nat),
{
    let len: usize = chars_of(s.as_str()).len();
    let mut out = String::new();
    let mut i: usize = len;
    while i < width
        invariant
            len == s@.len(),
            len <= i,
            i <= width || i == len,
            out@ == Seq::new((i - len) as nat, |k: int| '0'),
        decreases width - i,
    {
        out.push('0');
        i += 1;
    }
    out.append(s.as_str());
    out
}

/// The number that a text of decimal digits stands for, where it fits.
pub fn parse_u64(s: &str) -> (r: Option<u64>)
    ensures
        match parsed_number(s@) {
            Some(n) => if n <= u64::MAX {
                r == Some(n as u64)
            } else {
                r is None
            },
            None => r is None,
        },
{
    let chars = chars_of(s);
    let n: usize = chars.len();
    let start: usize = if n > 0 && chars[0] == '+' {
        1
    } else {
        0
    };
    let ghost d = s@.subrange(start as int, n as int);
    assert(start == 1 ==> d == s@.drop_first());
    assert(start == 0 ==> d == s@);
    if start == n {
        return None;
    }
    let mut i: usize = start;
    let mut value: u64 = 0;
    let mut over: bool = false;
    while i < n
        invariant
            start <= i <= n == chars.len(),
            chars@ == s@,
            d == s@.subrange(start as int, n as int),
            start == 1 ==> s@.len() > 0 && s@[0] == '+' && d == s@.drop_first(),
            start != 1 ==> !(s@.len() > 0 && s@[0] == '+') && d == s@,
            forall|k: int| 0 <= k < i - start ==> is_digit(#[trigger] d[k]),
            !over ==> value == digits_value(d.take(i - start)),
            over ==> digits_value(d.take(i - start)) > u64::MAX,
        decreases n - i,
    {
        let c = chars[i];
        if !('0' <= c && c <= '9') {
            assert(d[i - start] == c && !is_digit(d[i - start]));
            assert(!all_digits(d));
            return None;
        }
        let digit: u64 = (c as u8 - 48) as u64;
        assert(d.take(i - start + 1).drop_last() == d.take(i - start));
        if !over {
            match value.checked_mul(10) {
                Some(tens) => match tens.checked_add(digit) {
                    Some(sum) => {
                        value = sum;
                    },
                    None => {
                        over = true;
                    },
                },
                None => {
                    over = true;
                },
            }
        }
        i += 1;
    }
    assert(d.take(n - start) == d);
    if over {
        None
    } else {
        Some(value)
    }
}

/// Whether a text begins with another.
pub fn has_prefix(s: &str, prefix: &str) -> (r: bool)
    ensures
        r == prefix@.is_prefix_of(s@),
{
    let a = chars_of(s);
    let b = chars_of(prefix);
    if b.len() > a.len() {
        return false;
    }
    let mut i: usize = 0;
    while i < b.len()
        invariant
            i <= b.len() <= a.len(),
            a@ == s@,
            b@ == prefix@,
            forall|k: int| 0 <= k < i ==> a@[k] == b@[k],
        decreases b.len() - i,
    {
        if a[i] != b[i] {
            assert(s@.subrange(0, b@.len() as int)[i as int] != prefix@[i as int]);
            return false;
        }
        i += 1;
    }
    assert(prefix@ == s@.subrange(0, prefix@.len() as int));
    true
}

/// Whether a text ends with another.
pub fn has_suffix(s: &str, suffix: &str) -> (r: bool)
    ensures
        r == suffix@.is_suffix_of(s@),
{
    let a = chars_of(s);
    let b = chars_of(suffix);
    if b.len() > a.len() {
        return false;
    }
    let shift: usize = a.len() - b.len();
    let mut i: usize = 0;
    while i < b.len()
        invariant
            i <= b.len() <= a.len(),
            shift == a.len() - b.len(),
            a@ == s@,
            b@ == suffix@,
            forall|k: int| 0 <= k < i ==> a@[k + shift] == b@[k],
        decreases b.len() - i,
    {
        if a[i + shift] != b[i] {
            assert(s@.subrange(shift as int, s@.len() as int)[i as int] != suffix@[i as int]);
            return false;
        }
        i += 1;
    }
    assert(suffix@ == s@.subrange(shift as int, s@.len() as int));
    true
}

/// The texts one after another.
pub fn concat3(a: &str, b: &str, c: &str) -> (r: String)
    ensures
        r@ == a@ + b@ + c@,
{
    let mut out: String = a.to_owned();
    out.append(b);
    out.append(c);
    out
}


/// Where a character first stands in a text.
pub open spec fn first_of(s: Seq<char>, c: char) -> Option<int>
    decreases s.len(),
{
    if s.len() == 0 {
        None
    } else if s[0] == c {
        Some(0)
    } else {
        match first_of(s.drop_first(), c) {
            Some(i) => Some(i + 1),
            None => None,
        }
    }
}

/// Where a character first stands in some characters, from `from` on.
pub fn find_char(chars: &Vec<char>, from: usize, c: char) -> (r: Option<usize>)
    requires
        from <= chars.len(),
    ensures
        match r {
            Some(i) => from <= i < chars.len() && first_of(chars@.skip(from as int), c) == Some(
                i - from,
            ),
            None => first_of(chars@.skip(from as int), c) is None,
        },
{
    let mut i: usize = from;
    assert(chars@.skip(from as int).skip(0) == chars@.skip(from as int));
    while i < chars.len()
        invariant
            from <= i <= chars.len(),
            first_of(chars@.skip(from as int), c) == (match first_of(chars@.skip(i as int), c) {
                Some(k) => Some(k + (i - from)),
                None => None,
            }),
        decreases chars.len() - i,
    {
        if chars[i] == c {
            return Some(i);
        }
        assert(chars@.skip(i as int).drop_first() == chars@.skip(i + 1));
        i += 1;
    }
    None
}


/// A number in decimal has only digits, at least one.
pub proof fn decimal_is_digits(n: nat)
    ensures
        decimal(n).len() > 0,
        all_digits(decimal(n)),
    decreases n,
{
    if n >= 10 {
        decimal_is_digits(n / 10);
        let d = decimal(n);
        assert forall|i: int| 0 <= i < d.len() implies is_digit(#[trigger] d[i]) by {
            if i < d.len() - 1 {
                assert(decimal(n / 10)[i] == d[i]);
            }
        }
    }
}

/// Different numbers look different in decimal.
pub proof fn decimal_is_injective(a: nat, b: nat)
    requires
        decimal(a) == decimal(b),
    ensures
        a == b,
    decreases a,
{
    decimal_is_digits(a / 10);
    decimal_is_digits(b / 10);
    let da = decimal(a);
    let db = decimal(b);
    assert(a < 10 ==> da.len() == 1 && da[0] == digit_char(a));
    assert(b < 10 ==> db.len() == 1 && db[0] == digit_char(b));
    assert(a >= 10 ==> da == decimal(a / 10).push(digit_char(a % 10)));
    assert(b >= 10 ==> db == decimal(b / 10).push(digit_char(b % 10)));
    if a >= 10 && b >= 10 {
        assert(da.drop_last() == decimal(a / 10));
        assert(db.drop_last() == decimal(b / 10));
        assert(da.last() == digit_char(a % 10));
        assert(db.last() == digit_char(b % 10));
        decimal_is_injective(a / 10, b / 10);
    }
}

/// A decimal number reads back as the number that was written.
pub proof fn decimal_reads_back(n: nat)
    ensures
        digits_value(decimal(n)) == n,
        parsed_number(decimal(n)) == Some(n),
    decreases n,
{
    decimal_is_digits(n);
    if n >= 10 {
        decimal_reads_back(n / 10);
        assert(decimal(n).drop_last() == decimal(n / 10));
    } else {
        assert(decimal(n).drop_last() =~= Seq::<char>::empty());
        assert(digits_value(decimal(n).drop_last()) == 0);
    }
    assert(is_digit(decimal(n)[0]));
}

/// A text in lower case, as Unicode has it.
pub uninterp spec fn lowercase(s: Seq<char>) -> Seq<char>;

/// `str::to_lowercase`: the text in lower case, as the Unicode property
/// `Lowercase` has it. Nothing is said of what that is for a given text.
#[verifier::external_body]
pub(crate) fn lowercase_of(s: &str) -> (r: String)
    ensures
        r@ == lowercase(s@),
{
    s.to_lowercase()
}

/// A text as a literal, in double quotes.
pub uninterp spec fn quoted(s: Seq<char>) -> Seq<char>;

/// Whether nothing of a text has to be escaped in a literal: it is printable
/// ASCII without quotes and backslashes.
pub open spec fn plain_text(s: Seq<char>) -> bool {
    forall|i: int|
        0 <= i < s.len() ==> ' ' <= #[trigger] s[i] && s[i] <= '~' && s[i] != '"' && s[i] != '\''
            && s[i] != '\\'
}

/// `format` with `{:?}`, the `Debug` of `str`: the text in double quotes, as it
/// stands where it is plain. How another text is escaped is left unsaid.
#[verifier::external_body]
pub(crate) fn quoted_of(s: &str) -> (r: String)
    ensures
        r@ == quoted(s@),
        plain_text(s@) ==> r@ == seq!['"'] + s@ + seq!['"'],
{
    format!("{:?}", s)
}

/// Whether a text stands in a list.
pub fn list_has(list: &Vec<String>, s: &str) -> (r: bool)
    ensures
        r == views(list@).contains(s@),
{
    let mut i: usize = 0;
    while i < list.len()
        invariant
            i <= list.len(),
            forall|k: int| 0 <= k < i ==> views(list@)[k] != s@,
        decreases list.len() - i,
    {
        if same(list[i].as_str(), s) {
            assert(views(list@)[i as int] == s@);
            return true;
        }
        i += 1;
    }
    false
}

/// Whether a text stands in another.
pub open spec fn occurs_in(part: Seq<char>, whole: Seq<char>) -> bool {
    exists|i: int|
        0 <= i && i + part.len() <= whole.len() && #[trigger] whole.subrange(i, i + part.len())
            == part
}

/// Whether a text stands in another.
pub fn contains_text(whole: &str, part: &str) -> (r: bool)
    ensures
        r == occurs_in(part@, whole@),
{
    let w = chars_of(whole);
    let p = chars_of(part);
    let n: usize = p.len();
    if n > w.len() {
        return false;
    }
    let mut i: usize = 0;
    while i <= w.len() - n
        invariant
            w@ == whole@,
            p@ == part@,
            n == p.len(),
            n <= w.len(),
            i <= w.len() - n + 1,
            forall|k: int|
                0 <= k < i ==> #[trigger] whole@.subrange(k, k + n) != part@,
        decreases w.len() - n + 1 - i,
    {
        let mut j: usize = 0;
        while j < n && w[i + j] == p[j]
            invariant
                j <= n == p.len(),
                i + n <= w.len(),
                forall|k: int| 0 <= k < j ==> w@[i + k] == p@[k],
            decreases n - j,
        {
            j += 1;
        }
        if j == n {
            assert(whole@.subrange(i as int, i + n) =~= part@);
            return true;
        }
        assert(whole@.subrange(i as int, i + n)[j as int] != part@[j as int]);
        i += 1;
    }
    false
}

/// The decimal digits of a number, behind a minus sign where it is below zero.
pub open spec fn signed_decimal(n: int) -> Seq<char> {
    if n < 0 {
        "-"@ + decimal((-n) as nat)
    } else {
        decimal(n as nat)
    }
}

/// The decimal digits of a number, behind a minus sign where it is below zero.
pub fn signed_of(n: i64) -> (r: String)
    ensures
        r@ == signed_decimal(n as int),
{
    if n < 0 {
        let magnitude: u64 = (-(n + 1)) as u64 + 1;
        let digits = decimal_of(magnitude);
        "-".to_owned().concat(digits.as_str())
    } else {
        decimal_of(n as u64)
    }
}

/// Whether a text comes before another in the order of its characters, or is
/// the other.
pub open spec fn text_le(a: Seq<char>, b: Seq<char>) -> bool
    decreases a.len(),
{
    if a.len() == 0 {
        true
    } else if b.len() == 0 {
        false
    } else if a[0] != b[0] {
        a[0] < b[0]
    } else {
        text_le(a.drop_first(), b.drop_first())
    }
}

/// Whether a text comes before another in the order of its characters, or is
/// the other. The order of the characters is that of the bytes that they are
/// written as.
pub fn text_precedes(a: &str, b: &str) -> (r: bool)
    ensures
        r == text_le(a@, b@),
{
    let x = chars_of(a);
    let y = chars_of(b);
    let mut i: usize = 0;
    assert(x@.skip(0) =~= a@ && y@.skip(0) =~= b@);
    while i < x.len() && i < y.len()
        invariant
            i <= x.len(),
            i <= y.len(),
            x@ == a@,
            y@ == b@,
            text_le(a@, b@) == text_le(a@.skip(i as int), b@.skip(i as int)),
        decreases x.len() - i,
    {
        assert(a@.skip(i as int)[0] == a@[i as int]);
        assert(b@.skip(i as int)[0] == b@[i as int]);
        assert(a@.skip(i as int).drop_first() =~= a@.skip(i + 1));
        assert(b@.skip(i as int).drop_first() =~= b@.skip(i + 1));
        if x[i] != y[i] {
            return x[i] < y[i];
        }
        i += 1;
    }
    i == x.len()
}

/// Of two texts one comes before the other.
pub proof fn text_order_is_total(a: Seq<char>, b: Seq<char>)
    ensures
        text_le(a, b) || text_le(b, a),
        text_le(a, b) && text_le(b, a) ==> a == b,
    decreases a.len(),
{
    if a.len() == 0 {
        if b.len() == 0 {
            assert(a =~= b);
        }
    } else if b.len() > 0 && a[0] == b[0] {
        text_order_is_total(a.drop_first(), b.drop_first());
        if a.drop_first() == b.drop_first() {
            assert(a =~= seq![a[0]] + a.drop_first());
            assert(b =~= seq![b[0]] + b.drop_first());
        }
    }
}

/// The order of texts carries on from one to the next.
pub proof fn text_order_is_transitive(a: Seq<char>, b: Seq<char>, c: Seq<char>)
    requires
        text_le(a, b),
        text_le(b, c),
    ensures
        text_le(a, c),
    decreases a.len(),
{
    if a.len() > 0 && b.len() > 0 && c.len() > 0 && a[0] == b[0] && b[0] == c[0] {
        text_order_is_transitive(a.drop_first(), b.drop_first(), c.drop_first());
    }
}

/// A text that is framed by two others stands in the whole, right behind the
/// first.
pub proof fn a_framed_text_stands_in_the_whole(head: Seq<char>, middle: Seq<char>, tail: Seq<char>)
    ensures
        (head + middle + tail).subrange(head.len() as int, (head.len() + middle.len()) as int)
            == middle,
        occurs_in(middle, head + middle + tail),
{
    let whole = head + middle + tail;
    let at = head.len() as int;
    assert(whole.subrange(at, at + middle.len()) =~= middle);
}

/// What stands in a part of a text stands in the text.
pub proof fn a_part_of_a_part_is_a_part(inner: Seq<char>, outer: Seq<char>, whole: Seq<char>)
    requires
        occurs_in(inner, outer),
        occurs_in(outer, whole),
    ensures
        occurs_in(inner, whole),
{
    let i = choose|i: int|
        0 <= i && i + inner.len() <= outer.len() && #[trigger] outer.subrange(i, i + inner.len())
            == inner;
    let k = choose|k: int|
        0 <= k && k + outer.len() <= whole.len() && #[trigger] whole.subrange(k, k + outer.len())
            == outer;
    assert(whole.subrange(k + i, k + i + inner.len()) =~= outer.subrange(i, i + inner.len())) by {
        assert forall|x: int| 0 <= x < inner.len() implies #[trigger] whole.subrange(
            k + i,
            k + i + inner.len(),
        )[x] == outer.subrange(i, i + inner.len())[x] by {
            assert(whole.subrange(k, k + outer.len())[i + x] == outer[i + x]);
        }
    }
}

/// Joining keeps every part, whole and in its place: the first parts, joined, are
/// how the whole begins, and they end in the last of them.
pub proof fn joining_keeps_every_part(parts: Seq<Seq<char>>, sep: Seq<char>, k: int)
    requires
        0 <= k < parts.len(),
    ensures
        ({
            let begun = joined(parts.take(k + 1), sep);
            let whole = joined(parts, sep);
            &&& parts[k].len() <= begun.len() <= whole.len()
            &&& whole.take(begun.len() as int) == begun
            &&& begun.skip(begun.len() - parts[k].len()) == parts[k]
            &&& k > 0 ==> begun.len() == joined(parts.take(k), sep).len() + sep.len()
                + parts[k].len()
            &&& occurs_in(parts[k], whole)
        }),
    decreases parts.len(),
{
    let whole = joined(parts, sep);
    let begun = joined(parts.take(k + 1), sep);
    if k == parts.len() - 1 {
        assert(parts.take(k + 1) =~= parts);
        assert(whole.take(whole.len() as int) =~= whole);
        if k == 0 {
            assert(whole.skip(0) =~= parts[0]);
        } else {
            assert(parts.take(k) =~= parts.drop_last());
            assert(whole.skip(whole.len() - parts[k].len()) =~= parts[k]);
        }
    } else {
        let fewer = parts.drop_last();
        joining_keeps_every_part(fewer, sep, k);
        assert(fewer.take(k + 1) =~= parts.take(k + 1));
        assert(fewer.take(k) =~= parts.take(k));
        assert(fewer[k] == parts[k]);
        assert(whole.take(begun.len() as int) =~= joined(fewer, sep).take(begun.len() as int));
    }
    let at = begun.len() - parts[k].len();
    assert(whole.subrange(at, at + parts[k].len()) =~= begun.skip(at)) by {
        assert forall|x: int| 0 <= x < parts[k].len() implies #[trigger] whole.subrange(
            at,
            at + parts[k].len(),
        )[x] == begun.skip(at)[x] by {
            assert(whole.take(begun.len() as int)[at + x] == begun[at + x]);
        }
    }
}

proof fn lemma_drop_leading(lead: Seq<char>, rest: Seq<char>, class: Class)
    requires
        forall|i: int| 0 <= i < lead.len() ==> class.admits(#[trigger] lead[i]),
    ensures
        drop_leading(lead + rest, class) == drop_leading(rest, class),
    decreases lead.len(),
{
    if lead.len() == 0 {
        assert(lead + rest =~= rest);
    } else {
        let less = lead.drop_first();
        assert((lead + rest)[0] == lead[0]);
        assert((lead + rest).drop_first() =~= less + rest);
        assert forall|i: int| 0 <= i < less.len() implies class.admits(#[trigger] less[i]) by {
            assert(less[i] == lead[i + 1]);
        }
        lemma_drop_leading(less, rest, class);
    }
}

proof fn lemma_drop_trailing(rest: Seq<char>, trail: Seq<char>, class: Class)
    requires
        forall|i: int| 0 <= i < trail.len() ==> class.admits(#[trigger] trail[i]),
    ensures
        drop_trailing(rest + trail, class) == drop_trailing(rest, class),
    decreases trail.len(),
{
    if trail.len() == 0 {
        assert(rest + trail =~= rest);
    } else {
        let less = trail.drop_last();
        assert((rest + trail).last() == trail.last());
        assert((rest + trail).drop_last() =~= rest + less);
        assert forall|i: int| 0 <= i < less.len() implies class.admits(#[trigger] less[i]) by {
            assert(less[i] == trail[i]);
        }
        lemma_drop_trailing(rest, less, class);
    }
}

/// Trimming takes off all that the class admits at either end, and nothing else.
pub proof fn trimming_leaves_the_core(
    lead: Seq<char>,
    core: Seq<char>,
    trail: Seq<char>,
    class: Class,
)
    requires
        forall|i: int| 0 <= i < lead.len() ==> class.admits(#[trigger] lead[i]),
        forall|i: int| 0 <= i < trail.len() ==> class.admits(#[trigger] trail[i]),
        core.len() > 0 ==> !class.admits(core[0]) && !class.admits(core.last()),
    ensures
        trimmed_of(lead + core + trail, class) == core,
{
    assert(lead + core + trail =~= lead + (core + trail));
    lemma_drop_leading(lead, core + trail, class);
    if core.len() == 0 {
        assert(core + trail =~= trail + core);
        lemma_drop_leading(trail, core, class);
    } else {
        assert((core + trail)[0] == core[0]);
        lemma_drop_trailing(core, trail, class);
    }
}

/// What is left of a text when it is trimmed stands in the text.
pub proof fn what_is_trimmed_stands_in_the_text(s: Seq<char>, class: Class)
    ensures
        occurs_in(trimmed_of(s, class), s),
{
    let led = drop_leading(s, class);
    lemma_leading_is_a_part(s, class);
    lemma_trailing_is_a_part(led, class);
    a_part_of_a_part_is_a_part(trimmed_of(s, class), led, s);
}

proof fn lemma_leading_is_a_part(s: Seq<char>, class: Class)
    ensures
        occurs_in(drop_leading(s, class), s),
    decreases s.len(),
{
    if s.len() > 0 && class.admits(s[0]) {
        let rest = s.drop_first();
        lemma_leading_is_a_part(rest, class);
        assert(s.subrange(1, 1int + rest.len()) =~= rest);
        a_part_of_a_part_is_a_part(drop_leading(s, class), rest, s);
    } else {
        assert(s.subrange(0, 0int + s.len()) =~= s);
    }
}

proof fn lemma_trailing_is_a_part(s: Seq<char>, class: Class)
    ensures
        occurs_in(drop_trailing(s, class), s),
    decreases s.len(),
{
    if s.len() > 0 && class.admits(s.last()) {
        let rest = s.drop_last();
        lemma_trailing_is_a_part(rest, class);
        assert(s.subrange(0, 0int + rest.len()) =~= rest);
        a_part_of_a_part_is_a_part(drop_trailing(s, class), rest, s);
    } else {
        assert(s.subrange(0, 0int + s.len()) =~= s);
    }
}

/// Two texts that differ in case alone have the same length and, at each place,
/// the same character or the two cases of one ASCII letter.
pub proof fn case_is_all_that_is_ignored(a: Seq<char>, b: Seq<char>)
    ensures
        same_ignoring_case(a, b) <==> a.len() == b.len() && forall|i: int|
            0 <= i < a.len() ==> #[trigger] a[i] == b[i] || ('A' <= a[i] <= 'Z' && b[i] as u32
                == a[i] as u32 + 32) || ('A' <= b[i] <= 'Z' && a[i] as u32 == b[i] as u32 + 32),
{
    let la = lowered(a);
    let lb = lowered(b);
    if same_ignoring_case(a, b) {
        assert(la.len() == lb.len());
        assert forall|i: int| 0 <= i < a.len() implies #[trigger] a[i] == b[i] || ('A' <= a[i]
            <= 'Z' && b[i] as u32 == a[i] as u32 + 32) || ('A' <= b[i] <= 'Z' && a[i] as u32
            == b[i] as u32 + 32) by {
            assert(la[i] == lb[i]);
        }
    } else if a.len() == b.len() && forall|i: int|
        0 <= i < a.len() ==> #[trigger] a[i] == b[i] || ('A' <= a[i] <= 'Z' && b[i] as u32
            == a[i] as u32 + 32) || ('A' <= b[i] <= 'Z' && a[i] as u32 == b[i] as u32 + 32) {
        assert forall|i: int| 0 <= i < a.len() implies la[i] == lb[i] by {
            assert(a[i] == a[i]);
        }
        assert(la =~= lb);
    }
}

/// A number in hexadecimal has only digits and the letters from `a` to `f`, at
/// least one.
pub proof fn hexadecimal_is_digits(n: nat)
    ensures
        hexadecimal(n).len() > 0,
        forall|i: int|
            0 <= i < hexadecimal(n).len() ==> is_digit(#[trigger] hexadecimal(n)[i]) || 'a'
                <= hexadecimal(n)[i] <= 'f',
    decreases n,
{
    if n >= 16 {
        hexadecimal_is_digits(n / 16);
        let d = hexadecimal(n);
        assert forall|i: int| 0 <= i < d.len() implies is_digit(#[trigger] d[i]) || 'a' <= d[i]
            <= 'f' by {
            if i < d.len() - 1 {
                assert(hexadecimal(n / 16)[i] == d[i]);
            }
        }
    }
}

/// Different numbers look different in hexadecimal.
pub proof fn hexadecimal_is_injective(a: nat, b: nat)
    requires
        hexadecimal(a) == hexadecimal(b),
    ensures
        a == b,
    decreases a,
{
    hexadecimal_is_digits(a / 16);
    hexadecimal_is_digits(b / 16);
    let da = hexadecimal(a);
    let db = hexadecimal(b);
    assert(a < 16 ==> da.len() == 1 && da[0] == digit_char(a));
    assert(b < 16 ==> db.len() == 1 && db[0] == digit_char(b));
    assert(a >= 16 ==> da == hexadecimal(a / 16).push(digit_char(a % 16)));
    assert(b >= 16 ==> db == hexadecimal(b / 16).push(digit_char(b % 16)));
    if a >= 16 && b >= 16 {
        assert(da.drop_last() == hexadecimal(a / 16));
        assert(db.drop_last() == hexadecimal(b / 16));
        assert(da.last() == digit_char(a % 16));
        assert(db.last() == digit_char(b % 16));
        hexadecimal_is_injective(a / 16, b / 16);
    }
}

proof fn lemma_word_len(word: Seq<char>, rest: Seq<char>)
    requires
        forall|i: int| 0 <= i < word.len() ==> !is_space(#[trigger] word[i]),
        rest.len() > 0 ==> is_space(rest[0]),
    ensures
        word_len(word + rest) == word.len(),
    decreases word.len(),
{
    if word.len() == 0 {
        assert(word + rest =~= rest);
    } else {
        let less = word.drop_first();
        assert((word + rest)[0] == word[0]);
        assert((word + rest).drop_first() =~= less + rest);
        assert forall|i: int| 0 <= i < less.len() implies !is_space(#[trigger] less[i]) by {
            assert(less[i] == word[i + 1]);
        }
        lemma_word_len(less, rest);
    }
}

/// A text is its words: white space in front is passed over, and a run of other
/// characters up to the next white space, or to the end, is a word.
pub proof fn words_are_the_runs_between_spaces(word: Seq<char>, space: char, rest: Seq<char>)
    requires
        word.len() > 0,
        forall|i: int| 0 <= i < word.len() ==> !is_space(#[trigger] word[i]),
        is_space(space),
    ensures
        words(Seq::empty()).len() == 0,
        words(seq![space] + rest) == words(rest),
        words(word) == seq![word],
        words(word + seq![space] + rest) == seq![word] + words(rest),
{
    let spaced = seq![space] + rest;
    assert(spaced.drop_first() =~= rest);
    let whole = word + seq![space] + rest;
    assert(whole =~= word + spaced);
    lemma_word_len(word, spaced);
    assert(whole[0] == word[0]);
    assert(whole.take(word.len() as int) =~= word);
    assert(whole.skip(word.len() as int) =~= spaced);
    lemma_word_len(word, Seq::empty());
    assert(word + Seq::empty() =~= word);
    assert(word.take(word.len() as int) =~= word);
    assert(word.skip(word.len() as int) =~= Seq::<char>::empty());
    assert(words(Seq::<char>::empty()) =~= Seq::<Seq<char>>::empty());
    assert(words(word) =~= seq![word]);
}

/// A number below zero is written as its opposite behind a minus sign, and any other
/// as its digits alone.
pub proof fn a_sign_stands_before_a_negative_number(n: nat)
    ensures
        signed_decimal(n as int) == decimal(n),
        n > 0 ==> signed_decimal(-n) == seq!['-'] + decimal(n),
{
    reveal_strlit("-");
    assert("-"@ =~= seq!['-']);
}

/// Padding brings a text to its width with zeros in front, and leaves what has the
/// width as it is.
pub proof fn padding_adds_zeros_in_front(s: Seq<char>, width: nat)
    ensures
        zero_padded(s, width).len() >= width,
        s.len() >= width ==> zero_padded(s, width) == s,
        s.len() < width ==> zero_padded(s, width).len() == width,
        s.len() < width ==> zero_padded(s, width).skip(width - s.len()) == s,
        forall|i: int|
            0 <= i < width - s.len() ==> #[trigger] zero_padded(s, width)[i] == '0',
{
    if s.len() < width {
        assert(zero_padded(s, width).skip(width - s.len()) =~= s);
    }
}

}
