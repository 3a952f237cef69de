use vstd::prelude::*;

verus! {

broadcast use vstd::string::group_string_axioms;

/// The characters of `text`, in order.
pub fn chars_of(text: &str) -> (chars: Vec<char>)
    ensures
        chars@ == text@,
{
    let mut chars: Vec<char> = Vec::new();
    for c in iter: text.chars()
        invariant
            iter.seq() == text@,
            chars@ == iter.seq().take(iter.index() as int),
    {
        chars.push(c);
    }
    chars
}

/// Collects characters into a `String` through std's `FromIterator<char>`
/// for `String`, which std documents as appending each character in order.
#[verifier::external_body]
pub fn string_from_chars(chars: &Vec<char>) -> (text: String)
    ensures
        text@ == chars@,
{
    chars.iter().collect()
}

/// Converts a Unicode scalar value to a `char` through std's `char::from_u32`,
/// which std documents as `Some` exactly for values up to 0x10FFFF outside
/// the surrogate range 0xD800..=0xDFFF.
#[verifier::external_body]
pub fn char_from_scalar(value: u32) -> (c: Option<char>)
    ensures
        c == (if value <= 0xD7FF || (0xE000 <= value && value <= 0x10FFFF) {
            Some(value as char)
        } else {
            None::<char>
        }),
{
    char::from_u32(value)
}

/// The Unicode `White_Space` property, which std's `char::is_whitespace` tests.
pub open spec fn is_white_space(c: char) -> bool {
    let v = c as u32;
    ||| 0x9 <= v <= 0xD
    ||| v == 0x20
    ||| v == 0x85
    ||| v == 0xA0
    ||| v == 0x1680
    ||| 0x2000 <= v <= 0x200A
    ||| v == 0x2028
    ||| v == 0x2029
    ||| v == 0x202F
    ||| v == 0x205F
    ||| v == 0x3000
}

/// Whether `c` is Unicode white space.
pub fn white_space(c: char) -> (result: bool)
    ensures
        result == is_white_space(c),
{
    let v = c as u32;
    (0x9 <= v && v <= 0xD) || v == 0x20 || v == 0x85 || v == 0xA0 || v == 0x1680 || (0x2000 <= v
        && v <= 0x200A) || v == 0x2028 || v == 0x2029 || v == 0x202F || v == 0x205F || v == 0x3000
}

/// `c` with ASCII upper case letters taken to lower case.
pub open spec fn ascii_lower(c: char) -> char {
    if 'A' <= c <= 'Z' {
        ((c as u32) + 32) as char
    } else {
        c
    }
}

/// `text` with every ASCII upper case letter taken to lower case.
pub open spec fn ascii_lowered(text: Seq<char>) -> Seq<char> {
    Seq::new(text.len(), |i: int| ascii_lower(text[i]))
}

/// `text` with every ASCII upper case letter taken to lower case.
pub fn ascii_lowercase(text: &Vec<char>) -> (lowered: Vec<char>)
    ensures
        lowered@ == ascii_lowered(text@),
{
    let mut lowered: Vec<char> = Vec::new();
    let mut i: usize = 0;
    while i < text.len()
        invariant
            i <= text@.len(),
            lowered@ == ascii_lowered(text@).take(i as int),
        decreases text@.len() - i,
    {
        let c = text[i];
        let code = c as u32;
        let lower = if 65 <= code && code <= 90 {
            match char_from_scalar(code + 32) {
                Some(l) => l,
                None => c,
            }
        } else {
            c
        };
        proof {
            vstd::utf8::char_u32_cast(c, code);
        }
        lowered.push(lower);
        proof {
            assert(lowered@ =~= ascii_lowered(text@).take(i + 1));
        }
        i = i + 1;
    }
    proof {
        assert(lowered@ =~= ascii_lowered(text@));
    }
    lowered
}

/// `text` without its leading white space.
pub open spec fn trim_start(text: Seq<char>) -> Seq<char>
    decreases text.len(),
{
    if text.len() > 0 && is_white_space(text[0]) {
        trim_start(text.drop_first())
    } else {
        text
    }
}

/// `text` without its trailing white space.
pub open spec fn trim_end(text: Seq<char>) -> Seq<char>
    decreases text.len(),
{
    if text.len() > 0 && is_white_space(text.last()) {
        trim_end(text.drop_last())
    } else {
        text
    }
}

/// `text` without its leading and trailing white space, as std's `str::trim`.
pub open spec fn trimmed(text: Seq<char>) -> Seq<char> {
    trim_end(trim_start(text))
}

proof fn lemma_trim_start_at(text: Seq<char>, start: int)
    requires
        0 <= start <= text.len(),
        forall|j: int| 0 <= j < start ==> is_white_space(#[trigger] text[j]),
        start == text.len() || !is_white_space(text[start]),
    ensures
        trim_start(text) == text.subrange(start, text.len() as int),
    decreases start,
{
    if start > 0 {
        let rest = text.drop_first();
        assert forall|j: int| 0 <= j < start - 1 implies is_white_space(#[trigger] rest[j]) by {
            assert(rest[j] == text[j + 1]);
        }
        assert(is_white_space(text[0]));
        lemma_trim_start_at(rest, start - 1);
        assert(rest.subrange(start - 1, rest.len() as int) =~= text.subrange(start, text.len() as int));
    } else {
        assert(text.subrange(0, text.len() as int) =~= text);
    }
}

proof fn lemma_trim_end_at(text: Seq<char>, end: int)
    requires
        0 <= end <= text.len(),
        forall|j: int| end <= j < text.len() ==> is_white_space(#[trigger] text[j]),
        end == 0 || !is_white_space(text[end - 1]),
    ensures
        trim_end(text) == text.subrange(0, end),
    decreases text.len() - end,
{
    if end < text.len() {
        let rest = text.drop_last();
        assert forall|j: int| end <= j < rest.len() implies is_white_space(#[trigger] rest[j]) by {
            assert(rest[j] == text[j]);
        }
        assert(is_white_space(text.last()));
        lemma_trim_end_at(rest, end);
        assert(rest.subrange(0, end) =~= text.subrange(0, end));
    } else {
        assert(text.subrange(0, end) =~= text);
    }
}

/// `text` without its leading and trailing white space.
pub fn trim_chars(text: &Vec<char>) -> (kept: Vec<char>)
    ensures
        kept@ == trimmed(text@),
{
    let len = text.len();
    let mut start: usize = 0;
    while start < len && white_space(text[start])
        invariant
            len == text@.len(),
            start <= len,
            forall|j: int| 0 <= j < start ==> is_white_space(#[trigger] text@[j]),
        decreases len - start,
    {
        start = start + 1;
    }
    let mut end: usize = len;
    while end > start && white_space(text[end - 1])
        invariant
            len == text@.len(),
            start <= end <= len,
            forall|j: int| end <= j < len ==> is_white_space(#[trigger] text@[j]),
        decreases end - start,
    {
        end = end - 1;
    }
    let mut kept: Vec<char> = Vec::new();
    let mut i: usize = start;
    while i < end
        invariant
            start <= i <= end <= len,
            len == text@.len(),
            kept@ == text@.subrange(start as int, i as int),
        decreases end - i,
    {
        kept.push(text[i]);
        proof {
            assert(kept@ =~= text@.subrange(start as int, i + 1));
        }
        i = i + 1;
    }
    proof {
        lemma_trim_start_at(text@, start as int);
        let rest = text@.subrange(start as int, len as int);
        if end > start {
            assert(!is_white_space(rest[end - start - 1]));
        } else if start < len {
            assert(!is_white_space(text@[start as int]));
            assert forall|j: int| end - start <= j < rest.len() implies is_white_space(#[trigger] rest[j]) by {
                assert(rest[j] == text@[start + j]);
            }
        }
        assert forall|j: int| end - start <= j < rest.len() implies is_white_space(#[trigger] rest[j]) by {
            assert(rest[j] == text@[start + j]);
        }
        lemma_trim_end_at(rest, end - start);
        assert(rest.subrange(0, end - start) =~= text@.subrange(start as int, end as int));
    }
    kept
}

/// Whether `needle` occurs in `haystack` as a contiguous run.
pub open spec fn occurs_in(needle: Seq<char>, haystack: Seq<char>) -> bool {
    exists|at: int|
        0 <= at && at + needle.len() <= haystack.len() && #[trigger] window(haystack, at, needle.len() as int)
            == needle
}

/// The `len` characters of `text` from position `at` on.
pub open spec fn window(text: Seq<char>, at: int, len: int) -> Seq<char> {
    text.subrange(at, at + len)
}

/// Whether `needle` occurs in `haystack` as a contiguous run.
pub fn contains_run(haystack: &Vec<char>, needle: &Vec<char>) -> (found: bool)
    ensures
        found == occurs_in(needle@, haystack@),
{
    if needle.len() > haystack.len() {
        return false;
    }
    let last = haystack.len() - needle.len();
    let mut at: usize = 0;
    loop
        invariant
            needle@.len() <= haystack@.len(),
            last == haystack@.len() - needle@.len(),
            at <= last,
            forall|k: int| 0 <= k < at ==> #[trigger] window(haystack@, k, needle@.len() as int) != needle@,
        decreases last - at,
    {
        let mut j: usize = 0;
        let mut same = true;
        while j < needle.len()
            invariant
                needle@.len() <= haystack@.len(),
                last == haystack@.len() - needle@.len(),
                at <= last,
                j <= needle@.len(),
                haystack.len() == haystack@.len(),
                same == (forall|m: int| 0 <= m < j ==> haystack@[at + m] == needle@[m]),
            decreases needle@.len() - j,
        {
            if haystack[at + j] != needle[j] {
                same = false;
            }
            j = j + 1;
        }
        if same {
            proof {
                assert(window(haystack@, at as int, needle@.len() as int) =~= needle@);
            }
            return true;
        }
        proof {
            let m = choose|m: int| 0 <= m < needle@.len() && haystack@[at + m] != needle@[m];
            assert(window(haystack@, at as int, needle@.len() as int)[m] != needle@[m]);
        }
        if at == last {
            proof {
                assert forall|k: int| 0 <= k && k + needle@.len() <= haystack@.len() implies
                    #[trigger] window(haystack@, k, needle@.len() as int) != needle@ by {
                    assert(k <= at);
                }
            }
            return false;
        }
        at = at + 1;
    }
}

/// Whether `a` and `b` hold the same characters.
pub fn chars_equal(a: &Vec<char>, b: &[char]) -> (result: bool)
    ensures
        result == (a@ == b@),
{
    if a.len() != b.len() {
        return false;
    }
    let mut i: usize = 0;
    while i < a.len()
        invariant
            a@.len() == b@.len(),
            i <= a@.len(),
            forall|j: int| 0 <= j < i ==> a@[j] == b@[j],
        decreases a@.len() - i,
    {
        if a[i] != b[i] {
            return false;
        }
        i = i + 1;
    }
    proof {
        assert(a@ =~= b@);
    }
    true
}

/// The value of `c` as a digit in `radix` (10 or 16, letters in either
/// case), or -1 where it is none.
pub open spec fn digit_value(c: char, radix: int) -> int {
    if '0' <= c <= '9' {
        (c as u32) - 48
    } else if radix == 16 && 'a' <= c <= 'f' {
        (c as u32) - 87
    } else if radix == 16 && 'A' <= c <= 'F' {
        (c as u32) - 55
    } else {
        -1
    }
}

/// Whether every character of `digits` is a digit in `radix`.
pub open spec fn all_digits(digits: Seq<char>, radix: int) -> bool {
    forall|i: int| 0 <= i < digits.len() ==> digit_value(#[trigger] digits[i], radix) >= 0
}

/// The number that `digits` write in `radix`, most significant first.
pub open spec fn digits_value(digits: Seq<char>, radix: int) -> int
    decreases digits.len(),
{
    if digits.len() == 0 {
        0
    } else {
        digits_value(digits.drop_last(), radix) * radix + digit_value(digits.last(), radix)
    }
}

/// The number that `text` writes in `radix` as std's unsigned integer
/// parsing reads it: an optional `+`, then at least one digit; `None` where
/// the text is not of that shape.
pub open spec fn unsigned_value(text: Seq<char>, radix: int) -> Option<int> {
    let body = if text.len() > 0 && text[0] == '+' {
        text.drop_first()
    } else {
        text
    };
    if body.len() > 0 && all_digits(body, radix) {
        Some(digits_value(body, radix))
    } else {
        None
    }
}

proof fn lemma_digits_value_nonnegative(digits: Seq<char>, radix: int)
    requires
        radix == 10 || radix == 16,
        all_digits(digits, radix),
    ensures
        digits_value(digits, radix) >= 0,
    decreases digits.len(),
{
    if digits.len() > 0 {
        lemma_digits_value_nonnegative(digits.drop_last(), radix);
        assert(digit_value(digits[digits.len() - 1], radix) >= 0);
        assert(digits_value(digits.drop_last(), radix) * radix >= 0) by (nonlinear_arith)
            requires
                digits_value(digits.drop_last(), radix) >= 0,
                radix > 0,
        ;
    }
}

proof fn lemma_digits_value_grows(digits: Seq<char>, radix: int, k: int)
    requires
        radix == 10 || radix == 16,
        all_digits(digits, radix),
        0 <= k <= digits.len(),
    ensures
        digits_value(digits.take(k), radix) <= digits_value(digits, radix),
    decreases digits.len() - k,
{
    if k < digits.len() {
        lemma_digits_value_grows(digits, radix, k + 1);
        let prefix = digits.take(k + 1);
        assert(prefix.drop_last() =~= digits.take(k));
        assert(all_digits(prefix, radix));
        assert(all_digits(prefix.drop_last(), radix));
        lemma_digits_value_nonnegative(prefix.drop_last(), radix);
        assert(digit_value(prefix.last(), radix) >= 0);
        assert(digits_value(prefix.drop_last(), radix) <= digits_value(prefix.drop_last(), radix) * radix) by (nonlinear_arith)
            requires
                digits_value(prefix.drop_last(), radix) >= 0,
                radix > 0,
        ;
    } else {
        assert(digits.take(k) =~= digits);
    }
}

/// Reads the number that `text` writes in `radix`, as std's parsing of an
/// unsigned integer type whose largest value is `max` reads it: `None` where
/// the text is not an optional `+` and digits, or where the number exceeds `max`.
pub fn parse_unsigned(text: &Vec<char>, radix: u32, max: u64) -> (value: Option<u64>)
    requires
        radix == 10 || radix == 16,
    ensures
        match value {
            Some(v) => unsigned_value(text@, radix as int) == Some(v as int) && v <= max,
            None => match unsigned_value(text@, radix as int) {
                Some(n) => n > max,
                None => true,
            },
        },
{
    let len = text.len();
    let start: usize = if len > 0 && text[0] == '+' { 1 } else { 0 };
    let ghost body = if text@.len() > 0 && text@[0] == '+' {
        text@.drop_first()
    } else {
        text@
    };
    proof {
        assert(body =~= text@.subrange(start as int, len as int));
    }
    if start >= len {
        return None;
    }
    let mut value: u64 = 0;
    let mut i: usize = start;
    while i < len
        invariant
            len == text@.len(),
            start <= i <= len,
            start < len,
            radix == 10 || radix == 16,
            body == text@.subrange(start as int, len as int),
            body == (if text@.len() > 0 && text@[0] == '+' {
                text@.drop_first()
            } else {
                text@
            }),
            all_digits(body.take(i - start), radix as int),
            value as int == digits_value(body.take(i - start), radix as int),
            value <= max,
        decreases len - i,
    {
        let c = text[i];
        let code = c as u32;
        proof {
            vstd::utf8::char_u32_cast(c, code);
        }
        let digit: u32 = if 48 <= code && code <= 57 {
            code - 48
        } else if radix == 16 && 97 <= code && code <= 102 {
            code - 87
        } else if radix == 16 && 65 <= code && code <= 70 {
            code - 55
        } else {
            proof {
                assert(digit_value(body[i - start], radix as int) < 0);
                assert(!all_digits(body, radix as int));
            }
            return None;
        };
        proof {
            assert(body[i - start] == c);
            assert(digit as int == digit_value(c, radix as int));
            let next = body.take(i - start + 1);
            assert(next.drop_last() =~= body.take(i - start));
            assert(next.last() == c);
        }
        assert((value as u128) * (radix as u128) <= 0xffff_ffff_ffff_ffff * 16) by (nonlinear_arith)
            requires
                radix <= 16,
        ;
        let widened: u128 = (value as u128) * (radix as u128) + (digit as u128);
        if widened > max as u128 {
            proof {
                let next = body.take(i - start + 1);
                assert(all_digits(next, radix as int));
                if all_digits(body, radix as int) {
                    lemma_digits_value_grows(body, radix as int, i - start + 1);
                }
            }
            return None;
        }
        value = widened as u64;
        i = i + 1;
    }
    proof {
        assert(body.take(len - start) =~= body);
    }
    Some(value)
}

/// The character of decimal digit `d`.
pub open spec fn digit_char(d: int) -> char {
    (48 + d) as char
}

/// The decimal numeral of `n`, without sign or leading zeros.
pub open spec fn decimal(n: nat) -> Seq<char>
    decreases n,
{
    if n < 10 {
        seq![digit_char(n as int)]
    } else {
        decimal(n / 10).push(digit_char((n % 10) as int))
    }
}

/// A decimal numeral reads back as the number it writes.
pub proof fn lemma_decimal_reads_back(n: nat)
    ensures
        unsigned_value(decimal(n), 10) == Some(n as int),
        decimal(n).len() > 0,
        decimal(n)[0] != '+',
        all_digits(decimal(n), 10),
        digits_value(decimal(n), 10) == n,
    decreases n,
{
    if n < 10 {
        let s = decimal(n);
        assert(s.drop_last() =~= Seq::<char>::empty());
        assert(digit_value(digit_char(n as int), 10) == n);
        assert(digits_value(s.drop_last(), 10) == 0);
        assert(s.last() == digit_char(n as int));
        assert(digits_value(s, 10) == digits_value(s.drop_last(), 10) * 10 + digit_value(s.last(), 10));
        assert(all_digits(s, 10));
    } else {
        lemma_decimal_reads_back(n / 10);
        let s = decimal(n);
        let prefix = decimal(n / 10);
        assert(s.drop_last() =~= prefix);
        assert(s[0] == prefix[0]);
        assert(digit_value(digit_char((n % 10) as int), 10) == n % 10);
        assert forall|k: int| 0 <= k < s.len() implies digit_value(#[trigger] s[k], 10) >= 0 by {
            if k < prefix.len() {
                assert(s[k] == prefix[k]);
            }
        }
        assert(s.last() == digit_char((n % 10) as int));
        assert(digits_value(s, 10) == digits_value(prefix, 10) * 10 + digit_value(s.last(), 10));
        assert(n == (n / 10) * 10 + n % 10);
    }
}

/// The decimal numeral of `n`.
pub fn decimal_chars(n: u64) -> (digits: Vec<char>)
    ensures
        digits@ == decimal(n as nat),
    decreases n,
{
    let d: u32 = (n % 10) as u32;
    let c = match char_from_scalar(48 + d) {
        Some(c) => c,
        None => '0',
    };
    if n < 10 {
        vec![c]
    } else {
        let mut digits = decimal_chars(n / 10);
        digits.push(c);
        digits
    }
}

} // verus!
