//! Text of one record: trimming, splitting into fields, reading an integer.
//!
//! Every function here is stated over the characters of its argument.
use vstd::prelude::*;
use vstd::string::*;

verus! {

/// The white space of Unicode: the characters that it marks `White_Space`.
pub open spec fn is_space(c: char) -> bool {
    let n = c as u32;
    ||| 0x09 <= n <= 0x0D
    ||| n == 0x20
    ||| n == 0x85
    ||| n == 0xA0
    ||| n == 0x1680
    ||| 0x2000 <= n <= 0x200A
    ||| n == 0x2028
    ||| n == 0x2029
    ||| n == 0x202F
    ||| n == 0x205F
    ||| n == 0x3000
}

/// `s` without the white space at its start.
pub open spec fn trim_start(s: Seq<char>) -> Seq<char>
    decreases s.len(),
{
    if s.len() > 0 && is_space(s[0]) {
        trim_start(s.skip(1))
    } else {
        s
    }
}

/// `s` without the white space at its end.
pub open spec fn trim_end(s: Seq<char>) -> Seq<char>
    decreases s.len(),
{
    if s.len() > 0 && is_space(s.last()) {
        trim_end(s.drop_last())
    } else {
        s
    }
}

/// `s` without the white space at either end.
pub open spec fn trimmed(s: Seq<char>) -> Seq<char> {
    trim_end(trim_start(s))
}

/// The place of the first `sep` in `s`, or the length of `s` if it has none.
pub open spec fn first_sep(s: Seq<char>, sep: char) -> int
    decreases s.len(),
{
    if s.len() == 0 || s[0] == sep {
        0
    } else {
        1 + first_sep(s.skip(1), sep)
    }
}

/// The fields of `s`: the stretches between one `sep` and the next. A text
/// without `sep` is one field, the empty text too.
pub open spec fn split(s: Seq<char>, sep: char) -> Seq<Seq<char>>
    decreases s.len(),
{
    let k = first_sep(s, sep);
    if 0 <= k < s.len() {
        seq![s.take(k)] + split(s.skip(k + 1), sep)
    } else {
        seq![s]
    }
}

/// Whether `c` is one of the ten decimal digits.
pub open spec fn is_digit(c: char) -> bool {
    0x30 <= c as u32 <= 0x39
}

/// Whether `s` holds nothing but decimal digits.
pub open spec fn all_digits(s: Seq<char>) -> bool {
    forall|i: int| 0 <= i < s.len() ==> is_digit(#[trigger] s[i])
}

/// The number that the decimal digits `s` write; 0 for the empty text.
pub open spec fn decimal(s: Seq<char>) -> int
    decreases s.len(),
{
    if s.len() == 0 {
        0
    } else {
        decimal(s.drop_last()) * 10 + (s.last() as u32 - 0x30)
    }
}

/// Whether `s` starts with a sign.
pub open spec fn has_sign(s: Seq<char>) -> bool {
    s.len() > 0 && (s[0] == '+' || s[0] == '-')
}

/// The digits of `s`: what follows the sign, or all of `s` if it has none.
pub open spec fn unsigned_part(s: Seq<char>) -> Seq<char> {
    if has_sign(s) {
        s.skip(1)
    } else {
        s
    }
}

/// The number that `s` writes, before any bound is applied: decimal digits
/// after an optional sign.
pub open spec fn signed_value(s: Seq<char>) -> int {
    if s.len() > 0 && s[0] == '-' {
        -decimal(unsigned_part(s))
    } else {
        decimal(unsigned_part(s))
    }
}

/// The 32-bit integer that `s` writes: an optional sign, then at least one
/// decimal digit and nothing else, the number within the range of `i32`.
/// Anything else writes no integer.
pub open spec fn integer(s: Seq<char>) -> Option<i32> {
    let digits = unsigned_part(s);
    if digits.len() > 0 && all_digits(digits) && i32::MIN <= signed_value(s) <= i32::MAX {
        Some(signed_value(s) as i32)
    } else {
        None
    }
}

/// What each of `fields` holds.
pub open spec fn texts(fields: Seq<String>) -> Seq<Seq<char>> {
    fields.map_values(|field: String| field@)
}

proof fn lemma_trim_start_skips(s: Seq<char>, k: int)
    requires
        0 <= k <= s.len(),
        forall|i: int| 0 <= i < k ==> is_space(#[trigger] s[i]),
        k < s.len() ==> !is_space(s[k]),
    ensures
        trim_start(s) == s.skip(k),
    decreases k,
{
    if k == 0 {
        assert(s.skip(0) =~= s);
    } else {
        let t = s.skip(1);
        assert forall|i: int| 0 <= i < k - 1 implies is_space(#[trigger] t[i]) by {
            assert(t[i] == s[i + 1]);
        }
        lemma_trim_start_skips(t, k - 1);
        assert(t.skip(k - 1) =~= s.skip(k));
    }
}

proof fn lemma_trim_end_takes(s: Seq<char>, k: int)
    requires
        0 <= k <= s.len(),
        forall|i: int| k <= i < s.len() ==> is_space(#[trigger] s[i]),
        k > 0 ==> !is_space(s[k - 1]),
    ensures
        trim_end(s) == s.take(k),
    decreases s.len() - k,
{
    if k == s.len() {
        assert(s.take(k) =~= s);
    } else {
        let t = s.drop_last();
        lemma_trim_end_takes(t, k);
        assert(t.take(k) =~= s.take(k));
    }
}

proof fn lemma_first_sep_found(s: Seq<char>, sep: char, k: int)
    requires
        0 <= k <= s.len(),
        forall|i: int| 0 <= i < k ==> #[trigger] s[i] != sep,
        k < s.len() ==> s[k] == sep,
    ensures
        first_sep(s, sep) == k,
    decreases k,
{
    if k > 0 {
        let t = s.skip(1);
        assert forall|i: int| 0 <= i < k - 1 implies #[trigger] t[i] != sep by {
            assert(t[i] == s[i + 1]);
        }
        lemma_first_sep_found(t, sep, k - 1);
    }
}

proof fn lemma_decimal_grows(s: Seq<char>, k: int)
    requires
        all_digits(s),
        0 <= k <= s.len(),
    ensures
        0 <= decimal(s.take(k)) <= decimal(s),
    decreases s.len() - k,
{
    if k == s.len() {
        assert(s.take(k) =~= s);
        lemma_decimal_positive(s);
    } else {
        let t = s.drop_last();
        assert(t.take(k) =~= s.take(k));
        assert(is_digit(s.last()));
        lemma_decimal_grows(t, k);
    }
}

proof fn lemma_decimal_positive(s: Seq<char>)
    requires
        all_digits(s),
    ensures
        0 <= decimal(s),
    decreases s.len(),
{
    if s.len() > 0 {
        assert(is_digit(s.last()));
        lemma_decimal_positive(s.drop_last());
    }
}

/// Whether `c` is white space.
pub fn is_whitespace(c: char) -> (space: bool)
    ensures
        space == is_space(c),
{
    let n: u32 = c as u32;
    (0x09 <= n && n <= 0x0D) || n == 0x20 || n == 0x85 || n == 0xA0 || n == 0x1680 || (0x2000 <= n
        && n <= 0x200A) || n == 0x2028 || n == 0x2029 || n == 0x202F || n == 0x205F || n == 0x3000
}

/// The characters of `s`, one by one.
pub fn chars_of(s: &str) -> (chars: Vec<char>)
    ensures
        chars@ == s@,
{
    let mut chars: Vec<char> = Vec::new();
    for c in it: s.chars()
        invariant
            it.seq() == s@,
            chars@ == s@.take(it.index() as int),
    {
        chars.push(c);
        assert(s@.take(it.index() + 1) =~= s@.take(it.index() as int).push(
            s@[it.index() as int],
        ));
    }
    assert(s@.take(s@.len() as int) =~= s@);
    chars
}

/// `s` without the white space at either end.
pub fn trim(s: &str) -> (inner: &str)
    ensures
        inner@ == trimmed(s@),
{
    let chars = chars_of(s);
    let n = chars.len();
    let mut from: usize = 0;
    while from < n && is_whitespace(chars[from])
        invariant
            chars@ == s@,
            n == chars.len(),
            from <= n,
            forall|i: int| 0 <= i < from ==> is_space(#[trigger] s@[i]),
        decreases n - from,
    {
        from = from + 1;
    }
    let mut to: usize = n;
    while to > from && is_whitespace(chars[to - 1])
        invariant
            chars@ == s@,
            n == chars.len(),
            from <= to <= n,
            forall|i: int| to <= i < n ==> is_space(#[trigger] s@[i]),
        decreases to,
    {
        to = to - 1;
    }
    proof {
        let head = s@.skip(from as int);
        lemma_trim_start_skips(s@, from as int);
        assert forall|i: int| to - from <= i < head.len() implies is_space(#[trigger] head[i]) by {
            assert(head[i] == s@[i + from]);
        }
        lemma_trim_end_takes(head, to - from);
        assert(head.take(to - from) =~= s@.subrange(from as int, to as int));
    }
    s.substring_char(from, to)
}

/// The fields of `s`, cut at every `sep`.
pub fn split_fields(s: &str, sep: char) -> (fields: Vec<String>)
    ensures
        texts(fields@) == split(s@, sep),
{
    let chars = chars_of(s);
    let n = chars.len();
    let mut fields: Vec<String> = Vec::new();
    let mut start: usize = 0;
    let mut at: usize = 0;
    assert(s@.skip(0) =~= s@);
    assert(texts(fields@) + split(s@, sep) =~= split(s@, sep));
    loop
        invariant_except_break
            chars@ == s@,
            n == chars.len(),
            start <= at <= n,
            forall|i: int| start <= i < at ==> #[trigger] s@[i] != sep,
            split(s@, sep) == texts(fields@) + split(s@.skip(start as int), sep),
        ensures
            texts(fields@) == split(s@, sep),
        decreases n - at,
    {
        let ghost rest = s@.skip(start as int);
        let ghost before = fields@;
        proof {
            assert forall|i: int| 0 <= i < at - start implies #[trigger] rest[i] != sep by {
                assert(rest[i] == s@[i + start]);
            }
            if at < n {
                assert(rest[at - start] == s@[at as int]);
            }
        }
        if at == n {
            fields.push(s.substring_char(start, n).to_owned());
            proof {
                lemma_first_sep_found(rest, sep, at - start);
                assert(s@.subrange(start as int, n as int) =~= rest);
                assert(texts(fields@) =~= texts(before).push(rest));
                assert(split(rest, sep) =~= seq![rest]);
            }
            break;
        }
        if chars[at] == sep {
            fields.push(s.substring_char(start, at).to_owned());
            proof {
                lemma_first_sep_found(rest, sep, at - start);
                assert(rest.take(at - start) =~= s@.subrange(start as int, at as int));
                assert(rest.skip(at - start + 1) =~= s@.skip(at + 1));
                assert(texts(fields@) =~= texts(before).push(rest.take(at - start)));
                assert(split(rest, sep) =~= seq![rest.take(at - start)] + split(
                    s@.skip(at + 1),
                    sep,
                ));
            }
            start = at + 1;
        }
        at = at + 1;
    }
    fields
}

/// The 32-bit integer that `s` writes, if it writes one.
pub fn parse_i32(s: &str) -> (number: Option<i32>)
    ensures
        number == integer(s@),
{
    let chars = chars_of(s);
    let n = chars.len();
    if n == 0 {
        return None;
    }
    let negative = chars[0] == '-';
    let first: usize = if negative || chars[0] == '+' {
        1
    } else {
        0
    };
    if first == n {
        return None;
    }
    let ghost digits = unsigned_part(s@);
    let mut magnitude: i64 = 0;
    let mut at: usize = first;
    while at < n
        invariant
            chars@ == s@,
            n == chars.len(),
            first <= at <= n,
            digits == unsigned_part(s@),
            digits == s@.skip(first as int),
            all_digits(digits.take(at - first)),
            magnitude == decimal(digits.take(at - first)),
            0 <= magnitude <= 0x8000_0000,
        decreases n - at,
    {
        let code: u32 = chars[at] as u32;
        let ghost upto = digits.take(at - first + 1);
        proof {
            assert(digits[at - first] == s@[at as int]);
            assert(upto.drop_last() =~= digits.take(at - first));
        }
        if code < 0x30 || code > 0x39 {
            assert(!is_digit(digits[at - first]));
            assert(!all_digits(digits));
            return None;
        }
        let digit: i64 = (code - 0x30) as i64;
        magnitude = magnitude * 10 + digit;
        proof {
            assert forall|i: int| 0 <= i < upto.len() implies is_digit(#[trigger] upto[i]) by {
                if i < upto.len() - 1 {
                    assert(upto[i] == digits.take(at - first)[i]);
                }
            }
        }
        assert(magnitude == decimal(upto));
        if magnitude > 0x8000_0000 {
            proof {
                if all_digits(digits) {
                    lemma_decimal_grows(digits, at - first + 1);
                    assert(decimal(digits) > 0x8000_0000);
                }
            }
            return None;
        }
        at = at + 1;
    }
    assert(digits.take(n - first) =~= digits);
    if negative {
        Some((-magnitude) as i32)
    } else if magnitude > 0x7FFF_FFFF {
        None
    } else {
        Some(magnitude as i32)
    }
}

} // verus!
