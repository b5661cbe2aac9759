//! Characters, decimal numbers and the splitting of text.

use vstd::prelude::*;

verus! {

/// `String::push` appends one character to the end of the string.
pub assume_specification[ String::push ](s: &mut String, c: char)
    ensures
        final(s)@ == old(s)@.push(c),
;

/// The characters of `s`, one by one.
pub fn to_chars(s: &str) -> (chars: Vec<char>)
    ensures
        chars@ == s@,
{
    let mut chars: Vec<char> = Vec::new();
    for c in it: s.chars()
        invariant
            it.seq() == s@,
            chars@ == it.seq().take(it.index() as int),
    {
        chars.push(c);
    }
    chars
}

/// The string made of the given characters.
pub fn to_text(chars: &Vec<char>) -> (s: String)
    ensures
        s@ == chars@,
{
    let mut s = String::new();
    let mut i: usize = 0;
    while i < chars.len()
        invariant
            i <= chars.len(),
            s@ == chars@.take(i as int),
        decreases chars.len() - i,
    {
        s.push(chars[i]);
        assert(chars@.take(i + 1) =~= chars@.take(i as int).push(chars@[i as int]));
        i += 1;
    }
    assert(chars@.take(chars.len() as int) =~= chars@);
    s
}

/// Appends the characters of `s` to `out`.
pub fn push_str(out: &mut Vec<char>, s: &str)
    ensures
        final(out)@ == old(out)@ + s@,
{
    for c in it: s.chars()
        invariant
            it.seq() == s@,
            out@ == old(out)@ + it.seq().take(it.index() as int),
    {
        out.push(c);
        assert(s@.take(it.index() + 1) =~= s@.take(it.index() as int).push(c));
    }
    assert(s@.take(s@.len() as int) =~= s@);
}

/// The characters of `s` from `from` up to, not including, `to`.
pub fn copy_range(s: &Vec<char>, from: usize, to: usize) -> (part: Vec<char>)
    requires
        from <= to <= s.len(),
    ensures
        part@ == s@.subrange(from as int, to as int),
{
    let mut part: Vec<char> = Vec::new();
    let mut i: usize = from;
    while i < to
        invariant
            from <= i <= to <= s.len(),
            part@ == s@.subrange(from as int, i as int),
        decreases to - i,
    {
        part.push(s[i]);
        assert(s@.subrange(from as int, i + 1) =~= s@.subrange(from as int, i as int).push(
            s@[i as int],
        ));
        i += 1;
    }
    part
}

/// Whether the two texts hold the same characters.
pub fn same_chars(a: &Vec<char>, b: &Vec<char>) -> (same: bool)
    ensures
        same == (a@ == b@),
{
    if a.len() != b.len() {
        return false;
    }
    let mut i: usize = 0;
    while i < a.len()
        invariant
            a.len() == b.len(),
            i <= a.len(),
            forall|k: int| 0 <= k < i ==> a@[k] == b@[k],
        decreases a.len() - i,
    {
        if a[i] != b[i] {
            return false;
        }
        i += 1;
    }
    assert(a@ =~= b@);
    true
}

/// Whether `a` holds exactly the characters of `word`.
pub fn is_word(a: &Vec<char>, word: &str) -> (same: bool)
    ensures
        same == (a@ == word@),
{
    let b = to_chars(word);
    same_chars(a, &b)
}

/// The characters that Unicode calls white space.
pub open spec fn is_whitespace(c: char) -> bool {
    let code = c as u32;
    ||| 0x09 <= code <= 0x0D
    ||| code == 0x20
    ||| code == 0x85
    ||| code == 0xA0
    ||| code == 0x1680
    ||| 0x2000 <= code <= 0x200A
    ||| code == 0x2028
    ||| code == 0x2029
    ||| code == 0x202F
    ||| code == 0x205F
    ||| code == 0x3000
}

/// Whether `c` is white space.
pub fn is_space(c: char) -> (space: bool)
    ensures
        space == is_whitespace(c),
{
    let code = c as u32;
    (0x09 <= code && code <= 0x0D) || code == 0x20 || code == 0x85 || code == 0xA0 || code
        == 0x1680 || (0x2000 <= code && code <= 0x200A) || code == 0x2028 || code == 0x2029
        || code == 0x202F || code == 0x205F || code == 0x3000
}

/// One of the ten decimal digits.
pub open spec fn is_digit(c: char) -> bool {
    48 <= c as u32 <= 57
}

/// The number that a digit stands for.
pub open spec fn digit_value(c: char) -> nat {
    (c as u32 - 48) as nat
}

/// The digit that stands for a number below ten.
pub open spec fn digit_char(d: nat) -> char {
    (d + 48) as char
}

/// Every character is a digit.
pub open spec fn all_digits(s: Seq<char>) -> bool {
    forall|i: int| 0 <= i < s.len() ==> is_digit(#[trigger] s[i])
}

/// The decimal digits of `n`, without leading zeros.
pub open spec fn decimal(n: nat) -> Seq<char>
    decreases n,
{
    if n < 10 {
        seq![digit_char(n)]
    } else {
        decimal(n / 10).push(digit_char(n % 10))
    }
}

/// The number that a run of decimal digits stands for.
pub open spec fn number_value(digits: Seq<char>) -> nat
    decreases digits.len(),
{
    if digits.len() == 0 {
        0
    } else {
        number_value(digits.drop_last()) * 10 + digit_value(digits.last())
    }
}

/// The number that a text stands for: digits, with leading zeros if any,
/// after at most one `+`. Anything else stands for no number.
pub open spec fn parse_number(s: Seq<char>) -> Option<nat> {
    let digits = if s.len() > 0 && s[0] == '+' {
        s.drop_first()
    } else {
        s
    };
    if digits.len() > 0 && all_digits(digits) {
        Some(number_value(digits))
    } else {
        None
    }
}

/// The number that a text stands for, if it fits the machine word.
pub open spec fn parse_usize(s: Seq<char>) -> Option<usize> {
    match parse_number(s) {
        Some(n) => if n <= usize::MAX {
            Some(n as usize)
        } else {
            None
        },
        None => None,
    }
}

/// Appends the decimal digits of `n` to `out`.
pub fn push_decimal(out: &mut Vec<char>, n: usize)
    ensures
        final(out)@ == old(out)@ + decimal(n as nat),
    decreases n,
{
    if n >= 10 {
        push_decimal(out, n / 10);
    }
    let digit = (n % 10) as u8;
    out.push((digit + 48) as char);
    proof {
        if n >= 10 {
            assert(out@ =~= old(out)@ + decimal((n / 10) as nat).push(digit_char((n % 10) as nat)));
        } else {
            assert(out@ =~= old(out)@ + seq![digit_char(n as nat)]);
        }
    }
}

/// A longer run of digits stands for no smaller number than its beginning.
proof fn lemma_number_value_grows(digits: Seq<char>, n: int)
    requires
        0 <= n <= digits.len(),
    ensures
        number_value(digits.take(n)) <= number_value(digits),
    decreases digits.len() - n,
{
    if n < digits.len() {
        lemma_number_value_grows(digits, n + 1);
        assert(digits.take(n + 1).drop_last() =~= digits.take(n));
    } else {
        assert(digits.take(n) =~= digits);
    }
}

/// Reads a number as `parse_usize` says: digits after at most one `+`, and
/// nothing where the text is no number or the number does not fit.
pub fn read_usize(s: &Vec<char>) -> (number: Option<usize>)
    ensures
        number == parse_usize(s@),
{
    let start: usize = if s.len() > 0 && s[0] == '+' {
        1
    } else {
        0
    };
    let ghost digits = s@.skip(start as int);
    assert(digits =~= if s@.len() > 0 && s@[0] == '+' {
        s@.drop_first()
    } else {
        s@
    });
    if start == s.len() {
        return None;
    }
    let mut value: usize = 0;
    let mut i: usize = start;
    while i < s.len()
        invariant
            start <= i <= s.len(),
            digits == s@.skip(start as int),
            digits == (if s@.len() > 0 && s@[0] == '+' {
                s@.drop_first()
            } else {
                s@
            }),
            all_digits(digits.take(i - start)),
            value == number_value(digits.take(i - start)),
        decreases s.len() - i,
    {
        let c = s[i];
        let code = c as u32;
        let ghost longer = digits.take(i - start + 1);
        proof {
            assert(longer.drop_last() =~= digits.take(i - start));
            assert(longer.last() == c);
        }
        if code < 48 || code > 57 {
            assert(!is_digit(digits[i - start]));
            return None;
        }
        let d = (code - 48) as usize;
        if value > (usize::MAX - d) / 10 {
            proof {
                lemma_number_value_grows(digits, i - start + 1);
            }
            return None;
        }
        value = value * 10 + d;
        proof {
            assert forall|k: int| 0 <= k < longer.len() implies is_digit(#[trigger] longer[k]) by {
                if k < i - start {
                    assert(longer[k] == digits.take(i - start)[k]);
                }
            }
        }
        i += 1;
    }
    assert(digits.take(s.len() - start) =~= digits);
    Some(value)
}

/// The digits of a number read back give the number.
pub proof fn lemma_decimal_reads_back(n: nat)
    ensures
        decimal(n).len() > 0,
        all_digits(decimal(n)),
        number_value(decimal(n)) == n,
        parse_number(decimal(n)) == Some(n),
    decreases n,
{
    let digits = decimal(n);
    if n < 10 {
        assert(digits.drop_last() =~= Seq::<char>::empty());
        assert(number_value(digits.drop_last()) == 0);
    } else {
        lemma_decimal_reads_back(n / 10);
        assert(digits.drop_last() =~= decimal(n / 10));
        assert forall|i: int| 0 <= i < digits.len() implies is_digit(#[trigger] digits[i]) by {
            if i < digits.len() - 1 {
                assert(digits[i] == decimal(n / 10)[i]);
            }
        }
    }
    assert(is_digit(digits[0]));
}

/// The part of `s` before the first `sep`, or all of `s` where it holds none.
pub open spec fn split_head(s: Seq<char>, sep: char) -> Seq<char> {
    match s.index_of_first(sep) {
        Some(i) => s.take(i),
        None => s,
    }
}

/// The part of `s` after the first `sep`, where it holds one.
pub open spec fn split_tail(s: Seq<char>, sep: char) -> Option<Seq<char>> {
    match s.index_of_first(sep) {
        Some(i) => Some(s.skip(i + 1)),
        None => None,
    }
}

/// The first `sep` of `s` stands at `i`.
pub proof fn lemma_first_index(s: Seq<char>, sep: char, i: int)
    requires
        0 <= i < s.len(),
        s[i] == sep,
        forall|j: int| 0 <= j < i ==> s[j] != sep,
    ensures
        s.index_of_first(sep) == Some(i),
{
    s.index_of_first_ensures(sep);
}

/// Cuts `s` at its first `sep`: what stands before it, and what stands after
/// it where there is one.
pub fn split_first(s: &Vec<char>, sep: char) -> (parts: (Vec<char>, Option<Vec<char>>))
    ensures
        parts.0@ == split_head(s@, sep),
        match parts.1 {
            Some(tail) => split_tail(s@, sep) == Some(tail@),
            None => split_tail(s@, sep) is None,
        },
{
    let mut i: usize = 0;
    while i < s.len()
        invariant
            i <= s.len(),
            forall|j: int| 0 <= j < i ==> s@[j] != sep,
        decreases s.len() - i,
    {
        if s[i] == sep {
            proof {
                lemma_first_index(s@, sep, i as int);
            }
            return (copy_range(s, 0, i), Some(copy_range(s, i + 1, s.len())));
        }
        i += 1;
    }
    proof {
        s@.index_of_first_ensures(sep);
        assert(s@.subrange(0, s.len() as int) =~= s@);
    }
    (copy_range(s, 0, s.len()), None)
}

/// Number of characters at the start of `s` that are white space, where
/// `space` is set, or that are not, where it is not.
pub open spec fn leading_run(s: Seq<char>, space: bool) -> nat
    decreases s.len(),
{
    if s.len() > 0 && is_whitespace(s[0]) == space {
        1 + leading_run(s.drop_first(), space)
    } else {
        0
    }
}

/// Number of white space characters at the end of `s`.
pub open spec fn trailing_spaces(s: Seq<char>) -> nat
    decreases s.len(),
{
    if s.len() > 0 && is_whitespace(s.last()) {
        1 + trailing_spaces(s.drop_last())
    } else {
        0
    }
}

/// A run of `n` characters of one kind that ends the text or is followed by
/// a character of the other kind is the leading run.
pub proof fn lemma_leading_run(s: Seq<char>, space: bool, n: nat)
    requires
        n <= s.len(),
        forall|j: int| 0 <= j < n ==> is_whitespace(#[trigger] s[j]) == space,
        n == s.len() || is_whitespace(s[n as int]) != space,
    ensures
        leading_run(s, space) == n,
    decreases n,
{
    if n > 0 {
        let rest = s.drop_first();
        assert forall|j: int| 0 <= j < n - 1 implies is_whitespace(#[trigger] rest[j]) == space by {
            assert(rest[j] == s[j + 1]);
        }
        lemma_leading_run(rest, space, (n - 1) as nat);
    }
}

/// White space that ends the text, with another character or nothing before
/// it, is the trailing white space.
pub proof fn lemma_trailing_spaces(s: Seq<char>, n: nat)
    requires
        n <= s.len(),
        forall|j: int| s.len() - n <= j < s.len() ==> is_whitespace(#[trigger] s[j]),
        n == s.len() || !is_whitespace(s[s.len() - n - 1]),
    ensures
        trailing_spaces(s) == n,
    decreases n,
{
    if n > 0 {
        let rest = s.drop_last();
        assert forall|j: int| rest.len() - (n - 1) <= j < rest.len() implies is_whitespace(
            #[trigger] rest[j],
        ) by {
            assert(rest[j] == s[j]);
        }
        lemma_trailing_spaces(rest, (n - 1) as nat);
    }
}

/// The first word of `s`: the first run of characters that are not white
/// space. It is empty where `s` holds only white space.
pub open spec fn first_word(s: Seq<char>) -> Seq<char> {
    let rest = s.skip(leading_run(s, true) as int);
    rest.take(leading_run(rest, false) as int)
}

/// What follows the first word of `s`.
pub open spec fn after_first_word(s: Seq<char>) -> Seq<char> {
    let rest = s.skip(leading_run(s, true) as int);
    rest.skip(leading_run(rest, false) as int)
}

/// `s` without the white space at its start and at its end.
pub open spec fn trimmed(s: Seq<char>) -> Seq<char> {
    let rest = s.skip(leading_run(s, true) as int);
    rest.take(rest.len() - trailing_spaces(rest))
}

/// Counts the leading run of `s` from position `from` on.
fn count_run(s: &Vec<char>, from: usize, space: bool) -> (n: usize)
    requires
        from <= s.len(),
    ensures
        n == leading_run(s@.skip(from as int), space),
        from + n <= s.len(),
{
    let ghost rest = s@.skip(from as int);
    let mut i: usize = from;
    while i < s.len() && is_space(s[i]) == space
        invariant
            from <= i <= s.len(),
            rest == s@.skip(from as int),
            forall|j: int| 0 <= j < i - from ==> is_whitespace(#[trigger] rest[j]) == space,
        decreases s.len() - i,
    {
        i += 1;
    }
    proof {
        lemma_leading_run(rest, space, (i - from) as nat);
    }
    i - from
}

/// Cuts `s` after its first word: the word, and what follows it.
pub fn split_word(s: &Vec<char>) -> (parts: (Vec<char>, Vec<char>))
    ensures
        parts.0@ == first_word(s@),
        parts.1@ == after_first_word(s@),
{
    let spaces = count_run(s, 0, true);
    let letters = count_run(s, spaces, false);
    proof {
        assert(s@.skip(0) =~= s@);
        let rest = s@.skip(spaces as int);
        assert(rest.take(letters as int) =~= s@.subrange(spaces as int, spaces + letters));
        assert(rest.skip(letters as int) =~= s@.subrange(spaces + letters, s.len() as int));
    }
    (copy_range(s, spaces, spaces + letters), copy_range(s, spaces + letters, s.len()))
}

/// `s` without the white space at its start and at its end.
pub fn trim(s: &Vec<char>) -> (inner: Vec<char>)
    ensures
        inner@ == trimmed(s@),
{
    let start = count_run(s, 0, true);
    let ghost rest = s@.skip(start as int);
    let mut end: usize = s.len();
    while end > start && is_space(s[end - 1])
        invariant
            start <= end <= s.len(),
            rest == s@.skip(start as int),
            forall|j: int| end - start <= j < rest.len() ==> is_whitespace(#[trigger] rest[j]),
        decreases end,
    {
        end -= 1;
    }
    proof {
        assert(s@.skip(0) =~= s@);
        lemma_trailing_spaces(rest, (s.len() - end) as nat);
        assert(rest.take(rest.len() - trailing_spaces(rest)) =~= s@.subrange(
            start as int,
            end as int,
        ));
    }
    copy_range(s, start, end)
}

/// What `leading_run` counts: it stays within the text, every character of
/// the run is of the kind asked for, and the character after the run is not.
pub proof fn lemma_leading_run_ends(s: Seq<char>, space: bool)
    ensures
        leading_run(s, space) <= s.len(),
        forall|j: int| 0 <= j < leading_run(s, space) ==> is_whitespace(#[trigger] s[j]) == space,
        leading_run(s, space) < s.len() ==> is_whitespace(s[leading_run(s, space) as int])
            != space,
    decreases s.len(),
{
    if s.len() > 0 && is_whitespace(s[0]) == space {
        let rest = s.drop_first();
        lemma_leading_run_ends(rest, space);
        assert forall|j: int| 0 <= j < leading_run(s, space) implies is_whitespace(
            #[trigger] s[j],
        ) == space by {
            if j > 0 {
                assert(s[j] == rest[j - 1]);
            }
        }
        if leading_run(s, space) < s.len() {
            assert(s[leading_run(s, space) as int] == rest[leading_run(rest, space) as int]);
        }
    }
}

/// The first word and what follows it are pieces of the text: the word
/// stands after the leading white space, the rest after the word.
pub proof fn lemma_word_is_inside(s: Seq<char>)
    ensures
        leading_run(s, true) + first_word(s).len() + after_first_word(s).len() == s.len(),
        forall|i: int|
            0 <= i < first_word(s).len() ==> (#[trigger] first_word(s)[i]) == s[leading_run(
                s,
                true,
            ) + i],
        forall|i: int|
            0 <= i < after_first_word(s).len() ==> (#[trigger] after_first_word(s)[i]) == s[s.len()
                - after_first_word(s).len() + i],
{
    lemma_leading_run_ends(s, true);
    let rest = s.skip(leading_run(s, true) as int);
    lemma_leading_run_ends(rest, false);
}

/// A first word holds no white space.
pub proof fn lemma_first_word_has_no_space(s: Seq<char>)
    ensures
        forall|i: int| 0 <= i < first_word(s).len() ==> !is_whitespace(#[trigger] first_word(s)[i]),
{
    lemma_leading_run_ends(s, true);
    let rest = s.skip(leading_run(s, true) as int);
    lemma_leading_run_ends(rest, false);
}

} // verus!
