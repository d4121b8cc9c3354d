//! Text as sequences of characters: copying, comparing, splitting, trimming and decimal numerals.
use vstd::prelude::*;

verus! {

/// `String::push` appends one character at the end.
pub assume_specification[ String::push ](s: &mut String, c: char)
    ensures
        final(s)@ == old(s)@.push(c),
;

/// `==` on `str` compares the characters of the two texts.
pub assume_specification[ <str as PartialEq>::eq ](a: &str, b: &str) -> (r: bool)
    ensures
        r == (a@ == b@),
;

/// Whether two texts hold the same characters.
pub fn same_text(a: &str, b: &str) -> (r: bool)
    ensures
        r == (a@ == b@),
{
    str::eq(a, b)
}

/// The characters of `s`, in order.
pub fn chars_of(s: &str) -> (v: Vec<char>)
    ensures
        v@ == s@,
{
    let mut v: Vec<char> = Vec::new();
    for c in it: s.chars()
        invariant
            v@ == it.seq().take(it.index() as int),
            it.seq() == s@,
    {
        v.push(c);
    }
    v
}

/// The text made of `chars[from..to]`.
pub fn text_between(chars: &Vec<char>, from: usize, to: usize) -> (s: String)
    requires
        from <= to <= chars@.len(),
    ensures
        s@ == chars@.subrange(from as int, to as int),
{
    let mut s = String::new();
    let mut i: usize = from;
    while i < to
        invariant
            from <= i <= to <= chars@.len(),
            s@ == chars@.subrange(from as int, i as int),
        decreases to - i,
    {
        s.push(chars[i]);
        i += 1;
    }
    s
}

/// `a` followed by `b`.
pub fn join(a: &str, b: &str) -> (s: String)
    ensures
        s@ == a@ + b@,
{
    let mut s = a.to_owned();
    s.append(b);
    s
}

/// The length of `s` in bytes of UTF-8.
pub fn byte_len(s: &str) -> (n: usize)
    ensures
        n == vstd::utf8::encode_utf8(s@).len(),
{
    s.as_bytes().len()
}

// ---------------------------------------------------------------------------
// Decimal numerals
// ---------------------------------------------------------------------------

/// Whether `c` is one of `0` to `9`.
pub open spec fn is_digit(c: char) -> bool {
    '0' <= c <= '9'
}

/// The number that the digit `c` stands for.
pub open spec fn digit_value(c: char) -> int {
    c as int - '0' as int
}

/// The digit that stands for `d`, for `0 <= d <= 9`.
pub open spec fn digit_char(d: int) -> char {
    (d + '0' as int) as char
}

/// The shortest decimal numeral of `n`.
pub open spec fn decimal(n: nat) -> Seq<char>
    decreases n,
{
    if n < 10 {
        seq![digit_char(n as int)]
    } else {
        decimal(n / 10).push(digit_char((n % 10) as int))
    }
}

/// The last `width` digits of `n`, with zeros in front where `n` is shorter.
pub open spec fn fixed_digits(n: nat, width: nat) -> Seq<char>
    decreases width,
{
    if width == 0 {
        Seq::empty()
    } else {
        fixed_digits(n / 10, (width - 1) as nat).push(digit_char((n % 10) as int))
    }
}

/// Why a text is no numeral of a 64-bit unsigned integer.
#[derive(Debug, Clone, Copy, PartialEq, Eq, Structural)]
pub enum NumeralError {
    Empty,
    InvalidDigit,
    TooLarge,
}

/// What a run of digits stands for when it is read from the left; the first fault ends the reading.
pub open spec fn read_digits(s: Seq<char>) -> Result<u64, NumeralError>
    decreases s.len(),
{
    if s.len() == 0 {
        Ok(0u64)
    } else {
        match read_digits(s.drop_last()) {
            Err(e) => Err(e),
            Ok(v) => if !is_digit(s.last()) {
                Err(NumeralError::InvalidDigit)
            } else if v * 10 + digit_value(s.last()) > u64::MAX {
                Err(NumeralError::TooLarge)
            } else {
                Ok((v * 10 + digit_value(s.last())) as u64)
            },
        }
    }
}

/// What `s` stands for as a numeral: an optional `+`, then at least one digit.
pub open spec fn read_numeral(s: Seq<char>) -> Result<u64, NumeralError> {
    if s.len() == 0 {
        Err(NumeralError::Empty)
    } else if s[0] == '+' {
        if s.len() == 1 {
            Err(NumeralError::InvalidDigit)
        } else {
            read_digits(s.skip(1))
        }
    } else {
        read_digits(s)
    }
}

/// The decimal numeral of `n`.
pub fn decimal_text(n: u64) -> (s: String)
    ensures
        s@ == decimal(n as nat),
    decreases n,
{
    if n < 10 {
        let mut s = String::new();
        s.push(('0' as u8 + n as u8) as char);
        assert(s@ == decimal(n as nat));
        s
    } else {
        let mut s = decimal_text(n / 10);
        s.push(('0' as u8 + (n % 10) as u8) as char);
        s
    }
}

/// The last `width` digits of `n`.
pub fn fixed_digits_text(n: u64, width: usize) -> (s: String)
    ensures
        s@ == fixed_digits(n as nat, width as nat),
    decreases width,
{
    if width == 0 {
        String::new()
    } else {
        let mut s = fixed_digits_text(n / 10, width - 1);
        s.push(('0' as u8 + (n % 10) as u8) as char);
        s
    }
}

fn digits_from(chars: &Vec<char>, from: usize) -> (r: Result<u64, NumeralError>)
    requires
        from <= chars@.len(),
    ensures
        r == read_digits(chars@.skip(from as int)),
{
    let mut value: u64 = 0;
    let mut i: usize = from;
    let ghost s = chars@.skip(from as int);
    assert(s.take(0) == Seq::<char>::empty());
    while i < chars.len()
        invariant
            from <= i <= chars@.len(),
            s == chars@.skip(from as int),
            read_digits(s.take(i - from)) == Ok::<u64, NumeralError>(value),
        decreases chars@.len() - i,
    {
        let c = chars[i];
        let ghost next = s.take(i - from + 1);
        proof {
            assert(next.drop_last() == s.take(i - from));
            assert(next.last() == c);
        }
        if !('0' <= c && c <= '9') {
            proof {
                lemma_first_fault(s, i - from + 1);
            }
            return Err(NumeralError::InvalidDigit);
        }
        let d: u64 = c as u64 - '0' as u64;
        match value.checked_mul(10) {
            None => {
                proof {
                    lemma_first_fault(s, i - from + 1);
                }
                return Err(NumeralError::TooLarge);
            },
            Some(tens) => match tens.checked_add(d) {
                None => {
                    proof {
                        lemma_first_fault(s, i - from + 1);
                    }
                    return Err(NumeralError::TooLarge);
                },
                Some(v) => {
                    value = v;
                },
            },
        }
        i += 1;
    }
    assert(s.take(s.len() as int) == s);
    Ok(value)
}

/// A fault in a prefix is the fault of the whole.
proof fn lemma_first_fault(s: Seq<char>, n: int)
    requires
        0 <= n <= s.len(),
        read_digits(s.take(n)) is Err,
    ensures
        read_digits(s) == read_digits(s.take(n)),
    decreases s.len(),
{
    if n == s.len() {
        assert(s.take(n) == s);
    } else {
        let t = s.drop_last();
        assert(t.take(n) == s.take(n));
        lemma_first_fault(t, n);
    }
}

/// Read `s` as a numeral.
pub fn parse_numeral(s: &str) -> (r: Result<u64, NumeralError>)
    ensures
        r == read_numeral(s@),
{
    let chars = chars_of(s);
    if chars.len() == 0 {
        return Err(NumeralError::Empty);
    }
    if chars[0] == '+' {
        if chars.len() == 1 {
            Err(NumeralError::InvalidDigit)
        } else {
            digits_from(&chars, 1)
        }
    } else {
        assert(chars@.skip(0) == chars@);
        digits_from(&chars, 0)
    }
}

/// Reading the numeral of `n` gives `n` back.
pub proof fn lemma_decimal_reads_back(n: u64)
    ensures
        read_digits(decimal(n as nat)) == Ok::<u64, NumeralError>(n),
        read_numeral(decimal(n as nat)) == Ok::<u64, NumeralError>(n),
    decreases n,
{
    lemma_decimal_digits(n as nat);
    let s = decimal(n as nat);
    assert(is_digit(s[0]));
    if n < 10 {
        assert(s.drop_last() == Seq::<char>::empty());
        assert(s.last() == digit_char(n as int));
        assert(read_digits(s.drop_last()) == Ok::<u64, NumeralError>(0));
    } else {
        lemma_decimal_reads_back(n / 10);
        assert(s.drop_last() == decimal((n / 10) as nat));
        assert(s.last() == digit_char((n % 10) as int));
    }
}

/// A numeral is a non-empty run of digits.
pub proof fn lemma_decimal_digits(n: nat)
    ensures
        decimal(n).len() > 0,
        forall|i: int| 0 <= i < decimal(n).len() ==> is_digit(#[trigger] decimal(n)[i]),
    decreases n,
{
    if n >= 10 {
        lemma_decimal_digits(n / 10);
    }
}

/// `fixed_digits` has `width` digits and reads as `n` modulo the power of ten.
pub proof fn lemma_fixed_digits_read_back(n: nat, width: nat)
    requires
        width <= 19,
    ensures
        fixed_digits(n, width).len() == width,
        forall|i: int| 0 <= i < width ==> is_digit(#[trigger] fixed_digits(n, width)[i]),
        read_digits(fixed_digits(n, width)) == Ok::<u64, NumeralError>(
            (n as int % vstd::arithmetic::power::pow(10, width)) as u64,
        ),
        vstd::arithmetic::power::pow(10, width) <= 10_000_000_000_000_000_000,
        0 < vstd::arithmetic::power::pow(10, width),
    decreases width,
{
    reveal(vstd::arithmetic::power::pow);
    vstd::arithmetic::power::lemma_pow_positive(10, width);
    if width > 0 {
        let w1 = (width - 1) as nat;
        lemma_fixed_digits_read_back(n / 10, w1);
        let p = vstd::arithmetic::power::pow(10, w1);
        assert(vstd::arithmetic::power::pow(10, width) == 10 * p);
        if width > 1 {
            lemma_pow10_bound(w1);
        }
        let s = fixed_digits(n, width);
        assert(s.drop_last() == fixed_digits(n / 10, w1));
        assert(n as int % (10 * p) == ((n as int / 10) % p) * 10 + n as int % 10) by {
            vstd::arithmetic::div_mod::lemma_breakdown(n as int, 10, p);
        }
        assert(0 <= (n as int / 10) % p < p) by {
            vstd::arithmetic::div_mod::lemma_mod_bound(n as int / 10, p);
        }
    }
}

proof fn lemma_pow10_bound(w: nat)
    requires
        w <= 18,
    ensures
        vstd::arithmetic::power::pow(10, w) <= 1_000_000_000_000_000_000,
{
    reveal(vstd::arithmetic::power::pow);
    vstd::arithmetic::power::lemma_pow_increases(10, w, 18);
    assert(vstd::arithmetic::power::pow(10, 18) == 1_000_000_000_000_000_000) by {
        reveal_with_fuel(vstd::arithmetic::power::pow, 20);
    }
}

// ---------------------------------------------------------------------------
// Splitting and trimming
// ---------------------------------------------------------------------------

/// The parts of `s` between the occurrences of `sep`.
pub open spec fn split_on(s: Seq<char>, sep: char) -> Seq<Seq<char>>
    decreases s.len(),
{
    if s.len() == 0 {
        seq![Seq::empty()]
    } else {
        let parts = split_on(s.drop_last(), sep);
        if s.last() == sep {
            parts.push(Seq::empty())
        } else {
            parts.drop_last().push(parts.last().push(s.last()))
        }
    }
}

/// A split has at least one part.
pub proof fn lemma_split_nonempty(s: Seq<char>, sep: char)
    ensures
        split_on(s, sep).len() >= 1,
    decreases s.len(),
{
    if s.len() > 0 {
        lemma_split_nonempty(s.drop_last(), sep);
    }
}

/// A text without the separator is its own only part.
pub proof fn lemma_split_without(s: Seq<char>, sep: char)
    requires
        !s.contains(sep),
    ensures
        split_on(s, sep) == seq![s],
    decreases s.len(),
{
    if s.len() > 0 {
        assert(s.last() == s[s.len() - 1]);
        assert forall|i: int| 0 <= i < s.drop_last().len() implies s.drop_last()[i] != sep by {
            assert(s[i] == s.drop_last()[i]);
        }
        lemma_split_without(s.drop_last(), sep);
        assert(s.drop_last().push(s.last()) == s);
        assert(split_on(s, sep) == seq![s]);
    } else {
        assert(s == Seq::<char>::empty());
    }
}

/// Two texts without the separator, joined by it, are the parts of the whole.
pub proof fn lemma_split_two(a: Seq<char>, b: Seq<char>, sep: char)
    requires
        !a.contains(sep),
        !b.contains(sep),
    ensures
        split_on(a.push(sep) + b, sep) == seq![a, b],
    decreases b.len(),
{
    let s = a.push(sep) + b;
    if b.len() == 0 {
        assert(s == a.push(sep));
        assert(s.drop_last() == a);
        lemma_split_without(a, sep);
        assert(b == Seq::<char>::empty());
        assert(split_on(s, sep) == seq![a, b]);
    } else {
        let b0 = b.drop_last();
        assert(b[b.len() - 1] != sep);
        assert forall|i: int| 0 <= i < b0.len() implies b0[i] != sep by {
            assert(b[i] == b0[i]);
        }
        lemma_split_two(a, b0, sep);
        assert(s.drop_last() == a.push(sep) + b0);
        assert(b0.push(b.last()) == b);
        assert(split_on(s, sep) == seq![a, b]);
    }
}

/// The parts of `s` between the occurrences of `sep`.
pub fn split_text(s: &str, sep: char) -> (parts: Vec<String>)
    ensures
        parts@.map_values(|p: String| p@) == split_on(s@, sep),
        parts@.len() == split_on(s@, sep).len(),
        forall|i: int| 0 <= i < parts@.len() ==> (#[trigger] parts@[i])@ == split_on(s@, sep)[i],
        parts@.len() >= 1,
{
    let chars = chars_of(s);
    let mut parts: Vec<String> = Vec::new();
    let mut current = String::new();
    let mut i: usize = 0;
    while i < chars.len()
        invariant
            i <= chars@.len(),
            parts@.map_values(|p: String| p@).push(current@) == split_on(chars@.take(i as int), sep),
        decreases chars@.len() - i,
    {
        let c = chars[i];
        let ghost now = chars@.take(i + 1);
        let ghost before = parts@.map_values(|p: String| p@);
        let ghost word = current@;
        proof {
            assert(now.drop_last() == chars@.take(i as int));
            assert(now.last() == c);
            assert(before.push(word).drop_last() == before);
        }
        if c == sep {
            parts.push(current);
            current = String::new();
            assert(parts@.map_values(|p: String| p@) == before.push(word));
        } else {
            current.push(c);
        }
        i += 1;
    }
    let ghost before = parts@.map_values(|p: String| p@);
    let ghost word = current@;
    parts.push(current);
    assert(parts@.map_values(|p: String| p@) == before.push(word));
    assert(chars@.take(chars@.len() as int) == chars@);
    assert forall|i: int| 0 <= i < parts@.len() implies (#[trigger] parts@[i])@ == split_on(
        s@,
        sep,
    )[i] by {
        assert(parts@.map_values(|p: String| p@)[i] == parts@[i]@);
    }
    parts
}

/// `s` without the run of `c` at its end.
pub open spec fn trim_end_of(s: Seq<char>, c: char) -> Seq<char>
    decreases s.len(),
{
    if s.len() > 0 && s.last() == c {
        trim_end_of(s.drop_last(), c)
    } else {
        s
    }
}

/// `s` with `c` added at its end up to `width` characters.
pub open spec fn pad_end(s: Seq<char>, c: char, width: nat) -> Seq<char> {
    if s.len() >= width {
        s
    } else {
        s + Seq::new((width - s.len()) as nat, |i: int| c)
    }
}

/// Padding undoes trimming.
pub proof fn lemma_pad_undoes_trim(s: Seq<char>, c: char)
    ensures
        pad_end(trim_end_of(s, c), c, s.len()) == s,
        trim_end_of(s, c).len() <= s.len(),
        trim_end_of(s, c) == s.take(trim_end_of(s, c).len() as int),
    decreases s.len(),
{
    if s.len() > 0 && s.last() == c {
        let t = s.drop_last();
        lemma_pad_undoes_trim(t, c);
        let u = trim_end_of(t, c);
        assert(pad_end(u, c, s.len()) == pad_end(u, c, t.len()).push(c));
        assert(t.push(c) == s);
        assert(t.take(u.len() as int) == s.take(u.len() as int));
    } else {
        assert(pad_end(s, c, s.len()) == s);
        assert(s.take(s.len() as int) == s);
    }
}

/// `s` without the run of `c` at its end.
pub fn trim_end_text(s: &str, c: char) -> (r: String)
    ensures
        r@ == trim_end_of(s@, c),
{
    let chars = chars_of(s);
    let mut end: usize = chars.len();
    assert(chars@.take(chars@.len() as int) == chars@);
    while end > 0 && chars[end - 1] == c
        invariant
            end <= chars@.len(),
            trim_end_of(chars@.take(end as int), c) == trim_end_of(chars@, c),
        decreases end,
    {
        assert(chars@.take(end as int).drop_last() == chars@.take(end - 1));
        end -= 1;
    }
    assert(chars@.take(end as int) == chars@.subrange(0, end as int));
    text_between(&chars, 0, end)
}

/// `s` with `c` added at its end up to `width` characters.
pub fn pad_end_text(s: &str, c: char, width: usize) -> (r: String)
    ensures
        r@ == pad_end(s@, c, width as nat),
{
    let mut r = s.to_owned();
    let mut n: usize = s.unicode_len();
    assert(r@ == s@ + Seq::new(0, |i: int| c));
    while n < width
        invariant
            n == r@.len(),
            s@.len() <= n,
            s@.len() <= width ==> n <= width,
            s@.len() > width ==> n == s@.len(),
            r@ == s@ + Seq::new((n - s@.len()) as nat, |i: int| c),
        decreases width - n,
    {
        r.push(c);
        n += 1;
    }
    r
}

/// Whether a text holds digits alone.
pub open spec fn all_digits(s: Seq<char>) -> bool {
    forall|i: int| 0 <= i < s.len() ==> '0' <= #[trigger] s[i] <= '9'
}

/// What digits stand for: each counts ten times what it would count one place to the right.
pub open spec fn digits_value(s: Seq<char>) -> nat
    decreases s.len(),
{
    if s.len() == 0 {
        0
    } else {
        (10 * digits_value(s.drop_last()) + (s.last() as int - '0' as int)) as nat
    }
}

/// Digits are read as the number that they stand for, where 64 bits hold it.
pub proof fn law_digits_are_read_as_their_value(s: Seq<char>)
    requires
        all_digits(s),
    ensures
        digits_value(s) <= u64::MAX ==> read_digits(s) == Ok::<u64, NumeralError>(
            digits_value(s) as u64,
        ),
        digits_value(s) > u64::MAX ==> read_digits(s) == Err::<u64, NumeralError>(
            NumeralError::TooLarge,
        ),
    decreases s.len(),
{
    if s.len() > 0 {
        let t = s.drop_last();
        assert(all_digits(t)) by {
            assert forall|i: int| 0 <= i < t.len() implies '0' <= #[trigger] t[i] <= '9' by {
                assert(t[i] == s[i]);
            }
        }
        assert('0' <= s[s.len() - 1] <= '9');
        law_digits_are_read_as_their_value(t);
    }
}

/// What is read as a number holds digits alone, but for one plus sign in front.
pub proof fn law_numerals_hold_digits(s: Seq<char>)
    ensures
        read_digits(s) is Ok ==> all_digits(s) && read_digits(s)->Ok_0 == digits_value(s),
        read_numeral(s) is Ok ==> s.len() > 0 && (all_digits(s) || (s[0] == '+' && s.len() > 1
            && all_digits(s.skip(1)))),
        s.len() > 0 && all_digits(s) ==> read_numeral(s) == read_digits(s),
    decreases s.len(),
{
    if s.len() > 0 {
        let t = s.drop_last();
        law_numerals_hold_digits(t);
        if read_digits(s) is Ok {
            assert forall|i: int| 0 <= i < s.len() implies '0' <= #[trigger] s[i] <= '9' by {
                if i < t.len() {
                    assert(t[i] == s[i]);
                }
            }
        }
        if all_digits(s) {
            assert('0' <= s[0] <= '9');
        }
        if s[0] == '+' && s.len() > 1 {
            law_numerals_hold_digits(s.skip(1));
        }
    }
}

/// The numeral of a number is made of digits that stand for the number, without a zero in front
/// where there are others.
pub proof fn law_numeral_stands_for_the_number(n: nat)
    ensures
        decimal(n).len() > 0,
        all_digits(decimal(n)),
        digits_value(decimal(n)) == n,
        decimal(n).len() > 1 ==> decimal(n)[0] != '0',
    decreases n,
{
    let s = decimal(n);
    if n >= 10 {
        let t = decimal(n / 10);
        law_numeral_stands_for_the_number(n / 10);
        assert(s.drop_last() == t);
        assert(s[0] == t[0]);
        if t.len() == 1 {
            assert(n < 100) by {
                if n >= 100 {
                    law_numeral_stands_for_the_number(n / 100);
                    assert(t.len() > 1);
                }
            }
            assert(t[0] == digit_char((n / 10) as int));
        }
        assert forall|i: int| 0 <= i < s.len() implies '0' <= #[trigger] s[i] <= '9' by {
            if i < t.len() {
                assert(t[i] == s[i]);
            }
        }
    } else {
        assert(s.drop_last() == Seq::<char>::empty());
        assert(digits_value(s.drop_last()) == 0);
    }
}

/// The parts of a text, with the separator between them, make the text again, and none of them
/// holds the separator.
pub proof fn law_parts_make_the_text(s: Seq<char>, sep: char)
    ensures
        split_on(s, sep).len() >= 1,
        with_between(split_on(s, sep), sep) == s,
        forall|i: int|
            0 <= i < split_on(s, sep).len() ==> !(#[trigger] split_on(s, sep)[i]).contains(sep),
    decreases s.len(),
{
    lemma_split_nonempty(s, sep);
    let parts = split_on(s, sep);
    if s.len() == 0 {
        assert(s == Seq::<char>::empty());
        assert(parts.drop_last() == Seq::<Seq<char>>::empty());
        assert(with_between(parts, sep) == s);
    } else {
        let t = s.drop_last();
        law_parts_make_the_text(t, sep);
        let before = split_on(t, sep);
        assert(t.push(s.last()) == s);
        if s.last() == sep {
            assert(parts.drop_last() == before);
            assert(with_between(parts, sep) == with_between(before, sep).push(sep)
                + Seq::<char>::empty());
            assert(with_between(parts, sep) == s);
        } else {
            assert(parts.drop_last() == before.drop_last());
            assert(parts.last() == before.last().push(s.last()));
            assert(with_between(parts, sep) == with_between(before, sep).push(s.last()));
            assert forall|i: int| 0 <= i < parts.len() implies !(#[trigger] parts[i]).contains(
                sep,
            ) by {
                if i < parts.len() - 1 {
                    assert(parts[i] == before[i]);
                } else {
                    let w = before.last();
                    assert(!before[before.len() - 1].contains(sep));
                    assert forall|k: int| 0 <= k < parts[i].len() implies parts[i][k] != sep by {
                        if k < w.len() {
                            assert(parts[i][k] == w[k]);
                        }
                    }
                }
            }
        }
    }
}

/// Texts one after the other with a character between them.
pub open spec fn with_between(parts: Seq<Seq<char>>, sep: char) -> Seq<char>
    decreases parts.len(),
{
    if parts.len() == 0 {
        Seq::empty()
    } else if parts.len() == 1 {
        parts[0]
    } else {
        with_between(parts.drop_last(), sep).push(sep) + parts.last()
    }
}

} // verus!
