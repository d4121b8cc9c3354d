//! Amounts of tokens: exact integers in nano-units and their decimal notation.
use crate::text::{
    all_digits, byte_len, decimal_text, digits_value, fixed_digits_text, join, pad_end_text,
    parse_numeral, split_text, trim_end_text, NumeralError,
};
use vstd::arithmetic::power::pow;
use vstd::prelude::*;

verus! {

/// One iToken is this many nano-iTokens (nine decimal places).
pub const NANO_PER_ITOKEN: u64 = 1_000_000_000;

/// The decimal notation of `nano` nano-iTokens: whole iTokens, and up to nine decimal places
/// without trailing zeros where the amount is not whole.
pub open spec fn itokens_text(nano: nat) -> Seq<char> {
    let whole = nano / NANO_PER_ITOKEN as nat;
    let frac = nano % NANO_PER_ITOKEN as nat;
    if frac == 0 {
        crate::text::decimal(whole)
    } else {
        crate::text::decimal(whole).push('.') + crate::text::trim_end_of(
            crate::text::fixed_digits(frac, 9),
            '0',
        )
    }
}

/// The words for a fault in a numeral.
pub open spec fn numeral_error_text(e: NumeralError) -> Seq<char> {
    match e {
        NumeralError::Empty => "cannot parse integer from empty string"@,
        NumeralError::InvalidDigit => "invalid digit found in string"@,
        NumeralError::TooLarge => "number too large to fit in target type"@,
    }
}

/// What `s` stands for as an amount, in nano-iTokens, or the words of the refusal.
pub open spec fn itokens_value(s: Seq<char>) -> Result<u64, Seq<char>> {
    let parts = crate::text::split_on(s, '.');
    if parts.len() > 2 {
        Err("Invalid amount format"@)
    } else {
        match crate::text::read_numeral(parts[0]) {
            Err(e) => Err("Invalid amount: "@ + numeral_error_text(e)),
            Ok(whole) => if parts.len() == 1 {
                nano_value(whole, 0)
            } else if vstd::utf8::encode_utf8(parts[1]).len() > 9 {
                Err("Too many decimal places (max 9)"@)
            } else {
                match crate::text::read_numeral(crate::text::pad_end(parts[1], '0', 9)) {
                    Err(e) => Err("Invalid fraction: "@ + numeral_error_text(e)),
                    Ok(frac) => nano_value(whole, frac),
                }
            },
        }
    }
}

/// `whole` iTokens and `frac` nano-iTokens, where that fits.
pub open spec fn nano_value(whole: u64, frac: u64) -> Result<u64, Seq<char>> {
    if whole * NANO_PER_ITOKEN + frac > u64::MAX {
        Err("Amount overflow"@)
    } else {
        Ok((whole * NANO_PER_ITOKEN + frac) as u64)
    }
}

/// Format nano-iTokens as a human-readable iToken text, such as `1.23456789`.
pub fn format_itokens(nano: u64) -> (s: String)
    ensures
        s@ == itokens_text(nano as nat),
{
    let whole: u64 = nano / NANO_PER_ITOKEN;
    let frac: u64 = nano % NANO_PER_ITOKEN;
    if frac == 0 {
        decimal_text(whole)
    } else {
        let frac_str = fixed_digits_text(frac, 9);
        let trimmed = trim_end_text(&frac_str, '0');
        let mut s = decimal_text(whole);
        s.push('.');
        s.append(&trimmed);
        s
    }
}

fn numeral_error_message(e: NumeralError) -> (s: &'static str)
    ensures
        s@ == numeral_error_text(e),
{
    match e {
        NumeralError::Empty => "cannot parse integer from empty string",
        NumeralError::InvalidDigit => "invalid digit found in string",
        NumeralError::TooLarge => "number too large to fit in target type",
    }
}

/// Parse a human-readable iToken text to nano-iTokens.
pub fn parse_itokens(s: &str) -> (r: Result<u64, String>)
    ensures
        match r {
            Ok(nano) => itokens_value(s@) == Ok::<u64, Seq<char>>(nano),
            Err(message) => itokens_value(s@) == Err::<u64, Seq<char>>(message@),
        },
{
    let parts = split_text(s, '.');
    if parts.len() > 2 {
        return Err("Invalid amount format".to_owned());
    }
    let whole: u64 = match parse_numeral(&parts[0]) {
        Ok(n) => n,
        Err(e) => return Err(join("Invalid amount: ", numeral_error_message(e))),
    };
    let mut frac: u64 = 0;
    if parts.len() == 2 {
        if byte_len(&parts[1]) > 9 {
            return Err("Too many decimal places (max 9)".to_owned());
        }
        let padded = pad_end_text(&parts[1], '0', 9);
        frac = match parse_numeral(&padded) {
            Ok(n) => n,
            Err(e) => return Err(join("Invalid fraction: ", numeral_error_message(e))),
        };
    }
    match whole.checked_mul(NANO_PER_ITOKEN) {
        None => Err("Amount overflow".to_owned()),
        Some(w) => match w.checked_add(frac) {
            None => Err("Amount overflow".to_owned()),
            Some(nano) => Ok(nano),
        },
    }
}

/// Parsing what formatting wrote gives the amount back, for every amount.
pub proof fn law_parse_undoes_format(nano: u64)
    ensures
        itokens_value(itokens_text(nano as nat)) == Ok::<u64, Seq<char>>(nano),
{
    let whole: u64 = (nano / NANO_PER_ITOKEN) as u64;
    let frac: u64 = (nano % NANO_PER_ITOKEN) as u64;
    let w = crate::text::decimal(whole as nat);
    crate::text::lemma_decimal_reads_back(whole);
    crate::text::lemma_decimal_digits(whole as nat);
    assert(!w.contains('.'));
    if frac == 0 {
        crate::text::lemma_split_without(w, '.');
    } else {
        let digits = crate::text::fixed_digits(frac as nat, 9);
        let trimmed = crate::text::trim_end_of(digits, '0');
        crate::text::lemma_fixed_digits_read_back(frac as nat, 9);
        crate::text::lemma_pad_undoes_trim(digits, '0');
        assert forall|i: int| 0 <= i < trimmed.len() implies crate::text::is_digit(
            #[trigger] trimmed[i],
        ) by {
            assert(trimmed[i] == digits[i]);
        }
        assert(!trimmed.contains('.'));
        crate::text::lemma_split_two(w, trimmed, '.');
        assert(vstd::arithmetic::power::pow(10, 9) == 1_000_000_000) by {
            reveal_with_fuel(vstd::arithmetic::power::pow, 10);
        }
        assert(crate::text::is_digit(digits[0]));
        assert(vstd::utf8::is_ascii_chars(trimmed));
        vstd::utf8::is_ascii_chars_encode_utf8(trimmed);
    }
}

/// Zeros behind digits multiply what they stand for by powers of ten.
proof fn lemma_padded_value(s: Seq<char>, width: nat)
    requires
        all_digits(s),
        s.len() <= width,
    ensures
        all_digits(crate::text::pad_end(s, '0', width)),
        digits_value(crate::text::pad_end(s, '0', width)) == digits_value(s) * pow(
            10,
            (width - s.len()) as nat,
        ),
        crate::text::pad_end(s, '0', width).len() == width,
    decreases width - s.len(),
{
    reveal(vstd::arithmetic::power::pow);
    if s.len() == width {
        assert(digits_value(s) * 1 == digits_value(s));
    } else {
        let longer = s.push('0');
        assert(longer.drop_last() == s);
        assert(all_digits(longer));
        lemma_padded_value(longer, width);
        assert(crate::text::pad_end(s, '0', width) == crate::text::pad_end(longer, '0', width));
        let k = (width - s.len() - 1) as nat;
        let (v, p) = (digits_value(s) as int, pow(10, k));
        assert((10 * v) * p == v * (10 * p)) by (nonlinear_arith);
    }
}

/// Digits, and digits behind a point, are read as the amount that they stand for: nine places
/// behind the point count nano-iTokens.
pub proof fn law_amounts_are_read_in_decimal(whole: Seq<char>, fraction: Seq<char>)
    requires
        whole.len() > 0,
        all_digits(whole),
        all_digits(fraction),
        fraction.len() <= 9,
    ensures
        ({
            let nano = digits_value(whole) * 1_000_000_000 + digits_value(fraction) * pow(
                10,
                (9 - fraction.len()) as nat,
            );
            nano <= u64::MAX ==> itokens_value(whole.push('.') + fraction) == Ok::<u64, Seq<char>>(
                nano as u64,
            )
        }),
        digits_value(whole) * 1_000_000_000 <= u64::MAX ==> itokens_value(whole) == Ok::<
            u64,
            Seq<char>,
        >((digits_value(whole) * 1_000_000_000) as u64),
{
    let padded = crate::text::pad_end(fraction, '0', 9);
    lemma_padded_value(fraction, 9);
    crate::text::law_digits_are_read_as_their_value(whole);
    crate::text::law_digits_are_read_as_their_value(padded);
    crate::text::law_numerals_hold_digits(whole);
    crate::text::law_numerals_hold_digits(padded);
    assert(!whole.contains('.')) by {
        assert forall|i: int| 0 <= i < whole.len() implies whole[i] != '.' by {}
    }
    assert(!fraction.contains('.')) by {
        assert forall|i: int| 0 <= i < fraction.len() implies fraction[i] != '.' by {}
    }
    crate::text::lemma_split_without(whole, '.');
    crate::text::lemma_split_two(whole, fraction, '.');
    assert(vstd::utf8::is_ascii_chars(fraction));
    vstd::utf8::is_ascii_chars_encode_utf8(fraction);
    vstd::arithmetic::power::lemma_pow_positive(10, (9 - fraction.len()) as nat);
    let (v, p) = (digits_value(fraction) as int, pow(10, (9 - fraction.len()) as nat));
    assert(v * p >= 0) by (nonlinear_arith)
        requires
            v >= 0,
            p > 0,
    ;
}

/// What is read as an amount holds digits, points and plus signs alone, and no more than one point.
pub proof fn law_amounts_hold_digits(s: Seq<char>, i: int)
    requires
        itokens_value(s) is Ok,
        0 <= i < s.len(),
    ensures
        '0' <= s[i] <= '9' || s[i] == '.' || s[i] == '+',
        crate::text::split_on(s, '.').len() <= 2,
{
    let parts = crate::text::split_on(s, '.');
    crate::text::law_parts_make_the_text(s, '.');
    crate::text::law_numerals_hold_digits(parts[0]);
    let w = parts[0];
    if parts.len() == 1 {
        assert(s == w);
        lemma_numeral_characters(w, i);
    } else {
        let f = parts[1];
        assert(parts.drop_last() == seq![w]);
        assert(crate::text::with_between(seq![w], '.') == w);
        assert(s == w.push('.') + f);
        let padded = crate::text::pad_end(f, '0', 9);
        crate::text::law_numerals_hold_digits(padded);
        if i < w.len() {
            lemma_numeral_characters(w, i);
        } else if i > w.len() {
            lemma_numeral_characters(padded, i - w.len() - 1);
            assert(padded[i - w.len() - 1] == f[i - w.len() - 1]);
        }
    }
}

proof fn lemma_numeral_characters(s: Seq<char>, i: int)
    requires
        crate::text::read_numeral(s) is Ok,
        0 <= i < s.len(),
    ensures
        '0' <= s[i] <= '9' || s[i] == '+',
{
    crate::text::law_numerals_hold_digits(s);
    if !all_digits(s) && i > 0 {
        assert(s.skip(1)[i - 1] == s[i]);
    }
}

proof fn lemma_trimmed_end(s: Seq<char>, c: char)
    ensures
        ({
            let t = crate::text::trim_end_of(s, c);
            t.len() > 0 ==> t.last() != c
        }),
    decreases s.len(),
{
    if s.len() > 0 && s.last() == c {
        lemma_trimmed_end(s.drop_last(), c);
    }
}

/// An amount is written in decimal as short as can be: digits without needless zeros in front, and
/// behind a point up to nine digits without zeros at the end where the amount is not whole. The
/// digits stand for the amount.
pub proof fn law_amounts_are_written_in_decimal(nano: u64)
    ensures
        exists|whole: Seq<char>, fraction: Seq<char>|
            {
                let text = itokens_text(nano as nat);
                &&& #[trigger] all_digits(whole) && #[trigger] all_digits(fraction)
                &&& whole.len() > 0 && (whole.len() > 1 ==> whole[0] != '0')
                &&& fraction.len() <= 9 && (fraction.len() > 0 ==> fraction.last() != '0')
                &&& text == if fraction.len() == 0 {
                    whole
                } else {
                    whole.push('.') + fraction
                }
                &&& digits_value(whole) * 1_000_000_000 + digits_value(fraction) * pow(
                    10,
                    (9 - fraction.len()) as nat,
                ) == nano
            },
{
    let whole = (nano / 1_000_000_000) as nat;
    let frac = (nano % 1_000_000_000) as nat;
    let w = crate::text::decimal(whole);
    crate::text::law_numeral_stands_for_the_number(whole);
    assert(pow(10, 9) == 1_000_000_000) by {
        reveal_with_fuel(vstd::arithmetic::power::pow, 10);
    }
    if frac == 0 {
        let f = Seq::<char>::empty();
        assert(all_digits(f));
        assert(digits_value(f) * pow(10, 9) == 0);
        assert(all_digits(w) && all_digits(f));
    } else {
        let digits = crate::text::fixed_digits(frac, 9);
        let f = crate::text::trim_end_of(digits, '0');
        crate::text::lemma_fixed_digits_read_back(frac, 9);
        crate::text::law_numerals_hold_digits(digits);
        assert(digits_value(digits) == frac);
        crate::text::lemma_pad_undoes_trim(digits, '0');
        lemma_trimmed_end(digits, '0');
        assert forall|i: int| 0 <= i < f.len() implies '0' <= #[trigger] f[i] <= '9' by {
            assert(f[i] == digits[i]);
        }
        assert(all_digits(f));
        lemma_padded_value(f, 9);
        if f.len() == 0 {
            assert(digits_value(f) == 0);
            assert(0 * pow(10, 9) == 0);
        }
        assert(all_digits(w) && all_digits(f));
    }
}

/// An amount that 64 bits do not hold is refused, and so are more than nine places behind the point
/// and a second point.
pub proof fn law_amounts_beyond_reach_are_refused(
    whole: Seq<char>,
    fraction: Seq<char>,
    more: Seq<char>,
)
    requires
        whole.len() > 0,
        all_digits(whole),
        all_digits(fraction),
        digits_value(whole) <= u64::MAX,
    ensures
        fraction.len() > 9 ==> itokens_value(whole.push('.') + fraction) == Err::<u64, Seq<char>>(
            "Too many decimal places (max 9)"@,
        ),
        fraction.len() <= 9 && digits_value(whole) * 1_000_000_000 + digits_value(fraction) * pow(
            10,
            (9 - fraction.len()) as nat,
        ) > u64::MAX ==> itokens_value(whole.push('.') + fraction) == Err::<u64, Seq<char>>(
            "Amount overflow"@,
        ),
        digits_value(whole) * 1_000_000_000 > u64::MAX ==> itokens_value(whole) == Err::<
            u64,
            Seq<char>,
        >("Amount overflow"@),
        itokens_value((whole.push('.') + fraction).push('.') + more) is Err,
{
    crate::text::law_digits_are_read_as_their_value(whole);
    crate::text::law_numerals_hold_digits(whole);
    assert(!whole.contains('.')) by {
        assert forall|i: int| 0 <= i < whole.len() implies whole[i] != '.' by {}
    }
    assert(!fraction.contains('.')) by {
        assert forall|i: int| 0 <= i < fraction.len() implies fraction[i] != '.' by {}
    }
    crate::text::lemma_split_without(whole, '.');
    crate::text::lemma_split_two(whole, fraction, '.');
    assert(vstd::utf8::is_ascii_chars(fraction));
    vstd::utf8::is_ascii_chars_encode_utf8(fraction);
    if fraction.len() <= 9 {
        let padded = crate::text::pad_end(fraction, '0', 9);
        lemma_padded_value(fraction, 9);
        crate::text::law_digits_are_read_as_their_value(padded);
        crate::text::law_numerals_hold_digits(padded);
        lemma_nine_digits(padded);
    }
    let s = (whole.push('.') + fraction).push('.') + more;
    if itokens_value(s) is Ok {
        lemma_split_grows(whole.push('.') + fraction, more);
    }
}

/// Nine digits stand for less than 1000000000.
proof fn lemma_nine_digits(s: Seq<char>)
    requires
        all_digits(s),
        s.len() == 9,
    ensures
        digits_value(s) < 1_000_000_000,
{
    lemma_digits_bound(s);
    assert(pow(10, 9) == 1_000_000_000) by {
        reveal_with_fuel(vstd::arithmetic::power::pow, 10);
    }
}

proof fn lemma_digits_bound(s: Seq<char>)
    requires
        all_digits(s),
    ensures
        digits_value(s) < pow(10, s.len()),
    decreases s.len(),
{
    reveal(vstd::arithmetic::power::pow);
    if s.len() > 0 {
        let t = s.drop_last();
        assert(all_digits(t)) by {
            assert forall|i: int| 0 <= i < t.len() implies '0' <= #[trigger] t[i] <= '9' by {
                assert(t[i] == s[i]);
            }
        }
        assert('0' <= s[s.len() - 1] <= '9');
        lemma_digits_bound(t);
    }
}

/// A text behind a point adds at least one part.
proof fn lemma_split_grows(a: Seq<char>, b: Seq<char>)
    ensures
        crate::text::split_on(a.push('.') + b, '.').len() > crate::text::split_on(a, '.').len(),
    decreases b.len(),
{
    let s = a.push('.') + b;
    if b.len() == 0 {
        assert(s == a.push('.'));
        assert(s.drop_last() == a);
    } else {
        assert(s.drop_last() == a.push('.') + b.drop_last());
        lemma_split_grows(a, b.drop_last());
    }
}

} // verus!
