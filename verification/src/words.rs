//! Words, white space and token counts of texts.
use crate::text::chars_of;
use vstd::prelude::*;

verus! {

/// The values of texts.
pub open spec fn text_views(texts: Seq<String>) -> Seq<Seq<char>> {
    texts.map_values(|t: String| t@)
}

/// Whether a character is white space in the sense of Unicode.
pub open spec fn is_space(c: char) -> bool {
    let n = c as u32;
    ||| 0x09 <= n <= 0x0d
    ||| n == 0x20
    ||| n == 0x85
    ||| n == 0xa0
    ||| n == 0x1680
    ||| 0x2000 <= n <= 0x200a
    ||| n == 0x2028
    ||| n == 0x2029
    ||| n == 0x202f
    ||| n == 0x205f
    ||| n == 0x3000
}

/// Whether a character is white space.
pub fn is_white_space(c: char) -> (r: bool)
    ensures
        r == is_space(c),
{
    let n: u32 = c as u32;
    (0x09 <= n && n <= 0x0d) || n == 0x20 || n == 0x85 || n == 0xa0 || n == 0x1680 || (0x2000 <= n
        && n <= 0x200a) || n == 0x2028 || n == 0x2029 || n == 0x202f || n == 0x205f || n == 0x3000
}

/// The words of a text: the longest runs of characters that are not white space.
pub open spec fn words(s: Seq<char>) -> Seq<Seq<char>>
    decreases s.len(),
{
    if s.len() == 0 {
        Seq::empty()
    } else {
        let before = words(s.drop_last());
        if is_space(s.last()) {
            before
        } else if s.len() == 1 || is_space(s[s.len() - 2]) {
            before.push(seq![s.last()])
        } else {
            before.drop_last().push(before.last().push(s.last()))
        }
    }
}

proof fn lemma_open_word(s: Seq<char>)
    ensures
        s.len() > 0 && !is_space(s.last()) ==> words(s).len() > 0,
        words(s).len() <= s.len(),
    decreases s.len(),
{
    if s.len() > 0 {
        lemma_open_word(s.drop_last());
    }
}

/// The words of a text, in order.
pub fn words_of(text: &str) -> (r: Vec<String>)
    ensures
        text_views(r@) == words(text@),
        r@.len() == words(text@).len(),
{
    let chars = chars_of(text);
    let mut r: Vec<String> = Vec::new();
    let mut i: usize = 0;
    assert(text_views(r@) == words(chars@.take(0)));
    while i < chars.len()
        invariant
            i <= chars@.len(),
            text_views(r@) == words(chars@.take(i as int)),
        decreases chars@.len() - i,
    {
        let c = chars[i];
        let ghost before = text_views(r@);
        let ghost now = chars@.take(i + 1);
        proof {
            assert(now.drop_last() == chars@.take(i as int));
            assert(now.last() == c);
            lemma_open_word(chars@.take(i as int));
        }
        if !is_white_space(c) {
            if i == 0 || is_white_space(chars[i - 1]) {
                let mut word = String::new();
                word.push(c);
                assert(word@ == seq![c]);
                let ghost added = word@;
                r.push(word);
                assert(text_views(r@) == before.push(added));
            } else {
                assert(chars@.take(i as int).last() == chars@[i - 1]);
                let ghost all = r@;
                match r.pop() {
                    Some(word) => {
                        let mut longer = word;
                        assert(before.last() == longer@);
                        longer.push(c);
                        let ghost added = longer@;
                        r.push(longer);
                        assert(text_views(r@) == before.drop_last().push(added));
                    },
                    None => {
                        assert(false);
                    },
                }
            }
        }
        i += 1;
    }
    assert(chars@.take(chars@.len() as int) == chars@);
    r
}

/// The number of words of a text.
pub fn word_count(text: &str) -> (n: usize)
    ensures
        n == words(text@).len(),
{
    words_of(text).len()
}

/// All texts one after the other.
pub open spec fn joined(parts: Seq<Seq<char>>) -> Seq<char>
    decreases parts.len(),
{
    if parts.len() == 0 {
        Seq::empty()
    } else {
        joined(parts.drop_last()) + parts.last()
    }
}

/// The words of a text are what is left of it without its white space, and none of them is empty.
pub proof fn law_words_keep_all_but_space(s: Seq<char>)
    ensures
        joined(words(s)) == s.filter(|c: char| !is_space(c)),
        forall|i: int| 0 <= i < words(s).len() ==> (#[trigger] words(s)[i]).len() > 0,
    decreases s.len(),
{
    let keep = |c: char| !is_space(c);
    reveal(Seq::filter);
    if s.len() > 0 {
        let t = s.drop_last();
        law_words_keep_all_but_space(t);
        lemma_open_word(t);
        let before = words(t);
        if is_space(s.last()) {
        } else if s.len() == 1 || is_space(s[s.len() - 2]) {
            assert(words(s).drop_last() == before);
            assert(joined(words(s)) == joined(before) + seq![s.last()]);
            assert(joined(words(s)) == joined(before).push(s.last()));
        } else {
            assert(t.last() == s[s.len() - 2]);
            let cut = before.drop_last();
            assert(words(s).drop_last() == cut);
            assert(joined(words(s)) == joined(cut) + before.last().push(s.last()));
            assert(joined(before) == joined(cut) + before.last());
            assert(joined(words(s)) == joined(before).push(s.last()));
        }
    }
}

/// `s` without the white space at its beginning.
pub open spec fn trim_front(s: Seq<char>) -> Seq<char>
    decreases s.len(),
{
    if s.len() > 0 && is_space(s[0]) {
        trim_front(s.skip(1))
    } else {
        s
    }
}

/// `s` without the white space at its end.
pub open spec fn trim_back(s: Seq<char>) -> Seq<char>
    decreases s.len(),
{
    if s.len() > 0 && is_space(s.last()) {
        trim_back(s.drop_last())
    } else {
        s
    }
}

/// `s` without the white space at both ends.
pub open spec fn trimmed(s: Seq<char>) -> Seq<char> {
    trim_back(trim_front(s))
}

/// The part of `chars[from..to]` that is left without the white space at its ends.
pub fn trim_range(chars: &Vec<char>, from: usize, to: usize) -> (r: (usize, usize))
    requires
        from <= to <= chars@.len(),
    ensures
        from <= r.0 <= r.1 <= to,
        chars@.subrange(r.0 as int, r.1 as int) == trimmed(
            chars@.subrange(from as int, to as int),
        ),
{
    let ghost s = chars@.subrange(from as int, to as int);
    let mut a: usize = from;
    while a < to && is_white_space(chars[a])
        invariant
            from <= a <= to <= chars@.len(),
            trim_front(s) == trim_front(chars@.subrange(a as int, to as int)),
        decreases to - a,
    {
        assert(chars@.subrange(a as int, to as int).skip(1) == chars@.subrange(a + 1, to as int));
        a += 1;
    }
    let ghost t = chars@.subrange(a as int, to as int);
    assert(trim_front(s) == t);
    let mut b: usize = to;
    while b > a && is_white_space(chars[b - 1])
        invariant
            from <= a <= b <= to <= chars@.len(),
            trim_back(t) == trim_back(chars@.subrange(a as int, b as int)),
        decreases b - a,
    {
        assert(chars@.subrange(a as int, b as int).drop_last() == chars@.subrange(
            a as int,
            b - 1,
        ));
        b -= 1;
    }
    (a, b)
}

// ---------------------------------------------------------------------------
// Token counts
// ---------------------------------------------------------------------------

/// Whether a character is an ASCII punctuation character.
pub open spec fn is_punctuation(c: char) -> bool {
    let n = c as u32;
    ||| 0x21 <= n <= 0x2f
    ||| 0x3a <= n <= 0x40
    ||| 0x5b <= n <= 0x60
    ||| 0x7b <= n <= 0x7e
}

/// Whether a character is Chinese, Japanese or Korean: a unified ideograph, one of extension A, a
/// Hangul syllable, Hiragana or Katakana.
pub open spec fn cjk(c: char) -> bool {
    let n = c as u32;
    ||| 0x4e00 <= n <= 0x9fff
    ||| 0x3400 <= n <= 0x4dbf
    ||| 0xac00 <= n <= 0xd7af
    ||| 0x3040 <= n <= 0x309f
    ||| 0x30a0 <= n <= 0x30ff
}

/// Whether a character is Chinese, Japanese or Korean.
pub fn is_cjk(c: char) -> (r: bool)
    ensures
        r == cjk(c),
{
    let n: u32 = c as u32;
    (0x4e00 <= n && n <= 0x9fff) || (0x3400 <= n && n <= 0x4dbf) || (0xac00 <= n && n <= 0xd7af)
        || (0x3040 <= n && n <= 0x309f) || (0x30a0 <= n && n <= 0x30ff)
}

/// The number of punctuation characters at the end of a word.
pub open spec fn trailing_punctuation(s: Seq<char>) -> nat
    decreases s.len(),
{
    if s.len() > 0 && is_punctuation(s.last()) {
        1 + trailing_punctuation(s.drop_last())
    } else {
        0
    }
}

/// One token for each word and each punctuation character at its end.
pub open spec fn word_tokens(ws: Seq<Seq<char>>) -> nat
    decreases ws.len(),
{
    if ws.len() == 0 {
        0
    } else {
        word_tokens(ws.drop_last()) + 1 + trailing_punctuation(ws.last())
    }
}

/// The number of Chinese, Japanese and Korean characters.
pub open spec fn cjk_count(s: Seq<char>) -> nat
    decreases s.len(),
{
    if s.len() == 0 {
        0
    } else {
        cjk_count(s.drop_last()) + (if cjk(s.last()) {
            1nat
        } else {
            0
        })
    }
}

/// The approximate number of tokens of a text: its words, the punctuation at their ends and its
/// Chinese, Japanese and Korean characters, and at least one for a text that is not empty.
pub open spec fn token_estimate(s: Seq<char>) -> nat {
    let n = word_tokens(words(s)) + cjk_count(s);
    if s.len() == 0 {
        0
    } else if n == 0 {
        1
    } else {
        n
    }
}

/// `n`, or the largest machine number where it is larger.
pub open spec fn capped(n: nat) -> usize {
    if n <= usize::MAX {
        n as usize
    } else {
        usize::MAX
    }
}

fn trailing_count(word: &str) -> (n: usize)
    ensures
        n == trailing_punctuation(word@),
{
    let chars = chars_of(word);
    let mut end: usize = chars.len();
    let mut n: usize = 0;
    assert(chars@.take(chars@.len() as int) == chars@);
    while end > 0 && is_ascii_punctuation(chars[end - 1])
        invariant
            end <= chars@.len(),
            n == chars@.len() - end,
            trailing_punctuation(word@) == n + trailing_punctuation(chars@.take(end as int)),
        decreases end,
    {
        assert(chars@.take(end as int).drop_last() == chars@.take(end - 1));
        end -= 1;
        n += 1;
    }
    n
}

/// Whether a character is an ASCII punctuation character.
pub fn is_ascii_punctuation(c: char) -> (r: bool)
    ensures
        r == is_punctuation(c),
{
    let n: u32 = c as u32;
    (0x21 <= n && n <= 0x2f) || (0x3a <= n && n <= 0x40) || (0x5b <= n && n <= 0x60) || (0x7b <= n
        && n <= 0x7e)
}

/// Approximate count of the tokens of a text, for billing. Exact counts would need the tokenizer
/// of the model.
pub fn estimate_token_count(text: &str) -> (n: usize)
    ensures
        n == capped(token_estimate(text@)),
{
    let chars = chars_of(text);
    if chars.len() == 0 {
        return 0;
    }
    let ws = words_of(text);
    let mut count: usize = 0;
    let mut i: usize = 0;
    assert(text_views(ws@).take(0) == Seq::<Seq<char>>::empty());
    while i < ws.len()
        invariant
            i <= ws@.len(),
            count == capped(word_tokens(text_views(ws@).take(i as int))),
        decreases ws@.len() - i,
    {
        let ghost now = text_views(ws@).take(i + 1);
        assert(now.drop_last() == text_views(ws@).take(i as int));
        assert(now.last() == ws@[i as int]@);
        let trailing: usize = trailing_count(&ws[i]);
        count = count.saturating_add(1).saturating_add(trailing);
        i += 1;
    }
    assert(text_views(ws@).take(ws@.len() as int) == text_views(ws@));
    let ghost tokens = word_tokens(words(text@));
    let mut j: usize = 0;
    while j < chars.len()
        invariant
            j <= chars@.len(),
            count == capped(tokens + cjk_count(chars@.take(j as int))),
        decreases chars@.len() - j,
    {
        assert(chars@.take(j + 1).drop_last() == chars@.take(j as int));
        if is_cjk(chars[j]) {
            count = count.saturating_add(1);
        }
        j += 1;
    }
    assert(chars@.take(chars@.len() as int) == chars@);
    if count == 0 {
        1
    } else {
        count
    }
}

/// The estimate is nothing for the empty text alone, and never less than the number of words or
/// of Chinese, Japanese and Korean characters.
pub proof fn law_token_estimate_bounds(s: Seq<char>)
    ensures
        token_estimate(s) == 0 <==> s.len() == 0,
        words(s).len() <= token_estimate(s),
        cjk_count(s) <= token_estimate(s),
        token_estimate(s) <= 3 * s.len(),
{
    lemma_open_word(s);
    lemma_word_tokens_bounds(words(s));
    lemma_words_length(s);
    lemma_cjk_bound(s);
}

/// The number of characters of all words.
spec fn letters(ws: Seq<Seq<char>>) -> nat
    decreases ws.len(),
{
    if ws.len() == 0 {
        0
    } else {
        letters(ws.drop_last()) + ws.last().len()
    }
}

proof fn lemma_trailing_bound(w: Seq<char>)
    ensures
        trailing_punctuation(w) <= w.len(),
    decreases w.len(),
{
    if w.len() > 0 && is_punctuation(w.last()) {
        lemma_trailing_bound(w.drop_last());
    }
}

proof fn lemma_word_tokens_bounds(ws: Seq<Seq<char>>)
    ensures
        ws.len() <= word_tokens(ws) <= ws.len() + letters(ws),
    decreases ws.len(),
{
    if ws.len() > 0 {
        lemma_word_tokens_bounds(ws.drop_last());
        lemma_trailing_bound(ws.last());
    }
}

proof fn lemma_words_length(s: Seq<char>)
    ensures
        letters(words(s)) <= s.len(),
    decreases s.len(),
{
    if s.len() > 0 {
        let t = s.drop_last();
        lemma_words_length(t);
        lemma_open_word(t);
        let before = words(t);
        if is_space(s.last()) {
        } else if s.len() == 1 || is_space(s[s.len() - 2]) {
            assert(words(s).drop_last() == before);
        } else {
            assert(t.last() == s[s.len() - 2]);
            assert(words(s).drop_last() == before.drop_last());
        }
    }
}

proof fn lemma_cjk_bound(s: Seq<char>)
    ensures
        cjk_count(s) <= s.len(),
    decreases s.len(),
{
    if s.len() > 0 {
        lemma_cjk_bound(s.drop_last());
    }
}

/// Whether a text holds white space alone.
pub open spec fn all_space(s: Seq<char>) -> bool {
    forall|i: int| 0 <= i < s.len() ==> is_space(#[trigger] s[i])
}

/// White space at the end of a text makes no words.
proof fn lemma_words_before_space(a: Seq<char>, gap: Seq<char>)
    requires
        all_space(gap),
    ensures
        words(a + gap) == words(a),
    decreases gap.len(),
{
    let s = a + gap;
    if gap.len() == 0 {
        assert(s == a);
    } else {
        assert(s.drop_last() == a + gap.drop_last());
        assert(is_space(gap[gap.len() - 1]));
        lemma_words_before_space(a, gap.drop_last());
    }
}

/// What follows white space, or nothing, begins a word of its own.
proof fn lemma_words_after_space(a: Seq<char>, b: Seq<char>)
    requires
        a.len() == 0 || is_space(a.last()),
    ensures
        words(a + b) == words(a) + words(b),
    decreases b.len(),
{
    let s = a + b;
    if b.len() == 0 {
        assert(s == a);
        assert(words(a) + words(b) == words(a));
    } else {
        let t = b.drop_last();
        assert(s.drop_last() == a + t);
        assert(s.last() == b.last());
        lemma_words_after_space(a, t);
        if is_space(b.last()) {
        } else if b.len() == 1 || is_space(b[b.len() - 2]) {
            assert(s.len() == 1 || is_space(s[s.len() - 2]));
            assert(words(s) == words(a) + words(b));
        } else {
            assert(s[s.len() - 2] == b[b.len() - 2]);
            assert(t.last() == b[b.len() - 2]);
            lemma_open_word(t);
            let before = words(a) + words(t);
            assert(before.last() == words(t).last());
            assert(before.drop_last() == words(a) + words(t).drop_last());
            assert(words(s) == words(a) + words(b));
        }
    }
}

/// The words of two texts with white space between them are those of the first, followed by those
/// of the second.
pub proof fn law_words_of_joined_texts(a: Seq<char>, gap: Seq<char>, b: Seq<char>)
    requires
        all_space(gap),
        gap.len() > 0,
    ensures
        words(a + gap + b) == words(a) + words(b),
{
    assert(is_space(gap[gap.len() - 1]));
    lemma_words_before_space(a, gap);
    lemma_words_after_space(a + gap, b);
}

/// White space around a text changes none of its words.
pub proof fn law_words_ignore_outer_space(before: Seq<char>, s: Seq<char>, after: Seq<char>)
    requires
        all_space(before),
        all_space(after),
    ensures
        words(before + s + after) == words(s),
{
    lemma_words_before_space(before + s, after);
    assert(before.len() > 0 ==> is_space(before[before.len() - 1]));
    lemma_words_after_space(before, s);
    lemma_words_before_space(Seq::empty(), before);
    assert(Seq::<char>::empty() + before == before);
    assert(words(before) + words(s) == words(s));
}

proof fn lemma_word_tokens_add(a: Seq<Seq<char>>, b: Seq<Seq<char>>)
    ensures
        word_tokens(a + b) == word_tokens(a) + word_tokens(b),
    decreases b.len(),
{
    if b.len() == 0 {
        assert(a + b == a);
    } else {
        assert((a + b).drop_last() == a + b.drop_last());
        lemma_word_tokens_add(a, b.drop_last());
    }
}

proof fn lemma_cjk_count_add(a: Seq<char>, b: Seq<char>)
    ensures
        cjk_count(a + b) == cjk_count(a) + cjk_count(b),
    decreases b.len(),
{
    if b.len() == 0 {
        assert(a + b == a);
    } else {
        assert((a + b).drop_last() == a + b.drop_last());
        lemma_cjk_count_add(a, b.drop_last());
    }
}

proof fn lemma_space_is_not_cjk(s: Seq<char>)
    requires
        all_space(s),
    ensures
        cjk_count(s) == 0,
    decreases s.len(),
{
    if s.len() > 0 {
        assert(is_space(s[s.len() - 1]));
        lemma_space_is_not_cjk(s.drop_last());
    }
}

/// The estimate of two texts with white space between them, however much of it, is the sum of
/// their estimates, where each of them has a word.
pub proof fn law_token_estimate_adds(a: Seq<char>, gap: Seq<char>, b: Seq<char>)
    requires
        all_space(gap),
        gap.len() > 0,
        words(a).len() > 0,
        words(b).len() > 0,
    ensures
        token_estimate(a + gap + b) == token_estimate(a) + token_estimate(b),
{
    law_words_of_joined_texts(a, gap, b);
    lemma_word_tokens_add(words(a), words(b));
    lemma_cjk_count_add(a + gap, b);
    lemma_cjk_count_add(a, gap);
    lemma_space_is_not_cjk(gap);
    lemma_word_tokens_bounds(words(a));
    lemma_word_tokens_bounds(words(b));
    lemma_open_word(a);
    lemma_open_word(b);
}

/// White space before and after a text with words does not change its estimate.
pub proof fn law_token_estimate_ignores_outer_space(
    before: Seq<char>,
    s: Seq<char>,
    after: Seq<char>,
)
    requires
        all_space(before),
        all_space(after),
        words(s).len() > 0,
    ensures
        token_estimate(before + s + after) == token_estimate(s),
{
    law_words_ignore_outer_space(before, s, after);
    lemma_cjk_count_add(before + s, after);
    lemma_cjk_count_add(before, s);
    lemma_space_is_not_cjk(before);
    lemma_space_is_not_cjk(after);
    lemma_word_tokens_bounds(words(s));
    lemma_open_word(s);
}

// ---------------------------------------------------------------------------
// Pieces that keep their separator
// ---------------------------------------------------------------------------

/// The pieces of a text that end after each occurrence of `sep`; what follows the last occurrence
/// is a piece of its own where it is not empty.
pub open spec fn pieces(s: Seq<char>, sep: char) -> Seq<Seq<char>>
    decreases s.len(),
{
    if s.len() == 0 {
        Seq::empty()
    } else {
        let before = pieces(s.drop_last(), sep);
        if s.len() == 1 || s[s.len() - 2] == sep {
            before.push(seq![s.last()])
        } else {
            before.drop_last().push(before.last().push(s.last()))
        }
    }
}

/// The pieces of a text that end after each occurrence of `sep`.
pub fn pieces_of(text: &str, sep: char) -> (r: Vec<String>)
    ensures
        text_views(r@) == pieces(text@, sep),
        r@.len() == pieces(text@, sep).len(),
{
    let chars = chars_of(text);
    let mut r: Vec<String> = Vec::new();
    let mut i: usize = 0;
    assert(text_views(r@) == pieces(chars@.take(0), sep));
    while i < chars.len()
        invariant
            i <= chars@.len(),
            i > 0 ==> r@.len() > 0,
            text_views(r@) == pieces(chars@.take(i as int), sep),
        decreases chars@.len() - i,
    {
        let c = chars[i];
        let ghost before = text_views(r@);
        let ghost now = chars@.take(i + 1);
        proof {
            assert(now.drop_last() == chars@.take(i as int));
            assert(now.last() == c);
        }
        if i == 0 || chars[i - 1] == sep {
            let mut word = String::new();
            word.push(c);
            assert(word@ == seq![c]);
            let ghost added = word@;
            r.push(word);
            assert(text_views(r@) == before.push(added));
        } else {
            match r.pop() {
                Some(word) => {
                    let mut longer = word;
                    assert(before.last() == longer@);
                    longer.push(c);
                    let ghost added = longer@;
                    r.push(longer);
                    assert(text_views(r@) == before.drop_last().push(added));
                },
                None => {
                    assert(false);
                },
            }
        }
        i += 1;
    }
    assert(chars@.take(chars@.len() as int) == chars@);
    r
}

/// The pieces of a text, put together again, are the text; none is empty, and each but the last
/// ends with the separator.
pub proof fn law_pieces_make_the_text(s: Seq<char>, sep: char)
    ensures
        joined(pieces(s, sep)) == s,
        s.len() > 0 ==> pieces(s, sep).len() > 0 && pieces(s, sep).last().last() == s.last(),
        forall|i: int| 0 <= i < pieces(s, sep).len() ==> (#[trigger] pieces(s, sep)[i]).len() > 0,
        forall|i: int|
            0 <= i < pieces(s, sep).len() - 1 ==> (#[trigger] pieces(s, sep)[i]).last() == sep,
    decreases s.len(),
{
    if s.len() > 0 {
        let t = s.drop_last();
        law_pieces_make_the_text(t, sep);
        let before = pieces(t, sep);
        let after = pieces(s, sep);
        if s.len() == 1 || s[s.len() - 2] == sep {
            assert(after.drop_last() == before);
            assert(joined(after) == joined(before) + seq![s.last()]);
            assert(t + seq![s.last()] == s);
        } else {
            let cut = before.drop_last();
            assert(after.drop_last() == cut);
            assert(joined(after) == joined(cut) + before.last().push(s.last()));
            assert(joined(before) == joined(cut) + before.last());
            assert(joined(after) == joined(before).push(s.last()));
            assert(t.push(s.last()) == s);
        }
    }
}

// ---------------------------------------------------------------------------
// Laws of words and estimates
// ---------------------------------------------------------------------------

/// A text without white space is one word, or none where it is empty.
pub proof fn law_text_without_space_is_one_word(s: Seq<char>)
    requires
        forall|i: int| 0 <= i < s.len() ==> !is_space(#[trigger] s[i]),
    ensures
        s.len() > 0 ==> words(s) == seq![s],
        s.len() == 0 ==> words(s).len() == 0,
    decreases s.len(),
{
    if s.len() > 0 {
        let t = s.drop_last();
        assert forall|i: int| 0 <= i < t.len() implies !is_space(#[trigger] t[i]) by {
            assert(t[i] == s[i]);
        }
        law_text_without_space_is_one_word(t);
        assert(!is_space(s[s.len() - 1]));
        if s.len() == 1 {
            assert(words(t).len() == 0);
            assert(s == seq![s.last()]);
            assert(words(s) == seq![s]);
        } else {
            assert(!is_space(s[s.len() - 2]));
            assert(t.push(s.last()) == s);
            assert(words(s) == seq![s]);
        }
    }
}

/// The punctuation at the end of a word is counted as far as it reaches back.
pub proof fn law_trailing_punctuation_is_counted(stem: Seq<char>, marks: Seq<char>)
    requires
        stem.len() > 0 ==> !is_punctuation(stem.last()),
        forall|i: int| 0 <= i < marks.len() ==> is_punctuation(#[trigger] marks[i]),
    ensures
        trailing_punctuation(stem + marks) == marks.len(),
    decreases marks.len(),
{
    let s = stem + marks;
    if marks.len() == 0 {
        assert(s == stem);
    } else {
        let m = marks.drop_last();
        assert forall|i: int| 0 <= i < m.len() implies is_punctuation(#[trigger] m[i]) by {
            assert(m[i] == marks[i]);
        }
        assert(is_punctuation(marks[marks.len() - 1]));
        assert(s.drop_last() == stem + m);
        law_trailing_punctuation_is_counted(stem, m);
    }
}

/// Chinese, Japanese and Korean characters are counted one by one, wherever they stand.
pub proof fn law_cjk_characters_are_counted(s: Seq<char>)
    ensures
        cjk_count(s) == s.filter(|c: char| cjk(c)).len(),
    decreases s.len(),
{
    reveal(Seq::filter);
    if s.len() > 0 {
        law_cjk_characters_are_counted(s.drop_last());
    }
}

/// A word counts for one token, one for each punctuation character at its end and one for each
/// Chinese, Japanese or Korean character in it. Texts of several words count for the sum.
pub proof fn law_token_estimate_of_a_word(stem: Seq<char>, marks: Seq<char>)
    requires
        stem.len() + marks.len() > 0,
        forall|i: int| 0 <= i < stem.len() ==> !is_space(#[trigger] stem[i]),
        stem.len() > 0 ==> !is_punctuation(stem.last()),
        forall|i: int| 0 <= i < marks.len() ==> is_punctuation(#[trigger] marks[i]),
    ensures
        token_estimate(stem + marks) == 1 + marks.len() + stem.filter(|c: char| cjk(c)).len(),
{
    let s = stem + marks;
    assert forall|i: int| 0 <= i < s.len() implies !is_space(#[trigger] s[i]) by {
        if i < stem.len() {
            assert(s[i] == stem[i]);
        } else {
            assert(s[i] == marks[i - stem.len()]);
        }
    }
    law_text_without_space_is_one_word(s);
    law_trailing_punctuation_is_counted(stem, marks);
    law_cjk_characters_are_counted(stem);
    lemma_cjk_count_add(stem, marks);
    lemma_marks_are_not_cjk(marks);
    assert(seq![s].drop_last() == Seq::<Seq<char>>::empty());
    assert(seq![s].last() == s);
    assert(word_tokens(seq![s].drop_last()) == 0);
    assert(word_tokens(seq![s]) == 1 + trailing_punctuation(s));
}

proof fn lemma_marks_are_not_cjk(s: Seq<char>)
    requires
        forall|i: int| 0 <= i < s.len() ==> is_punctuation(#[trigger] s[i]),
    ensures
        cjk_count(s) == 0,
    decreases s.len(),
{
    if s.len() > 0 {
        assert(is_punctuation(s[s.len() - 1]));
        assert forall|i: int| 0 <= i < s.drop_last().len() implies is_punctuation(
            #[trigger] s.drop_last()[i],
        ) by {
            assert(s.drop_last()[i] == s[i]);
        }
        lemma_marks_are_not_cjk(s.drop_last());
    }
}

/// A text is what is left of it without the white space at its ends, and that white space. What is
/// left has no white space at its ends.
pub proof fn law_trimming_takes_space_alone(s: Seq<char>)
    ensures
        trimmed(s).len() > 0 ==> !is_space(trimmed(s)[0]) && !is_space(trimmed(s).last()),
        exists|a: int, b: int|
            0 <= a <= b <= s.len() && #[trigger] s.subrange(a, b) == trimmed(s) && all_space(
                s.take(a),
            ) && all_space(s.skip(b)),
{
    let f = trim_front(s);
    lemma_trim_front(s);
    lemma_trim_back(f);
    let a = s.len() - f.len();
    let t = trim_back(f);
    let b = a + t.len();
    assert(s.skip(a as int) == f);
    assert(f.take(t.len() as int) == t);
    assert(s.subrange(a as int, b as int) == t);
    assert(s.skip(b as int) == f.skip(t.len() as int));
}

proof fn lemma_trim_front(s: Seq<char>)
    ensures
        trim_front(s).len() <= s.len(),
        trim_front(s) == s.skip(s.len() - trim_front(s).len()),
        all_space(s.take(s.len() - trim_front(s).len())),
        trim_front(s).len() > 0 ==> !is_space(trim_front(s)[0]),
    decreases s.len(),
{
    if s.len() > 0 && is_space(s[0]) {
        let t = s.skip(1);
        lemma_trim_front(t);
        let n = trim_front(t).len();
        assert(s.skip(s.len() - n) == t.skip(t.len() - n));
        let head = s.take(s.len() - n);
        assert forall|i: int| 0 <= i < head.len() implies is_space(#[trigger] head[i]) by {
            if i > 0 {
                assert(t.take(t.len() - n)[i - 1] == s[i]);
            }
        }
    } else {
        assert(s.skip(0) == s);
    }
}

proof fn lemma_trim_back(s: Seq<char>)
    ensures
        trim_back(s).len() <= s.len(),
        trim_back(s) == s.take(trim_back(s).len() as int),
        all_space(s.skip(trim_back(s).len() as int)),
        trim_back(s).len() > 0 ==> !is_space(trim_back(s).last()),
    decreases s.len(),
{
    if s.len() > 0 && is_space(s.last()) {
        let t = s.drop_last();
        lemma_trim_back(t);
        let n = trim_back(t).len() as int;
        assert(s.take(n) == t.take(n));
        let tail = s.skip(n);
        assert forall|i: int| 0 <= i < tail.len() implies is_space(#[trigger] tail[i]) by {
            if i < tail.len() - 1 {
                assert(t.skip(n)[i] == tail[i]);
            }
        }
    } else {
        assert(s.take(s.len() as int) == s);
    }
}

/// White space around a text that neither begins nor ends with it is taken away, and nothing else.
pub proof fn law_trimming_finds_the_text(before: Seq<char>, s: Seq<char>, after: Seq<char>)
    requires
        all_space(before),
        all_space(after),
        s.len() > 0,
        !is_space(s[0]),
        !is_space(s.last()),
    ensures
        trimmed(before + s + after) == s,
{
    let whole = before + s + after;
    lemma_trim_front_of(before, s + after);
    assert(before + s + after == before + (s + after));
    assert((s + after)[0] == s[0]);
    lemma_trim_back_of(s, after);
}

proof fn lemma_trim_front_of(before: Seq<char>, s: Seq<char>)
    requires
        all_space(before),
        s.len() > 0,
        !is_space(s[0]),
    ensures
        trim_front(before + s) == s,
    decreases before.len(),
{
    if before.len() == 0 {
        assert(before + s == s);
    } else {
        assert(is_space(before[0]));
        assert((before + s).skip(1) == before.skip(1) + s);
        lemma_trim_front_of(before.skip(1), s);
    }
}

proof fn lemma_trim_back_of(s: Seq<char>, after: Seq<char>)
    requires
        all_space(after),
        s.len() > 0,
        !is_space(s.last()),
    ensures
        trim_back(s + after) == s,
    decreases after.len(),
{
    if after.len() == 0 {
        assert(s + after == s);
    } else {
        assert(is_space(after[after.len() - 1]));
        assert((s + after).drop_last() == s + after.drop_last());
        lemma_trim_back_of(s, after.drop_last());
    }
}

/// Every piece of a text but the last ends with the separator, and no piece holds it elsewhere.
pub proof fn law_pieces_end_with_the_separator(s: Seq<char>, sep: char)
    ensures
        forall|i: int, j: int|
            0 <= i < pieces(s, sep).len() && 0 <= j < pieces(s, sep)[i].len() - 1
                ==> #[trigger] pieces(s, sep)[i][j] != sep,
        forall|i: int|
            0 <= i < pieces(s, sep).len() ==> (#[trigger] pieces(s, sep)[i]).len() > 0,
        forall|i: int|
            0 <= i < pieces(s, sep).len() - 1 ==> (#[trigger] pieces(s, sep)[i]).last() == sep,
        s.len() > 0 ==> pieces(s, sep).len() > 0 && pieces(s, sep).last().last() == s.last(),
    decreases s.len(),
{
    if s.len() > 0 {
        let t = s.drop_last();
        law_pieces_end_with_the_separator(t, sep);
        let before = pieces(t, sep);
        let now = pieces(s, sep);
        if s.len() == 1 || s[s.len() - 2] == sep {
            if s.len() > 1 {
                assert(t.last() == s[s.len() - 2]);
            }
            assert forall|i: int| 0 <= i < now.len() - 1 implies (#[trigger] now[i]).last()
                == sep by {
                assert(now[i] == before[i]);
            }
        } else {
            assert(t.last() == s[s.len() - 2]);
            let w = before.last();
            assert(before[before.len() - 1] == w);
            assert forall|i: int, j: int| 0 <= i < now.len() && 0 <= j < now[i].len() - 1 implies
                #[trigger] now[i][j] != sep by {
                if i < now.len() - 1 {
                    assert(now[i] == before[i]);
                    assert(before[i][j] != sep);
                } else if j < w.len() - 1 {
                    assert(before[before.len() - 1][j] != sep);
                }
            }
            assert forall|i: int| 0 <= i < now.len() - 1 implies (#[trigger] now[i]).last()
                == sep by {
                assert(now[i] == before[i]);
            }
        }
    }
}

/// Chinese, Japanese and Korean characters are those of four ranges: the kana, the ideographs of
/// extension A, the unified ideographs and the Hangul syllables. A count that a machine number
/// holds is told as it is.
pub proof fn law_cjk_ranges_and_counts(c: char, n: nat)
    ensures
        cjk(c) <==> 0x3040 <= c as u32 <= 0x30ff || 0x3400 <= c as u32 <= 0x4dbf || 0x4e00 <= c as u32
            <= 0x9fff || 0xac00 <= c as u32 <= 0xd7af,
        n <= usize::MAX ==> capped(n) == n,
        n > usize::MAX ==> capped(n) == usize::MAX,
{
}

/// A text of white space alone counts for one token, like any text that is not empty.
pub proof fn law_token_estimate_of_space(s: Seq<char>)
    requires
        all_space(s),
        s.len() > 0,
    ensures
        token_estimate(s) == 1,
{
    lemma_words_before_space(Seq::empty(), s);
    assert(Seq::<char>::empty() + s == s);
    lemma_space_is_not_cjk(s);
}

} // verus!
