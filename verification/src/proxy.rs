//! Requests to a language model backend and its streamed answers.
use crate::float64::{divide, from_whole, of_whole, quotient, truncate_to_u64, truncated_to_u64};
use crate::json::{items_at, items_in, lossy, lossy_text, text_at, text_in};
use crate::receipt::text_view;
use crate::request::{request_error_text, request_fault, InferenceRequest, RequestView};
use crate::text::{chars_of, join, text_between};
use crate::words::{
    all_space, capped, estimate_token_count, is_space, law_trimming_finds_the_text, text_views,
    token_estimate, trim_range, trimmed,
};
use vstd::arithmetic::power2::pow2;
use vstd::prelude::*;
use vstd::utf8::{decode_utf8, encode_utf8_decode_utf8, valid_utf8};

verus! {

// ---------------------------------------------------------------------------
// The request
// ---------------------------------------------------------------------------

/// A streaming chat request to a backend with one message of the user.
#[derive(Debug)]
pub struct CompletionRequest {
    pub endpoint: String,
    pub model: String,
    pub role: String,
    pub content: String,
    /// Single precision, as its bits.
    pub temperature: u32,
    pub stream: bool,
    pub max_tokens: Option<usize>,
}

/// The values of a chat request.
pub struct CompletionView {
    pub endpoint: Seq<char>,
    pub model: Seq<char>,
    pub role: Seq<char>,
    pub content: Seq<char>,
    pub temperature: u32,
    pub stream: bool,
    pub max_tokens: Option<usize>,
}

impl View for CompletionRequest {
    type V = CompletionView;

    open spec fn view(&self) -> CompletionView {
        CompletionView {
            endpoint: self.endpoint@,
            model: self.model@,
            role: self.role@,
            content: self.content@,
            temperature: self.temperature,
            stream: self.stream,
            max_tokens: self.max_tokens,
        }
    }
}

/// The chat request for an inference request.
pub open spec fn completion(backend_url: Seq<char>, r: RequestView) -> CompletionView {
    CompletionView {
        endpoint: backend_url + "/v1/chat/completions"@,
        model: r.model,
        role: "user"@,
        content: r.prompt,
        temperature: r.temperature,
        stream: true,
        max_tokens: r.max_tokens,
    }
}

/// The chat request for an inference request, or the words for a request that is not valid.
/// `temperature` is the temperature of the request in digits.
pub fn completion_request(backend_url: &str, req: &InferenceRequest, temperature: &str) -> (
    r: Result<CompletionRequest, String>)
    ensures
        match (r, request_fault(req@)) {
            (Ok(c), None) => c@ == completion(backend_url@, req@),
            (Err(words), Some(e)) => words@ == "Request validation failed: "@ + request_error_text(
                e,
                temperature@,
            ),
            _ => false,
        },
{
    match req.validate() {
        Err(e) => Err(join("Request validation failed: ", &e.message(temperature))),
        Ok(_) => Ok(
            CompletionRequest {
                endpoint: join(backend_url, "/v1/chat/completions"),
                model: req.model.clone(),
                role: "user".to_owned(),
                content: req.prompt.clone(),
                temperature: req.temperature,
                stream: true,
                max_tokens: req.max_tokens,
            },
        ),
    }
}

/// The words for a backend that cannot be reached.
pub fn unreachable_backend(backend_url: &str, error: &str) -> (r: String)
    ensures
        r@ == "Failed to connect to LLM backend at "@ + backend_url@ + ": "@ + error@,
{
    let mut r = join("Failed to connect to LLM backend at ", backend_url);
    r.append(": ");
    r.append(error);
    r
}

/// The words for a backend that answers with an error.
pub fn failing_backend(status: &str, body: &str) -> (r: String)
    ensures
        r@ == "LLM backend error ("@ + status@ + "): "@ + body@,
{
    let mut r = join("LLM backend error (", status);
    r.append("): ");
    r.append(body);
    r
}

// ---------------------------------------------------------------------------
// The streamed answer
// ---------------------------------------------------------------------------

/// What a line of an answer says.
#[derive(Debug)]
pub enum Line {
    /// Nothing of interest.
    Nothing,
    /// The end of what was sent.
    Done,
    /// An event with the given data.
    Data(String),
}

/// The values of what a line says.
pub enum LineView {
    Nothing,
    Done,
    Data(Seq<char>),
}

impl View for Line {
    type V = LineView;

    open spec fn view(&self) -> LineView {
        match self {
            Line::Nothing => LineView::Nothing,
            Line::Done => LineView::Done,
            Line::Data(s) => LineView::Data(s@),
        }
    }
}

/// What a line says: a line that starts with `data: ` is an event, and the data `[DONE]` marks the
/// end.
pub open spec fn line_meaning(line: Seq<char>) -> LineView {
    let t = trimmed(line);
    if t.len() >= 6 && t.take(6) == seq!['d', 'a', 't', 'a', ':', ' '] {
        if t.skip(6) == seq!['[', 'D', 'O', 'N', 'E', ']'] {
            LineView::Done
        } else {
            LineView::Data(t.skip(6))
        }
    } else {
        LineView::Nothing
    }
}

fn read_line(chars: &Vec<char>, from: usize, to: usize) -> (r: Line)
    requires
        from <= to <= chars@.len(),
    ensures
        r@ == line_meaning(chars@.subrange(from as int, to as int)),
{
    let (a, b) = trim_range(chars, from, to);
    let ghost t = chars@.subrange(a as int, b as int);
    if b - a < 6 {
        return Line::Nothing;
    }
    if !(chars[a] == 'd' && chars[a + 1] == 'a' && chars[a + 2] == 't' && chars[a + 3] == 'a'
        && chars[a + 4] == ':' && chars[a + 5] == ' ') {
        proof {
            let p = t.take(6);
            let w = seq!['d', 'a', 't', 'a', ':', ' '];
            assert(p[0] == chars@[a as int] && p[1] == chars@[a + 1] && p[2] == chars@[a + 2]
                && p[3] == chars@[a + 3] && p[4] == chars@[a + 4] && p[5] == chars@[a + 5]);
            assert(w[0] == 'd' && w[1] == 'a' && w[2] == 't' && w[3] == 'a' && w[4] == ':' && w[5]
                == ' ');
            assert(p != w);
        }
        return Line::Nothing;
    }
    assert(t.take(6) == seq!['d', 'a', 't', 'a', ':', ' ']);
    let done = b - a == 12 && chars[a + 6] == '[' && chars[a + 7] == 'D' && chars[a + 8] == 'O'
        && chars[a + 9] == 'N' && chars[a + 10] == 'E' && chars[a + 11] == ']';
    assert(t.skip(6) == chars@.subrange(a + 6, b as int));
    if done {
        assert(t.skip(6) == seq!['[', 'D', 'O', 'N', 'E', ']']);
        return Line::Done;
    }
    proof {
        let d = t.skip(6);
        let w = seq!['[', 'D', 'O', 'N', 'E', ']'];
        assert(w[0] == '[' && w[1] == 'D' && w[2] == 'O' && w[3] == 'N' && w[4] == 'E' && w[5]
            == ']');
        if d == w {
            assert(d[0] == chars@[a + 6] && d[1] == chars@[a + 7] && d[2] == chars@[a + 8] && d[3]
                == chars@[a + 9] && d[4] == chars@[a + 10] && d[5] == chars@[a + 11]);
        }
    }
    Line::Data(text_between(chars, a + 6, b))
}

/// What a line of an answer says.
pub fn meaning_of_line(line: &str) -> (r: Line)
    ensures
        r@ == line_meaning(line@),
{
    let chars = chars_of(line);
    assert(chars@.subrange(0, chars@.len() as int) == chars@);
    read_line(&chars, 0, chars.len())
}

/// The content of an event from what its JSON holds: whether there is a list of choices, and the
/// content of the first of them. Empty content counts as none.
pub open spec fn event_content(listed: bool, content: Option<Seq<char>>) -> Option<Seq<char>> {
    if listed && content is Some && content->Some_0.len() > 0 {
        content
    } else {
        None
    }
}

/// The content of an event from what its JSON holds.
pub fn content_of_event(listed: bool, content: Option<String>) -> (r: Option<String>)
    ensures
        text_view(r) == event_content(listed, text_view(content)),
{
    match content {
        Some(c) => if !listed || c.as_str().is_empty() {
            None
        } else {
            Some(c)
        },
        None => None,
    }
}

/// The content that the data of an event carry.
pub open spec fn content(data: Seq<char>) -> Option<Seq<char>> {
    event_content(
        items_in(data, "/choices"@) is Some,
        text_in(data, "/choices/0/delta/content"@),
    )
}

/// The content that the data of an event carry.
pub fn content_of(data: &str) -> (r: Option<String>)
    ensures
        text_view(r) == content(data@),
{
    let listed = items_at(data, "/choices").is_some();
    let text = text_at(data, "/choices/0/delta/content");
    content_of_event(listed, text)
}

/// The number of characters before the first line break, or of all where there is none.
pub open spec fn line_len(s: Seq<char>) -> nat
    decreases s.len(),
{
    if s.len() == 0 || s[0] == '\n' {
        0
    } else {
        1 + line_len(s.skip(1))
    }
}

/// What reading a buffer gives.
pub struct ReadView {
    /// The contents of the events that were read.
    pub contents: Seq<Seq<char>>,
    /// What is left in the buffer.
    pub rest: Seq<char>,
    /// Whether reading ended at an end mark.
    pub done: bool,
}

/// What reading a buffer gives: complete lines are taken one by one, up to an end mark. What
/// follows an end mark, and a line that is not complete, stays in the buffer.
pub open spec fn read(buffer: Seq<char>) -> ReadView
    decreases buffer.len(),
{
    let n = line_len(buffer) as int;
    if n >= buffer.len() {
        ReadView { contents: Seq::empty(), rest: buffer, done: false }
    } else {
        let after = buffer.skip(n + 1);
        match line_meaning(buffer.take(n + 1)) {
            LineView::Nothing => read(after),
            LineView::Done => ReadView { contents: Seq::empty(), rest: after, done: true },
            LineView::Data(data) => match content(data) {
                None => read(after),
                Some(c) => {
                    let r = read(after);
                    ReadView { contents: seq![c] + r.contents, rest: r.rest, done: r.done }
                },
            },
        }
    }
}

/// The sum of two machine numbers, beginning again at zero beyond the largest.
pub open spec fn wrapped_sum(a: usize, b: usize) -> usize {
    if a + b > usize::MAX {
        (a + b - usize::MAX - 1) as usize
    } else {
        (a + b) as usize
    }
}

/// The characters of contents, counted up from a number.
pub open spec fn counted_characters(start: usize, contents: Seq<Seq<char>>) -> usize
    decreases contents.len(),
{
    if contents.len() == 0 {
        start
    } else {
        wrapped_sum(
            counted_characters(start, contents.drop_last()),
            contents.last().len() as usize,
        )
    }
}

/// The tokens of contents, counted up from a number.
pub open spec fn counted_tokens(start: usize, contents: Seq<Seq<char>>) -> usize
    decreases contents.len(),
{
    if contents.len() == 0 {
        start
    } else {
        wrapped_sum(
            counted_tokens(start, contents.drop_last()),
            capped(token_estimate(contents.last())),
        )
    }
}

/// The tokens of an answer from its counts: the estimate, or one for every four characters where
/// the estimate is nothing.
pub open spec fn final_tokens(characters: usize, tokens: usize) -> usize {
    if tokens == 0 && characters > 0 {
        ((truncated_to_u64(of_whole(characters as u64)) + 3) / 4) as usize
    } else {
        tokens
    }
}

/// Tokens per second over the given seconds, and `otherwise` where no time has passed. All but the
/// tokens are doubles.
pub open spec fn speed(tokens: usize, elapsed: u64, otherwise: u64) -> u64 {
    if crate::float64::less(0, elapsed) {
        quotient(of_whole(tokens as u64), elapsed)
    } else {
        otherwise
    }
}

/// Tokens per second over the given seconds, and `otherwise` where no time has passed.
pub fn speed_of(tokens: usize, elapsed: u64, otherwise: u64) -> (r: u64)
    ensures
        r == speed(tokens, elapsed, otherwise),
{
    if crate::float64::is_less(0, elapsed) {
        divide(from_whole(tokens as u64), elapsed)
    } else {
        otherwise
    }
}

/// The reader of a streamed answer.
pub struct AnswerReader {
    buffer: String,
    total_characters: usize,
    total_tokens: usize,
}

/// The values of a reader.
pub struct ReaderView {
    pub buffer: Seq<char>,
    pub total_characters: usize,
    pub total_tokens: usize,
}

impl View for AnswerReader {
    type V = ReaderView;

    closed spec fn view(&self) -> ReaderView {
        ReaderView {
            buffer: self.buffer@,
            total_characters: self.total_characters,
            total_tokens: self.total_tokens,
        }
    }
}

fn wrapping_sum(a: usize, b: usize) -> (r: usize)
    ensures
        r == wrapped_sum(a, b),
{
    if a > usize::MAX - b {
        a - (usize::MAX - b) - 1
    } else {
        a + b
    }
}

fn find_line_end(chars: &Vec<char>, from: usize) -> (n: usize)
    requires
        from <= chars@.len(),
    ensures
        from <= n <= chars@.len(),
        n - from == line_len(chars@.skip(from as int)),
{
    let mut n: usize = from;
    let ghost s = chars@.skip(from as int);
    while n < chars.len() && chars[n] != '\n'
        invariant
            from <= n <= chars@.len(),
            line_len(s) == n - from + line_len(chars@.skip(n as int)),
        decreases chars@.len() - n,
    {
        assert(chars@.skip(n as int).skip(1) == chars@.skip(n + 1));
        n += 1;
    }
    n
}

impl AnswerReader {
    /// A reader at the beginning of an answer.
    pub fn new() -> (r: AnswerReader)
        ensures
            r@ == (ReaderView { buffer: Seq::empty(), total_characters: 0, total_tokens: 0 }),
    {
        let r = AnswerReader { buffer: String::new(), total_characters: 0, total_tokens: 0 };
        assert(r.buffer@ == Seq::<char>::empty());
        r
    }

    /// Read the next piece of an answer as it came. Returns the contents of the events that it
    /// completes. A piece in UTF-8 is read as the text that it encodes.
    pub fn feed_bytes(&mut self, chunk: &[u8]) -> (r: Vec<String>)
        ensures
            ({
                let got = read(old(self)@.buffer + lossy(chunk@));
                &&& text_views(r@) == got.contents
                &&& final(self)@ == ReaderView {
                    buffer: got.rest,
                    total_characters: counted_characters(old(self)@.total_characters, got.contents),
                    total_tokens: counted_tokens(old(self)@.total_tokens, got.contents),
                }
                &&& valid_utf8(chunk@) ==> got == read(old(self)@.buffer + decode_utf8(chunk@))
            }),
    {
        let text = lossy_text(chunk);
        proof {
            encode_utf8_decode_utf8(text@);
        }
        self.feed(&text)
    }

    /// Read the next piece of an answer. Returns the contents of the events that it completes.
    pub fn feed(&mut self, chunk: &str) -> (r: Vec<String>)
        ensures
            ({
                let got = read(old(self)@.buffer + chunk@);
                &&& text_views(r@) == got.contents
                &&& final(self)@ == ReaderView {
                    buffer: got.rest,
                    total_characters: counted_characters(old(self)@.total_characters, got.contents),
                    total_tokens: counted_tokens(old(self)@.total_tokens, got.contents),
                }
            }),
    {
        let text = join(&self.buffer, chunk);
        let chars = chars_of(&text);
        let ghost whole = read(chars@);
        let mut contents: Vec<String> = Vec::new();
        let mut from: usize = 0;
        let mut to: usize = find_line_end(&chars, 0);
        let mut done = false;
        proof {
            assert(chars@.skip(0) == chars@);
            assert(text_views(contents@) + whole.contents == whole.contents);
            assert(text_views(contents@) == Seq::<Seq<char>>::empty());
        }
        while !done && to < chars.len()
            invariant
                from <= to <= chars@.len(),
                !done ==> to - from == line_len(chars@.skip(from as int)),
                !done ==> whole.contents == text_views(contents@) + read(
                    chars@.skip(from as int),
                ).contents,
                !done ==> whole.rest == read(chars@.skip(from as int)).rest,
                done ==> whole.contents == text_views(contents@) && whole.rest == chars@.skip(
                    from as int,
                ),
                self.total_characters == counted_characters(
                    old(self)@.total_characters,
                    text_views(contents@),
                ),
                self.total_tokens == counted_tokens(
                    old(self)@.total_tokens,
                    text_views(contents@),
                ),
            decreases chars@.len() - from,
        {
            let ghost here = chars@.skip(from as int);
            let ghost before = text_views(contents@);
            let line = read_line(&chars, from, to + 1);
            proof {
                assert(here.take(to + 1 - from) == chars@.subrange(from as int, to + 1));
                assert(here.skip(to + 1 - from) == chars@.skip(to + 1));
            }
            from = to + 1;
            match line {
                Line::Nothing => {},
                Line::Done => {
                    assert(before + Seq::<Seq<char>>::empty() == before);
                    done = true;
                },
                Line::Data(data) => match content_of(&data) {
                    None => {},
                    Some(c) => {
                        self.total_characters = wrapping_sum(
                            self.total_characters,
                            c.as_str().unicode_len(),
                        );
                        self.total_tokens = wrapping_sum(
                            self.total_tokens,
                            estimate_token_count(&c),
                        );
                        let ghost added = c@;
                        contents.push(c);
                        proof {
                            assert(text_views(contents@) == before.push(added));
                            assert(before.push(added).drop_last() == before);
                            let next = read(chars@.skip(from as int)).contents;
                            assert(before + (seq![added] + next) == before.push(added) + next);
                        }
                    },
                },
            }
            if !done {
                to = find_line_end(&chars, from);
            } else {
                to = from;
            }
        }
        proof {
            if !done {
                assert(read(chars@.skip(from as int)).contents == Seq::<Seq<char>>::empty());
                assert(text_views(contents@) + Seq::<Seq<char>>::empty() == text_views(contents@));
            }
            assert(chars@.subrange(from as int, chars@.len() as int) == chars@.skip(from as int));
        }
        self.buffer = text_between(&chars, from, chars.len());
        contents
    }

    /// The tokens of the answer so far and their speed over the given seconds.
    pub fn metrics(&self, elapsed: u64) -> (r: (usize, u64))
        ensures
            r.0 == final_tokens(self@.total_characters, self@.total_tokens),
            r.1 == speed(r.0, elapsed, 0),
    {
        let tokens: usize = if self.total_tokens == 0 && self.total_characters > 0 {
            let n: u64 = truncate_to_u64(from_whole(self.total_characters as u64));
            let quarter: u64 = n / 4;
            let r: u64 = if n % 4 == 0 {
                quarter
            } else {
                quarter + 1
            };
            r as usize
        } else {
            self.total_tokens
        };
        (tokens, speed_of(tokens, elapsed, 0))
    }
}

proof fn lemma_line_len_append(a: Seq<char>, b: Seq<char>)
    ensures
        line_len(a) <= a.len(),
        line_len(a) < a.len() ==> line_len(a + b) == line_len(a),
    decreases a.len(),
{
    if a.len() > 0 && a[0] != '\n' {
        lemma_line_len_append(a.skip(1), b);
        assert((a + b).skip(1) == a.skip(1) + b);
        assert((a + b)[0] == a[0]);
    } else if a.len() > 0 {
        assert((a + b)[0] == a[0]);
    }
}

/// Where an answer is cut into pieces does not matter: as long as no end mark was read, reading
/// two pieces one after the other gives what reading them at once gives.
pub proof fn law_pieces_read_as_whole(a: Seq<char>, b: Seq<char>)
    requires
        !read(a).done,
    ensures
        read(a + b).contents == read(a).contents + read(read(a).rest + b).contents,
        read(a + b).rest == read(read(a).rest + b).rest,
        read(a + b).done == read(read(a).rest + b).done,
    decreases a.len(),
{
    let n = line_len(a) as int;
    lemma_line_len_append(a, b);
    if n >= a.len() {
        assert(Seq::<Seq<char>>::empty() + read(a + b).contents == read(a + b).contents);
    } else {
        let after = a.skip(n + 1);
        assert((a + b).take(n + 1) == a.take(n + 1));
        assert((a + b).skip(n + 1) == after + b);
        law_pieces_read_as_whole(after, b);
        match line_meaning(a.take(n + 1)) {
            LineView::Data(data) => {
                if content(data) is Some {
                    let c = content(data)->Some_0;
                    let r = read(after).contents;
                    let s = read(read(after).rest + b).contents;
                    assert(seq![c] + (r + s) == (seq![c] + r) + s);
                }
            },
            _ => {},
        }
    }
}

/// What reading leaves in the buffer holds no complete line, unless an end mark was read.
pub proof fn law_rest_is_incomplete_line(a: Seq<char>)
    requires
        !read(a).done,
    ensures
        line_len(read(a).rest) == read(a).rest.len(),
    decreases a.len(),
{
    let n = line_len(a) as int;
    lemma_line_len_append(a, Seq::empty());
    if n < a.len() {
        law_rest_is_incomplete_line(a.skip(n + 1));
    }
}

// ---------------------------------------------------------------------------
// Laws of requests and answers
// ---------------------------------------------------------------------------

/// The chat request asks the model of the request, as the user, for a streamed answer to the
/// prompt, with the temperature and the tokens of the request.
pub proof fn law_completion_carries_the_request(backend_url: Seq<char>, r: RequestView)
    ensures
        ({
            let c = completion(backend_url, r);
            &&& c.endpoint == backend_url + "/v1/chat/completions"@
            &&& c.model == r.model
            &&& c.role == "user"@
            &&& c.content == r.prompt
            &&& c.temperature == r.temperature
            &&& c.stream
            &&& c.max_tokens == r.max_tokens
        }),
{
}

/// A line with `data: ` in front, whatever white space is around it, is an event with what follows
/// as its data, but for `[DONE]`, which marks the end.
pub proof fn law_data_lines_are_events(before: Seq<char>, data: Seq<char>, after: Seq<char>)
    requires
        all_space(before),
        all_space(after),
        data.len() > 0,
        !is_space(data.last()),
    ensures
        ({
            let line = before + ("data: "@ + data) + after;
            &&& data == "[DONE]"@ ==> line_meaning(line) == LineView::Done
            &&& data != "[DONE]"@ ==> line_meaning(line) == LineView::Data(data)
        }),
{
    reveal_strlit("data: ");
    reveal_strlit("[DONE]");
    let s = "data: "@ + data;
    assert("data: "@[0] == 'd');
    assert(!is_space('d'));
    assert(s[0] == 'd');
    assert(s.last() == data.last());
    law_trimming_finds_the_text(before, s, after);
    assert("data: "@ == seq!['d', 'a', 't', 'a', ':', ' ']);
    assert("[DONE]"@ == seq!['[', 'D', 'O', 'N', 'E', ']']);
    assert(s.take(6) == "data: "@);
    assert(s.skip(6) == data);
}

/// A line that does not begin with `data: `, white space aside, says nothing.
pub proof fn law_other_lines_say_nothing(line: Seq<char>)
    requires
        trimmed(line).len() < 6 || trimmed(line).take(6) != "data: "@,
    ensures
        line_meaning(line) == LineView::Nothing,
{
    reveal_strlit("data: ");
    assert("data: "@ == seq!['d', 'a', 't', 'a', ':', ' ']);
}

/// An event carries content exactly where it lists choices of which the first has a text that is
/// not empty, and the content is that text.
pub proof fn law_content_is_that_of_the_first_choice(data: Seq<char>)
    ensures
        ({
            let text = text_in(data, "/choices/0/delta/content"@);
            &&& content(data) is Some <==> items_in(data, "/choices"@) is Some && text is Some
                && text->Some_0.len() > 0
            &&& content(data) is Some ==> content(data)->Some_0 == text->Some_0
        }),
{
}

proof fn lemma_line_len_of(line: Seq<char>, rest: Seq<char>)
    requires
        !line.contains('\n'),
    ensures
        line_len(line.push('\n') + rest) == line.len(),
    decreases line.len(),
{
    let s = line.push('\n') + rest;
    if line.len() > 0 {
        assert(line.contains(line[0]));
        assert(s[0] == line[0]);
        let tail = line.skip(1);
        assert(s.skip(1) == tail.push('\n') + rest);
        assert(!tail.contains('\n')) by {
            if tail.contains('\n') {
                let i = choose|i: int| 0 <= i < tail.len() && tail[i] == '\n';
                assert(line[i + 1] == '\n');
            }
        }
        lemma_line_len_of(tail, rest);
    } else {
        assert(s[0] == '\n');
    }
}

/// A complete line is read before what follows it: an event gives its content, a line that says
/// nothing gives nothing, and after an end mark nothing more is read.
pub proof fn law_lines_are_read_in_order(line: Seq<char>, rest: Seq<char>)
    requires
        !line.contains('\n'),
    ensures
        ({
            let whole = read(line.push('\n') + rest);
            let later = read(rest);
            match line_meaning(line.push('\n')) {
                LineView::Nothing => whole == later,
                LineView::Done => whole.contents.len() == 0 && whole.rest == rest && whole.done,
                LineView::Data(data) => match content(data) {
                    None => whole == later,
                    Some(c) => {
                        &&& whole.contents == seq![c] + later.contents
                        &&& whole.rest == later.rest
                        &&& whole.done == later.done
                    },
                },
            }
        }),
{
    let s = line.push('\n') + rest;
    lemma_line_len_of(line, rest);
    let n = line.len() as int;
    assert(s.take(n + 1) == line.push('\n'));
    assert(s.skip(n + 1) == rest);
}

/// Without a line break nothing is read and everything is kept.
pub proof fn law_incomplete_lines_wait(s: Seq<char>)
    requires
        !s.contains('\n'),
    ensures
        read(s).contents.len() == 0,
        read(s).rest == s,
        !read(s).done,
{
    lemma_line_len_without(s);
}

proof fn lemma_line_len_without(s: Seq<char>)
    requires
        !s.contains('\n'),
    ensures
        line_len(s) == s.len(),
    decreases s.len(),
{
    if s.len() > 0 {
        assert(s.contains(s[0]));
        let tail = s.skip(1);
        assert(!tail.contains('\n')) by {
            if tail.contains('\n') {
                let i = choose|i: int| 0 <= i < tail.len() && tail[i] == '\n';
                assert(s[i + 1] == '\n');
            }
        }
        lemma_line_len_without(tail);
    }
}

/// One more content adds its characters and its estimated tokens to the counts, as far as machine
/// numbers reach.
pub proof fn law_counts_add_up(start: usize, contents: Seq<Seq<char>>, more: Seq<char>)
    ensures
        ({
            let characters = counted_characters(start, contents);
            let tokens = counted_tokens(start, contents);
            &&& characters + more.len() <= usize::MAX ==> counted_characters(
                start,
                contents.push(more),
            ) == characters + more.len()
            &&& tokens + token_estimate(more) <= usize::MAX ==> counted_tokens(
                start,
                contents.push(more),
            ) == tokens + token_estimate(more)
            &&& counted_characters(start, Seq::empty()) == start
            &&& counted_tokens(start, Seq::empty()) == start
        }),
{
    assert(contents.push(more).drop_last() == contents);
    assert(contents.push(more).last() == more);
}

/// The tokens of an answer are the estimate. Where that is nothing they are a quarter of the
/// characters, rounded up.
pub proof fn law_tokens_of_an_answer(characters: usize, tokens: usize)
    requires
        characters < crate::float_laws::WHOLE_LIMIT,
    ensures
        tokens > 0 ==> final_tokens(characters, tokens) == tokens,
        tokens == 0 ==> 4 * final_tokens(characters, tokens) - 3 <= characters <= 4 * final_tokens(
            characters,
            tokens,
        ) || (characters == 0 && final_tokens(characters, tokens) == 0),
{
    crate::float_laws::law_whole_reads_back(characters as u64);
}

/// The speed is the tokens over the seconds: no double lies between the two. Where no time has
/// passed it is the value given for that.
pub proof fn law_speed_is_tokens_per_second(
    tokens: usize,
    elapsed: u64,
    otherwise: u64,
    c: u64,
)
    requires
        tokens < crate::float_laws::WHOLE_LIMIT,
        crate::float64::magnitude(c) < crate::float64::INFINITY,
        crate::float64::magnitude(elapsed) < crate::float64::INFINITY,
    ensures
        ({
            let v = speed(tokens, elapsed, otherwise);
            let exact = tokens * pow2(1074) * pow2(1074);
            let taken = crate::float64::signed_units(c) * crate::float64::units(elapsed);
            &&& crate::float64::place(elapsed) <= 0 ==> v == otherwise
            &&& crate::float64::place(elapsed) > 0 ==> {
                &&& taken <= exact ==> crate::float64::place(c) <= crate::float64::place(v)
                &&& taken >= exact ==> crate::float64::place(c) >= crate::float64::place(v)
            }
        }),
{
    crate::float_laws::law_whole_is_exact(tokens as u64);
    if crate::float64::place(elapsed) > 0 {
        crate::float_laws::law_quotient_is_faithful(of_whole(tokens as u64), elapsed, c);
    }
}

} // verus!
