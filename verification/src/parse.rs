//! The parser: a recursive-descent grammar over an in-memory character
//! buffer, verified against a specification-level parser over character
//! sequences.

use vstd::prelude::*;

use crate::counter::{lc_after, lemma_lc_after_push, LineColCounter};
use crate::err::{JsefErr, JsefErrType};
use crate::value::{
    dict_set_path, view_keys, view_list, view_value, JsefDict, JsefList, JsefValue, SpecDict,
    SpecValue,
};
use crate::{err_at, spec_is_ws, spec_unescape, spec_word_char, is_word_char, DEPTH_LIMIT};

verus! {

/// The character at index `i`, or `None` past the end.
pub open spec fn char_at(s: Seq<char>, i: int) -> Option<char> {
    if 0 <= i < s.len() {
        Some(s[i])
    } else {
        None
    }
}

/// The outcome of one grammar production: the parsed thing paired with the
/// first index it did not consume, or the positioned error it failed with.
pub type SpecParsed<T> = Result<(T, int), JsefErr>;

/// The first index at or after `i` that holds a line feed, or the end.
pub open spec fn spec_skip_line(s: Seq<char>, i: int) -> int
    decreases s.len() - i,
{
    if 0 <= i < s.len() && s[i] != '\n' {
        spec_skip_line(s, i + 1)
    } else {
        i
    }
}

pub proof fn lemma_skip_line_bounds(s: Seq<char>, i: int)
    requires
        0 <= i <= s.len(),
    ensures
        i <= spec_skip_line(s, i) <= s.len(),
    decreases s.len() - i,
{
    if i < s.len() && s[i] != '\n' {
        lemma_skip_line_bounds(s, i + 1);
    }
}

/// The first index at or after `i` that starts a token: separators are
/// skipped, and a `#` skips everything through the end of its line.
pub open spec fn spec_skip_ws(s: Seq<char>, i: int) -> int
    decreases s.len() - i,
        via spec_skip_ws_dec
{
    if !(0 <= i < s.len()) {
        i
    } else if spec_is_ws(s[i]) {
        spec_skip_ws(s, i + 1)
    } else if s[i] == '#' {
        spec_skip_ws(s, spec_skip_line(s, i + 1))
    } else {
        i
    }
}

#[via_fn]
proof fn spec_skip_ws_dec(s: Seq<char>, i: int) {
    if 0 <= i < s.len() && !spec_is_ws(s[i]) && s[i] == '#' {
        lemma_skip_line_bounds(s, i + 1);
    }
}

pub proof fn lemma_skip_ws_bounds(s: Seq<char>, i: int)
    requires
        0 <= i <= s.len(),
    ensures
        i <= spec_skip_ws(s, i) <= s.len(),
    decreases s.len() - i,
{
    if i < s.len() {
        if spec_is_ws(s[i]) {
            lemma_skip_ws_bounds(s, i + 1);
        } else if s[i] == '#' {
            lemma_skip_line_bounds(s, i + 1);
            lemma_skip_ws_bounds(s, spec_skip_line(s, i + 1));
        }
    }
}

/// The end of the maximal word-character run starting at `i`.
pub open spec fn spec_word_end(s: Seq<char>, i: int) -> int
    decreases s.len() - i,
{
    if 0 <= i < s.len() && spec_word_char(s[i]) {
        spec_word_end(s, i + 1)
    } else {
        i
    }
}

/// A word: a maximal, non-empty run of word characters.
pub open spec fn spec_parse_word(s: Seq<char>, i: int) -> SpecParsed<Seq<char>> {
    let e = spec_word_end(s, i);
    if e > i {
        Ok((s.subrange(i, e), e))
    } else {
        Err(err_at(s, i, JsefErrType::Unexpected(char_at(s, i))))
    }
}

/// The inside of a quoted string, starting just after the opening quote:
/// everything up to the closing quote, with each `\`-escape replaced by the
/// character it stands for. Reaching the end of input before the closing
/// quote is an error.
pub open spec fn spec_scan_string(s: Seq<char>, i: int) -> SpecParsed<Seq<char>>
    decreases s.len() - i,
{
    if !(0 <= i < s.len()) {
        Err(err_at(s, s.len() as int, JsefErrType::Mismatch('"', None)))
    } else if s[i] == '"' {
        Ok((Seq::empty(), i + 1))
    } else if s[i] == '\\' {
        if i + 1 < s.len() {
            match spec_scan_string(s, i + 2) {
                Ok((rest, j)) => Ok((seq![spec_unescape(s[i + 1])] + rest, j)),
                Err(e) => Err(e),
            }
        } else {
            Err(err_at(s, s.len() as int, JsefErrType::Unexpected(None)))
        }
    } else {
        match spec_scan_string(s, i + 1) {
            Ok((rest, j)) => Ok((seq![s[i]] + rest, j)),
            Err(e) => Err(e),
        }
    }
}

/// A quoted string token, starting at its opening quote.
pub open spec fn spec_parse_string(s: Seq<char>, i: int) -> SpecParsed<Seq<char>> {
    if char_at(s, i) == Some('"') {
        spec_scan_string(s, i + 1)
    } else {
        Err(err_at(s, i, JsefErrType::Mismatch('"', char_at(s, i))))
    }
}

/// An identifier: a quoted string or a word.
pub open spec fn spec_parse_ident(s: Seq<char>, i: int) -> SpecParsed<Seq<char>> {
    if char_at(s, i) == Some('"') {
        spec_parse_string(s, i)
    } else {
        spec_parse_word(s, i)
    }
}

/// The keys of a dotted path after its first identifier: `.ident` repeats,
/// with separators allowed around the dots.
pub open spec fn spec_parse_path(s: Seq<char>, i: int, path: Seq<Seq<char>>) -> SpecParsed<
    Seq<Seq<char>>,
>
    decreases s.len() - i,
{
    if char_at(s, i) == Some('.') {
        let j = spec_skip_ws(s, i + 1);
        if i < j <= s.len() {
            match spec_parse_ident(s, j) {
                Ok((k, m)) => {
                    let n = spec_skip_ws(s, m);
                    if i < n <= s.len() {
                        spec_parse_path(s, n, path.push(k))
                    } else {
                        arbitrary()
                    }
                },
                Err(e) => Err(e),
            }
        } else {
            arbitrary()
        }
    } else {
        Ok((path, i))
    }
}

/// Any value: `{` opens a dict, `[` opens a list, `"` opens a string, and
/// anything else must start a word.
pub open spec fn spec_parse_value(s: Seq<char>, i: int, depth: int) -> SpecParsed<SpecValue>
    decreases s.len() - i, 2int,
{
    match char_at(s, i) {
        Some(c) => {
            if c == '{' {
                match spec_parse_dict_inner(s, i, depth) {
                    Ok((d, j)) => Ok((SpecValue::Dict(d), j)),
                    Err(e) => Err(e),
                }
            } else if c == '[' {
                match spec_parse_list_inner(s, i, depth) {
                    Ok((l, j)) => Ok((SpecValue::List(l), j)),
                    Err(e) => Err(e),
                }
            } else if c == '"' {
                match spec_parse_string(s, i) {
                    Ok((w, j)) => Ok((SpecValue::String(w), j)),
                    Err(e) => Err(e),
                }
            } else {
                match spec_parse_word(s, i) {
                    Ok((w, j)) => Ok((SpecValue::String(w), j)),
                    Err(e) => Err(e),
                }
            }
        },
        None => Err(err_at(s, i, JsefErrType::Unexpected(None))),
    }
}

/// A bracketed list at its `[`: one nesting level deeper than its holder,
/// which fails right at the bracket when the limit is reached.
pub open spec fn spec_parse_list_inner(s: Seq<char>, i: int, depth: int) -> SpecParsed<
    Seq<SpecValue>,
>
    decreases s.len() - i, 1int,
{
    if depth >= DEPTH_LIMIT {
        Err(err_at(s, i, JsefErrType::MaxDepth))
    } else if char_at(s, i) == Some('[') {
        let j = spec_skip_ws(s, i + 1);
        if i < j <= s.len() {
            match spec_parse_items(s, j, depth + 1, Seq::empty()) {
                Ok((items, k)) => {
                    if char_at(s, k) == Some(']') {
                        Ok((items, k + 1))
                    } else {
                        Err(err_at(s, k, JsefErrType::Mismatch(']', char_at(s, k))))
                    }
                },
                Err(e) => Err(e),
            }
        } else {
            arbitrary()
        }
    } else {
        Err(err_at(s, i, JsefErrType::Mismatch('[', char_at(s, i))))
    }
}

/// A braced dict at its `{`, with the same depth discipline as a list.
pub open spec fn spec_parse_dict_inner(s: Seq<char>, i: int, depth: int) -> SpecParsed<SpecDict>
    decreases s.len() - i, 1int,
{
    if depth >= DEPTH_LIMIT {
        Err(err_at(s, i, JsefErrType::MaxDepth))
    } else if char_at(s, i) == Some('{') {
        let j = spec_skip_ws(s, i + 1);
        if i < j <= s.len() {
            match spec_parse_pairs(s, j, depth + 1, Seq::empty()) {
                Ok((d, k)) => {
                    if char_at(s, k) == Some('}') {
                        Ok((d, k + 1))
                    } else {
                        Err(err_at(s, k, JsefErrType::Mismatch('}', char_at(s, k))))
                    }
                },
                Err(e) => Err(e),
            }
        } else {
            arbitrary()
        }
    } else {
        Err(err_at(s, i, JsefErrType::Mismatch('{', char_at(s, i))))
    }
}

/// List elements separated by whitespace or comments, as long as a character
/// that can start a value is in view.
pub open spec fn spec_parse_items(s: Seq<char>, i: int, depth: int, acc: Seq<SpecValue>) -> SpecParsed<
    Seq<SpecValue>,
>
    decreases s.len() - i, 3int,
{
    match char_at(s, i) {
        Some(c) => {
            if c == '"' || c == '[' || c == '{' || spec_word_char(c) {
                match spec_parse_value(s, i, depth) {
                    Ok((v, j)) => {
                        let k = spec_skip_ws(s, j);
                        if i < k <= s.len() {
                            spec_parse_items(s, k, depth, acc.push(v))
                        } else {
                            arbitrary()
                        }
                    },
                    Err(e) => Err(e),
                }
            } else {
                Ok((acc, i))
            }
        },
        None => Ok((acc, i)),
    }
}

/// Dict pairs separated by whitespace or comments, as long as a character
/// that can start an identifier is in view.
pub open spec fn spec_parse_pairs(s: Seq<char>, i: int, depth: int, acc: SpecDict) -> SpecParsed<
    SpecDict,
>
    decreases s.len() - i, 3int,
{
    match char_at(s, i) {
        Some(c) => {
            if c == '"' || spec_word_char(c) {
                match spec_parse_pair(s, i, depth, acc) {
                    Ok((d, j)) => {
                        let k = spec_skip_ws(s, j);
                        if i < k <= s.len() {
                            spec_parse_pairs(s, k, depth, d)
                        } else {
                            arbitrary()
                        }
                    },
                    Err(e) => Err(e),
                }
            } else {
                Ok((acc, i))
            }
        },
        None => Ok((acc, i)),
    }
}

/// One `path = value` pair, folded into `acc` along its dotted path.
pub open spec fn spec_parse_pair(s: Seq<char>, i: int, depth: int, acc: SpecDict) -> SpecParsed<
    SpecDict,
>
    decreases s.len() - i, 2int,
{
    match spec_parse_ident(s, i) {
        Ok((k0, j0)) => {
            let j1 = spec_skip_ws(s, j0);
            match spec_parse_path(s, j1, seq![k0]) {
                Ok((path, p)) => {
                    if char_at(s, p) == Some('=') {
                        let q = spec_skip_ws(s, p + 1);
                        if i < q <= s.len() {
                            match spec_parse_value(s, q, depth) {
                                Ok((v, r)) => Ok((dict_set_path(acc, path, 0, v), r)),
                                Err(e) => Err(e),
                            }
                        } else {
                            arbitrary()
                        }
                    } else {
                        Err(err_at(s, p, JsefErrType::Mismatch('=', char_at(s, p))))
                    }
                },
                Err(e) => Err(e),
            }
        },
        Err(e) => Err(e),
    }
}

/// A whole text as one value: leading separators, the value, trailing
/// separators, then the end of input.
pub open spec fn spec_parse_value_root(s: Seq<char>) -> Result<SpecValue, JsefErr> {
    let i = spec_skip_ws(s, 0);
    match spec_parse_value(s, i, 0) {
        Ok((v, j)) => {
            let k = spec_skip_ws(s, j);
            if k >= s.len() {
                Ok(v)
            } else {
                Err(err_at(s, k, JsefErrType::NotEof(s[k])))
            }
        },
        Err(e) => Err(e),
    }
}

/// A whole text as a root list, with the outer brackets omitted.
pub open spec fn spec_parse_list_root(s: Seq<char>) -> Result<Seq<SpecValue>, JsefErr> {
    let i = spec_skip_ws(s, 0);
    match spec_parse_items(s, i, 0, Seq::empty()) {
        Ok((l, j)) => {
            let k = spec_skip_ws(s, j);
            if k >= s.len() {
                Ok(l)
            } else {
                Err(err_at(s, k, JsefErrType::NotEof(s[k])))
            }
        },
        Err(e) => Err(e),
    }
}

/// A whole text as a root dict, with the outer braces omitted.
pub open spec fn spec_parse_dict_root(s: Seq<char>) -> Result<SpecDict, JsefErr> {
    let i = spec_skip_ws(s, 0);
    match spec_parse_pairs(s, i, 0, Seq::empty()) {
        Ok((d, j)) => {
            let k = spec_skip_ws(s, j);
            if k >= s.len() {
                Ok(d)
            } else {
                Err(err_at(s, k, JsefErrType::NotEof(s[k])))
            }
        },
        Err(e) => Err(e),
    }
}

/// Recursive-descent parser over an in-memory character buffer.
pub struct Parser {
    pub input: Vec<char>,
    pub pos: usize,
    pub counter: LineColCounter,
    pub depth: usize,
}

impl Parser {
    /// The parser's invariant: the cursor is inside the buffer, the counter
    /// reports the position of the next unconsumed character, and the
    /// nesting depth never passes the limit.
    pub open spec fn wf(self) -> bool {
        &&& self.pos <= self.input@.len()
        &&& (self.counter.line as int, self.counter.col as int) == lc_after(
            1,
            1,
            self.input@.take(self.pos as int),
        )
        &&& self.depth <= DEPTH_LIMIT
    }

    pub fn new(input: Vec<char>) -> (r: Self)
        ensures
            r.wf(),
            r.input == input,
            r.pos == 0,
            r.depth == 0,
    {
        let r = Parser { input, pos: 0, counter: LineColCounter::new(), depth: 0 };
        proof {
            assert(r.input@.take(0) =~= Seq::<char>::empty());
        }
        r
    }

    pub fn peek(&self) -> (r: Option<char>)
        ensures
            r == char_at(self.input@, self.pos as int),
    {
        if self.pos < self.input.len() {
            Some(self.input[self.pos])
        } else {
            None
        }
    }

    /// Consumes one character, feeding it to the position tracker.
    fn advance(&mut self)
        requires
            old(self).wf(),
            old(self).pos < old(self).input@.len(),
        ensures
            final(self).wf(),
            final(self).input == old(self).input,
            final(self).depth == old(self).depth,
            final(self).pos == old(self).pos + 1,
    {
        let ghost s = self.input@;
        let ghost p = self.pos as int;
        proof {
            vstd::std_specs::vec::axiom_spec_len(&self.input);
        }
        let c = self.input[self.pos];
        self.counter.count(c);
        self.pos = self.pos + 1;
        proof {
            lemma_lc_after_push(1, 1, s.take(p), c);
            assert(s.take(p).push(c) =~= s.take(p + 1));
        }
    }

    /// Attaches the current position to an error kind.
    fn fail(&self, e: JsefErrType) -> (r: JsefErr)
        requires
            self.wf(),
        ensures
            r == err_at(self.input@, self.pos as int, e),
    {
        self.counter.err(e)
    }

    /// Consumes and returns the next character; end of input was unexpected.
    fn take(&mut self) -> (r: Result<char, JsefErr>)
        requires
            old(self).wf(),
        ensures
            final(self).wf(),
            final(self).input == old(self).input,
            final(self).depth == old(self).depth,
            match r {
                Ok(c) => char_at(old(self).input@, old(self).pos as int) == Some(c)
                    && final(self).pos == old(self).pos + 1,
                Err(e) => char_at(old(self).input@, old(self).pos as int) is None && e == err_at(
                    old(self).input@,
                    old(self).pos as int,
                    JsefErrType::Unexpected(None),
                ),
            },
    {
        match self.peek() {
            Some(c) => {
                self.advance();
                Ok(c)
            },
            None => Err(self.fail(JsefErrType::Unexpected(None))),
        }
    }

    /// Consumes the expected character, or fails with a mismatch.
    fn eat(&mut self, c: char) -> (r: Result<(), JsefErr>)
        requires
            old(self).wf(),
        ensures
            final(self).wf(),
            final(self).input == old(self).input,
            final(self).depth == old(self).depth,
            match r {
                Ok(_) => char_at(old(self).input@, old(self).pos as int) == Some(c)
                    && final(self).pos == old(self).pos + 1,
                Err(e) => char_at(old(self).input@, old(self).pos as int) != Some(c) && e
                    == err_at(
                    old(self).input@,
                    old(self).pos as int,
                    JsefErrType::Mismatch(c, char_at(old(self).input@, old(self).pos as int)),
                ),
            },
    {
        let peek = self.peek();
        if peek == Some(c) {
            self.advance();
            Ok(())
        } else {
            Err(self.fail(JsefErrType::Mismatch(c, peek)))
        }
    }

    /// Consumes the character when it is the expected one.
    fn try_eat(&mut self, c: char) -> (r: bool)
        requires
            old(self).wf(),
        ensures
            final(self).wf(),
            final(self).input == old(self).input,
            final(self).depth == old(self).depth,
            r == (char_at(old(self).input@, old(self).pos as int) == Some(c)),
            r ==> final(self).pos == old(self).pos + 1,
            !r ==> final(self).pos == old(self).pos,
    {
        if self.peek() == Some(c) {
            self.advance();
            true
        } else {
            false
        }
    }

    /// Fails when input remains.
    fn assert_eof(&self) -> (r: Result<(), JsefErr>)
        requires
            self.wf(),
        ensures
            match r {
                Ok(_) => self.pos == self.input@.len(),
                Err(e) => self.pos < self.input@.len() && e == err_at(
                    self.input@,
                    self.pos as int,
                    JsefErrType::NotEof(self.input@[self.pos as int]),
                ),
            },
    {
        match self.peek() {
            Some(c) => Err(self.fail(JsefErrType::NotEof(c))),
            None => Ok(()),
        }
    }

    /// Skips past the current line, up to (not past) its line feed.
    fn skip_line(&mut self)
        requires
            old(self).wf(),
        ensures
            final(self).wf(),
            final(self).input == old(self).input,
            final(self).depth == old(self).depth,
            final(self).pos == spec_skip_line(old(self).input@, old(self).pos as int),
    {
        loop
            invariant
                self.wf(),
                self.depth == old(self).depth,
                self.input == old(self).input,
                spec_skip_line(old(self).input@, old(self).pos as int) == spec_skip_line(
                    old(self).input@,
                    self.pos as int,
                ),
            decreases old(self).input@.len() - self.pos,
        {
            match self.peek() {
                Some(ch) => {
                    if ch != '\n' {
                        self.advance();
                    } else {
                        return ;
                    }
                },
                None => {
                    return ;
                },
            }
        }
    }

    /// Skips separators and comments, up to the next token.
    fn skip_whitespace(&mut self)
        requires
            old(self).wf(),
        ensures
            final(self).wf(),
            final(self).input == old(self).input,
            final(self).depth == old(self).depth,
            final(self).pos == spec_skip_ws(old(self).input@, old(self).pos as int),
            final(self).pos >= old(self).pos,
    {
        loop
            invariant
                self.wf(),
                self.depth == old(self).depth,
                self.input == old(self).input,
                old(self).pos <= self.pos,
                spec_skip_ws(old(self).input@, old(self).pos as int) == spec_skip_ws(
                    old(self).input@,
                    self.pos as int,
                ),
            decreases old(self).input@.len() - self.pos,
        {
            match self.peek() {
                Some(ch) => {
                    if ch == ' ' || ch == '\t' || ch == '\r' || ch == '\n' {
                        self.advance();
                    } else if ch == '#' {
                        self.advance();
                        let ghost ph = self.pos as int;
                        self.skip_line();
                        proof {
                            lemma_skip_line_bounds(self.input@, ph);
                        }
                    } else {
                        return ;
                    }
                },
                None => {
                    return ;
                },
            }
        }
    }

    /// A word token: a maximal, non-empty run of word characters.
    fn parse_word(&mut self) -> (r: Result<String, JsefErr>)
        requires
            old(self).wf(),
        ensures
            final(self).wf(),
            final(self).input == old(self).input,
            final(self).depth == old(self).depth,
            match r {
                Ok(w) => spec_parse_word(old(self).input@, old(self).pos as int) == Ok::<
                    (Seq<char>, int),
                    JsefErr,
                >((w@, final(self).pos as int)) && final(self).pos > old(self).pos,
                Err(e) => spec_parse_word(old(self).input@, old(self).pos as int) == Err::<
                    (Seq<char>, int),
                    JsefErr,
                >(e),
            },
    {
        let mut word = String::new();
        loop
            invariant
                self.wf(),
                self.input == old(self).input,
                self.depth == old(self).depth,
                old(self).pos <= self.pos,
                word@ == old(self).input@.subrange(old(self).pos as int, self.pos as int),
                spec_word_end(old(self).input@, old(self).pos as int) == spec_word_end(
                    old(self).input@,
                    self.pos as int,
                ),
            ensures
                self.wf(),
                self.input == old(self).input,
                self.depth == old(self).depth,
                old(self).pos <= self.pos,
                word@ == old(self).input@.subrange(old(self).pos as int, self.pos as int),
                spec_word_end(old(self).input@, old(self).pos as int) == self.pos as int,
            decreases old(self).input@.len() - self.pos,
        {
            match self.peek() {
                Some(c) => {
                    if is_word_char(c) {
                        word.push(c);
                        self.advance();
                        proof {
                            assert(word@ =~= old(self).input@.subrange(
                                old(self).pos as int,
                                self.pos as int,
                            ));
                        }
                    } else {
                        break ;
                    }
                },
                None => {
                    break ;
                },
            }
        }
        if word.as_str().is_empty() {
            Err(self.fail(JsefErrType::Unexpected(self.peek())))
        } else {
            proof {
                assert(word@ =~= old(self).input@.subrange(
                    old(self).pos as int,
                    self.pos as int,
                ));
                assert(self.pos > old(self).pos) by {
                    if self.pos == old(self).pos {
                        assert(word@.len() == 0);
                    }
                }
            }
            Ok(word)
        }
    }

    /// A two-character escape: the backslash was peeked, the next character
    /// decides what the pair stands for.
    fn parse_escape(&mut self) -> (r: Result<char, JsefErr>)
        requires
            old(self).wf(),
            char_at(old(self).input@, old(self).pos as int) == Some('\\'),
        ensures
            final(self).wf(),
            final(self).input == old(self).input,
            final(self).depth == old(self).depth,
            match r {
                Ok(c) => char_at(old(self).input@, old(self).pos + 1) is Some && c
                    == spec_unescape(old(self).input@[old(self).pos + 1]) && final(self).pos
                    == old(self).pos + 2,
                Err(e) => char_at(old(self).input@, old(self).pos + 1) is None && e == err_at(
                    old(self).input@,
                    old(self).pos + 1,
                    JsefErrType::Unexpected(None),
                ),
            },
    {
        match self.eat('\\') {
            Ok(_) => {},
            Err(e) => {
                return Err(e);
            },
        }
        match self.take() {
            Ok(c) => {
                if c == 'n' {
                    Ok('\n')
                } else if c == 't' {
                    Ok('\t')
                } else if c == 'r' {
                    Ok('\r')
                } else if c == '0' {
                    Ok('\0')
                } else {
                    Ok(c)
                }
            },
            Err(e) => Err(e),
        }
    }

    /// A quoted string token, from its opening to its closing quote.
    fn parse_string(&mut self) -> (r: Result<String, JsefErr>)
        requires
            old(self).wf(),
        ensures
            final(self).wf(),
            final(self).input == old(self).input,
            final(self).depth == old(self).depth,
            match r {
                Ok(w) => spec_parse_string(old(self).input@, old(self).pos as int) == Ok::<
                    (Seq<char>, int),
                    JsefErr,
                >((w@, final(self).pos as int)) && final(self).pos > old(self).pos,
                Err(e) => spec_parse_string(old(self).input@, old(self).pos as int) == Err::<
                    (Seq<char>, int),
                    JsefErr,
                >(e),
            },
    {
        let mut out = String::new();
        match self.eat('"') {
            Ok(_) => {},
            Err(e) => {
                return Err(e);
            },
        }
        proof {
            match spec_scan_string(old(self).input@, self.pos as int) {
                Ok((rest, j)) => {
                    assert(out@ + rest =~= rest);
                },
                Err(e) => {},
            }
        }
        loop
            invariant
                self.wf(),
                self.input == old(self).input,
                self.depth == old(self).depth,
                old(self).pos < self.pos,
                char_at(old(self).input@, old(self).pos as int) == Some('"'),
                match spec_scan_string(old(self).input@, self.pos as int) {
                    Ok((rest, j)) => spec_scan_string(old(self).input@, old(self).pos + 1) == Ok::<
                        (Seq<char>, int),
                        JsefErr,
                    >((out@ + rest, j)),
                    Err(e) => spec_scan_string(old(self).input@, old(self).pos + 1) == Err::<
                        (Seq<char>, int),
                        JsefErr,
                    >(e),
                },
            decreases old(self).input@.len() - self.pos,
        {
            let ghost prev = out@;
            match self.peek() {
                Some(c) => {
                    if c == '"' {
                        self.advance();
                        proof {
                            assert(prev + Seq::<char>::empty() =~= prev);
                        }
                        return Ok(out);
                    } else if c == '\\' {
                        match self.parse_escape() {
                            Ok(u) => {
                                out.push(u);
                                proof {
                                    match spec_scan_string(old(self).input@, self.pos as int) {
                                        Ok((rest, j)) => {
                                            assert(prev + (seq![u] + rest) =~= out@ + rest);
                                        },
                                        Err(e) => {},
                                    }
                                }
                            },
                            Err(e) => {
                                return Err(e);
                            },
                        }
                    } else {
                        out.push(c);
                        self.advance();
                        proof {
                            match spec_scan_string(old(self).input@, self.pos as int) {
                                Ok((rest, j)) => {
                                    assert(prev + (seq![c] + rest) =~= out@ + rest);
                                },
                                Err(e) => {},
                            }
                        }
                    }
                },
                None => {
                    return Err(self.fail(JsefErrType::Mismatch('"', None)));
                },
            }
        }
    }

    /// Enters one nesting level; at the limit, fails where the opening
    /// bracket stands.
    fn push_depth(&mut self) -> (r: Result<(), JsefErr>)
        requires
            old(self).wf(),
        ensures
            final(self).wf(),
            final(self).input == old(self).input,
            final(self).pos == old(self).pos,
            match r {
                Ok(_) => old(self).depth < DEPTH_LIMIT && final(self).depth == old(self).depth
                    + 1,
                Err(e) => old(self).depth >= DEPTH_LIMIT && *final(self) == *old(self) && e
                    == err_at(
                    old(self).input@,
                    old(self).pos as int,
                    JsefErrType::MaxDepth,
                ),
            },
    {
        if self.depth < DEPTH_LIMIT {
            self.depth = self.depth + 1;
            Ok(())
        } else {
            Err(self.fail(JsefErrType::MaxDepth))
        }
    }

    /// Leaves one nesting level.
    fn pop_depth(&mut self)
        requires
            old(self).wf(),
            old(self).depth >= 1,
        ensures
            final(self).wf(),
            final(self).input == old(self).input,
            final(self).pos == old(self).pos,
            final(self).counter == old(self).counter,
            final(self).depth == old(self).depth - 1,
    {
        self.depth = self.depth - 1;
    }

    /// Any value: `{` opens a dict, `[` opens a list, `"` opens a string,
    /// and anything else must start a word.
    #[verifier::loop_isolation(false)]
    fn parse_value(&mut self) -> (r: Result<JsefValue, JsefErr>)
        requires
            old(self).wf(),
        ensures
            final(self).wf(),
            final(self).input == old(self).input,
            match r {
                Ok(v) => spec_parse_value(
                    old(self).input@,
                    old(self).pos as int,
                    old(self).depth as int,
                ) == Ok::<(SpecValue, int), JsefErr>((v@, final(self).pos as int))
                    && final(self).depth == old(self).depth && final(self).pos > old(self).pos,
                Err(e) => spec_parse_value(
                    old(self).input@,
                    old(self).pos as int,
                    old(self).depth as int,
                ) == Err::<(SpecValue, int), JsefErr>(e),
            },
        decreases self.input@.len() - self.pos, 2int,
    {
        match self.peek() {
            Some(c) => {
                if c == '{' {
                    match self.parse_dict() {
                        Ok(d) => Ok(JsefValue::Dict(d)),
                        Err(e) => Err(e),
                    }
                } else if c == '[' {
                    match self.parse_list() {
                        Ok(l) => Ok(JsefValue::List(l)),
                        Err(e) => Err(e),
                    }
                } else if c == '"' {
                    match self.parse_string() {
                        Ok(w) => Ok(JsefValue::String(w)),
                        Err(e) => Err(e),
                    }
                } else {
                    match self.parse_word() {
                        Ok(w) => Ok(JsefValue::String(w)),
                        Err(e) => Err(e),
                    }
                }
            },
            None => Err(self.fail(JsefErrType::Unexpected(None))),
        }
    }

    /// A bracketed list at its `[`, one nesting level deeper.
    #[verifier::loop_isolation(false)]
    fn parse_list(&mut self) -> (r: Result<JsefList, JsefErr>)
        requires
            old(self).wf(),
        ensures
            final(self).wf(),
            final(self).input == old(self).input,
            match r {
                Ok(l) => spec_parse_list_inner(
                    old(self).input@,
                    old(self).pos as int,
                    old(self).depth as int,
                ) == Ok::<(Seq<SpecValue>, int), JsefErr>((view_list(l@), final(self).pos as int))
                    && final(self).depth == old(self).depth && final(self).pos > old(self).pos,
                Err(e) => spec_parse_list_inner(
                    old(self).input@,
                    old(self).pos as int,
                    old(self).depth as int,
                ) == Err::<(Seq<SpecValue>, int), JsefErr>(e),
            },
        decreases self.input@.len() - self.pos, 1int,
    {
        let ghost s0 = self.input@;
        let ghost p0 = self.pos as int;
        let ghost dep0 = self.depth as int;
        match self.push_depth() {
            Ok(_) => {},
            Err(e) => {
                return Err(e);
            },
        }
        match self.eat('[') {
            Ok(_) => {},
            Err(e) => {
                return Err(e);
            },
        }
        self.skip_whitespace();
        proof {
            lemma_skip_ws_bounds(s0, p0 + 1);
        }
        let ghost j0 = self.pos as int;
        let mut list: JsefList = Vec::new();
        let mut done = false;
        while !done
            invariant
                self.wf(),
                self.input == old(self).input,
                self.depth as int == dep0 + 1,
                j0 <= self.pos as int,
                spec_parse_items(s0, j0, dep0 + 1, Seq::empty()) == spec_parse_items(
                    s0,
                    self.pos as int,
                    dep0 + 1,
                    view_list(list@),
                ),
                done ==> spec_parse_items(s0, j0, dep0 + 1, Seq::empty()) == Ok::<
                    (Seq<SpecValue>, int),
                    JsefErr,
                >((view_list(list@), self.pos as int)),
            decreases s0.len() - self.pos, (if done { 0int } else { 1int }),
        {
            let cont = match self.peek() {
                Some(c) => c == '"' || c == '[' || c == '{' || is_word_char(c),
                None => false,
            };
            if !cont {
                done = true;
            } else {
                match self.parse_value() {
                    Ok(v) => {
                        let ghost plist = list@;
                        let ghost prev = view_list(list@);
                        let ghost vv = v@;
                        list.push(v);
                        proof {
                            assert(list@.drop_last() =~= plist);
                            assert(view_list(list@) == prev.push(vv));
                        }
                        let ghost jv = self.pos as int;
                        self.skip_whitespace();
                        proof {
                            lemma_skip_ws_bounds(s0, jv);
                        }
                    },
                    Err(e) => {
                        return Err(e);
                    },
                }
            }
        }
        self.pop_depth();
        match self.eat(']') {
            Ok(_) => Ok(list),
            Err(e) => Err(e),
        }
    }

    /// A braced dict at its `{`, one nesting level deeper.
    #[verifier::loop_isolation(false)]
    fn parse_dict(&mut self) -> (r: Result<JsefDict, JsefErr>)
        requires
            old(self).wf(),
        ensures
            final(self).wf(),
            final(self).input == old(self).input,
            match r {
                Ok(d) => spec_parse_dict_inner(
                    old(self).input@,
                    old(self).pos as int,
                    old(self).depth as int,
                ) == Ok::<(SpecDict, int), JsefErr>((d@, final(self).pos as int))
                    && final(self).depth == old(self).depth && final(self).pos > old(self).pos,
                Err(e) => spec_parse_dict_inner(
                    old(self).input@,
                    old(self).pos as int,
                    old(self).depth as int,
                ) == Err::<(SpecDict, int), JsefErr>(e),
            },
        decreases self.input@.len() - self.pos, 1int,
    {
        let ghost s0 = self.input@;
        let ghost p0 = self.pos as int;
        let ghost dep0 = self.depth as int;
        match self.push_depth() {
            Ok(_) => {},
            Err(e) => {
                return Err(e);
            },
        }
        match self.eat('{') {
            Ok(_) => {},
            Err(e) => {
                return Err(e);
            },
        }
        self.skip_whitespace();
        proof {
            lemma_skip_ws_bounds(s0, p0 + 1);
        }
        let ghost j0 = self.pos as int;
        let mut dict = JsefDict { entries: Vec::new() };
        proof {
            assert(dict@ =~= Seq::<(Seq<char>, SpecValue)>::empty());
        }
        let mut done = false;
        while !done
            invariant
                self.wf(),
                self.input == old(self).input,
                self.depth as int == dep0 + 1,
                j0 <= self.pos as int,
                spec_parse_pairs(s0, j0, dep0 + 1, Seq::empty()) == spec_parse_pairs(
                    s0,
                    self.pos as int,
                    dep0 + 1,
                    dict@,
                ),
                done ==> spec_parse_pairs(s0, j0, dep0 + 1, Seq::empty()) == Ok::<
                    (SpecDict, int),
                    JsefErr,
                >((dict@, self.pos as int)),
            decreases s0.len() - self.pos, (if done { 0int } else { 1int }),
        {
            let cont = match self.peek() {
                Some(c) => c == '"' || is_word_char(c),
                None => false,
            };
            if !cont {
                done = true;
            } else {
                match self.parse_pair(&mut dict) {
                    Ok(_) => {
                        let ghost jv = self.pos as int;
                        self.skip_whitespace();
                        proof {
                            lemma_skip_ws_bounds(s0, jv);
                        }
                    },
                    Err(e) => {
                        return Err(e);
                    },
                }
            }
        }
        self.pop_depth();
        match self.eat('}') {
            Ok(_) => Ok(dict),
            Err(e) => Err(e),
        }
    }

    /// One `path = value` pair: a dotted chain of identifiers, `=`, and the
    /// value, folded into `dict`.
    #[verifier::loop_isolation(false)]
    fn parse_pair(&mut self, dict: &mut JsefDict) -> (r: Result<(), JsefErr>)
        requires
            old(self).wf(),
        ensures
            final(self).wf(),
            final(self).input == old(self).input,
            match r {
                Ok(_) => spec_parse_pair(
                    old(self).input@,
                    old(self).pos as int,
                    old(self).depth as int,
                    old(dict)@,
                ) == Ok::<(SpecDict, int), JsefErr>((final(dict)@, final(self).pos as int))
                    && final(self).depth == old(self).depth && final(self).pos > old(self).pos,
                Err(e) => spec_parse_pair(
                    old(self).input@,
                    old(self).pos as int,
                    old(self).depth as int,
                    old(dict)@,
                ) == Err::<(SpecDict, int), JsefErr>(e),
            },
        decreases self.input@.len() - self.pos, 2int,
    {
        let ghost s0 = self.input@;
        let ghost p0 = self.pos as int;
        let k0 = match self.parse_ident() {
            Ok(k) => k,
            Err(e) => {
                return Err(e);
            },
        };
        let ghost fk = k0@;
        let ghost jv0 = self.pos as int;
        self.skip_whitespace();
        proof {
            lemma_skip_ws_bounds(s0, jv0);
        }
        let ghost j1 = self.pos as int;
        let mut path: Vec<String> = Vec::new();
        path.push(k0);
        proof {
            assert(view_keys(path@) =~= seq![fk]);
        }
        let mut done = false;
        while !done
            invariant
                self.wf(),
                self.input == old(self).input,
                self.depth == old(self).depth,
                p0 < self.pos as int,
                path@.len() >= 1,
                spec_parse_path(s0, j1, seq![fk]) == spec_parse_path(
                    s0,
                    self.pos as int,
                    view_keys(path@),
                ),
                done ==> spec_parse_path(s0, j1, seq![fk]) == Ok::<(Seq<Seq<char>>, int), JsefErr>(
                    (view_keys(path@), self.pos as int),
                ),
            decreases s0.len() - self.pos, (if done { 0int } else { 1int }),
        {
            if self.try_eat('.') {
                let ghost d0 = self.pos as int;
                self.skip_whitespace();
                proof {
                    lemma_skip_ws_bounds(s0, d0);
                }
                let k = match self.parse_ident() {
                    Ok(k) => k,
                    Err(e) => {
                        return Err(e);
                    },
                };
                let ghost kv = k@;
                let ghost ppath = path@;
                let ghost prev = view_keys(path@);
                path.push(k);
                proof {
                    assert(path@.drop_last() =~= ppath);
                    assert(view_keys(path@) =~= prev.push(kv));
                }
                let ghost m0 = self.pos as int;
                self.skip_whitespace();
                proof {
                    lemma_skip_ws_bounds(s0, m0);
                }
            } else {
                done = true;
            }
        }
        match self.eat('=') {
            Ok(_) => {},
            Err(e) => {
                return Err(e);
            },
        }
        let ghost e0 = self.pos as int;
        self.skip_whitespace();
        proof {
            lemma_skip_ws_bounds(s0, e0);
        }
        let value = match self.parse_value() {
            Ok(v) => v,
            Err(e) => {
                return Err(e);
            },
        };
        dict.insert_path(&path, 0, value);
        Ok(())
    }

    /// A whole input as one value: separators, the value, separators, end.
    pub fn parse_value_root(&mut self) -> (r: Result<JsefValue, JsefErr>)
        requires
            old(self).wf(),
            old(self).pos == 0,
            old(self).depth == 0,
        ensures
            match r {
                Ok(v) => spec_parse_value_root(old(self).input@) == Ok::<SpecValue, JsefErr>(v@),
                Err(e) => spec_parse_value_root(old(self).input@) == Err::<SpecValue, JsefErr>(e),
            },
    {
        proof {
            lemma_skip_ws_bounds(self.input@, 0);
        }
        self.skip_whitespace();
        let v = match self.parse_value() {
            Ok(v) => v,
            Err(e) => {
                return Err(e);
            },
        };
        let ghost jv = self.pos as int;
        self.skip_whitespace();
        proof {
            lemma_skip_ws_bounds(self.input@, jv);
        }
        match self.assert_eof() {
            Ok(_) => Ok(v),
            Err(e) => Err(e),
        }
    }

    /// A whole input as a root list, with the outer brackets omitted.
    #[verifier::loop_isolation(false)]
    pub fn parse_list_root(&mut self) -> (r: Result<JsefList, JsefErr>)
        requires
            old(self).wf(),
            old(self).pos == 0,
            old(self).depth == 0,
        ensures
            match r {
                Ok(l) => spec_parse_list_root(old(self).input@) == Ok::<Seq<SpecValue>, JsefErr>(
                    view_list(l@),
                ),
                Err(e) => spec_parse_list_root(old(self).input@) == Err::<Seq<SpecValue>, JsefErr>(
                    e,
                ),
            },
    {
        let ghost s0 = self.input@;
        proof {
            lemma_skip_ws_bounds(s0, 0);
        }
        self.skip_whitespace();
        let ghost j0 = self.pos as int;
        let mut list: JsefList = Vec::new();
        let mut done = false;
        while !done
            invariant
                self.wf(),
                self.input == old(self).input,
                self.depth == 0,
                j0 <= self.pos as int,
                spec_parse_items(s0, j0, 0, Seq::empty()) == spec_parse_items(
                    s0,
                    self.pos as int,
                    0,
                    view_list(list@),
                ),
                done ==> spec_parse_items(s0, j0, 0, Seq::empty()) == Ok::<
                    (Seq<SpecValue>, int),
                    JsefErr,
                >((view_list(list@), self.pos as int)),
            decreases s0.len() - self.pos, (if done { 0int } else { 1int }),
        {
            let cont = match self.peek() {
                Some(c) => c == '"' || c == '[' || c == '{' || is_word_char(c),
                None => false,
            };
            if !cont {
                done = true;
            } else {
                match self.parse_value() {
                    Ok(v) => {
                        let ghost plist = list@;
                        let ghost prev = view_list(list@);
                        let ghost vv = v@;
                        list.push(v);
                        proof {
                            assert(list@.drop_last() =~= plist);
                            assert(view_list(list@) == prev.push(vv));
                        }
                        let ghost jv = self.pos as int;
                        self.skip_whitespace();
                        proof {
                            lemma_skip_ws_bounds(s0, jv);
                        }
                    },
                    Err(e) => {
                        return Err(e);
                    },
                }
            }
        }
        let ghost jv = self.pos as int;
        self.skip_whitespace();
        proof {
            lemma_skip_ws_bounds(s0, jv);
        }
        match self.assert_eof() {
            Ok(_) => Ok(list),
            Err(e) => Err(e),
        }
    }

    /// A whole input as a root dict, with the outer braces omitted.
    #[verifier::loop_isolation(false)]
    pub fn parse_dict_root(&mut self) -> (r: Result<JsefDict, JsefErr>)
        requires
            old(self).wf(),
            old(self).pos == 0,
            old(self).depth == 0,
        ensures
            match r {
                Ok(d) => spec_parse_dict_root(old(self).input@) == Ok::<SpecDict, JsefErr>(d@),
                Err(e) => spec_parse_dict_root(old(self).input@) == Err::<SpecDict, JsefErr>(e),
            },
    {
        let ghost s0 = self.input@;
        proof {
            lemma_skip_ws_bounds(s0, 0);
        }
        self.skip_whitespace();
        let ghost j0 = self.pos as int;
        let mut dict = JsefDict { entries: Vec::new() };
        proof {
            assert(dict@ =~= Seq::<(Seq<char>, SpecValue)>::empty());
        }
        let mut done = false;
        while !done
            invariant
                self.wf(),
                self.input == old(self).input,
                self.depth == 0,
                j0 <= self.pos as int,
                spec_parse_pairs(s0, j0, 0, Seq::empty()) == spec_parse_pairs(
                    s0,
                    self.pos as int,
                    0,
                    dict@,
                ),
                done ==> spec_parse_pairs(s0, j0, 0, Seq::empty()) == Ok::<
                    (SpecDict, int),
                    JsefErr,
                >((dict@, self.pos as int)),
            decreases s0.len() - self.pos, (if done { 0int } else { 1int }),
        {
            let cont = match self.peek() {
                Some(c) => c == '"' || is_word_char(c),
                None => false,
            };
            if !cont {
                done = true;
            } else {
                match self.parse_pair(&mut dict) {
                    Ok(_) => {
                        let ghost jv = self.pos as int;
                        self.skip_whitespace();
                        proof {
                            lemma_skip_ws_bounds(s0, jv);
                        }
                    },
                    Err(e) => {
                        return Err(e);
                    },
                }
            }
        }
        let ghost jv = self.pos as int;
        self.skip_whitespace();
        proof {
            lemma_skip_ws_bounds(s0, jv);
        }
        match self.assert_eof() {
            Ok(_) => Ok(dict),
            Err(e) => Err(e),
        }
    }

    /// An identifier: a quoted string or a word.
    fn parse_ident(&mut self) -> (r: Result<String, JsefErr>)
        requires
            old(self).wf(),
        ensures
            final(self).wf(),
            final(self).input == old(self).input,
            final(self).depth == old(self).depth,
            match r {
                Ok(w) => spec_parse_ident(old(self).input@, old(self).pos as int) == Ok::<
                    (Seq<char>, int),
                    JsefErr,
                >((w@, final(self).pos as int)) && final(self).pos > old(self).pos,
                Err(e) => spec_parse_ident(old(self).input@, old(self).pos as int) == Err::<
                    (Seq<char>, int),
                    JsefErr,
                >(e),
            },
    {
        if self.peek() == Some('"') {
            self.parse_string()
        } else {
            self.parse_word()
        }
    }
}

} // verus!
