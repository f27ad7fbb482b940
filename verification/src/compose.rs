//! The composer: mirrors the parser's grammar in reverse, walking a value
//! tree and emitting formatted text under caller-supplied style options,
//! verified against a specification-level composer.

use vstd::prelude::*;

use crate::counter::{lc_after, LineColCounter};
use crate::err::{JsefErr, JsefErrType};
use crate::value::{
    lemma_view_entries, lemma_view_list, view_list, JsefDict, JsefList, JsefValue, SpecDict,
    SpecValue,
};
use crate::{err_at, spec_word_char, is_word_char, str_chars, DEPTH_LIMIT};

verus! {

/// Formatting options for composing [`JsefValue`]s into text.
#[derive(Debug, Clone)]
pub struct ComposeOpts {
    /// Used for indenting newlines.
    /// `None` means the entire text is composed on a single line.
    pub indent: Option<String>,
    /// Whether all keys and string values are enclosed in double quotes
    /// regardless of their content.
    pub force_quotes: bool,
    /// Whether extra spaces are omitted when unnecessary.
    pub dense: bool,
    /// Whether single-entry dicts are folded with the path notation.
    pub fold_dicts: bool,
    /// A message written at the start of the composed text as line comments.
    pub prelude: Option<String>,
}

/// The model of a set of formatting options.
pub ghost struct SpecOpts {
    pub indent: Option<Seq<char>>,
    pub force_quotes: bool,
    pub dense: bool,
    pub fold_dicts: bool,
    pub prelude: Option<Seq<char>>,
}

impl View for ComposeOpts {
    type V = SpecOpts;

    open spec fn view(&self) -> SpecOpts {
        SpecOpts {
            indent: match self.indent {
                Some(u) => Some(u@),
                None => None,
            },
            force_quotes: self.force_quotes,
            dense: self.dense,
            fold_dicts: self.fold_dicts,
            prelude: match self.prelude {
                Some(m) => Some(m@),
                None => None,
            },
        }
    }
}

impl ComposeOpts {
    /// Options for readable, "pretty" outputs: tab indent, no forced quotes,
    /// spaces around `=`, folded dicts, no prelude.
    pub fn pretty() -> (r: Self)
        ensures
            r@ == (SpecOpts {
                indent: Some(seq!['\t']),
                force_quotes: false,
                dense: false,
                fold_dicts: true,
                prelude: None,
            }),
    {
        proof {
            reveal_strlit("\t");
            assert("\t"@ =~= seq!['\t']);
        }
        ComposeOpts {
            indent: Some("\t".to_owned()),
            force_quotes: false,
            dense: false,
            fold_dicts: true,
            prelude: None,
        }
    }

    /// Options for compact outputs not necessarily intended for reading:
    /// one line, no extra spaces, folded dicts.
    pub fn compact() -> (r: Self)
        ensures
            r@ == (SpecOpts {
                indent: None,
                force_quotes: false,
                dense: true,
                fold_dicts: true,
                prelude: None,
            }),
    {
        ComposeOpts {
            indent: None,
            force_quotes: false,
            dense: true,
            fold_dicts: true,
            prelude: None,
        }
    }

    /// Options for simplified outputs that are easier to parse: one line,
    /// everything quoted, no folding.
    pub fn simple() -> (r: Self)
        ensures
            r@ == (SpecOpts {
                indent: None,
                force_quotes: true,
                dense: true,
                fold_dicts: false,
                prelude: None,
            }),
    {
        ComposeOpts {
            indent: None,
            force_quotes: true,
            dense: true,
            fold_dicts: false,
            prelude: None,
        }
    }

    pub fn indent(self, value: &str) -> (r: Self)
        ensures
            r@ == (SpecOpts { indent: Some(value@), ..self@ }),
    {
        ComposeOpts { indent: Some(value.to_owned()), ..self }
    }

    pub fn no_indent(self) -> (r: Self)
        ensures
            r@ == (SpecOpts { indent: None, ..self@ }),
    {
        ComposeOpts { indent: None, ..self }
    }

    pub fn force_quotes(self, value: bool) -> (r: Self)
        ensures
            r@ == (SpecOpts { force_quotes: value, ..self@ }),
    {
        ComposeOpts { force_quotes: value, ..self }
    }

    pub fn dense(self, value: bool) -> (r: Self)
        ensures
            r@ == (SpecOpts { dense: value, ..self@ }),
    {
        ComposeOpts { dense: value, ..self }
    }

    pub fn fold_dicts(self, value: bool) -> (r: Self)
        ensures
            r@ == (SpecOpts { fold_dicts: value, ..self@ }),
    {
        ComposeOpts { fold_dicts: value, ..self }
    }

    pub fn prelude(self, value: &str) -> (r: Self)
        ensures
            r@ == (SpecOpts { prelude: Some(value@), ..self@ }),
    {
        ComposeOpts { prelude: Some(value.to_owned()), ..self }
    }

    pub fn no_prelude(self) -> (r: Self)
        ensures
            r@ == (SpecOpts { prelude: None, ..self@ }),
    {
        ComposeOpts { prelude: None, ..self }
    }
}

/// What a character is written as inside quotes: the six escapable
/// characters become their two-character escape, the rest pass through.
pub open spec fn spec_escape_char(c: char) -> Seq<char> {
    if c == '\n' {
        seq!['\\', 'n']
    } else if c == '\t' {
        seq!['\\', 't']
    } else if c == '\r' {
        seq!['\\', 'r']
    } else if c == '\0' {
        seq!['\\', '0']
    } else if c == '\\' {
        seq!['\\', '\\']
    } else if c == '"' {
        seq!['\\', '"']
    } else {
        seq![c]
    }
}

/// A string's content with every escapable character rewritten.
pub open spec fn spec_escape(t: Seq<char>) -> Seq<char>
    decreases t.len(),
{
    if t.len() == 0 {
        Seq::empty()
    } else {
        spec_escape(t.drop_last()) + spec_escape_char(t.last())
    }
}

/// Whether a string must be quote-wrapped: always under `force_quotes`, and
/// otherwise exactly when some character of it is not a word character.
pub open spec fn spec_needs_quotes(t: Seq<char>, force: bool) -> bool {
    force || exists|i: int| 0 <= i < t.len() && !spec_word_char(t[i])
}

/// What a string is written as: its escaped content, quote-wrapped when
/// required.
pub open spec fn spec_compose_string(t: Seq<char>, force: bool) -> Seq<char> {
    if spec_needs_quotes(t, force) {
        seq!['"'] + spec_escape(t) + seq!['"']
    } else {
        spec_escape(t)
    }
}

/// The indent unit repeated `n` times.
pub open spec fn spec_repeat(u: Seq<char>, n: nat) -> Seq<char>
    decreases n,
{
    if n == 0 {
        Seq::empty()
    } else {
        spec_repeat(u, (n - 1) as nat) + u
    }
}

/// The separator written before an element or closing bracket: with an
/// indent unit, a newline plus one unit per nesting level; on a single line,
/// a space unless `dense` makes it unnecessary (`space` marks the separators
/// between siblings, which are structurally required).
pub open spec fn spec_separator(opts: SpecOpts, depth: int, space: bool) -> Seq<char> {
    match opts.indent {
        Some(u) => seq!['\n'] + spec_repeat(u, depth as nat),
        None => if space || !opts.dense {
            seq![' ']
        } else {
            Seq::empty()
        },
    }
}

/// The index right after the line starting at `i`: at its line feed, or at
/// the end of the message.
pub open spec fn spec_line_end(m: Seq<char>, i: int) -> int
    decreases m.len() - i,
{
    if 0 <= i < m.len() && m[i] != '\n' {
        spec_line_end(m, i + 1)
    } else {
        i
    }
}

pub proof fn lemma_line_end_bounds(m: Seq<char>, i: int)
    requires
        0 <= i <= m.len(),
    ensures
        i <= spec_line_end(m, i) <= m.len(),
    decreases m.len() - i,
{
    if i < m.len() && m[i] != '\n' {
        lemma_line_end_bounds(m, i + 1);
    }
}

/// The comment block for the message from index `i` on: each line becomes
/// `# `, the line without its ending, and a line feed. A carriage return
/// right before a line feed belongs to the line ending.
pub open spec fn spec_prelude_lines(m: Seq<char>, i: int) -> Seq<char>
    decreases m.len() - i,
        via spec_prelude_lines_dec
{
    if !(0 <= i < m.len()) {
        Seq::empty()
    } else {
        let e = spec_line_end(m, i);
        if e < m.len() {
            let t = if e > i && m[e - 1] == '\r' {
                e - 1
            } else {
                e
            };
            seq!['#', ' '] + m.subrange(i, t) + seq!['\n'] + spec_prelude_lines(m, e + 1)
        } else {
            seq!['#', ' '] + m.subrange(i, e) + seq!['\n']
        }
    }
}

#[via_fn]
proof fn spec_prelude_lines_dec(m: Seq<char>, i: int) {
    if 0 <= i < m.len() {
        lemma_line_end_bounds(m, i);
    }
}

/// Everything written before the value itself: the prelude message as a
/// comment block, when there is one.
pub open spec fn spec_compose_prelude(opts: SpecOpts) -> Seq<char> {
    match opts.prelude {
        Some(m) => spec_prelude_lines(m, 0),
        None => Seq::empty(),
    }
}

/// What composing a value appends to the text composed so far (`pre`): the
/// whole text on success, or a positioned error when nesting passes the
/// limit.
pub open spec fn spec_compose_value(v: SpecValue, opts: SpecOpts, depth: int, pre: Seq<char>) -> Result<
    Seq<char>,
    JsefErr,
>
    decreases v, 0int, 0int,
{
    match v {
        SpecValue::String(t) => Ok(pre + spec_compose_string(t, opts.force_quotes)),
        SpecValue::List(l) => spec_compose_list_inner(l, opts, depth, pre),
        SpecValue::Dict(d) => spec_compose_dict_inner(d, opts, depth, pre),
    }
}

/// A non-root list: its opening bracket, its elements one nesting level
/// deeper, and its closing bracket after a separator at the outer level.
pub open spec fn spec_compose_list_inner(
    l: Seq<SpecValue>,
    opts: SpecOpts,
    depth: int,
    pre: Seq<char>,
) -> Result<Seq<char>, JsefErr>
    decreases l, l.len() + 1, 0int,
{
    if depth >= DEPTH_LIMIT {
        Err(err_at(pre, pre.len() as int, JsefErrType::MaxDepth))
    } else {
        let o1 = pre + seq!['['];
        if l.len() == 0 {
            Ok(o1 + seq![']'])
        } else {
            let o2 = o1 + spec_separator(opts, depth + 1, false);
            match spec_compose_items(l, 0, opts, depth + 1, o2) {
                Ok(o3) => Ok(o3 + spec_separator(opts, depth, false) + seq![']']),
                Err(e) => Err(e),
            }
        }
    }
}

/// A non-root dict: braces around its pairs, with the same discipline as a
/// list.
pub open spec fn spec_compose_dict_inner(
    d: SpecDict,
    opts: SpecOpts,
    depth: int,
    pre: Seq<char>,
) -> Result<Seq<char>, JsefErr>
    decreases d, d.len() + 1, 0int,
{
    if depth >= DEPTH_LIMIT {
        Err(err_at(pre, pre.len() as int, JsefErrType::MaxDepth))
    } else {
        let o1 = pre + seq!['{'];
        if d.len() == 0 {
            Ok(o1 + seq!['}'])
        } else {
            let o2 = o1 + spec_separator(opts, depth + 1, false);
            match spec_compose_pairs(d, 0, opts, depth + 1, o2) {
                Ok(o3) => Ok(o3 + spec_separator(opts, depth, false) + seq!['}']),
                Err(e) => Err(e),
            }
        }
    }
}

/// The elements of a list from index `i` on, each preceded (except the very
/// first) by a separator between siblings.
pub open spec fn spec_compose_items(
    l: Seq<SpecValue>,
    i: int,
    opts: SpecOpts,
    depth: int,
    pre: Seq<char>,
) -> Result<Seq<char>, JsefErr>
    decreases l, l.len() - i, 0int,
{
    if !(0 <= i < l.len()) {
        Ok(pre)
    } else {
        let pre1 = if i == 0 {
            pre
        } else {
            pre + spec_separator(opts, depth, true)
        };
        match spec_compose_value(l[i], opts, depth, pre1) {
            Ok(o) => spec_compose_items(l, i + 1, opts, depth, o),
            Err(e) => Err(e),
        }
    }
}

/// The pairs of a dict from index `i` on: key, folded path, `=`, value.
pub open spec fn spec_compose_pairs(
    d: SpecDict,
    i: int,
    opts: SpecOpts,
    depth: int,
    pre: Seq<char>,
) -> Result<Seq<char>, JsefErr>
    decreases d, d.len() - i, 1int,
{
    if !(0 <= i < d.len()) {
        Ok(pre)
    } else {
        let pre1 = if i == 0 {
            pre
        } else {
            pre + spec_separator(opts, depth, true)
        };
        let pre2 = pre1 + spec_compose_string(d[i].0, opts.force_quotes);
        match spec_pair_tail(d[i].1, opts, depth, pre2) {
            Ok(o) => spec_compose_pairs(d, i + 1, opts, depth, o),
            Err(e) => Err(e),
        }
    }
}

/// What follows a pair's key: under `fold_dicts`, a chain of single-entry
/// dicts becomes dotted path notation, with the inner keys written verbatim;
/// then `=` (spaced unless `dense`) and the remaining value.
pub open spec fn spec_pair_tail(v: SpecValue, opts: SpecOpts, depth: int, pre: Seq<char>) -> Result<
    Seq<char>,
    JsefErr,
>
    decreases v, 0int, 1int,
{
    if opts.fold_dicts && (v matches SpecValue::Dict(sub) && sub.len() == 1) {
        match v {
            SpecValue::Dict(sub) => spec_pair_tail(
                sub[0].1,
                opts,
                depth,
                pre + seq!['.'] + sub[0].0,
            ),
            _ => arbitrary(),
        }
    } else {
        let o = pre + if opts.dense {
            seq!['=']
        } else {
            seq![' ', '=', ' ']
        };
        spec_compose_value(v, opts, depth, o)
    }
}

/// A whole value with root brackets included, after the prelude.
pub open spec fn spec_compose_value_root(v: SpecValue, opts: SpecOpts) -> Result<
    Seq<char>,
    JsefErr,
> {
    spec_compose_value(v, opts, 0, spec_compose_prelude(opts))
}

/// A root list, with the outer brackets omitted.
pub open spec fn spec_compose_list_root(l: Seq<SpecValue>, opts: SpecOpts) -> Result<
    Seq<char>,
    JsefErr,
> {
    spec_compose_items(l, 0, opts, 0, spec_compose_prelude(opts))
}

/// A root dict, with the outer braces omitted.
pub open spec fn spec_compose_dict_root(d: SpecDict, opts: SpecOpts) -> Result<
    Seq<char>,
    JsefErr,
> {
    spec_compose_pairs(d, 0, opts, 0, spec_compose_prelude(opts))
}

/// Walks a value tree and accumulates its formatted text.
pub struct Composer {
    pub indent: Option<Vec<char>>,
    pub force_quotes: bool,
    pub dense: bool,
    pub fold_dicts: bool,
    pub prelude: Option<Vec<char>>,
    pub out: String,
    pub depth: usize,
    pub counter: LineColCounter,
}

impl Composer {
    /// The options this composer was built with.
    pub open spec fn copts(self) -> SpecOpts {
        SpecOpts {
            indent: match self.indent {
                Some(u) => Some(u@),
                None => None,
            },
            force_quotes: self.force_quotes,
            dense: self.dense,
            fold_dicts: self.fold_dicts,
            prelude: match self.prelude {
                Some(m) => Some(m@),
                None => None,
            },
        }
    }

    /// The composer's invariant: the counter reports the position right
    /// after the emitted text, and nesting never passes the limit.
    pub open spec fn wf(self) -> bool {
        &&& (self.counter.line as int, self.counter.col as int) == lc_after(1, 1, self.out@)
        &&& self.depth <= DEPTH_LIMIT
    }

    pub fn new(opts: &ComposeOpts) -> (r: Self)
        ensures
            r.wf(),
            r.copts() == opts@,
            r.out@ == Seq::<char>::empty(),
            r.depth == 0,
    {
        let indent = match &opts.indent {
            Some(u) => Some(str_chars(u.as_str())),
            None => None,
        };
        let prelude = match &opts.prelude {
            Some(m) => Some(str_chars(m.as_str())),
            None => None,
        };
        let r = Composer {
            indent,
            force_quotes: opts.force_quotes,
            dense: opts.dense,
            fold_dicts: opts.fold_dicts,
            prelude,
            out: String::new(),
            depth: 0,
            counter: LineColCounter::new(),
        };
        proof {
            assert(r.out@.take(0) =~= Seq::<char>::empty());
        }
        r
    }

    /// Enters one nesting level; at the limit, fails right before anything
    /// of the nested value is written.
    fn push_depth(&mut self) -> (r: Result<(), JsefErr>)
        requires
            old(self).wf(),
        ensures
            final(self).wf(),
            final(self).out == old(self).out,
            final(self).counter == old(self).counter,
            match r {
                Ok(_) => old(self).depth < DEPTH_LIMIT && *final(self) == (Composer {
                    depth: (old(self).depth + 1) as usize,
                    ..*old(self)
                }),
                Err(e) => old(self).depth >= DEPTH_LIMIT && *final(self) == *old(self) && e
                    == err_at(old(self).out@, old(self).out@.len() as int, JsefErrType::MaxDepth),
            },
    {
        if self.depth < DEPTH_LIMIT {
            self.depth = self.depth + 1;
            Ok(())
        } else {
            proof {
                assert(self.out@.take(self.out@.len() as int) =~= self.out@);
            }
            Err(self.counter.err(JsefErrType::MaxDepth))
        }
    }

    /// Leaves one nesting level.
    fn pop_depth(&mut self)
        requires
            old(self).wf(),
            old(self).depth >= 1,
        ensures
            final(self).wf(),
            *final(self) == (Composer { depth: (old(self).depth - 1) as usize, ..*old(self) }),
    {
        self.depth = self.depth - 1;
    }

    /// Emits the separator that precedes an element or closing bracket.
    #[verifier::loop_isolation(false)]
    fn separator(&mut self, space: bool)
        requires
            old(self).wf(),
        ensures
            final(self).wf(),
            final(self).out@ == old(self).out@ + spec_separator(
                old(self).copts(),
                old(self).depth as int,
                space,
            ),
            *final(self) == (Composer {
                out: final(self).out,
                counter: final(self).counter,
                ..*old(self)
            }),
    {
        let has_indent = self.indent.is_some();
        if has_indent {
            self.push_char('\n');
            let ghost base = self.out@;
            let ghost u: Seq<char> = match old(self).indent {
                Some(u0) => u0@,
                None => Seq::empty(),
            };
            let mut k: usize = 0;
            while k < self.depth
                invariant
                    self.wf(),
                    k <= self.depth,
                    (*self) == (Composer {
                        out: self.out,
                        counter: self.counter,
                        ..*old(self)
                    }),
                    self.out@ == base + spec_repeat(u, k as nat),
                decreases self.depth - k,
            {
                let n = match &self.indent {
                    Some(u0) => u0.len(),
                    None => 0,
                };
                let mut j: usize = 0;
                while j < n
                    invariant
                        self.wf(),
                        j <= n,
                        n == u.len(),
                        k < self.depth,
                        (*self) == (Composer {
                            out: self.out,
                            counter: self.counter,
                            ..*old(self)
                        }),
                        self.out@ == base + spec_repeat(u, k as nat) + u.take(j as int),
                    decreases n - j,
                {
                    let c = match &self.indent {
                        Some(u0) => u0[j],
                        None => ' ',
                    };
                    let ghost before = self.out@;
                    self.push_char(c);
                    proof {
                        assert(before.push(c) =~= base + spec_repeat(u, k as nat) + u.take(
                            j + 1,
                        ));
                    }
                    j = j + 1;
                }
                proof {
                    assert(u.take(n as int) =~= u);
                    assert(base + spec_repeat(u, k as nat) + u =~= base + spec_repeat(
                        u,
                        (k + 1) as nat,
                    ));
                }
                k = k + 1;
            }
            proof {
                assert(old(self).out@ + (seq!['\n'] + spec_repeat(
                    u,
                    old(self).depth as nat,
                )) =~= base + spec_repeat(u, old(self).depth as nat));
            }
        } else {
            if space || !self.dense {
                self.push_char(' ');
                proof {
                    assert(old(self).out@ + seq![' '] =~= old(self).out@.push(' '));
                }
            } else {
                proof {
                    assert(old(self).out@ + Seq::<char>::empty() =~= old(self).out@);
                }
            }
        }
    }

    /// Emits the characters of `s` unchanged.
    #[verifier::loop_isolation(false)]
    fn write_raw(&mut self, s: &String)
        requires
            old(self).wf(),
        ensures
            final(self).wf(),
            final(self).out@ == old(self).out@ + s@,
            *final(self) == (Composer {
                out: final(self).out,
                counter: final(self).counter,
                ..*old(self)
            }),
    {
        let cs = str_chars(s.as_str());
        let mut i: usize = 0;
        while i < cs.len()
            invariant
                self.wf(),
                i <= cs@.len(),
                (*self) == (Composer { out: self.out, counter: self.counter, ..*old(self) }),
                self.out@ == old(self).out@ + cs@.take(i as int),
            decreases cs@.len() - i,
        {
            let ghost before = self.out@;
            self.push_char(cs[i]);
            proof {
                assert(before.push(cs@[i as int]) =~= old(self).out@ + cs@.take(i + 1));
            }
            i = i + 1;
        }
        proof {
            assert(cs@.take(cs@.len() as int) =~= cs@);
        }
    }

    /// Emits a string: escaped, and quote-wrapped exactly when `force_quotes`
    /// asks for it or some character of the string is not a word character.
    #[verifier::loop_isolation(false)]
    #[verifier::rlimit(50)]
    fn compose_string(&mut self, t: &str)
        requires
            old(self).wf(),
        ensures
            final(self).wf(),
            final(self).out@ == old(self).out@ + spec_compose_string(
                t@,
                old(self).force_quotes,
            ),
            *final(self) == (Composer {
                out: final(self).out,
                counter: final(self).counter,
                ..*old(self)
            }),
    {
        let cs = str_chars(t);
        let mut quoted = self.force_quotes;
        if !quoted {
            let mut i: usize = 0;
            let mut found = false;
            while i < cs.len()
                invariant
                    i <= cs@.len(),
                    found == exists|j: int| 0 <= j < i && !spec_word_char(cs@[j]),
                decreases cs@.len() - i,
            {
                if !is_word_char(cs[i]) {
                    found = true;
                }
                i = i + 1;
            }
            quoted = found;
        }
        proof {
            assert(quoted == spec_needs_quotes(t@, old(self).force_quotes));
        }
        if quoted {
            self.push_char('"');
        }
        let ghost base = self.out@;
        let mut i: usize = 0;
        while i < cs.len()
            invariant
                self.wf(),
                i <= cs@.len(),
                (*self) == (Composer { out: self.out, counter: self.counter, ..*old(self) }),
                self.out@ == base + spec_escape(cs@.take(i as int)),
            decreases cs@.len() - i,
        {
            let c = cs[i];
            if c == '\n' {
                self.push_char('\\');
                self.push_char('n');
            } else if c == '\t' {
                self.push_char('\\');
                self.push_char('t');
            } else if c == '\r' {
                self.push_char('\\');
                self.push_char('r');
            } else if c == '\0' {
                self.push_char('\\');
                self.push_char('0');
            } else if c == '\\' {
                self.push_char('\\');
                self.push_char('\\');
            } else if c == '"' {
                self.push_char('\\');
                self.push_char('"');
            } else {
                self.push_char(c);
            }
            proof {
                assert(cs@.take(i + 1).drop_last() =~= cs@.take(i as int));
                assert(self.out@ =~= base + (spec_escape(cs@.take(i as int)) + spec_escape_char(
                    c,
                )));
                assert(self.out@ =~= base + spec_escape(cs@.take(i + 1)));
            }
            i = i + 1;
        }
        proof {
            assert(cs@.take(cs@.len() as int) =~= cs@);
        }
        if quoted {
            self.push_char('"');
            proof {
                assert(final(self).out@ =~= old(self).out@ + (seq!['"'] + spec_escape(t@)
                    + seq!['"']));
            }
        }
    }

    /// Emits the prelude message, when there is one, as `# `-prefixed
    /// comment lines before anything else.
    #[verifier::loop_isolation(false)]
    fn compose_prelude(&mut self)
        requires
            old(self).wf(),
        ensures
            final(self).wf(),
            final(self).out@ == old(self).out@ + spec_compose_prelude(old(self).copts()),
            *final(self) == (Composer {
                out: final(self).out,
                counter: final(self).counter,
                ..*old(self)
            }),
    {
        let with_prelude = self.prelude.is_some();
        if !with_prelude {
            proof {
                assert(old(self).out@ + Seq::<char>::empty() =~= old(self).out@);
            }
            return ;
        }
        let ghost m: Seq<char> = match old(self).prelude {
            Some(m0) => m0@,
            None => Seq::empty(),
        };
        let n = match &self.prelude {
            Some(m0) => m0.len(),
            None => 0,
        };
        let mut i: usize = 0;
        while i < n
            invariant
                self.wf(),
                i <= n,
                n == m.len(),
                (*self) == (Composer { out: self.out, counter: self.counter, ..*old(self) }),
                old(self).out@ + spec_prelude_lines(m, 0) == self.out@ + spec_prelude_lines(
                    m,
                    i as int,
                ),
            decreases n - i,
        {
            let ghost head = self.out@;
            // find the end of the current line
            let mut e: usize = i;
            let mut done_e = false;
            while !done_e
                invariant
                    i <= e <= n,
                    n == m.len(),
                    spec_line_end(m, i as int) == spec_line_end(m, e as int),
                    done_e ==> spec_line_end(m, i as int) == e as int,
                decreases n - e, (if done_e { 0int } else { 1int }),
            {
                if e >= n {
                    done_e = true;
                } else {
                    let c = match &self.prelude {
                        Some(m0) => m0[e],
                        None => ' ',
                    };
                    if c == '\n' {
                        done_e = true;
                    } else {
                        e = e + 1;
                    }
                }
            }
            // strip one carriage return belonging to the line ending
            let t = if e < n && e > i {
                let c = match &self.prelude {
                    Some(m0) => m0[e - 1],
                    None => ' ',
                };
                if c == '\r' {
                    e - 1
                } else {
                    e
                }
            } else {
                e
            };
            self.push_char('#');
            self.push_char(' ');
            let ghost mid = self.out@;
            let mut j: usize = i;
            while j < t
                invariant
                    self.wf(),
                    i <= j <= t,
                    t <= n,
                    n == m.len(),
                    (*self) == (Composer {
                        out: self.out,
                        counter: self.counter,
                        ..*old(self)
                    }),
                    self.out@ == mid + m.subrange(i as int, j as int),
                decreases t - j,
            {
                let c = match &self.prelude {
                    Some(m0) => m0[j],
                    None => ' ',
                };
                let ghost before = self.out@;
                self.push_char(c);
                proof {
                    assert(before.push(c) =~= mid + m.subrange(i as int, j + 1));
                }
                j = j + 1;
            }
            self.push_char('\n');
            proof {
                assert(self.out@ =~= head + (seq!['#', ' '] + m.subrange(i as int, t as int)
                    + seq!['\n']));
            }
            if e < n {
                i = e + 1;
            } else {
                i = n;
                proof {
                    assert(spec_prelude_lines(m, n as int) =~= Seq::<char>::empty());
                    assert(self.out@ + spec_prelude_lines(m, i as int) =~= self.out@);
                }
            }
        }
        proof {
            assert(spec_prelude_lines(m, n as int) =~= Seq::<char>::empty());
            assert(final(self).out@ + spec_prelude_lines(m, n as int) =~= final(self).out@);
        }
    }

    /// Emits any value: a string bare or quoted, a list in brackets, a dict
    /// in braces.
    fn compose_value(&mut self, v: &JsefValue) -> (r: Result<(), JsefErr>)
        requires
            old(self).wf(),
        ensures
            final(self).wf(),
            match r {
                Ok(_) => spec_compose_value(
                    v@,
                    old(self).copts(),
                    old(self).depth as int,
                    old(self).out@,
                ) == Ok::<Seq<char>, JsefErr>(final(self).out@) && *final(self) == (Composer {
                    out: final(self).out,
                    counter: final(self).counter,
                    ..*old(self)
                }),
                Err(e) => spec_compose_value(
                    v@,
                    old(self).copts(),
                    old(self).depth as int,
                    old(self).out@,
                ) == Err::<Seq<char>, JsefErr>(e),
            },
        decreases *v, 0int, 0int,
    {
        match v {
            JsefValue::String(s) => {
                self.compose_string(s.as_str());
                Ok(())
            },
            JsefValue::List(l) => self.compose_list(l),
            JsefValue::Dict(d) => self.compose_dict(d),
        }
    }

    /// Emits a non-root list between its brackets.
    #[verifier::loop_isolation(false)]
    fn compose_list(&mut self, l: &JsefList) -> (r: Result<(), JsefErr>)
        requires
            old(self).wf(),
        ensures
            final(self).wf(),
            match r {
                Ok(_) => spec_compose_list_inner(
                    view_list(l@),
                    old(self).copts(),
                    old(self).depth as int,
                    old(self).out@,
                ) == Ok::<Seq<char>, JsefErr>(final(self).out@) && *final(self) == (Composer {
                    out: final(self).out,
                    counter: final(self).counter,
                    ..*old(self)
                }),
                Err(e) => spec_compose_list_inner(
                    view_list(l@),
                    old(self).copts(),
                    old(self).depth as int,
                    old(self).out@,
                ) == Err::<Seq<char>, JsefErr>(e),
            },
        decreases l@, l@.len() + 1, 0int,
    {
        let ghost lv = view_list(l@);
        proof {
            lemma_view_list(l@);
        }
        match self.push_depth() {
            Ok(_) => {},
            Err(e) => {
                return Err(e);
            },
        }
        self.push_char('[');
        proof {
            assert(self.out@ =~= old(self).out@ + seq!['[']);
        }
        let n = l.len();
        if n == 0 {
            self.pop_depth();
            self.push_char(']');
            proof {
                assert(final(self).out@ =~= (old(self).out@ + seq!['[']) + seq![']']);
            }
            return Ok(());
        }
        self.separator(false);
        let ghost o2 = self.out@;
        let ghost dep1 = self.depth as int;
        let mut i: usize = 0;
        while i < n
            invariant
                self.wf(),
                i <= n,
                n == l@.len(),
                self.depth as int == dep1,
                dep1 == old(self).depth + 1,
                (*self) == (Composer {
                    out: self.out,
                    counter: self.counter,
                    depth: self.depth,
                    ..*old(self)
                }),
                spec_compose_items(lv, i as int, old(self).copts(), dep1, self.out@)
                    == spec_compose_items(lv, 0, old(self).copts(), dep1, o2),
            decreases n - i,
        {
            if i > 0 {
                self.separator(true);
            }
            match self.compose_value(&l[i]) {
                Ok(_) => {},
                Err(e) => {
                    return Err(e);
                },
            }
            i = i + 1;
        }
        let ghost o3 = self.out@;
        self.pop_depth();
        self.separator(false);
        self.push_char(']');
        proof {
            assert(self.out@ =~= o3 + spec_separator(
                old(self).copts(),
                old(self).depth as int,
                false,
            ) + seq![']']);
        }
        Ok(())
    }

    /// Emits a non-root dict between its braces.
    #[verifier::loop_isolation(false)]
    fn compose_dict(&mut self, d: &JsefDict) -> (r: Result<(), JsefErr>)
        requires
            old(self).wf(),
        ensures
            final(self).wf(),
            match r {
                Ok(_) => spec_compose_dict_inner(
                    d@,
                    old(self).copts(),
                    old(self).depth as int,
                    old(self).out@,
                ) == Ok::<Seq<char>, JsefErr>(final(self).out@) && *final(self) == (Composer {
                    out: final(self).out,
                    counter: final(self).counter,
                    ..*old(self)
                }),
                Err(e) => spec_compose_dict_inner(
                    d@,
                    old(self).copts(),
                    old(self).depth as int,
                    old(self).out@,
                ) == Err::<Seq<char>, JsefErr>(e),
            },
        decreases d.entries@, d.entries@.len() + 1, 0int,
    {
        let ghost dv = d@;
        proof {
            lemma_view_entries(d.entries@);
        }
        match self.push_depth() {
            Ok(_) => {},
            Err(e) => {
                return Err(e);
            },
        }
        self.push_char('{');
        proof {
            assert(self.out@ =~= old(self).out@ + seq!['{']);
        }
        let n = d.entries.len();
        if n == 0 {
            self.pop_depth();
            self.push_char('}');
            proof {
                assert(final(self).out@ =~= (old(self).out@ + seq!['{']) + seq!['}']);
            }
            return Ok(());
        }
        self.separator(false);
        let ghost o2 = self.out@;
        let ghost dep1 = self.depth as int;
        let mut i: usize = 0;
        while i < n
            invariant
                self.wf(),
                i <= n,
                n == d.entries@.len(),
                dv == d@,
                dv.len() == n,
                self.depth as int == dep1,
                dep1 == old(self).depth + 1,
                (*self) == (Composer {
                    out: self.out,
                    counter: self.counter,
                    depth: self.depth,
                    ..*old(self)
                }),
                spec_compose_pairs(dv, i as int, old(self).copts(), dep1, self.out@)
                    == spec_compose_pairs(dv, 0, old(self).copts(), dep1, o2),
            decreases n - i,
        {
            if i > 0 {
                self.separator(true);
            }
            let e = &d.entries[i];
            match self.compose_pair(&e.0, &e.1) {
                Ok(_) => {},
                Err(e2) => {
                    return Err(e2);
                },
            }
            i = i + 1;
        }
        let ghost o3 = self.out@;
        self.pop_depth();
        self.separator(false);
        self.push_char('}');
        proof {
            assert(self.out@ =~= o3 + spec_separator(
                old(self).copts(),
                old(self).depth as int,
                false,
            ) + seq!['}']);
        }
        Ok(())
    }

    /// Emits one pair: its key, then everything after the key.
    fn compose_pair(&mut self, key: &String, v: &JsefValue) -> (r: Result<(), JsefErr>)
        requires
            old(self).wf(),
        ensures
            final(self).wf(),
            match r {
                Ok(_) => spec_pair_tail(
                    v@,
                    old(self).copts(),
                    old(self).depth as int,
                    old(self).out@ + spec_compose_string(key@, old(self).force_quotes),
                ) == Ok::<Seq<char>, JsefErr>(final(self).out@) && *final(self) == (Composer {
                    out: final(self).out,
                    counter: final(self).counter,
                    ..*old(self)
                }),
                Err(e) => spec_pair_tail(
                    v@,
                    old(self).copts(),
                    old(self).depth as int,
                    old(self).out@ + spec_compose_string(key@, old(self).force_quotes),
                ) == Err::<Seq<char>, JsefErr>(e),
            },
        decreases *v, 1int, 1int,
    {
        self.compose_string(key.as_str());
        self.compose_pair_tail(v)
    }

    /// Emits what follows a pair's key: under `fold_dicts` a chain of
    /// single-entry dicts becomes dotted path notation (inner keys written
    /// verbatim), then `=` and the remaining value.
    fn compose_pair_tail(&mut self, v: &JsefValue) -> (r: Result<(), JsefErr>)
        requires
            old(self).wf(),
        ensures
            final(self).wf(),
            match r {
                Ok(_) => spec_pair_tail(
                    v@,
                    old(self).copts(),
                    old(self).depth as int,
                    old(self).out@,
                ) == Ok::<Seq<char>, JsefErr>(final(self).out@) && *final(self) == (Composer {
                    out: final(self).out,
                    counter: final(self).counter,
                    ..*old(self)
                }),
                Err(e) => spec_pair_tail(
                    v@,
                    old(self).copts(),
                    old(self).depth as int,
                    old(self).out@,
                ) == Err::<Seq<char>, JsefErr>(e),
            },
        decreases *v, 0int, 1int,
    {
        if self.fold_dicts {
            match v {
                JsefValue::Dict(d) => {
                    proof {
                        lemma_view_entries(d.entries@);
                    }
                    if d.entries.len() == 1 {
                        let e = &d.entries[0];
                        self.push_char('.');
                        self.write_raw(&e.0);
                        proof {
                            assert(self.out@ =~= (old(self).out@ + seq!['.']) + e.0@);
                        }
                        return self.compose_pair_tail(&e.1);
                    }
                },
                _ => {},
            }
        }
        if self.dense {
            self.push_char('=');
            proof {
                assert(self.out@ =~= old(self).out@ + seq!['=']);
            }
        } else {
            self.push_char(' ');
            self.push_char('=');
            self.push_char(' ');
            proof {
                assert(self.out@ =~= old(self).out@ + seq![' ', '=', ' ']);
            }
        }
        self.compose_value(v)
    }

    /// A whole value with root brackets included, after the prelude.
    pub fn compose_value_root(&mut self, v: &JsefValue) -> (r: Result<(), JsefErr>)
        requires
            old(self).wf(),
            old(self).out@ == Seq::<char>::empty(),
            old(self).depth == 0,
        ensures
            final(self).wf(),
            match r {
                Ok(_) => spec_compose_value_root(v@, old(self).copts()) == Ok::<Seq<char>, JsefErr>(
                    final(self).out@,
                ),
                Err(e) => spec_compose_value_root(v@, old(self).copts()) == Err::<
                    Seq<char>,
                    JsefErr,
                >(e),
            },
    {
        self.compose_prelude();
        proof {
            assert(Seq::<char>::empty() + spec_compose_prelude(old(self).copts()) =~= self.out@);
        }
        self.compose_value(v)
    }

    /// A root list, with the outer brackets omitted.
    #[verifier::loop_isolation(false)]
    pub fn compose_list_root(&mut self, l: &JsefList) -> (r: Result<(), JsefErr>)
        requires
            old(self).wf(),
            old(self).out@ == Seq::<char>::empty(),
            old(self).depth == 0,
        ensures
            final(self).wf(),
            match r {
                Ok(_) => spec_compose_list_root(view_list(l@), old(self).copts()) == Ok::<
                    Seq<char>,
                    JsefErr,
                >(final(self).out@),
                Err(e) => spec_compose_list_root(view_list(l@), old(self).copts()) == Err::<
                    Seq<char>,
                    JsefErr,
                >(e),
            },
    {
        let ghost lv = view_list(l@);
        proof {
            lemma_view_list(l@);
        }
        self.compose_prelude();
        proof {
            assert(Seq::<char>::empty() + spec_compose_prelude(old(self).copts()) =~= self.out@);
        }
        let ghost o0 = self.out@;
        let n = l.len();
        let mut i: usize = 0;
        while i < n
            invariant
                self.wf(),
                i <= n,
                n == l@.len(),
                self.depth == 0,
                (*self) == (Composer {
                    out: self.out,
                    counter: self.counter,
                    ..*old(self)
                }),
                spec_compose_items(lv, i as int, old(self).copts(), 0, self.out@)
                    == spec_compose_items(lv, 0, old(self).copts(), 0, o0),
            decreases n - i,
        {
            if i > 0 {
                self.separator(true);
            }
            match self.compose_value(&l[i]) {
                Ok(_) => {},
                Err(e) => {
                    return Err(e);
                },
            }
            i = i + 1;
        }
        Ok(())
    }

    /// A root dict, with the outer braces omitted.
    #[verifier::loop_isolation(false)]
    pub fn compose_dict_root(&mut self, d: &JsefDict) -> (r: Result<(), JsefErr>)
        requires
            old(self).wf(),
            old(self).out@ == Seq::<char>::empty(),
            old(self).depth == 0,
        ensures
            final(self).wf(),
            match r {
                Ok(_) => spec_compose_dict_root(d@, old(self).copts()) == Ok::<Seq<char>, JsefErr>(
                    final(self).out@,
                ),
                Err(e) => spec_compose_dict_root(d@, old(self).copts()) == Err::<
                    Seq<char>,
                    JsefErr,
                >(e),
            },
    {
        let ghost dv = d@;
        proof {
            lemma_view_entries(d.entries@);
        }
        self.compose_prelude();
        proof {
            assert(Seq::<char>::empty() + spec_compose_prelude(old(self).copts()) =~= self.out@);
        }
        let ghost o0 = self.out@;
        let n = d.entries.len();
        let mut i: usize = 0;
        while i < n
            invariant
                self.wf(),
                i <= n,
                n == d.entries@.len(),
                dv == d@,
                dv.len() == n,
                self.depth == 0,
                (*self) == (Composer {
                    out: self.out,
                    counter: self.counter,
                    ..*old(self)
                }),
                spec_compose_pairs(dv, i as int, old(self).copts(), 0, self.out@)
                    == spec_compose_pairs(dv, 0, old(self).copts(), 0, o0),
            decreases n - i,
        {
            if i > 0 {
                self.separator(true);
            }
            let e = &d.entries[i];
            match self.compose_pair(&e.0, &e.1) {
                Ok(_) => {},
                Err(e2) => {
                    return Err(e2);
                },
            }
            i = i + 1;
        }
        Ok(())
    }

    /// Emits one character, feeding it to the position tracker.
    fn push_char(&mut self, c: char)
        requires
            old(self).wf(),
        ensures
            final(self).wf(),
            final(self).out@ == old(self).out@.push(c),
            *final(self) == (Composer { out: final(self).out, counter: final(self).counter, ..*old(self) }),
    {
        self.out.push(c);
        self.counter.count(c);
        proof {
            crate::counter::lemma_lc_after_push(1, 1, old(self).out@, c);
        }
    }
}

} // verus!
