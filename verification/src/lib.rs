//! A verified codec for JSeF, a human-editable text format for trees of
//! strings, ordered lists and ordered string-keyed maps: a recursive-descent
//! parser and its mirrored composer, with positioned errors, comment
//! skipping, dotted-path key folding and a shared nesting-depth guard.

use vstd::prelude::*;

mod compose;
mod counter;
mod decode;
mod err;
mod laws;
mod parse;
mod value;

pub use compose::{ComposeOpts, SpecOpts};
pub use laws::{
    lemma_bare_word_round_trip, lemma_depth_boundary, lemma_dict_round_trip_simple,
    lemma_dict_set_last_wins,
    lemma_list_round_trip_simple, lemma_round_trip_simple, lemma_string_round_trip, nest_value,
    simple_opts, sitems, spairs, stext,
};
pub use err::{JsefErr, JsefErrType, JsefResult};
pub use value::{unique_keys, wf_value, JsefDict, JsefList, JsefValue, SpecDict, SpecValue};

verus! {

broadcast use vstd::string::group_string_axioms;

/// Maximum nesting level for parsing and composing.
pub const DEPTH_LIMIT: usize = 256;

/// Relies on String::push: it appends the given character to the end of the
/// string.
pub assume_specification[ std::string::String::push ](s: &mut String, c: char)
    ensures
        final(s)@ == old(s)@.push(c),
;

/// The four separator characters: space, tab, carriage return, line feed.
pub open spec fn spec_is_ws(c: char) -> bool {
    c == ' ' || c == '\t' || c == '\r' || c == '\n'
}

/// A word character: anything that is neither a separator nor one of the
/// eight special characters `" = . { } [ ] #`.
pub open spec fn spec_word_char(c: char) -> bool {
    &&& !spec_is_ws(c)
    &&& c != '"'
    &&& c != '='
    &&& c != '.'
    &&& c != '{'
    &&& c != '}'
    &&& c != '['
    &&& c != ']'
    &&& c != '#'
}

pub fn is_word_char(c: char) -> (r: bool)
    ensures
        r == spec_word_char(c),
{
    c != ' ' && c != '\t' && c != '\r' && c != '\n' && c != '"' && c != '=' && c != '.' && c != '{'
        && c != '}' && c != '[' && c != ']' && c != '#'
}

/// What the two-character escape `\c` stands for: the recognized escapes
/// yield their control character, any other character stands for itself.
pub open spec fn spec_unescape(c: char) -> char {
    if c == 'n' {
        '\n'
    } else if c == 't' {
        '\t'
    } else if c == 'r' {
        '\r'
    } else if c == '0' {
        '\0'
    } else {
        c
    }
}

/// The error raised after consuming the first `i` characters of `s`: its
/// position is what the position tracker reports there.
pub open spec fn err_at(s: Seq<char>, i: int, e: JsefErrType) -> JsefErr {
    let lc = crate::counter::lc_after(1, 1, s.take(i));
    JsefErr { err: e, line: lc.0 as usize, col: lc.1 as usize }
}

/// Parses any [`JsefValue`] from the input text.
///
/// Requires root lists and dicts to be enclosed in the appropriate brackets.
pub fn parse_value(string: &str) -> (r: JsefResult<JsefValue>)
    ensures
        match r {
            Ok(v) => parse::spec_parse_value_root(string@) == Ok::<SpecValue, JsefErr>(v@),
            Err(e) => parse::spec_parse_value_root(string@) == Err::<SpecValue, JsefErr>(e),
        },
{
    let chars = str_chars(string);
    let mut parser = parse::Parser::new(chars);
    parser.parse_value_root()
}

/// Parses a [`JsefList`] from the input text.
///
/// *Requires* root square brackets to be omitted.
pub fn parse_list(string: &str) -> (r: JsefResult<JsefList>)
    ensures
        match r {
            Ok(l) => parse::spec_parse_list_root(string@) == Ok::<Seq<SpecValue>, JsefErr>(
                value::view_list(l@),
            ),
            Err(e) => parse::spec_parse_list_root(string@) == Err::<Seq<SpecValue>, JsefErr>(e),
        },
{
    let chars = str_chars(string);
    let mut parser = parse::Parser::new(chars);
    parser.parse_list_root()
}

/// Parses a [`JsefDict`] from the input text.
///
/// *Requires* root curly brackets to be omitted.
pub fn parse_dict(string: &str) -> (r: JsefResult<JsefDict>)
    ensures
        match r {
            Ok(d) => parse::spec_parse_dict_root(string@) == Ok::<SpecDict, JsefErr>(d@),
            Err(e) => parse::spec_parse_dict_root(string@) == Err::<SpecDict, JsefErr>(e),
        },
{
    let chars = str_chars(string);
    let mut parser = parse::Parser::new(chars);
    parser.parse_dict_root()
}

/// Parses any [`JsefValue`] from a UTF-8 byte source, decoding it first; a
/// malformed byte sequence fails at the position where it begins.
pub fn read_value(bytes: &[u8]) -> (r: JsefResult<JsefValue>)
    ensures
        ({
            let chars = decode::spec_decode_prefix(bytes@, 0);
            if decode::spec_decode_ok(bytes@, 0) {
                match r {
                    Ok(v) => parse::spec_parse_value_root(chars) == Ok::<SpecValue, JsefErr>(v@),
                    Err(e) => parse::spec_parse_value_root(chars) == Err::<SpecValue, JsefErr>(e),
                }
            } else {
                r == Err::<JsefValue, JsefErr>(err_at(chars, chars.len() as int, JsefErrType::InvalidEncoding))
            }
        }),
{
    match decode::decode_chars(bytes) {
        Ok(chars) => {
            let mut parser = parse::Parser::new(chars);
            parser.parse_value_root()
        },
        Err(prefix) => {
            let mut counter = counter::LineColCounter::new();
            counter.count_all(&prefix);
            proof {
                assert(prefix@.take(prefix@.len() as int) =~= prefix@);
            }
            Err(counter.err(JsefErrType::InvalidEncoding))
        },
    }
}

/// Parses a [`JsefList`] from a UTF-8 byte source; root brackets omitted.
pub fn read_list(bytes: &[u8]) -> (r: JsefResult<JsefList>)
    ensures
        ({
            let chars = decode::spec_decode_prefix(bytes@, 0);
            if decode::spec_decode_ok(bytes@, 0) {
                match r {
                    Ok(l) => parse::spec_parse_list_root(chars) == Ok::<Seq<SpecValue>, JsefErr>(
                        value::view_list(l@),
                    ),
                    Err(e) => parse::spec_parse_list_root(chars) == Err::<Seq<SpecValue>, JsefErr>(
                        e,
                    ),
                }
            } else {
                r == Err::<JsefList, JsefErr>(err_at(chars, chars.len() as int, JsefErrType::InvalidEncoding))
            }
        }),
{
    match decode::decode_chars(bytes) {
        Ok(chars) => {
            let mut parser = parse::Parser::new(chars);
            parser.parse_list_root()
        },
        Err(prefix) => {
            let mut counter = counter::LineColCounter::new();
            counter.count_all(&prefix);
            proof {
                assert(prefix@.take(prefix@.len() as int) =~= prefix@);
            }
            Err(counter.err(JsefErrType::InvalidEncoding))
        },
    }
}

/// Parses a [`JsefDict`] from a UTF-8 byte source; root braces omitted.
pub fn read_dict(bytes: &[u8]) -> (r: JsefResult<JsefDict>)
    ensures
        ({
            let chars = decode::spec_decode_prefix(bytes@, 0);
            if decode::spec_decode_ok(bytes@, 0) {
                match r {
                    Ok(d) => parse::spec_parse_dict_root(chars) == Ok::<SpecDict, JsefErr>(d@),
                    Err(e) => parse::spec_parse_dict_root(chars) == Err::<SpecDict, JsefErr>(e),
                }
            } else {
                r == Err::<JsefDict, JsefErr>(err_at(chars, chars.len() as int, JsefErrType::InvalidEncoding))
            }
        }),
{
    match decode::decode_chars(bytes) {
        Ok(chars) => {
            let mut parser = parse::Parser::new(chars);
            parser.parse_dict_root()
        },
        Err(prefix) => {
            let mut counter = counter::LineColCounter::new();
            counter.count_all(&prefix);
            proof {
                assert(prefix@.take(prefix@.len() as int) =~= prefix@);
            }
            Err(counter.err(JsefErrType::InvalidEncoding))
        },
    }
}

/// Composes the input [`JsefValue`] into text formatted using `opts`.
///
/// Includes root brackets and pairs with [`parse_value`].
pub fn compose_value(value: &JsefValue, opts: &ComposeOpts) -> (r: JsefResult<String>)
    ensures
        match r {
            Ok(s) => compose::spec_compose_value_root(value@, opts@) == Ok::<Seq<char>, JsefErr>(
                s@,
            ),
            Err(e) => compose::spec_compose_value_root(value@, opts@) == Err::<Seq<char>, JsefErr>(
                e,
            ),
        },
{
    let mut composer = compose::Composer::new(opts);
    match composer.compose_value_root(value) {
        Ok(_) => Ok(composer.out),
        Err(e) => Err(e),
    }
}

/// Composes the input [`JsefList`] into text formatted using `opts`.
///
/// Omits root brackets and pairs with [`parse_list`].
pub fn compose_list(list: &JsefList, opts: &ComposeOpts) -> (r: JsefResult<String>)
    ensures
        match r {
            Ok(s) => compose::spec_compose_list_root(value::view_list(list@), opts@) == Ok::<
                Seq<char>,
                JsefErr,
            >(s@),
            Err(e) => compose::spec_compose_list_root(value::view_list(list@), opts@) == Err::<
                Seq<char>,
                JsefErr,
            >(e),
        },
{
    let mut composer = compose::Composer::new(opts);
    match composer.compose_list_root(list) {
        Ok(_) => Ok(composer.out),
        Err(e) => Err(e),
    }
}

/// Composes the input [`JsefDict`] into text formatted using `opts`.
///
/// Omits root braces and pairs with [`parse_dict`].
pub fn compose_dict(dict: &JsefDict, opts: &ComposeOpts) -> (r: JsefResult<String>)
    ensures
        match r {
            Ok(s) => compose::spec_compose_dict_root(dict@, opts@) == Ok::<Seq<char>, JsefErr>(s@),
            Err(e) => compose::spec_compose_dict_root(dict@, opts@) == Err::<Seq<char>, JsefErr>(
                e,
            ),
        },
{
    let mut composer = compose::Composer::new(opts);
    match composer.compose_dict_root(dict) {
        Ok(_) => Ok(composer.out),
        Err(e) => Err(e),
    }
}

/// The characters of a string slice, as a vector.
pub fn str_chars(s: &str) -> (r: Vec<char>)
    ensures
        r@ == s@,
{
    let mut v: Vec<char> = Vec::new();
    for c in it: s.chars()
        invariant
            it.seq() == s@,
            v@ == it.seq().subrange(0, it.index() as int),
    {
        v.push(c);
        proof {
            assert(v@ =~= it.seq().subrange(0, it.index() + 1));
        }
    }
    proof {
        assert(v@ =~= s@);
    }
    v
}

} // verus!
