//! Laws of the codec, stated and proved over the specification-level
//! parser and composer: escape inversion, round trips under the simplified
//! preset, last-write-wins dict updates, and the depth-guard boundary.

use vstd::prelude::*;

use crate::compose::{
    spec_compose_dict_root, spec_compose_items, spec_compose_list_root, spec_compose_pairs,
    spec_compose_prelude, spec_compose_string, spec_compose_value, spec_compose_value_root,
    spec_escape, spec_escape_char, spec_needs_quotes, spec_pair_tail, spec_separator, SpecOpts,
};
use crate::err::{JsefErr, JsefErrType};
use crate::err_at;
use crate::parse::{
    spec_parse_dict_root, spec_parse_ident, spec_parse_items, spec_parse_list_root,
    spec_parse_pair, spec_parse_pairs, spec_parse_path, spec_parse_string, spec_parse_value,
    spec_parse_value_root, spec_parse_word, spec_scan_string, spec_skip_ws, spec_word_end,
};
use crate::value::{
    dict_get, dict_has_key, dict_index_of, dict_set, lemma_dict_index_of, lemma_dict_index_of_at,
    lemma_vdepth_list, lemma_vdepth_nonneg, lemma_vdepth_pairs, lemma_wf_list, lemma_wf_pairs,
    unique_keys, vdepth, vdepth_list, vdepth_pairs, wf_list, wf_pairs, wf_value, SpecDict,
    SpecValue,
};
use crate::{spec_is_ws, spec_word_char, DEPTH_LIMIT};
use crate::spec_unescape;

verus! {

/// Escaping distributes over concatenation.
proof fn lemma_escape_app(a: Seq<char>, b: Seq<char>)
    ensures
        spec_escape(a + b) == spec_escape(a) + spec_escape(b),
    decreases b.len(),
{
    if b.len() == 0 {
        assert(a + b =~= a);
        assert(spec_escape(a) + spec_escape(b) =~= spec_escape(a));
    } else {
        lemma_escape_app(a, b.drop_last());
        assert((a + b).drop_last() =~= a + b.drop_last());
        assert((a + b).last() == b.last());
        assert(spec_escape(a) + spec_escape(b) =~= (spec_escape(a) + spec_escape(b.drop_last()))
            + spec_escape_char(b.last()));
    }
}

/// Scanning escaped content followed by a closing quote yields the original
/// characters back, and stops right after the quote.
proof fn lemma_scan_escape(s: Seq<char>, i: int, t: Seq<char>)
    requires
        0 <= i,
        i + spec_escape(t).len() + 1 <= s.len(),
        s.subrange(i, i + spec_escape(t).len() as int) == spec_escape(t),
        s[i + spec_escape(t).len()] == '"',
    ensures
        spec_scan_string(s, i) == Ok::<(Seq<char>, int), JsefErr>(
            (t, i + spec_escape(t).len() + 1),
        ),
    decreases t.len(),
{
    if t.len() == 0 {
        assert(spec_escape(t).len() == 0);
        assert(s[i] == '"');
        assert(Seq::<char>::empty() =~= t);
    } else {
        let c = t[0];
        let rest = t.drop_first();
        let el = spec_escape_char(c);
        assert(t =~= seq![c] + rest);
        lemma_escape_app(seq![c], rest);
        assert(seq![c].drop_last() =~= Seq::<char>::empty());
        assert(seq![c].last() == c);
        assert(spec_escape(seq![c]) == spec_escape(Seq::<char>::empty()) + spec_escape_char(c));
        assert(spec_escape(seq![c]) =~= el);
        assert(spec_escape(t) =~= el + spec_escape(rest));
        let ghost le = spec_escape(t).len() as int;
        let ghost lr = spec_escape(rest).len() as int;
        if el.len() == 2 {
            assert(s[i] == spec_escape(t)[0]) by {
                assert(s.subrange(i, i + le)[0] == s[i]);
            }
            assert(s[i + 1] == spec_escape(t)[1]) by {
                assert(s.subrange(i, i + le)[1] == s[i + 1]);
            }
            assert(s[i] == '\\');
            assert(s[i + 1] == el[1]);
            assert(spec_unescape(el[1]) == c);
            assert(s.subrange(i + 2, i + 2 + lr) =~= spec_escape(rest)) by {
                assert forall|k: int| 0 <= k < lr implies s.subrange(i + 2, i + 2 + lr)[k]
                    == spec_escape(rest)[k] by {
                    assert(s.subrange(i, i + le)[k + 2] == s[i + 2 + k]);
                    assert(spec_escape(t)[k + 2] == spec_escape(rest)[k]);
                }
            }
            lemma_scan_escape(s, i + 2, rest);
            assert(seq![spec_unescape(s[i + 1])] + rest =~= t);
        } else {
            assert(el =~= seq![c]);
            assert(s[i] == spec_escape(t)[0]) by {
                assert(s.subrange(i, i + le)[0] == s[i]);
            }
            assert(s[i] == c);
            assert(c != '"' && c != '\\');
            assert(s.subrange(i + 1, i + 1 + lr) =~= spec_escape(rest)) by {
                assert forall|k: int| 0 <= k < lr implies s.subrange(i + 1, i + 1 + lr)[k]
                    == spec_escape(rest)[k] by {
                    assert(s.subrange(i, i + le)[k + 1] == s[i + 1 + k]);
                    assert(spec_escape(t)[k + 1] == spec_escape(rest)[k]);
                }
            }
            lemma_scan_escape(s, i + 1, rest);
            assert(seq![s[i]] + rest =~= t);
        }
    }
}

/// Law: a quote-wrapped composed string parses back to exactly the original
/// characters, the whole token and nothing more. This is the
/// character-level heart of the round trip: writing escapes exactly inverts
/// parse-time escapes.
pub proof fn lemma_string_round_trip(t: Seq<char>)
    ensures
        spec_parse_string(spec_compose_string(t, true), 0) == Ok::<(Seq<char>, int), JsefErr>(
            (t, spec_compose_string(t, true).len() as int),
        ),
{
    let s = spec_compose_string(t, true);
    assert(spec_needs_quotes(t, true));
    assert(s =~= seq!['"'] + spec_escape(t) + seq!['"']);
    let ghost le = spec_escape(t).len() as int;
    assert(s[0] == '"');
    assert(s.subrange(1, 1 + le) =~= spec_escape(t)) by {
        assert forall|k: int| 0 <= k < le implies s.subrange(1, 1 + le)[k] == spec_escape(t)[k] by {
            assert(s[1 + k] == (seq!['"'] + spec_escape(t) + seq!['"'])[1 + k]);
        }
    }
    assert(s[1 + le] == '"');
    lemma_scan_escape(s, 1, t);
}

/// Escaping leaves a string alone when nothing in it is escapable; of the
/// six escapable characters only the backslash and NUL are word characters.
proof fn lemma_escape_id(t: Seq<char>)
    requires
        forall|j: int| 0 <= j < t.len() ==> spec_word_char(#[trigger] t[j]) && t[j] != '\\'
            && t[j] != '\0',
    ensures
        spec_escape(t) == t,
    decreases t.len(),
{
    if t.len() > 0 {
        lemma_escape_id(t.drop_last());
        assert(spec_word_char(t.last()) && t.last() != '\\' && t.last() != '\0');
        assert(spec_escape_char(t.last()) =~= seq![t.last()]);
        assert(t.drop_last() + seq![t.last()] =~= t);
    }
}

/// A run of word characters up to a non-word character (or the end) is
/// exactly where the maximal word ends.
proof fn lemma_word_run(s: Seq<char>, i: int, t: Seq<char>)
    requires
        0 <= i,
        i + t.len() <= s.len(),
        s.subrange(i, i + t.len() as int) == t,
        forall|j: int| 0 <= j < t.len() ==> spec_word_char(#[trigger] t[j]),
        i + t.len() == s.len() || !spec_word_char(s[i + t.len()]),
    ensures
        spec_word_end(s, i) == i + t.len(),
    decreases t.len(),
{
    lemma_sub_index(s, i, t);
    if t.len() == 0 {
    } else {
        assert(s[i] == t[0]);
        let rest = t.drop_first();
        assert(s.subrange(i + 1, i + 1 + rest.len() as int) =~= rest) by {
            assert forall|j: int| 0 <= j < rest.len() implies s.subrange(
                i + 1,
                i + 1 + rest.len() as int,
            )[j] == rest[j] by {
                assert(s.subrange(i + 1, i + 1 + rest.len() as int)[j] == s[i + 1 + j]);
                assert(t[j + 1] == rest[j]);
            }
        }
        lemma_word_run(s, i + 1, rest);
    }
}

/// Law: a bare composed word round-trips. A non-empty string of word
/// characters with no backslash and no NUL is written bare and unchanged,
/// and parses back to exactly the original string. (An empty string would
/// compose to nothing, and a bare backslash or NUL would be escaped yet
/// read back verbatim: those need forced quotes to round-trip.)
pub proof fn lemma_bare_word_round_trip(t: Seq<char>)
    requires
        t.len() > 0,
        forall|j: int| 0 <= j < t.len() ==> spec_word_char(#[trigger] t[j]) && t[j] != '\\'
            && t[j] != '\0',
    ensures
        spec_compose_string(t, false) == t,
        spec_parse_value_root(t) == Ok::<SpecValue, JsefErr>(SpecValue::String(t)),
{
    lemma_escape_id(t);
    assert(!spec_needs_quotes(t, false));
    assert(spec_word_char(t[0]));
    assert(spec_skip_ws(t, 0) == 0);
    assert(t.subrange(0, t.len() as int) =~= t);
    lemma_word_run(t, 0, t);
    assert(spec_parse_word(t, 0) == Ok::<(Seq<char>, int), JsefErr>((t, t.len() as int)));
    assert(spec_skip_ws(t, t.len() as int) == t.len());
}

/// The simplified preset: one line, everything quoted, no folding.
pub open spec fn simple_opts() -> SpecOpts {
    SpecOpts { indent: None, force_quotes: true, dense: true, fold_dicts: false, prelude: None }
}

/// The text a value composes to under the simplified preset.
pub open spec fn stext(v: SpecValue) -> Seq<char>
    decreases v, 1int, 0int,
{
    match v {
        SpecValue::String(t) => spec_compose_string(t, true),
        SpecValue::List(l) => if l.len() == 0 {
            seq!['[', ']']
        } else {
            seq!['['] + sitems(l, 0) + seq![']']
        },
        SpecValue::Dict(d) => if d.len() == 0 {
            seq!['{', '}']
        } else {
            seq!['{'] + spairs(d, 0) + seq!['}']
        },
    }
}

/// The elements from index `k` on, single spaces between them.
pub open spec fn sitems(l: Seq<SpecValue>, k: int) -> Seq<char>
    recommends
        0 <= k < l.len(),
    decreases l, l.len() - k, 1int,
{
    if !(0 <= k < l.len()) {
        Seq::empty()
    } else if k == l.len() - 1 {
        stext(l[k])
    } else {
        stext(l[k]) + seq![' '] + sitems(l, k + 1)
    }
}

/// The pairs from index `k` on, single spaces between them.
pub open spec fn spairs(d: SpecDict, k: int) -> Seq<char>
    recommends
        0 <= k < d.len(),
    decreases d, d.len() - k, 1int,
{
    if !(0 <= k < d.len()) {
        Seq::empty()
    } else {
        let pair = spec_compose_string(d[k].0, true) + seq!['='] + stext(d[k].1);
        if k == d.len() - 1 {
            pair
        } else {
            pair + seq![' '] + spairs(d, k + 1)
        }
    }
}

/// Composed text is never empty and starts with a quote or an opening
/// bracket, never a separator or a comment.
proof fn lemma_stext_shape(v: SpecValue)
    ensures
        stext(v).len() >= 2,
        stext(v)[0] == '"' || stext(v)[0] == '[' || stext(v)[0] == '{',
{
    match v {
        SpecValue::String(t) => {
            assert(stext(v) =~= seq!['"'] + spec_escape(t) + seq!['"']);
            assert(stext(v)[0] == '"');
        },
        SpecValue::List(l) => {
            if l.len() == 0 {
            } else {
                assert(stext(v)[0] == '[');
            }
        },
        SpecValue::Dict(d) => {
            if d.len() == 0 {
            } else {
                assert(stext(v)[0] == '{');
            }
        },
    }
}

/// Under the simplified preset, composing a value appends exactly its
/// `stext`, and success bounds the nesting depth.
proof fn lemma_compose_simple_value(v: SpecValue, dep: int, pre: Seq<char>)
    requires
        spec_compose_value(v, simple_opts(), dep, pre) is Ok,
    ensures
        spec_compose_value(v, simple_opts(), dep, pre) == Ok::<Seq<char>, JsefErr>(
            pre + stext(v),
        ),
        vdepth(v) > 0 ==> dep + vdepth(v) <= DEPTH_LIMIT,
    decreases v, 1int, 0int,
{
    match v {
        SpecValue::String(t) => {},
        SpecValue::List(l) => {
            lemma_vdepth_list(l);
            assert(dep < DEPTH_LIMIT);
            if l.len() == 0 {
                assert((pre + seq!['[']) + seq![']'] =~= pre + stext(v));
            } else {
                assert(spec_separator(simple_opts(), dep + 1, false) =~= Seq::<char>::empty());
                let o2 = (pre + seq!['[']) + spec_separator(simple_opts(), dep + 1, false);
                assert(o2 =~= pre + seq!['[']);
                lemma_compose_simple_items(l, 0, dep + 1, o2);
                assert(spec_separator(simple_opts(), dep, false) =~= Seq::<char>::empty());
                assert((o2 + sitems(l, 0)) + spec_separator(simple_opts(), dep, false)
                    + seq![']'] =~= pre + (seq!['['] + sitems(l, 0) + seq![']']));
                if vdepth_list(l) > 0 {
                    let w = choose|i: int|
                        0 <= i < l.len() && vdepth(l[i]) == vdepth_list(l);
                    assert(vdepth(l[w]) > 0 ==> dep + 1 + vdepth(l[w]) <= DEPTH_LIMIT);
                }
            }
        },
        SpecValue::Dict(d) => {
            lemma_vdepth_pairs(d);
            assert(dep < DEPTH_LIMIT);
            if d.len() == 0 {
                assert((pre + seq!['{']) + seq!['}'] =~= pre + stext(v));
            } else {
                assert(spec_separator(simple_opts(), dep + 1, false) =~= Seq::<char>::empty());
                let o2 = (pre + seq!['{']) + spec_separator(simple_opts(), dep + 1, false);
                assert(o2 =~= pre + seq!['{']);
                lemma_compose_simple_pairs(d, 0, dep + 1, o2);
                assert(spec_separator(simple_opts(), dep, false) =~= Seq::<char>::empty());
                assert((o2 + spairs(d, 0)) + spec_separator(simple_opts(), dep, false)
                    + seq!['}'] =~= pre + (seq!['{'] + spairs(d, 0) + seq!['}']));
                if vdepth_pairs(d) > 0 {
                    let w = choose|i: int|
                        0 <= i < d.len() && vdepth(d[i].1) == vdepth_pairs(d);
                    assert(vdepth(d[w].1) > 0 ==> dep + 1 + vdepth(d[w].1) <= DEPTH_LIMIT);
                }
            }
        },
    }
}

/// Under the simplified preset, composing the elements from `k` on appends
/// exactly their `sitems` text, with a leading space when `k` is not first.
proof fn lemma_compose_simple_items(l: Seq<SpecValue>, k: int, dep: int, pre: Seq<char>)
    requires
        0 <= k < l.len(),
        spec_compose_items(l, k, simple_opts(), dep, pre) is Ok,
    ensures
        spec_compose_items(l, k, simple_opts(), dep, pre) == Ok::<Seq<char>, JsefErr>(
            pre + (if k == 0 {
                Seq::<char>::empty()
            } else {
                seq![' ']
            }) + sitems(l, k),
        ),
        forall|j: int| k <= j < l.len() && vdepth(#[trigger] l[j]) > 0 ==> dep + vdepth(l[j])
            <= DEPTH_LIMIT,
    decreases l, l.len() - k, 2int,
{
    let lead: Seq<char> = if k == 0 {
        Seq::empty()
    } else {
        seq![' ']
    };
    let pre1 = if k == 0 {
        pre
    } else {
        pre + spec_separator(simple_opts(), dep, true)
    };
    assert(spec_separator(simple_opts(), dep, true) =~= seq![' ']);
    assert(pre1 =~= pre + lead);
    lemma_compose_simple_value(l[k], dep, pre1);
    if k == l.len() - 1 {
        assert(pre1 + stext(l[k]) =~= pre + lead + sitems(l, k));
    } else {
        lemma_compose_simple_items(l, k + 1, dep, pre1 + stext(l[k]));
        assert((pre1 + stext(l[k])) + seq![' '] + sitems(l, k + 1) =~= pre + lead + (stext(l[k])
            + seq![' '] + sitems(l, k + 1)));
    }
}

/// Under the simplified preset, composing the pairs from `k` on appends
/// exactly their `spairs` text, with a leading space when `k` is not first.
proof fn lemma_compose_simple_pairs(d: SpecDict, k: int, dep: int, pre: Seq<char>)
    requires
        0 <= k < d.len(),
        spec_compose_pairs(d, k, simple_opts(), dep, pre) is Ok,
    ensures
        spec_compose_pairs(d, k, simple_opts(), dep, pre) == Ok::<Seq<char>, JsefErr>(
            pre + (if k == 0 {
                Seq::<char>::empty()
            } else {
                seq![' ']
            }) + spairs(d, k),
        ),
        forall|j: int| k <= j < d.len() && vdepth(#[trigger] d[j].1) > 0 ==> dep + vdepth(d[j].1)
            <= DEPTH_LIMIT,
    decreases d, d.len() - k, 2int,
{
    let lead: Seq<char> = if k == 0 {
        Seq::empty()
    } else {
        seq![' ']
    };
    let pre1 = if k == 0 {
        pre
    } else {
        pre + spec_separator(simple_opts(), dep, true)
    };
    assert(spec_separator(simple_opts(), dep, true) =~= seq![' ']);
    assert(pre1 =~= pre + lead);
    let pre2 = pre1 + spec_compose_string(d[k].0, true);
    // under this preset a pair's tail is `=` then the value, with no folding
    assert(spec_pair_tail(d[k].1, simple_opts(), dep, pre2) == spec_compose_value(
        d[k].1,
        simple_opts(),
        dep,
        pre2 + seq!['='],
    ));
    lemma_compose_simple_value(d[k].1, dep, pre2 + seq!['=']);
    let pair = spec_compose_string(d[k].0, true) + seq!['='] + stext(d[k].1);
    if k == d.len() - 1 {
        assert((pre2 + seq!['=']) + stext(d[k].1) =~= pre + lead + pair);
        assert(pre + lead + pair =~= pre + lead + spairs(d, k));
    } else {
        lemma_compose_simple_pairs(d, k + 1, dep, (pre2 + seq!['=']) + stext(d[k].1));
        assert(((pre2 + seq!['=']) + stext(d[k].1)) + seq![' '] + spairs(d, k + 1) =~= pre + lead
            + (pair + seq![' '] + spairs(d, k + 1)));
    }
}

/// Each character of a subrange-matched block can be read off the whole
/// sequence.
proof fn lemma_sub_index(s: Seq<char>, i: int, a: Seq<char>)
    requires
        0 <= i,
        i + a.len() <= s.len(),
        s.subrange(i, i + a.len() as int) == a,
    ensures
        forall|k: int| 0 <= k < a.len() ==> s[i + k] == a[k],
{
    assert forall|k: int| 0 <= k < a.len() implies s[i + k] == a[k] by {
        assert(s.subrange(i, i + a.len() as int)[k] == s[i + k]);
    }
}

/// Under the simplified preset, the composed text of any value parses back
/// to exactly that value, wherever it sits in a larger text.
#[verifier::rlimit(100)]
proof fn lemma_parse_simple_value(v: SpecValue, s: Seq<char>, i: int, dep: int)
    requires
        wf_value(v),
        dep >= 0,
        vdepth(v) > 0 ==> dep + vdepth(v) <= DEPTH_LIMIT,
        0 <= i,
        i + stext(v).len() <= s.len(),
        s.subrange(i, i + stext(v).len() as int) == stext(v),
    ensures
        spec_parse_value(s, i, dep) == Ok::<(SpecValue, int), JsefErr>((v, i + stext(v).len())),
    decreases v, 1int, 0int,
{
    let n = stext(v).len() as int;
    lemma_stext_shape(v);
    lemma_sub_index(s, i, stext(v));
    match v {
        SpecValue::String(t) => {
            assert(stext(v) =~= seq!['"'] + spec_escape(t) + seq!['"']);
            let le = spec_escape(t).len() as int;
            assert(s[i] == '"');
            assert(s.subrange(i + 1, i + 1 + le) =~= spec_escape(t)) by {
                assert forall|k: int| 0 <= k < le implies s.subrange(i + 1, i + 1 + le)[k]
                    == spec_escape(t)[k] by {
                    assert(s.subrange(i + 1, i + 1 + le)[k] == s[i + 1 + k]);
                    assert(stext(v)[1 + k] == spec_escape(t)[k]);
                }
            }
            assert(s[i + 1 + le] == '"') by {
                assert(stext(v)[n - 1] == '"');
            }
            lemma_scan_escape(s, i + 1, t);
        },
        SpecValue::List(l) => {
            lemma_wf_list(l);
            lemma_vdepth_list(l);
            assert(vdepth(v) >= 1);
            assert(dep < DEPTH_LIMIT);
            assert(s[i] == '[');
            if l.len() == 0 {
                assert(s[i + 1] == ']');
                assert(spec_skip_ws(s, i + 1) == i + 1);
                assert(l =~= Seq::<SpecValue>::empty());
            } else {
                let m = sitems(l, 0).len() as int;
                assert(stext(v) == seq!['['] + sitems(l, 0) + seq![']']);
                assert(n == m + 2);
                assert(s.subrange(i + 1, i + 1 + m) =~= sitems(l, 0)) by {
                    assert forall|k: int| 0 <= k < m implies s.subrange(i + 1, i + 1 + m)[k]
                        == sitems(l, 0)[k] by {
                        assert(s.subrange(i + 1, i + 1 + m)[k] == s[i + 1 + k]);
                        assert(stext(v)[1 + k] == sitems(l, 0)[k]);
                    }
                }
                assert(s[i + 1 + m] == ']') by {
                    assert(stext(v)[n - 1] == ']');
                }
                lemma_stext_shape(l[0]);
                assert(sitems(l, 0)[0] == stext(l[0])[0]);
                assert(s[i + 1] == sitems(l, 0)[0]) by {
                    assert(stext(v)[1] == sitems(l, 0)[0]);
                }
                assert(spec_skip_ws(s, i + 1) == i + 1);
                lemma_parse_simple_items(l, 0, s, i + 1, dep + 1, Seq::empty());
                assert(Seq::<SpecValue>::empty() + l.subrange(0, l.len() as int) =~= l);
            }
        },
        SpecValue::Dict(d) => {
            lemma_wf_pairs(d);
            lemma_vdepth_pairs(d);
            assert(vdepth(v) >= 1);
            assert(dep < DEPTH_LIMIT);
            assert(s[i] == '{');
            if d.len() == 0 {
                assert(s[i + 1] == '}');
                assert(spec_skip_ws(s, i + 1) == i + 1);
                assert(d =~= Seq::<(Seq<char>, SpecValue)>::empty());
            } else {
                let m = spairs(d, 0).len() as int;
                assert(stext(v) == seq!['{'] + spairs(d, 0) + seq!['}']);
                assert(n == m + 2);
                assert(s.subrange(i + 1, i + 1 + m) =~= spairs(d, 0)) by {
                    assert forall|k: int| 0 <= k < m implies s.subrange(i + 1, i + 1 + m)[k]
                        == spairs(d, 0)[k] by {
                        assert(s.subrange(i + 1, i + 1 + m)[k] == s[i + 1 + k]);
                        assert(stext(v)[1 + k] == spairs(d, 0)[k]);
                    }
                }
                assert(s[i + 1 + m] == '}') by {
                    assert(stext(v)[n - 1] == '}');
                }
                assert(spairs(d, 0)[0] == '"') by {
                    assert(spec_compose_string(d[0].0, true) == seq!['"'] + spec_escape(d[0].0)
                        + seq!['"']);
                }
                assert(s[i + 1] == spairs(d, 0)[0]) by {
                    assert(stext(v)[1] == spairs(d, 0)[0]);
                }
                assert(spec_skip_ws(s, i + 1) == i + 1);
                assert(d.subrange(0, 0) =~= Seq::<(Seq<char>, SpecValue)>::empty());
                lemma_parse_simple_pairs(d, 0, s, i + 1, dep + 1, d.subrange(0, 0));
            }
        },
    }
}

/// Under the simplified preset, the composed elements from `k` on, ended by
/// a character that cannot start a value (or the end of input), parse back
/// to exactly those elements.
proof fn lemma_parse_simple_items(
    l: Seq<SpecValue>,
    k: int,
    s: Seq<char>,
    i: int,
    dep: int,
    acc: Seq<SpecValue>,
)
    requires
        forall|j: int| 0 <= j < l.len() ==> wf_value(#[trigger] l[j]),
        forall|j: int| 0 <= j < l.len() && vdepth(#[trigger] l[j]) > 0 ==> dep + vdepth(l[j])
            <= DEPTH_LIMIT,
        dep >= 0,
        0 <= k < l.len(),
        0 <= i,
        i + sitems(l, k).len() <= s.len(),
        s.subrange(i, i + sitems(l, k).len() as int) == sitems(l, k),
        i + sitems(l, k).len() == s.len() || ({
            let c = s[i + sitems(l, k).len()];
            !(c == '"' || c == '[' || c == '{' || spec_word_char(c)) && !spec_is_ws(c) && c != '#'
        }),
    ensures
        spec_parse_items(s, i, dep, acc) == Ok::<(Seq<SpecValue>, int), JsefErr>(
            (acc + l.subrange(k, l.len() as int), i + sitems(l, k).len()),
        ),
    decreases l, l.len() - k, 2int,
{
    let tv = stext(l[k]);
    let m = sitems(l, k).len() as int;
    lemma_stext_shape(l[k]);
    lemma_sub_index(s, i, sitems(l, k));
    assert(sitems(l, k)[0] == tv[0]);
    assert(s[i] == tv[0]);
    assert(s.subrange(i, i + tv.len() as int) =~= tv) by {
        assert forall|j: int| 0 <= j < tv.len() implies s.subrange(i, i + tv.len() as int)[j]
            == tv[j] by {
            assert(s.subrange(i, i + tv.len() as int)[j] == s[i + j]);
            assert(sitems(l, k)[j] == tv[j]);
        }
    }
    lemma_parse_simple_value(l[k], s, i, dep);
    let p = i + tv.len() as int;
    if k == l.len() - 1 {
        assert(p == i + m);
        assert(spec_skip_ws(s, p) == p);
        assert(spec_parse_items(s, p, dep, acc.push(l[k])) == Ok::<
            (Seq<SpecValue>, int),
            JsefErr,
        >((acc.push(l[k]), p)));
        assert(acc.push(l[k]) =~= acc + l.subrange(k, l.len() as int));
    } else {
        let rest = sitems(l, k + 1);
        assert(sitems(l, k) == tv + seq![' '] + rest);
        assert(s[p] == ' ') by {
            assert(sitems(l, k)[tv.len() as int] == ' ');
        }
        lemma_stext_shape(l[k + 1]);
        assert(rest[0] == stext(l[k + 1])[0]);
        assert(s[p + 1] == rest[0]) by {
            assert(sitems(l, k)[tv.len() as int + 1] == rest[0]);
        }
        assert(spec_skip_ws(s, p + 1) == p + 1);
        assert(spec_skip_ws(s, p) == p + 1);
        assert(s.subrange(p + 1, p + 1 + rest.len() as int) =~= rest) by {
            assert forall|j: int| 0 <= j < rest.len() implies s.subrange(
                p + 1,
                p + 1 + rest.len() as int,
            )[j] == rest[j] by {
                assert(s.subrange(p + 1, p + 1 + rest.len() as int)[j] == s[p + 1 + j]);
                assert(sitems(l, k)[tv.len() as int + 1 + j] == rest[j]);
            }
        }
        lemma_parse_simple_items(l, k + 1, s, p + 1, dep, acc.push(l[k]));
        assert(acc.push(l[k]) + l.subrange(k + 1, l.len() as int) =~= acc + l.subrange(
            k,
            l.len() as int,
        ));
    }
}

/// Under the simplified preset, the composed pairs from `k` on, ended by a
/// character that cannot start an identifier (or the end of input), parse
/// back to exactly the dict, rebuilt by last-write-wins inserts.
#[verifier::rlimit(100)]
proof fn lemma_parse_simple_pairs(
    d: SpecDict,
    k: int,
    s: Seq<char>,
    i: int,
    dep: int,
    acc: SpecDict,
)
    requires
        unique_keys(d),
        forall|j: int| 0 <= j < d.len() ==> wf_value(#[trigger] d[j].1),
        forall|j: int| 0 <= j < d.len() && vdepth(#[trigger] d[j].1) > 0 ==> dep + vdepth(d[j].1)
            <= DEPTH_LIMIT,
        dep >= 0,
        0 <= k < d.len(),
        acc == d.subrange(0, k),
        0 <= i,
        i + spairs(d, k).len() <= s.len(),
        s.subrange(i, i + spairs(d, k).len() as int) == spairs(d, k),
        i + spairs(d, k).len() == s.len() || ({
            let c = s[i + spairs(d, k).len()];
            !(c == '"' || spec_word_char(c)) && !spec_is_ws(c) && c != '#'
        }),
    ensures
        spec_parse_pairs(s, i, dep, acc) == Ok::<(SpecDict, int), JsefErr>(
            (d, i + spairs(d, k).len()),
        ),
    decreases d, d.len() - k, 2int,
{
    let key = d[k].0;
    let val = d[k].1;
    let kt = spec_compose_string(key, true);
    let vt = stext(val);
    let pair = kt + seq!['='] + vt;
    let m = spairs(d, k).len() as int;
    lemma_stext_shape(val);
    lemma_sub_index(s, i, spairs(d, k));
    assert(kt == seq!['"'] + spec_escape(key) + seq!['"']);
    let le = spec_escape(key).len() as int;
    // the key token
    assert(s[i] == '"') by {
        assert(spairs(d, k)[0] == pair[0]);
    }
    assert(s.subrange(i + 1, i + 1 + le) =~= spec_escape(key)) by {
        assert forall|j: int| 0 <= j < le implies s.subrange(i + 1, i + 1 + le)[j] == spec_escape(
            key,
        )[j] by {
            assert(s.subrange(i + 1, i + 1 + le)[j] == s[i + 1 + j]);
            assert(spairs(d, k)[1 + j] == pair[1 + j]);
            assert(pair[1 + j] == kt[1 + j]);
        }
    }
    assert(s[i + 1 + le] == '"') by {
        assert(spairs(d, k)[kt.len() - 1] == pair[kt.len() - 1]);
        assert(pair[kt.len() - 1] == kt[kt.len() - 1]);
    }
    lemma_scan_escape(s, i + 1, key);
    let j0 = i + kt.len() as int;
    assert(spec_parse_ident(s, i) == Ok::<(Seq<char>, int), JsefErr>((key, j0)));
    // the equals sign, with nothing around it
    assert(s[j0] == '=') by {
        assert(spairs(d, k)[kt.len() as int] == pair[kt.len() as int]);
    }
    assert(spec_skip_ws(s, j0) == j0);
    assert(spec_parse_path(s, j0, seq![key]) == Ok::<(Seq<Seq<char>>, int), JsefErr>(
        (seq![key], j0),
    ));
    // the value
    assert(s[j0 + 1] == vt[0]) by {
        assert(spairs(d, k)[kt.len() as int + 1] == pair[kt.len() as int + 1]);
        assert(pair[kt.len() as int + 1] == vt[0]);
    }
    assert(spec_skip_ws(s, j0 + 1) == j0 + 1);
    assert(s.subrange(j0 + 1, j0 + 1 + vt.len() as int) =~= vt) by {
        assert forall|j: int| 0 <= j < vt.len() implies s.subrange(
            j0 + 1,
            j0 + 1 + vt.len() as int,
        )[j] == vt[j] by {
            assert(s.subrange(j0 + 1, j0 + 1 + vt.len() as int)[j] == s[j0 + 1 + j]);
            assert(spairs(d, k)[kt.len() as int + 1 + j] == pair[kt.len() as int + 1 + j]);
            assert(pair[kt.len() as int + 1 + j] == vt[j]);
        }
    }
    lemma_parse_simple_value(val, s, j0 + 1, dep);
    // the parsed pair lands in the accumulator as a fresh key
    lemma_dict_index_of(acc, key);
    if dict_index_of(acc, key) >= 0 {
        let w = dict_index_of(acc, key);
        assert(acc[w] == d[w]);
        assert(d[w].0 == d[k].0);
        assert(false);
    }
    let acc2 = dict_set(acc, key, val);
    assert(acc2 =~= d.subrange(0, k + 1)) by {
        assert(acc2 =~= acc.push((key, val)));
        assert(d.subrange(0, k + 1) =~= d.subrange(0, k).push(d[k]));
    }
    let p = j0 + 1 + vt.len() as int;
    assert(spec_parse_pair(s, i, dep, acc) == Ok::<(SpecDict, int), JsefErr>((acc2, p)));
    if k == d.len() - 1 {
        assert(p == i + m);
        assert(spec_skip_ws(s, p) == p);
        assert(spec_parse_pairs(s, p, dep, acc2) == Ok::<(SpecDict, int), JsefErr>((acc2, p)));
        assert(acc2 =~= d);
    } else {
        let rest = spairs(d, k + 1);
        assert(spairs(d, k) == pair + seq![' '] + rest);
        assert(s[p] == ' ') by {
            assert(spairs(d, k)[pair.len() as int] == ' ');
        }
        assert(rest[0] == '"') by {
            assert(spec_compose_string(d[k + 1].0, true) == seq!['"'] + spec_escape(d[k + 1].0)
                + seq!['"']);
        }
        assert(s[p + 1] == rest[0]) by {
            assert(spairs(d, k)[pair.len() as int + 1] == rest[0]);
        }
        assert(spec_skip_ws(s, p + 1) == p + 1);
        assert(spec_skip_ws(s, p) == p + 1);
        assert(s.subrange(p + 1, p + 1 + rest.len() as int) =~= rest) by {
            assert forall|j: int| 0 <= j < rest.len() implies s.subrange(
                p + 1,
                p + 1 + rest.len() as int,
            )[j] == rest[j] by {
                assert(s.subrange(p + 1, p + 1 + rest.len() as int)[j] == s[p + 1 + j]);
                assert(spairs(d, k)[pair.len() as int + 1 + j] == rest[j]);
            }
        }
        lemma_parse_simple_pairs(d, k + 1, s, p + 1, dep, acc2);
    }
}

/// Law: the round trip under the simplified preset. Composing any
/// well-formed value tree (every dict with unique keys) and parsing the
/// result back yields exactly the original tree.
pub proof fn lemma_round_trip_simple(v: SpecValue, opts: SpecOpts, text: Seq<char>)
    requires
        wf_value(v),
        opts == simple_opts(),
        spec_compose_value_root(v, opts) == Ok::<Seq<char>, JsefErr>(text),
    ensures
        spec_parse_value_root(text) == Ok::<SpecValue, JsefErr>(v),
{
    assert(spec_compose_prelude(opts) =~= Seq::<char>::empty());
    lemma_compose_simple_value(v, 0, spec_compose_prelude(opts));
    assert(text =~= stext(v));
    lemma_stext_shape(v);
    lemma_vdepth_nonneg(v);
    assert(spec_skip_ws(text, 0) == 0);
    assert(text.subrange(0, text.len() as int) =~= text);
    lemma_parse_simple_value(v, text, 0, 0);
    assert(spec_skip_ws(text, text.len() as int) == text.len());
}

/// Law: the round trip of a root list under the simplified preset, with the
/// outer brackets omitted on both sides.
pub proof fn lemma_list_round_trip_simple(l: Seq<SpecValue>, opts: SpecOpts, text: Seq<char>)
    requires
        wf_list(l),
        opts == simple_opts(),
        spec_compose_list_root(l, opts) == Ok::<Seq<char>, JsefErr>(text),
    ensures
        spec_parse_list_root(text) == Ok::<Seq<SpecValue>, JsefErr>(l),
{
    assert(spec_compose_prelude(opts) =~= Seq::<char>::empty());
    lemma_wf_list(l);
    if l.len() == 0 {
        assert(text =~= Seq::<char>::empty());
        assert(spec_skip_ws(text, 0) == 0);
        assert(spec_parse_items(text, 0, 0, Seq::<SpecValue>::empty()) == Ok::<
            (Seq<SpecValue>, int),
            JsefErr,
        >((Seq::empty(), 0)));
        assert(l =~= Seq::<SpecValue>::empty());
    } else {
        lemma_compose_simple_items(l, 0, 0, spec_compose_prelude(opts));
        assert(text =~= sitems(l, 0));
        lemma_stext_shape(l[0]);
        assert(sitems(l, 0)[0] == stext(l[0])[0]);
        assert(spec_skip_ws(text, 0) == 0);
        assert(text.subrange(0, text.len() as int) =~= text);
        assert forall|j: int| 0 <= j < l.len() && vdepth(#[trigger] l[j]) > 0 implies 0 + vdepth(
            l[j],
        ) <= DEPTH_LIMIT by {
            lemma_vdepth_list(l);
        }
        lemma_parse_simple_items(l, 0, text, 0, 0, Seq::empty());
        assert(Seq::<SpecValue>::empty() + l.subrange(0, l.len() as int) =~= l);
        assert(spec_skip_ws(text, text.len() as int) == text.len());
    }
}

/// Law: the round trip of a root dict under the simplified preset, with the
/// outer braces omitted on both sides.
pub proof fn lemma_dict_round_trip_simple(d: SpecDict, opts: SpecOpts, text: Seq<char>)
    requires
        unique_keys(d),
        wf_pairs(d),
        opts == simple_opts(),
        spec_compose_dict_root(d, opts) == Ok::<Seq<char>, JsefErr>(text),
    ensures
        spec_parse_dict_root(text) == Ok::<SpecDict, JsefErr>(d),
{
    assert(spec_compose_prelude(opts) =~= Seq::<char>::empty());
    lemma_wf_pairs(d);
    if d.len() == 0 {
        assert(text =~= Seq::<char>::empty());
        assert(spec_skip_ws(text, 0) == 0);
        assert(spec_parse_pairs(text, 0, 0, Seq::<(Seq<char>, SpecValue)>::empty()) == Ok::<
            (SpecDict, int),
            JsefErr,
        >((Seq::empty(), 0)));
        assert(d =~= Seq::<(Seq<char>, SpecValue)>::empty());
    } else {
        lemma_compose_simple_pairs(d, 0, 0, spec_compose_prelude(opts));
        assert(text =~= spairs(d, 0));
        assert(spairs(d, 0)[0] == '"') by {
            assert(spec_compose_string(d[0].0, true) == seq!['"'] + spec_escape(d[0].0)
                + seq!['"']);
        }
        assert(spec_skip_ws(text, 0) == 0);
        assert(text.subrange(0, text.len() as int) =~= text);
        assert forall|j: int| 0 <= j < d.len() && vdepth(#[trigger] d[j].1) > 0 implies 0 + vdepth(
            d[j].1,
        ) <= DEPTH_LIMIT by {
            lemma_vdepth_pairs(d);
        }
        assert(d.subrange(0, 0) =~= Seq::<(Seq<char>, SpecValue)>::empty());
        lemma_parse_simple_pairs(d, 0, text, 0, 0, d.subrange(0, 0));
        assert(spec_skip_ws(text, text.len() as int) == text.len());
    }
}

/// The canonical tree nested exactly `k` levels deep: `k` lists, the
/// innermost one empty.
pub open spec fn nest_value(k: int) -> SpecValue
    decreases k,
{
    if k <= 1 {
        SpecValue::List(Seq::empty())
    } else {
        SpecValue::List(seq![nest_value(k - 1)])
    }
}

proof fn lemma_nest(k: int)
    requires
        1 <= k,
    ensures
        vdepth(nest_value(k)) == k,
        wf_value(nest_value(k)),
    decreases k,
{
    if k <= 1 {
        assert(vdepth_list(Seq::<SpecValue>::empty()) == 0);
        assert(wf_list(Seq::<SpecValue>::empty()));
    } else {
        lemma_nest(k - 1);
        lemma_vdepth_nonneg(nest_value(k - 1));
        let l = seq![nest_value(k - 1)];
        assert(l.drop_last() =~= Seq::<SpecValue>::empty());
        assert(l.last() == nest_value(k - 1));
        assert(vdepth_list(Seq::<SpecValue>::empty()) == 0);
        assert(wf_list(Seq::<SpecValue>::empty()));
        assert(vdepth_list(l) == vstd::math::max(0, k - 1));
        assert(wf_list(l));
    }
}

/// Parsing the canonical deep tree past the remaining depth budget fails
/// with the depth error exactly at the opening bracket that would pass the
/// limit.
#[verifier::rlimit(100)]
proof fn lemma_nest_too_deep(k: int, s: Seq<char>, i: int, dep: int)
    requires
        1 <= k,
        0 <= dep <= DEPTH_LIMIT,
        dep + k > DEPTH_LIMIT,
        0 <= i,
        i + stext(nest_value(k)).len() <= s.len(),
        s.subrange(i, i + stext(nest_value(k)).len() as int) == stext(nest_value(k)),
    ensures
        spec_parse_value(s, i, dep) == Err::<(SpecValue, int), JsefErr>(
            err_at(s, i + (DEPTH_LIMIT - dep), JsefErrType::MaxDepth),
        ),
    decreases k,
{
    let v = nest_value(k);
    lemma_sub_index(s, i, stext(v));
    lemma_stext_shape(v);
    assert(s[i] == '[') by {
        if k <= 1 {
        } else {
            assert(seq![nest_value(k - 1)].len() == 1);
        }
    }
    if dep >= DEPTH_LIMIT {
        assert(spec_parse_value(s, i, dep) == Err::<(SpecValue, int), JsefErr>(
            err_at(s, i, JsefErrType::MaxDepth),
        ));
    } else {
        assert(k >= 2);
        let inner = nest_value(k - 1);
        let l = seq![inner];
        assert(l.len() == 1);
        assert(l[0] == inner);
        assert(sitems(l, 0) == stext(inner));
        assert(stext(v) == seq!['['] + stext(inner) + seq![']']);
        let m = stext(inner).len() as int;
        lemma_stext_shape(inner);
        assert(stext(inner)[0] == '[') by {
            if k - 1 <= 1 {
            } else {
                assert(seq![nest_value(k - 2)].len() == 1);
            }
        }
        assert(s[i + 1] == '[') by {
            assert(stext(v)[1] == stext(inner)[0]);
        }
        assert(spec_skip_ws(s, i + 1) == i + 1);
        assert(s.subrange(i + 1, i + 1 + m) =~= stext(inner)) by {
            assert forall|j: int| 0 <= j < m implies s.subrange(i + 1, i + 1 + m)[j] == stext(
                inner,
            )[j] by {
                assert(s.subrange(i + 1, i + 1 + m)[j] == s[i + 1 + j]);
                assert(stext(v)[1 + j] == stext(inner)[j]);
            }
        }
        lemma_nest_too_deep(k - 1, s, i + 1, dep + 1);
    }
}

/// Law: the depth boundary. The canonical tree nested one level less than
/// the limit allows still parses back; one nested past the limit fails with
/// the depth error positioned at the offending opening bracket, right after
/// the brackets the limit allowed.
pub proof fn lemma_depth_boundary(k: int)
    requires
        1 <= k,
    ensures
        k <= DEPTH_LIMIT ==> spec_parse_value_root(stext(nest_value(k))) == Ok::<
            SpecValue,
            JsefErr,
        >(nest_value(k)),
        k > DEPTH_LIMIT ==> spec_parse_value_root(stext(nest_value(k))) == Err::<
            SpecValue,
            JsefErr,
        >(err_at(stext(nest_value(k)), DEPTH_LIMIT as int, JsefErrType::MaxDepth)),
{
    lemma_nest(k);
    let s = stext(nest_value(k));
    lemma_stext_shape(nest_value(k));
    assert(spec_skip_ws(s, 0) == 0);
    assert(s.subrange(0, s.len() as int) =~= s);
    if k <= DEPTH_LIMIT {
        lemma_parse_simple_value(nest_value(k), s, 0, 0);
        assert(spec_skip_ws(s, s.len() as int) == s.len());
    } else {
        lemma_nest_too_deep(k, s, 0, 0);
    }
}

/// When two dicts agree on all keys position by position, a key lookup
/// lands at the same position in both.
proof fn lemma_index_of_same_keys(a: SpecDict, b: SpecDict, key: Seq<char>)
    requires
        a.len() == b.len(),
        forall|j: int| 0 <= j < a.len() ==> a[j].0 == b[j].0,
    ensures
        dict_index_of(a, key) == dict_index_of(b, key),
    decreases a.len(),
{
    if a.len() > 0 {
        assert(a[0].0 == b[0].0);
        if a[0].0 != key {
            assert forall|j: int| 0 <= j < a.drop_first().len() implies a.drop_first()[j].0
                == b.drop_first()[j].0 by {
                assert(a.drop_first()[j] == a[j + 1]);
                assert(b.drop_first()[j] == b[j + 1]);
            }
            lemma_index_of_same_keys(a.drop_first(), b.drop_first(), key);
        }
    }
}

/// Appending an entry leaves earlier keys where they were; a fresh key is
/// found at the end.
proof fn lemma_index_of_push(d: SpecDict, p: (Seq<char>, SpecValue), key: Seq<char>)
    ensures
        dict_index_of(d.push(p), key) == if dict_has_key(d, key) {
            dict_index_of(d, key)
        } else if p.0 == key {
            d.len() as int
        } else {
            -1
        },
    decreases d.len(),
{
    lemma_dict_index_of(d, key);
    if d.len() == 0 {
        assert(d.push(p) =~= seq![p]);
        if p.0 == key {
            lemma_dict_index_of_at(d.push(p), key, 0);
        } else {
            lemma_dict_index_of(d.push(p), key);
            if dict_index_of(d.push(p), key) >= 0 {
                assert(d.push(p)[dict_index_of(d.push(p), key)].0 == key);
            }
        }
    } else {
        if dict_has_key(d, key) {
            let i = dict_index_of(d, key);
            assert(d.push(p)[i].0 == key);
            lemma_dict_index_of_at(d.push(p), key, i);
        } else if p.0 == key {
            assert(d.push(p)[d.len() as int].0 == key);
            lemma_dict_index_of_at(d.push(p), key, d.len() as int);
        } else {
            lemma_dict_index_of(d.push(p), key);
            if dict_index_of(d.push(p), key) >= 0 {
                let i = dict_index_of(d.push(p), key);
                assert(d.push(p)[i].0 == key);
                if i < d.len() {
                    assert(d[i].0 == key);
                }
            }
        }
    }
}

/// Law: a dict update is last-write-wins and order-preserving. After
/// `dict_set(d, k, v)` the key `k` holds `v`; every other key is present
/// exactly as before, with its old value; an existing key keeps its
/// position, an absent key is appended at the end.
pub proof fn lemma_dict_set_last_wins(d: SpecDict, k: Seq<char>, v: SpecValue)
    ensures
        dict_has_key(dict_set(d, k, v), k),
        dict_get(dict_set(d, k, v), k) == v,
        forall|k2: Seq<char>| k2 != k ==> dict_has_key(dict_set(d, k, v), k2) == dict_has_key(
            d,
            k2,
        ),
        forall|k2: Seq<char>| k2 != k && dict_has_key(d, k2) ==> dict_get(dict_set(d, k, v), k2)
            == dict_get(d, k2),
        dict_has_key(d, k) ==> dict_set(d, k, v).len() == d.len() && dict_index_of(
            dict_set(d, k, v),
            k,
        ) == dict_index_of(d, k),
        !dict_has_key(d, k) ==> dict_set(d, k, v).len() == d.len() + 1 && dict_index_of(
            dict_set(d, k, v),
            k,
        ) == d.len(),
        forall|j: int| 0 <= j < d.len() && j != dict_index_of(d, k) ==> dict_set(d, k, v)[j]
            == d[j],
    decreases d.len(),
{
    lemma_dict_index_of(d, k);
    let d2 = dict_set(d, k, v);
    let i = dict_index_of(d, k);
    if i >= 0 {
        assert(d2 =~= d.update(i, (k, v)));
        lemma_index_of_same_keys(d, d2, k);
        assert(dict_index_of(d2, k) == i);
        assert(d2[i].1 == v);
        assert forall|k2: Seq<char>| k2 != k implies dict_has_key(d2, k2) == dict_has_key(
            d,
            k2,
        ) && (dict_has_key(d, k2) ==> dict_get(d2, k2) == dict_get(d, k2)) by {
            lemma_index_of_same_keys(d, d2, k2);
            lemma_dict_index_of(d, k2);
            let i2 = dict_index_of(d, k2);
            if i2 >= 0 {
                assert(d[i2].0 == k2);
                assert(i2 != i);
                assert(d2[i2] == d[i2]);
            }
        }
    } else {
        assert(d2 =~= d.push((k, v)));
        lemma_index_of_push(d, (k, v), k);
        assert(dict_index_of(d2, k) == d.len());
        assert(d2[d.len() as int].1 == v);
        assert forall|k2: Seq<char>| k2 != k implies dict_has_key(d2, k2) == dict_has_key(
            d,
            k2,
        ) && (dict_has_key(d, k2) ==> dict_get(d2, k2) == dict_get(d, k2)) by {
            lemma_index_of_push(d, (k, v), k2);
            lemma_dict_index_of(d, k2);
            let i2 = dict_index_of(d, k2);
            if i2 >= 0 {
                assert(d2[i2] == d[i2]);
            }
        }
    }
}

} // verus!
