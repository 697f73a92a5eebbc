//! The persisted form of the call graph: a flat JSON object mapping each
//! function name to an array of callee-name strings, pretty-printed with
//! two-space indentation, sorted keys, and a trailing newline.
//!
//! Serialization renders a graph to that exact byte form; parsing accepts the
//! same shape with arbitrary whitespace between tokens and reports anything
//! else as a recoverable error, so that the query step can run against a
//! previously persisted document without crashing on a damaged one. Strings
//! are taken literally (no escape sequences); function names only ever hold
//! identifier characters, which need none.

use vstd::prelude::*;
use crate::bytes::{seq_views, entry_views, copy_range, copy_bytes, copy_bytes_vec, SP, NL, QUOTE,
    BSLASH, LBRACE, RBRACE, LBRACK, RBRACK, COLON, COMMA};
use crate::graph::{CallGraph, sorted_entries, filtered_entries, map_of_entries,
    build_call_graph};
use crate::scan::{is_space_byte, skip_spaces, lemma_skip_spaces, skip_spaces_x};

verus! {

/// A byte string wrapped in double quotes.
pub open spec fn quoted(s: Seq<u8>) -> Seq<u8> {
    seq![QUOTE] + s + seq![QUOTE]
}

/// The first `i` callee names of an array, each on its own four-space
/// indented line, separated by commas.
pub open spec fn items_prefix(cs: Seq<Seq<u8>>, i: int) -> Seq<u8>
    decreases i,
{
    if i <= 0 {
        Seq::empty()
    } else if i == 1 {
        seq![SP, SP, SP, SP] + quoted(cs[0])
    } else {
        items_prefix(cs, i - 1) + seq![COMMA, NL] + seq![SP, SP, SP, SP] + quoted(cs[i - 1])
    }
}

/// A callee array: `[]` when empty, otherwise one name per line.
pub open spec fn render_calls(cs: Seq<Seq<u8>>) -> Seq<u8> {
    if cs.len() == 0 {
        seq![LBRACK, RBRACK]
    } else {
        seq![LBRACK, NL] + items_prefix(cs, cs.len() as int) + seq![NL, SP, SP, RBRACK]
    }
}

/// One graph entry: two-space indent, quoted name, colon, callee array.
pub open spec fn render_entry(e: (Seq<u8>, Seq<Seq<u8>>)) -> Seq<u8> {
    seq![SP, SP] + quoted(e.0) + seq![COLON, SP] + render_calls(e.1)
}

/// The first `i` entries, separated by commas.
pub open spec fn entries_prefix(es: Seq<(Seq<u8>, Seq<Seq<u8>>)>, i: int) -> Seq<u8>
    decreases i,
{
    if i <= 0 {
        Seq::empty()
    } else if i == 1 {
        render_entry(es[0])
    } else {
        entries_prefix(es, i - 1) + seq![COMMA, NL] + render_entry(es[i - 1])
    }
}

/// The whole document: `{}` for an empty graph, otherwise one entry per
/// block, and a trailing newline either way.
pub open spec fn render_graph(es: Seq<(Seq<u8>, Seq<Seq<u8>>)>) -> Seq<u8> {
    if es.len() == 0 {
        seq![LBRACE, RBRACE, NL]
    } else {
        seq![LBRACE, NL] + entries_prefix(es, es.len() as int) + seq![NL, RBRACE, NL]
    }
}

fn append_bytes(out: &mut Vec<u8>, s: &Vec<u8>)
    ensures
        final(out)@ == old(out)@ + s@,
{
    let ghost base = out@;
    let mut i: usize = 0;
    proof {
        assert(out@ =~= base + s@.take(0));
    }
    while i < s.len()
        invariant
            i <= s@.len(),
            out@ == base + s@.take(i as int),
        decreases s@.len() - i,
    {
        out.push(s[i]);
        proof {
            assert((base + s@.take(i as int)).push(s@[i as int]) =~= base + s@.take(i + 1));
        }
        i += 1;
    }
    proof {
        assert(base + s@.take(i as int) =~= base + s@);
    }
}

fn append_quoted(out: &mut Vec<u8>, s: &Vec<u8>)
    ensures
        final(out)@ == old(out)@ + quoted(s@),
{
    let ghost base = out@;
    out.push(QUOTE);
    append_bytes(out, s);
    out.push(QUOTE);
    proof {
        assert(out@ =~= base + quoted(s@));
    }
}

fn append_calls(out: &mut Vec<u8>, cs: &Vec<Vec<u8>>)
    ensures
        final(out)@ == old(out)@ + render_calls(seq_views(cs@)),
{
    let ghost base = out@;
    let ghost cv = seq_views(cs@);
    if cs.len() == 0 {
        out.push(LBRACK);
        out.push(RBRACK);
        proof {
            assert(out@ =~= base + render_calls(cv));
        }
        return ;
    }
    out.push(LBRACK);
    out.push(NL);
    proof {
        assert(out@ =~= base + seq![LBRACK, NL] + items_prefix(cv, 0));
    }
    let mut i: usize = 0;
    while i < cs.len()
        invariant
            i <= cs@.len(),
            cv == seq_views(cs@),
            out@ == base + seq![LBRACK, NL] + items_prefix(cv, i as int),
        decreases cs@.len() - i,
    {
        if i > 0 {
            out.push(COMMA);
            out.push(NL);
        }
        out.push(SP);
        out.push(SP);
        out.push(SP);
        out.push(SP);
        append_quoted(out, &cs[i]);
        proof {
            assert(cv[i as int] == cs@[i as int]@);
            assert(out@ =~= base + seq![LBRACK, NL] + items_prefix(cv, i + 1));
        }
        i += 1;
    }
    out.push(NL);
    out.push(SP);
    out.push(SP);
    out.push(RBRACK);
    proof {
        assert(out@ =~= base + render_calls(cv));
    }
}

impl CallGraph {
    /// The graph serialized as its JSON document, ready to be written to the
    /// persisted artifact.
    pub fn to_json(&self) -> (doc: Vec<u8>)
        ensures
            doc@ == render_graph(self.entries_view()),
    {
        let ghost ev = self.entries_view();
        let mut out: Vec<u8> = Vec::new();
        if self.entries.len() == 0 {
            out.push(LBRACE);
            out.push(RBRACE);
            out.push(NL);
            proof {
                assert(out@ =~= render_graph(ev));
            }
            return out;
        }
        out.push(LBRACE);
        out.push(NL);
        proof {
            assert(out@ =~= seq![LBRACE, NL] + entries_prefix(ev, 0));
        }
        let mut i: usize = 0;
        while i < self.entries.len()
            invariant
                i <= self.entries@.len(),
                ev == self.entries_view(),
                out@ == seq![LBRACE, NL] + entries_prefix(ev, i as int),
            decreases self.entries@.len() - i,
        {
            if i > 0 {
                out.push(COMMA);
                out.push(NL);
            }
            out.push(SP);
            out.push(SP);
            append_quoted(&mut out, &self.entries[i].0);
            out.push(COLON);
            out.push(SP);
            append_calls(&mut out, &self.entries[i].1);
            proof {
                assert(ev[i as int].0 == self.entries@[i as int].0@);
                assert(ev[i as int].1 == seq_views(self.entries@[i as int].1@));
                assert(out@ =~= seq![LBRACE, NL] + entries_prefix(ev, i + 1));
            }
            i += 1;
        }
        out.push(NL);
        out.push(RBRACE);
        out.push(NL);
        proof {
            assert(out@ =~= render_graph(ev));
        }
        out
    }
}

/// Build the call graph of the given file contents and serialize it: the
/// whole build pipeline, from source text to persisted document bytes.
pub fn parse_source_tree(files: &Vec<Vec<u8>>) -> (doc: Vec<u8>)
    ensures
        doc@ == render_graph(sorted_entries(filtered_entries(seq_views(files@)))),
{
    let g = build_call_graph(files);
    g.to_json()
}

/// A byte that may stand unescaped inside a quoted string: anything but a
/// quote, a backslash, or a control character.
pub open spec fn plain_byte(b: u8) -> bool {
    b != QUOTE && b != BSLASH && b >= SP
}

/// The position of the closing quote of a string whose opening quote stands
/// just before `j`, provided every byte before it is plain.
pub open spec fn string_end(t: Seq<u8>, j: int) -> Option<int>
    decreases t.len() - j,
{
    if j < 0 || j >= t.len() {
        None
    } else if t[j] == QUOTE {
        Some(j)
    } else if plain_byte(t[j]) {
        string_end(t, j + 1)
    } else {
        None
    }
}

pub proof fn lemma_string_end(t: Seq<u8>, j: int)
    requires
        0 <= j <= t.len(),
    ensures
        string_end(t, j) matches Some(e) ==> j <= e < t.len(),
    decreases t.len() - j,
{
    if j < t.len() && t[j] != QUOTE && plain_byte(t[j]) {
        lemma_string_end(t, j + 1);
    }
}

/// A quoted string at position `i`: its contents and the position just after
/// the closing quote.
pub open spec fn parse_string(t: Seq<u8>, i: int) -> Option<(Seq<u8>, int)> {
    if 0 <= i && i < t.len() && t[i] == QUOTE {
        match string_end(t, i + 1) {
            None => None,
            Some(e) => Some((t.subrange(i + 1, e), e + 1)),
        }
    } else {
        None
    }
}

pub proof fn lemma_parse_string(t: Seq<u8>, i: int)
    ensures
        parse_string(t, i) matches Some(p) ==> i + 1 < p.1 <= t.len(),
{
    if parse_string(t, i) is Some {
        lemma_string_end(t, i + 1);
    }
}

/// The elements of a callee array, starting at the first element (leading
/// whitespace already skipped); ends just after the closing bracket.
pub open spec fn parse_elems(t: Seq<u8>, i: int) -> Option<(Seq<Seq<u8>>, int)>
    decreases t.len() - i,
{
    match parse_string(t, i) {
        None => None,
        Some((s, a)) => {
            let c = skip_spaces(t, a);
            if c < t.len() && t[c] == COMMA {
                let n = skip_spaces(t, c + 1);
                proof {
                    lemma_parse_string(t, i);
                    lemma_skip_spaces(t, a);
                    lemma_skip_spaces(t, c + 1);
                }
                match parse_elems(t, n) {
                    None => None,
                    Some((rest, e)) => Some((seq![s] + rest, e)),
                }
            } else if c < t.len() && t[c] == RBRACK {
                Some((seq![s], c + 1))
            } else {
                None
            }
        },
    }
}

pub proof fn lemma_parse_elems(t: Seq<u8>, i: int)
    ensures
        parse_elems(t, i) matches Some(p) ==> i < p.1 <= t.len(),
    decreases t.len() - i,
{
    if parse_elems(t, i) is Some {
        lemma_parse_string(t, i);
        let (s, a) = parse_string(t, i)->Some_0;
        lemma_skip_spaces(t, a);
        let c = skip_spaces(t, a);
        if c < t.len() && t[c] == COMMA {
            lemma_skip_spaces(t, c + 1);
            lemma_parse_elems(t, skip_spaces(t, c + 1));
        }
    }
}

/// A callee array at position `i`, bracket to bracket.
pub open spec fn parse_array(t: Seq<u8>, i: int) -> Option<(Seq<Seq<u8>>, int)> {
    if 0 <= i && i < t.len() && t[i] == LBRACK {
        let k = skip_spaces(t, i + 1);
        if k < t.len() && t[k] == RBRACK {
            Some((Seq::empty(), k + 1))
        } else {
            parse_elems(t, k)
        }
    } else {
        None
    }
}

pub proof fn lemma_parse_array(t: Seq<u8>, i: int)
    ensures
        parse_array(t, i) matches Some(p) ==> i < p.1 <= t.len(),
{
    if parse_array(t, i) is Some {
        lemma_skip_spaces(t, i + 1);
        let k = skip_spaces(t, i + 1);
        if !(k < t.len() && t[k] == RBRACK) {
            lemma_parse_elems(t, k);
        }
    }
}

/// The members of the document object, starting at the first member's quoted
/// name (leading whitespace already skipped); ends just after the closing
/// brace.
pub open spec fn parse_members(t: Seq<u8>, i: int) -> Option<
    (Seq<(Seq<u8>, Seq<Seq<u8>>)>, int),
>
    decreases t.len() - i,
{
    match parse_string(t, i) {
        None => None,
        Some((name, a)) => {
            let c = skip_spaces(t, a);
            if c < t.len() && t[c] == COLON {
                let v = skip_spaces(t, c + 1);
                match parse_array(t, v) {
                    None => None,
                    Some((calls, e)) => {
                        let s2 = skip_spaces(t, e);
                        if s2 < t.len() && t[s2] == COMMA {
                            let n = skip_spaces(t, s2 + 1);
                            proof {
                                lemma_parse_string(t, i);
                                lemma_skip_spaces(t, a);
                                lemma_skip_spaces(t, c + 1);
                                lemma_parse_array(t, v);
                                lemma_skip_spaces(t, e);
                                lemma_skip_spaces(t, s2 + 1);
                            }
                            match parse_members(t, n) {
                                None => None,
                                Some((rest, f)) => Some((seq![(name, calls)] + rest, f)),
                            }
                        } else if s2 < t.len() && t[s2] == RBRACE {
                            Some((seq![(name, calls)], s2 + 1))
                        } else {
                            None
                        }
                    },
                }
            } else {
                None
            }
        },
    }
}

/// The whole persisted document: optional whitespace, a flat object of
/// string-to-array-of-strings members, optional whitespace, end of input.
pub open spec fn parse_doc(t: Seq<u8>) -> Option<Seq<(Seq<u8>, Seq<Seq<u8>>)>> {
    let w = skip_spaces(t, 0);
    if w < t.len() && t[w] == LBRACE {
        let k = skip_spaces(t, w + 1);
        if k < t.len() && t[k] == RBRACE {
            if skip_spaces(t, k + 1) == t.len() {
                Some(Seq::empty())
            } else {
                None
            }
        } else {
            match parse_members(t, k) {
                None => None,
                Some((es, e)) => if skip_spaces(t, e) == t.len() {
                    Some(es)
                } else {
                    None
                },
            }
        }
    } else {
        None
    }
}

fn is_plain(b: u8) -> (r: bool)
    ensures
        r == plain_byte(b),
{
    b != QUOTE && b != BSLASH && b >= SP
}

fn parse_string_x(t: &Vec<u8>, i: usize) -> (r: Option<(Vec<u8>, usize)>)
    requires
        i <= t@.len(),
    ensures
        match r {
            Some(p) => parse_string(t@, i as int) == Some((p.0@, p.1 as int)) && i < p.1
                <= t@.len(),
            None => parse_string(t@, i as int) is None,
        },
{
    if !(i < t.len() && t[i] == QUOTE) {
        return None;
    }
    let mut k: usize = i + 1;
    while k < t.len()
        invariant
            i + 1 <= k <= t@.len(),
            i < t@.len(),
            t@[i as int] == QUOTE,
            string_end(t@, i + 1) == string_end(t@, k as int),
        decreases t@.len() - k,
    {
        let b = t[k];
        if b == QUOTE {
            let s = copy_range(t, i + 1, k);
            return Some((s, k + 1));
        }
        if !is_plain(b) {
            return None;
        }
        k += 1;
    }
    None
}

fn parse_elems_x(t: &Vec<u8>, i: usize) -> (r: Option<(Vec<Vec<u8>>, usize)>)
    requires
        i <= t@.len(),
    ensures
        match r {
            Some(p) => parse_elems(t@, i as int) == Some((seq_views(p.0@), p.1 as int)) && i < p.1
                <= t@.len(),
            None => parse_elems(t@, i as int) is None,
        },
    decreases t@.len() - i,
{
    let (s, a) = match parse_string_x(t, i) {
        None => {
            return None;
        },
        Some(p) => p,
    };
    let c = skip_spaces_x(t, a);
    if c < t.len() && t[c] == COMMA {
        let n = skip_spaces_x(t, c + 1);
        match parse_elems_x(t, n) {
            None => None,
            Some((rest, e)) => {
                let ghost rv = seq_views(rest@);
                let mut vs = rest;
                vs.insert(0, s);
                proof {
                    assert(seq_views(vs@) =~= seq![s@] + rv);
                }
                Some((vs, e))
            },
        }
    } else if c < t.len() && t[c] == RBRACK {
        let mut vs: Vec<Vec<u8>> = Vec::new();
        vs.push(s);
        proof {
            assert(seq_views(vs@) =~= seq![s@]);
        }
        Some((vs, c + 1))
    } else {
        None
    }
}

fn parse_array_x(t: &Vec<u8>, i: usize) -> (r: Option<(Vec<Vec<u8>>, usize)>)
    requires
        i <= t@.len(),
    ensures
        match r {
            Some(p) => parse_array(t@, i as int) == Some((seq_views(p.0@), p.1 as int)) && i < p.1
                <= t@.len(),
            None => parse_array(t@, i as int) is None,
        },
{
    if !(i < t.len() && t[i] == LBRACK) {
        return None;
    }
    let k = skip_spaces_x(t, i + 1);
    if k < t.len() && t[k] == RBRACK {
        let vs: Vec<Vec<u8>> = Vec::new();
        proof {
            assert(seq_views(vs@) =~= Seq::<Seq<u8>>::empty());
        }
        Some((vs, k + 1))
    } else {
        parse_elems_x(t, k)
    }
}

fn parse_members_x(t: &Vec<u8>, i: usize) -> (r: Option<(Vec<(Vec<u8>, Vec<Vec<u8>>)>, usize)>)
    requires
        i <= t@.len(),
    ensures
        match r {
            Some(p) => parse_members(t@, i as int) == Some((entry_views(p.0@), p.1 as int)) && i
                < p.1 <= t@.len(),
            None => parse_members(t@, i as int) is None,
        },
    decreases t@.len() - i,
{
    let (name, a) = match parse_string_x(t, i) {
        None => {
            return None;
        },
        Some(p) => p,
    };
    let c = skip_spaces_x(t, a);
    if !(c < t.len() && t[c] == COLON) {
        return None;
    }
    let v = skip_spaces_x(t, c + 1);
    let (calls, e) = match parse_array_x(t, v) {
        None => {
            return None;
        },
        Some(p) => p,
    };
    let s2 = skip_spaces_x(t, e);
    if s2 < t.len() && t[s2] == COMMA {
        let n = skip_spaces_x(t, s2 + 1);
        match parse_members_x(t, n) {
            None => None,
            Some((rest, f)) => {
                let ghost rv = entry_views(rest@);
                let mut es = rest;
                es.insert(0, (name, calls));
                proof {
                    assert(entry_views(es@) =~= seq![(name@, seq_views(calls@))] + rv);
                }
                Some((es, f))
            },
        }
    } else if s2 < t.len() && t[s2] == RBRACE {
        let mut es: Vec<(Vec<u8>, Vec<Vec<u8>>)> = Vec::new();
        es.push((name, calls));
        proof {
            assert(entry_views(es@) =~= seq![(name@, seq_views(calls@))]);
        }
        Some((es, s2 + 1))
    } else {
        None
    }
}

fn parse_doc_x(t: &Vec<u8>) -> (r: Option<Vec<(Vec<u8>, Vec<Vec<u8>>)>>)
    ensures
        match r {
            Some(es) => parse_doc(t@) == Some(entry_views(es@)),
            None => parse_doc(t@) is None,
        },
{
    let w = skip_spaces_x(t, 0);
    if !(w < t.len() && t[w] == LBRACE) {
        return None;
    }
    let k = skip_spaces_x(t, w + 1);
    if k < t.len() && t[k] == RBRACE {
        if skip_spaces_x(t, k + 1) == t.len() {
            let es: Vec<(Vec<u8>, Vec<Vec<u8>>)> = Vec::new();
            proof {
                assert(entry_views(es@) =~= Seq::<(Seq<u8>, Seq<Seq<u8>>)>::empty());
            }
            Some(es)
        } else {
            None
        }
    } else {
        match parse_members_x(t, k) {
            None => None,
            Some((es, e)) => {
                if skip_spaces_x(t, e) == t.len() {
                    Some(es)
                } else {
                    None
                }
            },
        }
    }
}

/// Why a persisted document was rejected: it does not have the flat
/// object-of-string-arrays shape.
#[derive(Debug, PartialEq, Eq, Clone, Copy)]
pub enum ParseError {
    Malformed,
}

/// Parse a persisted call-graph document. Returns the graph on exactly those
/// inputs that match the document grammar, and `ParseError::Malformed` on
/// every other input; duplicate names in the document collapse to the last
/// occurrence, as in the build itself.
pub fn parse_function_calls_json(text: &Vec<u8>) -> (r: Result<CallGraph, ParseError>)
    ensures
        r is Ok <==> parse_doc(text@) is Some,
        r matches Ok(g) ==> g.well_formed() && g.entries_view() == sorted_entries(
            parse_doc(text@)->Some_0,
        ) && g.as_map() == map_of_entries(parse_doc(text@)->Some_0),
{
    match parse_doc_x(text) {
        None => Err(ParseError::Malformed),
        Some(entries) => {
            let ghost pv = entry_views(entries@);
            let mut g = CallGraph::new();
            let mut i: usize = 0;
            proof {
                assert(pv.take(0) =~= Seq::<(Seq<u8>, Seq<Seq<u8>>)>::empty());
            }
            while i < entries.len()
                invariant
                    i <= entries@.len(),
                    pv == entry_views(entries@),
                    g.well_formed(),
                    g.entries_view() == sorted_entries(pv.take(i as int)),
                decreases entries@.len() - i,
            {
                let name = copy_bytes(&entries[i].0);
                let calls = copy_bytes_vec(&entries[i].1);
                proof {
                    assert(pv.take(i + 1).drop_last() =~= pv.take(i as int));
                    assert(pv.take(i + 1).last() == pv[i as int]);
                    assert(pv[i as int].0 == entries@[i as int].0@);
                    assert(pv[i as int].1 == seq_views(entries@[i as int].1@));
                }
                g.insert_entry(name, calls);
                i += 1;
            }
            proof {
                assert(pv.take(i as int) =~= pv);
                crate::graph::lemma_sorted_entries(pv);
            }
            Ok(g)
        },
    }
}

/// Every byte of the string may stand unescaped inside quotes.
pub open spec fn plain_seq(s: Seq<u8>) -> bool {
    forall|k: int| 0 <= k < s.len() ==> plain_byte(#[trigger] s[k])
}

/// Every callee name consists of plain bytes.
pub open spec fn plain_calls(cs: Seq<Seq<u8>>) -> bool {
    forall|k: int| 0 <= k < cs.len() ==> plain_seq(#[trigger] cs[k])
}

/// Every name and every callee name consists of plain bytes. Scanned
/// function names always do: they hold identifier characters only.
pub open spec fn plain_entries(es: Seq<(Seq<u8>, Seq<Seq<u8>>)>) -> bool {
    forall|i: int| 0 <= i < es.len() ==> plain_seq((#[trigger] es[i]).0) && plain_calls(es[i].1)
}

/// The byte string `s` occurs in `t` starting at position `p`.
pub open spec fn bytes_at(t: Seq<u8>, p: int, s: Seq<u8>) -> bool {
    0 <= p && p + s.len() <= t.len() && forall|k: int| 0 <= k < s.len() ==> t[p + k] == #[trigger] s[k]
}

pub proof fn lemma_bytes_at_split(t: Seq<u8>, p: int, a: Seq<u8>, b: Seq<u8>)
    requires
        bytes_at(t, p, a + b),
    ensures
        bytes_at(t, p, a),
        bytes_at(t, p + a.len(), b),
{
    assert forall|k: int| 0 <= k < a.len() implies t[p + k] == a[k] by {
        assert(t[p + k] == (a + b)[k]);
    }
    assert forall|k: int| 0 <= k < b.len() implies t[p + a.len() + k] == b[k] by {
        assert(t[p + (a.len() + k)] == (a + b)[a.len() + k]);
    }
}

proof fn lemma_string_end_plain(t: Seq<u8>, j: int, e: int)
    requires
        0 <= j <= e < t.len(),
        forall|k: int| j <= k < e ==> plain_byte(#[trigger] t[k]),
        t[e] == QUOTE,
    ensures
        string_end(t, j) == Some(e),
    decreases e - j,
{
    if j < e {
        assert(plain_byte(t[j]));
        lemma_string_end_plain(t, j + 1, e);
    }
}

proof fn lemma_skip_run(t: Seq<u8>, j: int, e: int)
    requires
        0 <= j <= e <= t.len(),
        forall|k: int| j <= k < e ==> is_space_byte(#[trigger] t[k]),
        e < t.len() ==> !is_space_byte(t[e]),
    ensures
        skip_spaces(t, j) == e,
    decreases e - j,
{
    if j < e {
        lemma_skip_run(t, j + 1, e);
    }
}

proof fn lemma_parse_string_rendered(t: Seq<u8>, p: int, s: Seq<u8>)
    requires
        plain_seq(s),
        bytes_at(t, p, quoted(s)),
    ensures
        parse_string(t, p) == Some((s, p + s.len() + 2)),
{
    assert(t[p + 0] == quoted(s)[0]);
    assert(t[p + (s.len() as int + 1)] == quoted(s)[s.len() as int + 1]);
    assert(quoted(s)[s.len() as int + 1] == QUOTE);
    assert forall|k: int| p + 1 <= k < p + 1 + s.len() implies plain_byte(#[trigger] t[k]) by {
        assert(t[p + (k - p)] == quoted(s)[k - p]);
        assert(quoted(s)[k - p] == s[k - p - 1]);
    }
    lemma_string_end_plain(t, p + 1, p + 1 + s.len());
    assert(t.subrange(p + 1, p + 1 + s.len()) =~= s) by {
        assert forall|k: int| 0 <= k < s.len() implies t.subrange(p + 1, p + 1 + s.len())[k]
            == s[k] by {
            assert(t[p + (k + 1)] == quoted(s)[k + 1]);
        }
    }
}

/// The rendered text of a nonempty callee array from its first quote to the
/// closing bracket.
pub open spec fn elems_rest(cs: Seq<Seq<u8>>) -> Seq<u8>
    decreases cs.len(),
{
    if cs.len() <= 1 {
        quoted(cs[0]) + seq![NL, SP, SP, RBRACK]
    } else {
        quoted(cs[0]) + seq![COMMA, NL, SP, SP, SP, SP] + elems_rest(cs.drop_first())
    }
}

/// Front decomposition of the joined item list.
proof fn lemma_items_front(cs: Seq<Seq<u8>>, n: int)
    requires
        1 <= n <= cs.len(),
    ensures
        n == 1 ==> items_prefix(cs, n) == seq![SP, SP, SP, SP] + quoted(cs[0]),
        n > 1 ==> items_prefix(cs, n) == seq![SP, SP, SP, SP] + quoted(cs[0]) + seq![COMMA, NL]
            + items_prefix(cs.drop_first(), n - 1),
    decreases n,
{
    if n > 1 {
        lemma_items_front(cs, n - 1);
        assert(cs.drop_first()[n - 2] == cs[n - 1]);
        if n == 2 {
            assert(items_prefix(cs, 2) =~= seq![SP, SP, SP, SP] + quoted(cs[0]) + seq![COMMA, NL]
                + items_prefix(cs.drop_first(), 1));
        } else {
            assert(items_prefix(cs.drop_first(), n - 1) == items_prefix(cs.drop_first(), n - 2)
                + seq![COMMA, NL] + (seq![SP, SP, SP, SP] + quoted(cs.drop_first()[n - 2])));
            assert(items_prefix(cs, n) =~= seq![SP, SP, SP, SP] + quoted(cs[0]) + seq![COMMA, NL]
                + items_prefix(cs.drop_first(), n - 1));
        }
    }
}

/// The joined item list plus the array's closing bytes equals one indent
/// plus `elems_rest`.
proof fn lemma_items_decomp(cs: Seq<Seq<u8>>)
    requires
        cs.len() >= 1,
    ensures
        items_prefix(cs, cs.len() as int) + seq![NL, SP, SP, RBRACK] == seq![SP, SP, SP, SP]
            + elems_rest(cs),
    decreases cs.len(),
{
    lemma_items_front(cs, cs.len() as int);
    if cs.len() == 1 {
        assert(items_prefix(cs, 1) + seq![NL, SP, SP, RBRACK] =~= seq![SP, SP, SP, SP]
            + elems_rest(cs));
    } else {
        lemma_items_decomp(cs.drop_first());
        assert(items_prefix(cs, cs.len() as int) + seq![NL, SP, SP, RBRACK] =~= seq![SP, SP, SP,
            SP] + quoted(cs[0]) + seq![COMMA, NL] + (items_prefix(
            cs.drop_first(),
            cs.len() - 1,
        ) + seq![NL, SP, SP, RBRACK]));
        assert(seq![SP, SP, SP, SP] + quoted(cs[0]) + seq![COMMA, NL] + (seq![SP, SP, SP, SP]
            + elems_rest(cs.drop_first())) =~= seq![SP, SP, SP, SP] + elems_rest(cs));
    }
}

/// The rendered array equals a fixed head plus `elems_rest`.
proof fn lemma_calls_decomp(cs: Seq<Seq<u8>>)
    requires
        cs.len() >= 1,
    ensures
        render_calls(cs) == seq![LBRACK, NL, SP, SP, SP, SP] + elems_rest(cs),
{
    lemma_items_decomp(cs);
    assert(render_calls(cs) =~= seq![LBRACK, NL] + (items_prefix(cs, cs.len() as int) + seq![NL,
        SP, SP, RBRACK]));
    assert(seq![LBRACK, NL] + (seq![SP, SP, SP, SP] + elems_rest(cs)) =~= seq![LBRACK, NL, SP, SP,
        SP, SP] + elems_rest(cs));
}

#[verifier::rlimit(100)]
#[verifier::spinoff_prover]
proof fn lemma_parse_elems_rendered(t: Seq<u8>, p: int, cs: Seq<Seq<u8>>)
    requires
        cs.len() >= 1,
        plain_calls(cs),
        bytes_at(t, p, elems_rest(cs)),
    ensures
        parse_elems(t, p) == Some((cs, p + elems_rest(cs).len())),
    decreases cs.len(),
{
    if cs.len() == 1 {
        lemma_bytes_at_split(t, p, quoted(cs[0]), seq![NL, SP, SP, RBRACK]);
        lemma_parse_string_rendered(t, p, cs[0]);
        let a = p + cs[0].len() + 2;
        assert(t[a + 0] == NL && t[a + 1] == SP && t[a + 2] == SP && t[a + 3] == RBRACK);
        lemma_skip_run(t, a, a + 3);
        assert(seq![cs[0]] =~= cs);
    } else {
        assert(elems_rest(cs) =~= quoted(cs[0]) + (seq![COMMA, NL, SP, SP, SP, SP] + elems_rest(
            cs.drop_first(),
        )));
        lemma_bytes_at_split(t, p, quoted(cs[0]), seq![COMMA, NL, SP, SP, SP, SP] + elems_rest(
            cs.drop_first(),
        ));
        lemma_parse_string_rendered(t, p, cs[0]);
        let a = p + cs[0].len() + 2;
        lemma_bytes_at_split(t, a, seq![COMMA, NL, SP, SP, SP, SP], elems_rest(cs.drop_first()));
        assert(t[a + 0] == COMMA);
        assert(skip_spaces(t, a) == a);
        assert(t[a + 1] == NL && t[a + 2] == SP && t[a + 3] == SP && t[a + 4] == SP && t[a + 5]
            == SP);
        let n = a + 6;
        assert(t[n + 0] == elems_rest(cs.drop_first())[0]);
        assert(elems_rest(cs.drop_first())[0] == QUOTE);
        lemma_skip_run(t, a + 1, n);
        assert(plain_calls(cs.drop_first())) by {
            assert(forall|k: int| 0 <= k < cs.drop_first().len() ==> (#[trigger] cs.drop_first()[
                k]) == cs[k + 1]);
        }
        lemma_parse_elems_rendered(t, n, cs.drop_first());
        assert(seq![cs[0]] + cs.drop_first() =~= cs);
    }
}

#[verifier::rlimit(100)]
#[verifier::spinoff_prover]
proof fn lemma_parse_array_rendered(t: Seq<u8>, p: int, cs: Seq<Seq<u8>>)
    requires
        plain_calls(cs),
        bytes_at(t, p, render_calls(cs)),
    ensures
        parse_array(t, p) == Some((cs, p + render_calls(cs).len())),
{
    if cs.len() == 0 {
        assert(t[p + 0] == LBRACK && t[p + 1] == RBRACK);
        assert(skip_spaces(t, p + 1) == p + 1);
        assert(Seq::<Seq<u8>>::empty() =~= cs);
    } else {
        lemma_calls_decomp(cs);
        lemma_bytes_at_split(t, p, seq![LBRACK, NL, SP, SP, SP, SP], elems_rest(cs));
        assert(t[p + 0] == LBRACK);
        assert(t[p + 1] == NL && t[p + 2] == SP && t[p + 3] == SP && t[p + 4] == SP && t[p + 5]
            == SP);
        let k = p + 6;
        assert(t[k + 0] == elems_rest(cs)[0]);
        assert(elems_rest(cs)[0] == QUOTE);
        lemma_skip_run(t, p + 1, k);
        lemma_parse_elems_rendered(t, k, cs);
    }
}

/// The rendered text of a nonempty member list from the first name's quote
/// to the closing brace.
pub open spec fn members_rest(es: Seq<(Seq<u8>, Seq<Seq<u8>>)>) -> Seq<u8>
    decreases es.len(),
{
    if es.len() <= 1 {
        quoted(es[0].0) + seq![COLON, SP] + render_calls(es[0].1) + seq![NL, RBRACE]
    } else {
        quoted(es[0].0) + seq![COLON, SP] + render_calls(es[0].1) + seq![COMMA, NL, SP, SP]
            + members_rest(es.drop_first())
    }
}

/// Front decomposition of the joined entry list.
proof fn lemma_entries_front(es: Seq<(Seq<u8>, Seq<Seq<u8>>)>, n: int)
    requires
        1 <= n <= es.len(),
    ensures
        n == 1 ==> entries_prefix(es, n) == render_entry(es[0]),
        n > 1 ==> entries_prefix(es, n) == render_entry(es[0]) + seq![COMMA, NL]
            + entries_prefix(es.drop_first(), n - 1),
    decreases n,
{
    if n > 1 {
        lemma_entries_front(es, n - 1);
        assert(es.drop_first()[n - 2] == es[n - 1]);
        if n == 2 {
            assert(entries_prefix(es, 2) =~= render_entry(es[0]) + seq![COMMA, NL]
                + entries_prefix(es.drop_first(), 1));
        } else {
            assert(entries_prefix(es.drop_first(), n - 1) == entries_prefix(es.drop_first(), n
                - 2) + seq![COMMA, NL] + render_entry(es.drop_first()[n - 2]));
            assert(entries_prefix(es, n) =~= render_entry(es[0]) + seq![COMMA, NL]
                + entries_prefix(es.drop_first(), n - 1));
        }
    }
}

/// The joined entry list plus the closing brace equals one indent plus
/// `members_rest`.
proof fn lemma_members_decomp(es: Seq<(Seq<u8>, Seq<Seq<u8>>)>)
    requires
        es.len() >= 1,
    ensures
        entries_prefix(es, es.len() as int) + seq![NL, RBRACE] == seq![SP, SP] + members_rest(es),
    decreases es.len(),
{
    lemma_entries_front(es, es.len() as int);
    if es.len() == 1 {
        assert(entries_prefix(es, 1) + seq![NL, RBRACE] =~= seq![SP, SP] + members_rest(es));
    } else {
        lemma_members_decomp(es.drop_first());
        assert(entries_prefix(es, es.len() as int) + seq![NL, RBRACE] =~= render_entry(es[0])
            + seq![COMMA, NL] + (entries_prefix(es.drop_first(), es.len() - 1) + seq![NL,
            RBRACE]));
        assert(render_entry(es[0]) + seq![COMMA, NL] + (seq![SP, SP] + members_rest(
            es.drop_first(),
        )) =~= seq![SP, SP] + members_rest(es));
    }
}

/// The rendered document equals a fixed head plus `members_rest` plus a
/// trailing newline.
proof fn lemma_graph_decomp(es: Seq<(Seq<u8>, Seq<Seq<u8>>)>)
    requires
        es.len() >= 1,
    ensures
        render_graph(es) == seq![LBRACE, NL, SP, SP] + members_rest(es) + seq![NL],
{
    lemma_members_decomp(es);
    assert(render_graph(es) =~= seq![LBRACE, NL] + (entries_prefix(es, es.len() as int)
        + seq![NL, RBRACE]) + seq![NL]);
    assert(seq![LBRACE, NL] + (seq![SP, SP] + members_rest(es)) + seq![NL] =~= seq![LBRACE, NL,
        SP, SP] + members_rest(es) + seq![NL]);
}

#[verifier::rlimit(100)]
#[verifier::spinoff_prover]
proof fn lemma_parse_members_rendered(t: Seq<u8>, p: int, es: Seq<(Seq<u8>, Seq<Seq<u8>>)>)
    requires
        es.len() >= 1,
        plain_entries(es),
        bytes_at(t, p, members_rest(es)),
    ensures
        parse_members(t, p) == Some((es, p + members_rest(es).len())),
    decreases es.len(),
{
    let tail: Seq<u8> = if es.len() == 1 {
        seq![NL, RBRACE]
    } else {
        seq![COMMA, NL, SP, SP] + members_rest(es.drop_first())
    };
    assert(members_rest(es) =~= quoted(es[0].0) + seq![COLON, SP] + render_calls(es[0].1) + tail);
    lemma_bytes_at_split(t, p, quoted(es[0].0) + seq![COLON, SP] + render_calls(es[0].1), tail);
    lemma_bytes_at_split(t, p, quoted(es[0].0) + seq![COLON, SP], render_calls(es[0].1));
    lemma_bytes_at_split(t, p, quoted(es[0].0), seq![COLON, SP]);
    lemma_parse_string_rendered(t, p, es[0].0);
    let a = p + es[0].0.len() + 2;
    assert(t[a + 0] == COLON && t[a + 1] == SP);
    assert(skip_spaces(t, a) == a);
    let v = a + 2;
    assert(t[v + 0] == render_calls(es[0].1)[0]);
    assert(render_calls(es[0].1)[0] == LBRACK);
    lemma_skip_run(t, a + 1, v);
    lemma_parse_array_rendered(t, v, es[0].1);
    let e = v + render_calls(es[0].1).len();
    if es.len() == 1 {
        assert(t[e + 0] == NL && t[e + 1] == RBRACE);
        lemma_skip_run(t, e, e + 1);
        assert(seq![(es[0].0, es[0].1)] =~= es);
    } else {
        lemma_bytes_at_split(t, e, seq![COMMA, NL, SP, SP], members_rest(es.drop_first()));
        assert(t[e + 0] == COMMA);
        assert(skip_spaces(t, e) == e);
        assert(t[e + 1] == NL && t[e + 2] == SP && t[e + 3] == SP);
        let n = e + 4;
        assert(t[n + 0] == members_rest(es.drop_first())[0]);
        assert(members_rest(es.drop_first())[0] == QUOTE);
        lemma_skip_run(t, e + 1, n);
        assert(plain_entries(es.drop_first())) by {
            assert(forall|k: int| 0 <= k < es.drop_first().len() ==> (#[trigger] es.drop_first()[
                k]) == es[k + 1]);
        }
        lemma_parse_members_rendered(t, n, es.drop_first());
        assert(seq![(es[0].0, es[0].1)] + es.drop_first() =~= es);
    }
}

/// Round trip through the persisted form: parsing the rendered document of
/// any entry list whose names and callees are plain (as all scanned
/// identifiers are) restores exactly that list.
#[verifier::rlimit(100)]
#[verifier::spinoff_prover]
pub proof fn lemma_render_parse_round_trip(es: Seq<(Seq<u8>, Seq<Seq<u8>>)>)
    requires
        plain_entries(es),
    ensures
        parse_doc(render_graph(es)) == Some(es),
{
    let t = render_graph(es);
    if es.len() == 0 {
        assert(t == seq![LBRACE, RBRACE, NL]);
        assert(t[0] == LBRACE && t[1] == RBRACE && t[2] == NL);
        assert(skip_spaces(t, 0) == 0);
        assert(skip_spaces(t, 1) == 1);
        lemma_skip_run(t, 2, 3);
        assert(Seq::<(Seq<u8>, Seq<Seq<u8>>)>::empty() =~= es);
    } else {
        lemma_graph_decomp(es);
        assert(t =~= seq![LBRACE, NL, SP, SP] + (members_rest(es) + seq![NL]));
        assert(bytes_at(t, 0, seq![LBRACE, NL, SP, SP] + (members_rest(es) + seq![NL])));
        lemma_bytes_at_split(t, 0, seq![LBRACE, NL, SP, SP], members_rest(es) + seq![NL]);
        lemma_bytes_at_split(t, 4, members_rest(es), seq![NL]);
        assert(t[0] == LBRACE);
        assert(skip_spaces(t, 0) == 0);
        assert(t[1] == NL && t[2] == SP && t[3] == SP);
        assert(t[4] == members_rest(es)[0]);
        assert(members_rest(es)[0] == QUOTE);
        lemma_skip_run(t, 1, 4);
        lemma_parse_members_rendered(t, 4, es);
        let e: int = 4 + members_rest(es).len() as int;
        assert(t[e + 0] == NL);
        lemma_skip_run(t, e, e + 1);
        assert(e + 1 == t.len());
    }
}

/// Persisting and reloading is lossless: the serialized document of a
/// well-formed graph parses back to exactly its entries, and a graph built
/// from them (its canonical form) is the graph itself. Together with the
/// contracts of `to_json` and `parse_function_calls_json`, reloading a
/// freshly persisted graph yields an equal graph.
pub proof fn lemma_persist_round_trip(g: CallGraph)
    requires
        g.well_formed(),
        plain_entries(g.entries_view()),
    ensures
        parse_doc(render_graph(g.entries_view())) == Some(g.entries_view()),
        sorted_entries(g.entries_view()) == g.entries_view(),
{
    lemma_render_parse_round_trip(g.entries_view());
    crate::graph::lemma_sorted_entries_of_sorted(g.entries_view());
}

/// Identifier bytes are plain: letters, digits and the underscore are
/// printable and are neither the quote nor the backslash.
pub proof fn lemma_word_entries_plain(es: Seq<(Seq<u8>, Seq<Seq<u8>>)>)
    requires
        crate::scan::word_entries(es),
    ensures
        plain_entries(es),
{
    assert forall|i: int| 0 <= i < es.len() implies plain_seq((#[trigger] es[i]).0)
        && plain_calls(es[i].1) by {
        assert(crate::scan::word_seq(es[i].0));
        assert forall|k: int| 0 <= k < es[i].0.len() implies plain_byte(
            #[trigger] es[i].0[k],
        ) by {
            assert(crate::scan::is_word_byte(es[i].0[k]));
        }
        assert forall|c: int| 0 <= c < es[i].1.len() implies plain_seq(#[trigger] es[i].1[c]) by {
            assert(crate::scan::word_seq(es[i].1[c]));
            assert forall|k: int| 0 <= k < es[i].1[c].len() implies plain_byte(
                #[trigger] es[i].1[c][k],
            ) by {
                assert(crate::scan::is_word_byte(es[i].1[c][k]));
            }
        }
    }
}

/// The full pipeline round trip: the document built and persisted from any
/// source tree parses back to exactly the canonical entries of that tree's
/// graph, which are their own canonical form. With the contracts of
/// `parse_source_tree` and `parse_function_calls_json`, reloading a freshly
/// persisted build yields a graph equal to the built one.
pub proof fn lemma_build_persist_round_trip(files: Seq<Seq<u8>>)
    ensures
        parse_doc(render_graph(sorted_entries(filtered_entries(files)))) == Some(
            sorted_entries(filtered_entries(files)),
        ),
        sorted_entries(sorted_entries(filtered_entries(files))) == sorted_entries(
            filtered_entries(files),
        ),
{
    let es = sorted_entries(filtered_entries(files));
    crate::graph::lemma_built_graph_word(files);
    lemma_word_entries_plain(es);
    lemma_render_parse_round_trip(es);
    crate::graph::lemma_sorted_entries(filtered_entries(files));
    crate::graph::lemma_sorted_entries_of_sorted(es);
}

} // verus!
