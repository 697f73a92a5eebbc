//! Lexical scanning of C source text.
//!
//! A function definition is recognized by a fixed pattern: one of the
//! built-in scalar return-type keywords (`void`, `int`, `char`, `double`,
//! `float`, `bool`), at least one whitespace byte, an identifier, optional
//! whitespace, a parenthesized parameter list that stays on one line, optional
//! whitespace (which may span lines), and an opening brace. A macro definition
//! is a `#define NAME VALUE` line. A call site is an identifier immediately
//! followed by optional whitespace and `(`.
//!
//! These are deliberate heuristics: there is no comment or string
//! handling, so braces and parentheses inside literals count like any others;
//! functions returning pointers, `unsigned` variants, or aggregate types are
//! not detected; keywords such as `if` or `while` show up as call sites and
//! are only discarded later if they never coincide with a defined name.

use vstd::prelude::*;
use crate::bytes::{SP, TAB, NL, VT, FF, CR, LET_A, LET_B, LET_C, LET_D, LET_E, LET_F, LET_H, LET_I, LET_L, LET_N, LET_O, LET_R, LET_T, LET_U, LET_V, LET_Z, UP_A, UP_Z, DIG_0, DIG_9, USCORE, HASH, LPAR, RPAR, LBRACE, RBRACE};

verus! {

/// An identifier byte: ASCII letter, digit, or underscore.
pub open spec fn is_word_byte(b: u8) -> bool {
    (LET_A <= b && b <= LET_Z) || (UP_A <= b && b <= UP_Z) || (DIG_0 <= b && b <= DIG_9) || b == USCORE
}

/// A whitespace byte: space, tab, line feed, vertical tab, form feed, or
/// carriage return.
pub open spec fn is_space_byte(b: u8) -> bool {
    b == SP || b == TAB || b == NL || b == VT || b == FF || b == CR
}

/// The first position at or after `j` holding a non-whitespace byte (or the
/// end of the text).
pub open spec fn skip_spaces(t: Seq<u8>, j: int) -> int
    decreases t.len() - j,
{
    if j < 0 || j >= t.len() {
        j
    } else if is_space_byte(t[j]) {
        skip_spaces(t, j + 1)
    } else {
        j
    }
}

pub proof fn lemma_skip_spaces(t: Seq<u8>, j: int)
    requires
        0 <= j <= t.len(),
    ensures
        j <= skip_spaces(t, j) <= t.len(),
    decreases t.len() - j,
{
    if j < t.len() && is_space_byte(t[j]) {
        lemma_skip_spaces(t, j + 1);
    }
}

/// The first position at or after `j` holding a non-identifier byte (or the
/// end of the text).
pub open spec fn word_end(t: Seq<u8>, j: int) -> int
    decreases t.len() - j,
{
    if j < 0 || j >= t.len() {
        j
    } else if is_word_byte(t[j]) {
        word_end(t, j + 1)
    } else {
        j
    }
}

pub proof fn lemma_word_end(t: Seq<u8>, j: int)
    requires
        0 <= j <= t.len(),
    ensures
        j <= word_end(t, j) <= t.len(),
        forall|k: int| j <= k < word_end(t, j) ==> is_word_byte(#[trigger] t[k]),
    decreases t.len() - j,
{
    if j < t.len() && is_word_byte(t[j]) {
        lemma_word_end(t, j + 1);
    }
}

/// The position of the next line feed at or after `j`, or the end of the text.
pub open spec fn line_end(t: Seq<u8>, j: int) -> int
    decreases t.len() - j,
{
    if j < 0 || j >= t.len() {
        t.len() as int
    } else if t[j] == NL {
        j
    } else {
        line_end(t, j + 1)
    }
}

pub proof fn lemma_line_end(t: Seq<u8>, j: int)
    requires
        0 <= j <= t.len(),
    ensures
        j <= line_end(t, j) <= t.len(),
    decreases t.len() - j,
{
    if j < t.len() && t[j] != NL {
        lemma_line_end(t, j + 1);
    }
}

/// If one of the return-type keywords starts at `i`, the position just after
/// it. The keywords are pairwise prefix-free, so at most one can match.
pub open spec fn keyword_end_at(t: Seq<u8>, i: int) -> Option<int> {
    if i < 0 {
        None
    } else if i + 4 <= t.len() && t[i] == LET_V && t[i + 1] == LET_O && t[i + 2] == LET_I && t[i + 3]
        == LET_D {
        Some(i + 4)
    } else if i + 3 <= t.len() && t[i] == LET_I && t[i + 1] == LET_N && t[i + 2] == LET_T {
        Some(i + 3)
    } else if i + 4 <= t.len() && t[i] == LET_C && t[i + 1] == LET_H && t[i + 2] == LET_A && t[i + 3]
        == LET_R {
        Some(i + 4)
    } else if i + 6 <= t.len() && t[i] == LET_D && t[i + 1] == LET_O && t[i + 2] == LET_U && t[i + 3]
        == LET_B && t[i + 4] == LET_L && t[i + 5] == LET_E {
        Some(i + 6)
    } else if i + 5 <= t.len() && t[i] == LET_F && t[i + 1] == LET_L && t[i + 2] == LET_O && t[i + 3]
        == LET_A && t[i + 4] == LET_T {
        Some(i + 5)
    } else if i + 4 <= t.len() && t[i] == LET_B && t[i + 1] == LET_O && t[i + 2] == LET_O && t[i + 3]
        == LET_L {
        Some(i + 4)
    } else {
        None
    }
}

/// Scanning from `j`, the position just after the first `)` whose suffix
/// `optional whitespace then '{'` completes a signature, provided no line feed
/// intervenes (the parameter list must stay on one line). Returns the
/// position just after the `{`.
pub open spec fn close_scan(t: Seq<u8>, j: int) -> Option<int>
    decreases t.len() - j,
{
    if j < 0 || j >= t.len() {
        None
    } else if t[j] == NL {
        None
    } else if t[j] == RPAR {
        let p = skip_spaces(t, j + 1);
        if p < t.len() && t[p] == LBRACE {
            Some(p + 1)
        } else {
            close_scan(t, j + 1)
        }
    } else {
        close_scan(t, j + 1)
    }
}

pub proof fn lemma_close_scan(t: Seq<u8>, j: int)
    requires
        0 <= j <= t.len(),
    ensures
        close_scan(t, j) matches Some(e) ==> j + 1 < e <= t.len(),
    decreases t.len() - j,
{
    if j < t.len() {
        if t[j] == RPAR {
            lemma_skip_spaces(t, j + 1);
        }
        if j + 1 <= t.len() {
            lemma_close_scan(t, j + 1);
        }
    }
}

/// A recognized pattern occurrence: the byte range of the captured name and
/// the position just after the whole match.
pub ghost struct MatchSpan {
    pub name_lo: int,
    pub name_hi: int,
    pub end: int,
}

/// The function-signature pattern, tried at position `i`.
pub open spec fn def_at(t: Seq<u8>, i: int) -> Option<MatchSpan> {
    match keyword_end_at(t, i) {
        None => None,
        Some(k) => {
            if k < t.len() && is_space_byte(t[k]) {
                let nlo = skip_spaces(t, k);
                if nlo < t.len() && is_word_byte(t[nlo]) {
                    let nhi = word_end(t, nlo);
                    let p = skip_spaces(t, nhi);
                    if p < t.len() && t[p] == LPAR {
                        match close_scan(t, p + 1) {
                            None => None,
                            Some(e) => Some(MatchSpan { name_lo: nlo, name_hi: nhi, end: e }),
                        }
                    } else {
                        None
                    }
                } else {
                    None
                }
            } else {
                None
            }
        },
    }
}

pub proof fn lemma_def_at(t: Seq<u8>, i: int)
    ensures
        def_at(t, i) matches Some(d) ==> 0 <= i && i < d.name_lo && d.name_lo < d.name_hi
            && d.name_hi < d.end && d.end <= t.len(),
        def_at(t, i) matches Some(d) ==> forall|k: int|
            d.name_lo <= k < d.name_hi ==> is_word_byte(#[trigger] t[k]),
{
    if def_at(t, i) is Some {
        let k = keyword_end_at(t, i)->Some_0;
        lemma_skip_spaces(t, k);
        let nlo = skip_spaces(t, k);
        lemma_word_end(t, nlo);
        let nhi = word_end(t, nlo);
        lemma_skip_spaces(t, nhi);
        let p = skip_spaces(t, nhi);
        lemma_close_scan(t, p + 1);
    }
}

/// The `#define NAME VALUE` pattern, tried at position `i`.
pub open spec fn macro_at(t: Seq<u8>, i: int) -> Option<MatchSpan> {
    if 0 <= i && i + 7 <= t.len() && t[i] == HASH && t[i + 1] == LET_D && t[i + 2] == LET_E && t[i
        + 3] == LET_F && t[i + 4] == LET_I && t[i + 5] == LET_N && t[i + 6] == LET_E {
        let k = i + 7;
        if k < t.len() && is_space_byte(t[k]) {
            let nlo = skip_spaces(t, k);
            if nlo < t.len() && is_word_byte(t[nlo]) {
                let nhi = word_end(t, nlo);
                if nhi < t.len() && is_space_byte(t[nhi]) {
                    let vlo = skip_spaces(t, nhi);
                    Some(MatchSpan { name_lo: nlo, name_hi: nhi, end: line_end(t, vlo) })
                } else {
                    None
                }
            } else {
                None
            }
        } else {
            None
        }
    } else {
        None
    }
}

pub proof fn lemma_macro_at(t: Seq<u8>, i: int)
    ensures
        macro_at(t, i) matches Some(d) ==> 0 <= i && i < d.name_lo && d.name_lo < d.name_hi
            && d.name_hi < d.end && d.end <= t.len(),
{
    if macro_at(t, i) is Some {
        lemma_skip_spaces(t, i + 7);
        let nlo = skip_spaces(t, i + 7);
        lemma_word_end(t, nlo + 1);
        let nhi = word_end(t, nlo);
        lemma_skip_spaces(t, nhi + 1);
        let vlo = skip_spaces(t, nhi);
        lemma_line_end(t, vlo);
    }
}

/// The names of all function definitions found from position `i` on, in
/// textual order; successive matches do not overlap.
pub open spec fn def_names_from(t: Seq<u8>, i: int) -> Seq<Seq<u8>>
    decreases t.len() - i,
{
    if i < 0 || i >= t.len() {
        Seq::empty()
    } else {
        match def_at(t, i) {
            Some(d) => {
                proof {
                    lemma_def_at(t, i);
                }
                seq![t.subrange(d.name_lo, d.name_hi)] + def_names_from(t, d.end)
            },
            None => def_names_from(t, i + 1),
        }
    }
}

/// The names of all function definitions in the text, in textual order.
pub open spec fn def_names(t: Seq<u8>) -> Seq<Seq<u8>> {
    def_names_from(t, 0)
}

/// The names of all macro definitions found from position `i` on.
pub open spec fn macro_names_from(t: Seq<u8>, i: int) -> Seq<Seq<u8>>
    decreases t.len() - i,
{
    if i < 0 || i >= t.len() {
        Seq::empty()
    } else {
        match macro_at(t, i) {
            Some(d) => {
                proof {
                    lemma_macro_at(t, i);
                }
                seq![t.subrange(d.name_lo, d.name_hi)] + macro_names_from(t, d.end)
            },
            None => macro_names_from(t, i + 1),
        }
    }
}

/// The names of all macro definitions in the text, in textual order.
pub open spec fn macro_names(t: Seq<u8>) -> Seq<Seq<u8>> {
    macro_names_from(t, 0)
}

/// Position of the `}` that closes a body which starts at `j` with `depth`
/// open braces, or the end of the text if the braces never rebalance.
pub open spec fn body_end(t: Seq<u8>, j: int, depth: int) -> int
    decreases t.len() - j,
{
    if j < 0 || j >= t.len() {
        t.len() as int
    } else if t[j] == LBRACE {
        body_end(t, j + 1, depth + 1)
    } else if t[j] == RBRACE {
        if depth <= 1 {
            j
        } else {
            body_end(t, j + 1, depth - 1)
        }
    } else {
        body_end(t, j + 1, depth)
    }
}

pub proof fn lemma_body_end(t: Seq<u8>, j: int, depth: int)
    requires
        0 <= j <= t.len(),
    ensures
        j <= body_end(t, j, depth) <= t.len(),
    decreases t.len() - j,
{
    if j < t.len() {
        lemma_body_end(t, j + 1, depth + 1);
        lemma_body_end(t, j + 1, depth - 1);
        lemma_body_end(t, j + 1, depth);
    }
}

/// The body of a definition whose match ends at `end` (just after the opening
/// brace): everything up to, and not including, the matching closing brace.
pub open spec fn body_of(t: Seq<u8>, end: int) -> Seq<u8> {
    t.subrange(end, body_end(t, end, 1))
}

/// All call sites in a body, from position `i` on: each maximal identifier
/// run followed by optional whitespace and `(`, in textual order, duplicates
/// kept. Scanning resumes just after the `(`.
pub open spec fn calls_from(t: Seq<u8>, i: int) -> Seq<Seq<u8>>
    decreases t.len() - i,
{
    if i < 0 || i >= t.len() {
        Seq::empty()
    } else if is_word_byte(t[i]) && (i == 0 || !is_word_byte(t[i - 1])) {
        let h = word_end(t, i);
        let p = skip_spaces(t, h);
        if p < t.len() && t[p] == LPAR {
            proof {
                lemma_word_end(t, i);
                lemma_skip_spaces(t, h);
            }
            seq![t.subrange(i, h)] + calls_from(t, p + 1)
        } else {
            calls_from(t, i + 1)
        }
    } else {
        calls_from(t, i + 1)
    }
}

/// All call sites in a body.
pub open spec fn calls_in(body: Seq<u8>) -> Seq<Seq<u8>> {
    calls_from(body, 0)
}

/// One file's (function name, raw call sites) pairs, from position `i` on, in
/// definition discovery order. Call sites are not yet filtered.
pub open spec fn file_entries_from(t: Seq<u8>, i: int) -> Seq<(Seq<u8>, Seq<Seq<u8>>)>
    decreases t.len() - i,
{
    if i < 0 || i >= t.len() {
        Seq::empty()
    } else {
        match def_at(t, i) {
            Some(d) => {
                proof {
                    lemma_def_at(t, i);
                }
                seq![(t.subrange(d.name_lo, d.name_hi), calls_in(body_of(t, d.end)))]
                    + file_entries_from(t, d.end)
            },
            None => file_entries_from(t, i + 1),
        }
    }
}

/// One file's (function name, raw call sites) pairs, in discovery order.
pub open spec fn file_entries(t: Seq<u8>) -> Seq<(Seq<u8>, Seq<Seq<u8>>)> {
    file_entries_from(t, 0)
}

/// The definition names of a file are exactly the first components of its
/// entries, in the same order.
pub proof fn lemma_file_entry_names(t: Seq<u8>, i: int)
    ensures
        file_entries_from(t, i).map_values(|e: (Seq<u8>, Seq<Seq<u8>>)| e.0) == def_names_from(
            t,
            i,
        ),
    decreases t.len() - i,
{
    if i < 0 || i >= t.len() {
        assert(file_entries_from(t, i).map_values(|e: (Seq<u8>, Seq<Seq<u8>>)| e.0)
            =~= def_names_from(t, i));
    } else {
        match def_at(t, i) {
            Some(d) => {
                lemma_def_at(t, i);
                lemma_file_entry_names(t, d.end);
                assert(file_entries_from(t, i).map_values(|e: (Seq<u8>, Seq<Seq<u8>>)| e.0)
                    =~= def_names_from(t, i));
            },
            None => {
                lemma_file_entry_names(t, i + 1);
            },
        }
    }
}

fn is_space(b: u8) -> (r: bool)
    ensures
        r == is_space_byte(b),
{
    b == SP || b == TAB || b == NL || b == VT || b == FF || b == CR
}

fn is_word(b: u8) -> (r: bool)
    ensures
        r == is_word_byte(b),
{
    (LET_A <= b && b <= LET_Z) || (UP_A <= b && b <= UP_Z) || (DIG_0 <= b && b <= DIG_9) || b == USCORE
}

pub(crate) fn skip_spaces_x(t: &Vec<u8>, j: usize) -> (r: usize)
    requires
        j <= t@.len(),
    ensures
        r as int == skip_spaces(t@, j as int),
        j <= r <= t@.len(),
{
    let mut k: usize = j;
    while k < t.len() && is_space(t[k])
        invariant
            j <= k <= t@.len(),
            skip_spaces(t@, j as int) == skip_spaces(t@, k as int),
        decreases t@.len() - k,
    {
        k += 1;
    }
    proof {
        lemma_skip_spaces(t@, j as int);
    }
    k
}

fn word_end_x(t: &Vec<u8>, j: usize) -> (r: usize)
    requires
        j <= t@.len(),
    ensures
        r as int == word_end(t@, j as int),
        j <= r <= t@.len(),
{
    let mut k: usize = j;
    while k < t.len() && is_word(t[k])
        invariant
            j <= k <= t@.len(),
            word_end(t@, j as int) == word_end(t@, k as int),
        decreases t@.len() - k,
    {
        k += 1;
    }
    proof {
        lemma_word_end(t@, j as int);
    }
    k
}

fn line_end_x(t: &Vec<u8>, j: usize) -> (r: usize)
    requires
        j <= t@.len(),
    ensures
        r as int == line_end(t@, j as int),
        j <= r <= t@.len(),
{
    let mut k: usize = j;
    while k < t.len() && t[k] != NL
        invariant
            j <= k <= t@.len(),
            line_end(t@, j as int) == line_end(t@, k as int),
        decreases t@.len() - k,
    {
        k += 1;
    }
    proof {
        lemma_line_end(t@, j as int);
    }
    k
}

fn keyword_end_x(t: &Vec<u8>, i: usize) -> (r: Option<usize>)
    requires
        i <= t@.len(),
    ensures
        match r {
            Some(k) => keyword_end_at(t@, i as int) == Some(k as int) && i < k <= t@.len(),
            None => keyword_end_at(t@, i as int) is None,
        },
{
    let n = t.len();
    let rem = n - i;
    if rem >= 4 && t[i] == LET_V && t[i + 1] == LET_O && t[i + 2] == LET_I && t[i + 3] == LET_D {
        Some(i + 4)
    } else if rem >= 3 && t[i] == LET_I && t[i + 1] == LET_N && t[i + 2] == LET_T {
        Some(i + 3)
    } else if rem >= 4 && t[i] == LET_C && t[i + 1] == LET_H && t[i + 2] == LET_A && t[i + 3]
        == LET_R {
        Some(i + 4)
    } else if rem >= 6 && t[i] == LET_D && t[i + 1] == LET_O && t[i + 2] == LET_U && t[i + 3] == LET_B
        && t[i + 4] == LET_L && t[i + 5] == LET_E {
        Some(i + 6)
    } else if rem >= 5 && t[i] == LET_F && t[i + 1] == LET_L && t[i + 2] == LET_O && t[i + 3] == LET_A
        && t[i + 4] == LET_T {
        Some(i + 5)
    } else if rem >= 4 && t[i] == LET_B && t[i + 1] == LET_O && t[i + 2] == LET_O && t[i + 3]
        == LET_L {
        Some(i + 4)
    } else {
        None
    }
}

fn close_scan_x(t: &Vec<u8>, j: usize) -> (r: Option<usize>)
    requires
        j <= t@.len(),
    ensures
        match r {
            Some(e) => close_scan(t@, j as int) == Some(e as int) && j < e <= t@.len(),
            None => close_scan(t@, j as int) is None,
        },
{
    let mut k: usize = j;
    while k < t.len()
        invariant
            j <= k <= t@.len(),
            close_scan(t@, j as int) == close_scan(t@, k as int),
        decreases t@.len() - k,
    {
        let b = t[k];
        if b == NL {
            return None;
        }
        if b == RPAR {
            let p = skip_spaces_x(t, k + 1);
            if p < t.len() && t[p] == LBRACE {
                return Some(p + 1);
            }
        }
        k += 1;
    }
    None
}

/// The function-signature pattern, tried at position `i` of the text.
fn def_match_at(t: &Vec<u8>, i: usize) -> (r: Option<(usize, usize, usize)>)
    requires
        i <= t@.len(),
    ensures
        match r {
            Some((lo, hi, end)) => def_at(t@, i as int) == Some(
                MatchSpan { name_lo: lo as int, name_hi: hi as int, end: end as int },
            ) && i < lo && lo < hi && hi < end && end <= t@.len(),
            None => def_at(t@, i as int) is None,
        },
{
    let k = match keyword_end_x(t, i) {
        None => {
            return None;
        },
        Some(k) => k,
    };
    if !(k < t.len() && is_space(t[k])) {
        return None;
    }
    let nlo = skip_spaces_x(t, k);
    if !(nlo < t.len() && is_word(t[nlo])) {
        return None;
    }
    let nhi = word_end_x(t, nlo);
    let p = skip_spaces_x(t, nhi);
    if !(p < t.len() && t[p] == LPAR) {
        return None;
    }
    match close_scan_x(t, p + 1) {
        None => None,
        Some(e) => Some((nlo, nhi, e)),
    }
}

/// The macro-definition pattern, tried at position `i` of the text.
fn macro_match_at(t: &Vec<u8>, i: usize) -> (r: Option<(usize, usize, usize)>)
    requires
        i <= t@.len(),
    ensures
        match r {
            Some((lo, hi, end)) => macro_at(t@, i as int) == Some(
                MatchSpan { name_lo: lo as int, name_hi: hi as int, end: end as int },
            ) && i < lo && lo < hi && hi < end && end <= t@.len(),
            None => macro_at(t@, i as int) is None,
        },
{
    let n = t.len();
    if !(n - i >= 7 && t[i] == HASH && t[i + 1] == LET_D && t[i + 2] == LET_E && t[i + 3] == LET_F
        && t[i + 4] == LET_I && t[i + 5] == LET_N && t[i + 6] == LET_E) {
        return None;
    }
    let k = i + 7;
    if !(k < n && is_space(t[k])) {
        return None;
    }
    let nlo = skip_spaces_x(t, k);
    if !(nlo < n && is_word(t[nlo])) {
        return None;
    }
    let nhi = word_end_x(t, nlo);
    if !(nhi < n && is_space(t[nhi])) {
        return None;
    }
    let vlo = skip_spaces_x(t, nhi);
    let end = line_end_x(t, vlo);
    proof {
        lemma_skip_spaces(t@, nhi as int + 1);
        lemma_line_end(t@, vlo as int);
    }
    Some((nlo, nhi, end))
}

/// The names of the function definitions in one file's text, in textual
/// order: the signature scanner of the first pass.
pub fn parse_functions(content: &Vec<u8>) -> (names: Vec<Vec<u8>>)
    ensures
        crate::bytes::seq_views(names@) == def_names(content@),
{
    let mut names: Vec<Vec<u8>> = Vec::new();
    let mut i: usize = 0;
    proof {
        assert(crate::bytes::seq_views(names@) + def_names_from(content@, 0) =~= def_names(
            content@,
        ));
    }
    while i < content.len()
        invariant
            i <= content@.len(),
            crate::bytes::seq_views(names@) + def_names_from(content@, i as int) == def_names(
                content@,
            ),
        decreases content@.len() - i,
    {
        match def_match_at(content, i) {
            Some((lo, hi, end)) => {
                let name = crate::bytes::copy_range(content, lo, hi);
                proof {
                    let prev = crate::bytes::seq_views(names@);
                    assert(crate::bytes::seq_views(names@.push(name)) =~= prev + seq![name@]);
                    assert(def_names_from(content@, i as int) == seq![
                        content@.subrange(lo as int, hi as int),
                    ] + def_names_from(content@, end as int));
                    assert((prev + seq![name@]) + def_names_from(content@, end as int) =~= prev + (
                    seq![name@] + def_names_from(content@, end as int)));
                }
                names.push(name);
                i = end;
            },
            None => {
                i += 1;
            },
        }
    }
    proof {
        assert(crate::bytes::seq_views(names@) + def_names_from(content@, i as int)
            =~= crate::bytes::seq_views(names@));
    }
    names
}

/// The names of the macro definitions in one file's text, in textual order.
pub fn parse_macros(content: &Vec<u8>) -> (names: Vec<Vec<u8>>)
    ensures
        crate::bytes::seq_views(names@) == macro_names(content@),
{
    let mut names: Vec<Vec<u8>> = Vec::new();
    let mut i: usize = 0;
    proof {
        assert(crate::bytes::seq_views(names@) + macro_names_from(content@, 0) =~= macro_names(
            content@,
        ));
    }
    while i < content.len()
        invariant
            i <= content@.len(),
            crate::bytes::seq_views(names@) + macro_names_from(content@, i as int) == macro_names(
                content@,
            ),
        decreases content@.len() - i,
    {
        match macro_match_at(content, i) {
            Some((lo, hi, end)) => {
                let name = crate::bytes::copy_range(content, lo, hi);
                proof {
                    let prev = crate::bytes::seq_views(names@);
                    assert(crate::bytes::seq_views(names@.push(name)) =~= prev + seq![name@]);
                    assert(macro_names_from(content@, i as int) == seq![
                        content@.subrange(lo as int, hi as int),
                    ] + macro_names_from(content@, end as int));
                    assert((prev + seq![name@]) + macro_names_from(content@, end as int) =~= prev
                        + (seq![name@] + macro_names_from(content@, end as int)));
                }
                names.push(name);
                i = end;
            },
            None => {
                i += 1;
            },
        }
    }
    proof {
        assert(crate::bytes::seq_views(names@) + macro_names_from(content@, i as int)
            =~= crate::bytes::seq_views(names@));
    }
    names
}

/// Position of the closing brace matching an opening brace just before `j`,
/// or the end of the text if the braces never rebalance.
fn body_end_x(t: &Vec<u8>, j: usize) -> (r: usize)
    requires
        j <= t@.len(),
    ensures
        r as int == body_end(t@, j as int, 1),
        j <= r <= t@.len(),
{
    // `excess` is the current brace depth minus one; tracking the excess
    // keeps the counter within `k - j`, so it cannot overflow.
    let mut k: usize = j;
    let mut excess: usize = 0;
    while k < t.len()
        invariant
            j <= k <= t@.len(),
            excess <= k - j,
            body_end(t@, j as int, 1) == body_end(t@, k as int, excess + 1),
        decreases t@.len() - k,
    {
        let b = t[k];
        if b == LBRACE {
            excess += 1;
        } else if b == RBRACE {
            if excess == 0 {
                return k;
            }
            excess -= 1;
        }
        k += 1;
    }
    t.len()
}

/// All call sites in a body, in textual order, duplicates kept: the call-site
/// scanner. No keyword is excluded here; `if (`, `while (` and the like are
/// reported as call sites and left to the known-symbol filter.
pub fn parse_calls(body: &Vec<u8>) -> (calls: Vec<Vec<u8>>)
    ensures
        crate::bytes::seq_views(calls@) == calls_in(body@),
{
    let mut calls: Vec<Vec<u8>> = Vec::new();
    let mut i: usize = 0;
    proof {
        assert(crate::bytes::seq_views(calls@) + calls_from(body@, 0) =~= calls_in(body@));
    }
    while i < body.len()
        invariant
            i <= body@.len(),
            crate::bytes::seq_views(calls@) + calls_from(body@, i as int) == calls_in(body@),
        decreases body@.len() - i,
    {
        if is_word(body[i]) && (i == 0 || !is_word(body[i - 1])) {
            let h = word_end_x(body, i);
            let p = skip_spaces_x(body, h);
            if p < body.len() && body[p] == LPAR {
                let name = crate::bytes::copy_range(body, i, h);
                proof {
                    let prev = crate::bytes::seq_views(calls@);
                    assert(crate::bytes::seq_views(calls@.push(name)) =~= prev + seq![name@]);
                    assert(calls_from(body@, i as int) == seq![
                        body@.subrange(i as int, h as int),
                    ] + calls_from(body@, p + 1));
                    assert((prev + seq![name@]) + calls_from(body@, p + 1) =~= prev + (seq![name@]
                        + calls_from(body@, p + 1)));
                }
                calls.push(name);
                i = p + 1;
            } else {
                i += 1;
            }
        } else {
            i += 1;
        }
    }
    proof {
        assert(crate::bytes::seq_views(calls@) + calls_from(body@, i as int)
            =~= crate::bytes::seq_views(calls@));
    }
    calls
}

/// One file's (function name, raw call sites) pairs, in definition discovery
/// order: signature scanning, body extraction, and call-site scanning
/// combined. The call sites are not yet filtered against the tree-wide name
/// set.
pub fn parse_functions_and_calls(content: &Vec<u8>) -> (entries: Vec<(Vec<u8>, Vec<Vec<u8>>)>)
    ensures
        crate::bytes::entry_views(entries@) == file_entries(content@),
{
    let mut entries: Vec<(Vec<u8>, Vec<Vec<u8>>)> = Vec::new();
    let mut i: usize = 0;
    proof {
        assert(crate::bytes::entry_views(entries@) + file_entries_from(content@, 0)
            =~= file_entries(content@));
    }
    while i < content.len()
        invariant
            i <= content@.len(),
            crate::bytes::entry_views(entries@) + file_entries_from(content@, i as int)
                == file_entries(content@),
        decreases content@.len() - i,
    {
        match def_match_at(content, i) {
            Some((lo, hi, end)) => {
                let name = crate::bytes::copy_range(content, lo, hi);
                let bend = body_end_x(content, end);
                let body = crate::bytes::copy_range(content, end, bend);
                let calls = parse_calls(&body);
                proof {
                    assert(body@ == body_of(content@, end as int));
                    let prev = crate::bytes::entry_views(entries@);
                    let e = (name@, crate::bytes::seq_views(calls@));
                    assert(crate::bytes::entry_views(entries@.push((name, calls))) =~= prev + seq![
                        e,
                    ]);
                    assert(file_entries_from(content@, i as int) == seq![
                        (
                            content@.subrange(lo as int, hi as int),
                            calls_in(body_of(content@, end as int)),
                        ),
                    ] + file_entries_from(content@, end as int));
                    assert((prev + seq![e]) + file_entries_from(content@, end as int) =~= prev + (
                    seq![e] + file_entries_from(content@, end as int)));
                }
                entries.push((name, calls));
                i = end;
            },
            None => {
                i += 1;
            },
        }
    }
    proof {
        assert(crate::bytes::entry_views(entries@) + file_entries_from(content@, i as int)
            =~= crate::bytes::entry_views(entries@));
    }
    entries
}

/// Every byte is an identifier byte.
pub open spec fn word_seq(s: Seq<u8>) -> bool {
    forall|k: int| 0 <= k < s.len() ==> is_word_byte(#[trigger] s[k])
}

/// Every name in the list consists of identifier bytes.
pub open spec fn word_calls(cs: Seq<Seq<u8>>) -> bool {
    forall|k: int| 0 <= k < cs.len() ==> word_seq(#[trigger] cs[k])
}

/// Every entry's name and callee names consist of identifier bytes.
pub open spec fn word_entries(es: Seq<(Seq<u8>, Seq<Seq<u8>>)>) -> bool {
    forall|i: int| 0 <= i < es.len() ==> word_seq((#[trigger] es[i]).0) && word_calls(es[i].1)
}

/// Scanned call-site names are identifier runs, so identifier bytes only.
pub proof fn lemma_calls_from_word(t: Seq<u8>, i: int)
    ensures
        word_calls(calls_from(t, i)),
    decreases t.len() - i,
{
    if i < 0 || i >= t.len() {
    } else if is_word_byte(t[i]) && (i == 0 || !is_word_byte(t[i - 1])) {
        lemma_word_end(t, i);
        let h = word_end(t, i);
        lemma_skip_spaces(t, h);
        let p = skip_spaces(t, h);
        if p < t.len() && t[p] == LPAR {
            lemma_calls_from_word(t, p + 1);
            let cs = calls_from(t, i);
            assert forall|k: int| 0 <= k < cs.len() implies word_seq(#[trigger] cs[k]) by {
                if k == 0 {
                    assert(cs[0] == t.subrange(i, h));
                    assert forall|l: int| 0 <= l < cs[0].len() implies is_word_byte(
                        #[trigger] cs[0][l],
                    ) by {
                        assert(cs[0][l] == t[i + l]);
                    }
                } else {
                    assert(cs[k] == calls_from(t, p + 1)[k - 1]);
                }
            }
        } else {
            lemma_calls_from_word(t, i + 1);
        }
    } else {
        lemma_calls_from_word(t, i + 1);
    }
}

/// Scanned definition names and their call sites are identifier runs.
pub proof fn lemma_file_entries_word(t: Seq<u8>, i: int)
    ensures
        word_entries(file_entries_from(t, i)),
    decreases t.len() - i,
{
    if i < 0 || i >= t.len() {
    } else {
        match def_at(t, i) {
            Some(d) => {
                lemma_def_at(t, i);
                lemma_file_entries_word(t, d.end);
                lemma_calls_from_word(body_of(t, d.end), 0);
                let es = file_entries_from(t, i);
                assert forall|k: int| 0 <= k < es.len() implies word_seq((#[trigger] es[k]).0)
                    && word_calls(es[k].1) by {
                    if k == 0 {
                        assert(es[0].0 == t.subrange(d.name_lo, d.name_hi));
                        assert forall|l: int| 0 <= l < es[0].0.len() implies is_word_byte(
                            #[trigger] es[0].0[l],
                        ) by {
                            assert(es[0].0[l] == t[d.name_lo + l]);
                        }
                        assert(es[0].1 == calls_from(body_of(t, d.end), 0));
                    } else {
                        assert(es[k] == file_entries_from(t, d.end)[k - 1]);
                    }
                }
            },
            None => {
                lemma_file_entries_word(t, i + 1);
            },
        }
    }
}

} // verus!
