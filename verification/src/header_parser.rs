//! Grammar of the `Forwarded` and `X-Forwarded-For` header values
//! (RFC 7239 / RFC 7230): tokens, quoted strings with escapes, values,
//! `key=value` pairs, `;`-separated elements and `,`-separated lists.
//!
//! Every parser works on the whole input and a start position; the
//! public entry points take a byte slice and hand back the unparsed rest.
use vstd::prelude::*;
use vstd::utf8::{decode_utf8, valid_utf8};

verus! {

/// Why a parser did not accept its input: `Backtrack` lets an enclosing
/// alternative or list try something else, `Cut` aborts the whole parse.
#[derive(Clone, Copy, Debug, PartialEq, Eq)]
pub enum ParseError {
    Backtrack,
    Cut,
}

/// Character classes of the header grammar.
#[derive(Clone, Copy, Debug, PartialEq, Eq)]
pub enum CharClass {
    /// `tchar` of RFC 7230, with `:` added for `X-Forwarded-For`.
    Token,
    /// characters of an obfuscated node identifier
    Obfuscated,
    /// characters of a URI scheme
    Scheme,
    /// characters of a host name
    Host,
}

pub open spec fn is_ascii_alnum(c: u8) -> bool {
    (0x30 <= c && c <= 0x39) || (0x41 <= c && c <= 0x5a) || (0x61 <= c && c <= 0x7a)
}

/// The punctuation that a class admits besides letters and digits.
pub open spec fn is_class_extra(class: CharClass, c: u8) -> bool {
    match class {
        CharClass::Token => c == 0x21 || c == 0x23 || c == 0x24 || c == 0x25 || c == 0x26
            || c == 0x27 || c == 0x2a || c == 0x2b || c == 0x2d || c == 0x2e || c == 0x5e
            || c == 0x5f || c == 0x60 || c == 0x7c || c == 0x7e || c == 0x3a,
        CharClass::Obfuscated => c == 0x2e || c == 0x5f || c == 0x2d,
        CharClass::Scheme => c == 0x2b || c == 0x2d || c == 0x2e,
        CharClass::Host => c == 0x2d || c == 0x2e || c == 0x3a,
    }
}

pub open spec fn in_class(class: CharClass, c: u8) -> bool {
    is_ascii_alnum(c) || is_class_extra(class, c)
}

/// RFC 7230 `qdtext`: HTAB / SP / %x21 / %x23-5B / %x5D-7E / obs-text.
pub open spec fn spec_is_quoted_text(c: u8) -> bool {
    c == 0x09 || c == 0x20 || c == 0x21 || (0x23 <= c && c <= 0x5b) || (0x5d <= c && c <= 0x7e)
        || c >= 0x80
}

/// RFC 7230 `quoted-pair` payload: HTAB / SP / VCHAR / obs-text.
pub open spec fn spec_is_escapable(c: u8) -> bool {
    c == 0x09 || (0x20 <= c && c <= 0x7e) || c >= 0x80
}

/// End of the run of `class` characters that starts at `i`.
pub open spec fn class_run_end(class: CharClass, s: Seq<u8>, i: int) -> int
    decreases s.len() - i,
{
    if 0 <= i < s.len() && in_class(class, s[i]) {
        class_run_end(class, s, i + 1)
    } else {
        i
    }
}

/// End of the run of spaces and tabs that starts at `i`.
pub open spec fn space_end(s: Seq<u8>, i: int) -> int
    decreases s.len() - i,
{
    if 0 <= i < s.len() && (s[i] == 0x20 || s[i] == 0x09) {
        space_end(s, i + 1)
    } else {
        i
    }
}

/// One or more characters of `class` starting at `i`: the end of the run.
pub open spec fn spec_class_at(class: CharClass, s: Seq<u8>, i: int) -> Result<int, ParseError> {
    let e = class_run_end(class, s, i);
    if e == i {
        Err(ParseError::Backtrack)
    } else {
        Ok(e)
    }
}

/// Body of a quoted string from position `i` on: the position where it
/// stops and the unescaped bytes, or `None` where an escape is broken.
pub open spec fn unescape_from(s: Seq<u8>, i: int) -> Option<(int, Seq<u8>)>
    decreases s.len() - i,
{
    if i >= s.len() {
        Some((s.len() as int, Seq::empty()))
    } else if i < 0 {
        None
    } else if spec_is_quoted_text(s[i]) {
        prepend_out(seq![s[i]], unescape_from(s, i + 1))
    } else if s[i] == 0x5c {
        if i + 1 < s.len() && spec_is_escapable(s[i + 1]) {
            prepend_out(seq![s[i + 1]], unescape_from(s, i + 2))
        } else {
            None
        }
    } else {
        Some((i, Seq::empty()))
    }
}

pub open spec fn prepend_out<T>(p: Seq<T>, r: Option<(int, Seq<T>)>) -> Option<(int, Seq<T>)> {
    match r {
        Some((e, o)) => Some((e, p + o)),
        None => None,
    }
}

/// A quoted string at `i`: `"` body `"`. Once the opening quote is seen,
/// every failure is a `Cut`; a body must begin with text or an escape.
pub open spec fn spec_quoted_at(s: Seq<u8>, i: int) -> Result<(int, Seq<u8>), ParseError> {
    if i < 0 || i >= s.len() || s[i] != 0x22 {
        Err(ParseError::Backtrack)
    } else if i + 1 < s.len() && !spec_is_quoted_text(s[i + 1]) && s[i + 1] != 0x5c {
        Err(ParseError::Cut)
    } else {
        match unescape_from(s, i + 1) {
            None => Err(ParseError::Cut),
            Some((e, o)) => if e < s.len() && s[e] == 0x22 {
                Ok((e + 1, o))
            } else {
                Err(ParseError::Cut)
            },
        }
    }
}

/// A value at `i`: a token, or else a quoted string.
pub open spec fn spec_value_at(s: Seq<u8>, i: int) -> Result<(int, Seq<u8>), ParseError> {
    match spec_class_at(CharClass::Token, s, i) {
        Ok(e) => Ok((e, s.subrange(i, e))),
        Err(_) => spec_quoted_at(s, i),
    }
}

/// A pair at `i`: token `=` value.
pub open spec fn spec_pair_at(s: Seq<u8>, i: int) -> Result<(int, (Seq<u8>, Seq<u8>)), ParseError> {
    match spec_class_at(CharClass::Token, s, i) {
        Err(x) => Err(x),
        Ok(e) => if e < s.len() && s[e] == 0x3d {
            match spec_value_at(s, e + 1) {
                Err(x) => Err(x),
                Ok((e2, v)) => Ok((e2, (s.subrange(i, e), v))),
            }
        } else {
            Err(ParseError::Backtrack)
        },
    }
}

/// The separator `,` followed by optional spaces, at `i`.
pub open spec fn comma_space_at(s: Seq<u8>, i: int) -> Option<int> {
    if 0 <= i < s.len() && s[i] == 0x2c {
        Some(space_end(s, i + 1))
    } else {
        None
    }
}

/// The separator `;`, at `i`.
pub open spec fn semicolon_at(s: Seq<u8>, i: int) -> Option<int> {
    if 0 <= i < s.len() && s[i] == 0x3b {
        Some(i + 1)
    } else {
        None
    }
}

pub open spec fn prepend_item<T>(x: T, r: Result<(int, Seq<T>), ParseError>) -> Result<
    (int, Seq<T>),
    ParseError,
> {
    match r {
        Ok((e, xs)) => Ok((e, seq![x] + xs)),
        Err(z) => Err(z),
    }
}

/// Further `, value` items of a value list after position `i`.
pub open spec fn spec_values_tail(s: Seq<u8>, i: int) -> Result<(int, Seq<Seq<u8>>), ParseError>
    decreases s.len() - i,
{
    match comma_space_at(s, i) {
        None => Ok((i, Seq::empty())),
        Some(j) => match spec_value_at(s, j) {
            Err(ParseError::Backtrack) => Ok((i, Seq::empty())),
            Err(ParseError::Cut) => Err(ParseError::Cut),
            Ok((e, v)) => if e <= i || i < 0 || e > s.len() {
                Err(ParseError::Backtrack)
            } else {
                prepend_item(v, spec_values_tail(s, e))
            },
        },
    }
}

/// A list of values separated by `,` and spaces, with trailing spaces.
pub open spec fn spec_values_list_at(s: Seq<u8>, i: int) -> Result<(int, Seq<Seq<u8>>), ParseError> {
    match spec_value_at(s, i) {
        Err(x) => Err(x),
        Ok((e, v)) => match spec_values_tail(s, e) {
            Err(x) => Err(x),
            Ok((e2, vs)) => Ok((space_end(s, e2), seq![v] + vs)),
        },
    }
}

/// Further `; pair` items of an element after position `i`.
pub open spec fn spec_element_tail(s: Seq<u8>, i: int) -> Result<
    (int, Seq<(Seq<u8>, Seq<u8>)>),
    ParseError,
>
    decreases s.len() - i,
{
    match semicolon_at(s, i) {
        None => Ok((i, Seq::empty())),
        Some(j) => match spec_pair_at(s, j) {
            Err(ParseError::Backtrack) => Ok((i, Seq::empty())),
            Err(ParseError::Cut) => Err(ParseError::Cut),
            Ok((e, p)) => if e <= i || i < 0 || e > s.len() {
                Err(ParseError::Backtrack)
            } else {
                prepend_item(p, spec_element_tail(s, e))
            },
        },
    }
}

/// One node: pairs separated by `;`.
pub open spec fn spec_element_at(s: Seq<u8>, i: int) -> Result<
    (int, Seq<(Seq<u8>, Seq<u8>)>),
    ParseError,
> {
    match spec_pair_at(s, i) {
        Err(x) => Err(x),
        Ok((e, p)) => prepend_item(p, spec_element_tail(s, e)),
    }
}

/// Further `, element` items after position `i`.
pub open spec fn spec_elements_tail(s: Seq<u8>, i: int) -> Result<
    (int, Seq<Seq<(Seq<u8>, Seq<u8>)>>),
    ParseError,
>
    decreases s.len() - i,
{
    match comma_space_at(s, i) {
        None => Ok((i, Seq::empty())),
        Some(j) => match spec_element_at(s, j) {
            Err(ParseError::Backtrack) => Ok((i, Seq::empty())),
            Err(ParseError::Cut) => Err(ParseError::Cut),
            Ok((e, el)) => if e <= i || i < 0 || e > s.len() {
                Err(ParseError::Backtrack)
            } else {
                prepend_item(el, spec_elements_tail(s, e))
            },
        },
    }
}

/// Nodes separated by `,` and spaces.
pub open spec fn spec_elements_at(s: Seq<u8>, i: int) -> Result<
    (int, Seq<Seq<(Seq<u8>, Seq<u8>)>>),
    ParseError,
> {
    match spec_element_at(s, i) {
        Err(x) => Err(x),
        Ok((e, el)) => prepend_item(el, spec_elements_tail(s, e)),
    }
}

// ---------------------------------------------------------------------
// character tests

/// Whether `c` belongs to `class`.
pub fn class_contains(class: CharClass, c: u8) -> (r: bool)
    ensures
        r == in_class(class, c),
{
    let alnum = (c >= 0x30 && c <= 0x39) || (c >= 0x41 && c <= 0x5a) || (c >= 0x61 && c <= 0x7a);
    if alnum {
        return true;
    }
    match class {
        CharClass::Token => c == 0x21 || c == 0x23 || c == 0x24 || c == 0x25 || c == 0x26 || c
            == 0x27 || c == 0x2a || c == 0x2b || c == 0x2d || c == 0x2e || c == 0x5e || c == 0x5f
            || c == 0x60 || c == 0x7c || c == 0x7e || c == 0x3a,
        CharClass::Obfuscated => c == 0x2e || c == 0x5f || c == 0x2d,
        CharClass::Scheme => c == 0x2b || c == 0x2d || c == 0x2e,
        CharClass::Host => c == 0x2d || c == 0x2e || c == 0x3a,
    }
}

/// Whether `c` may stand unescaped inside a quoted string.
pub fn is_quoted_text(c: u8) -> (r: bool)
    ensures
        r == spec_is_quoted_text(c),
{
    c == 0x09 || c == 0x20 || c == 0x21 || (c >= 0x23 && c <= 0x5b) || (c >= 0x5d && c <= 0x7e)
        || c >= 0x80
}

/// Whether `c` may follow a backslash inside a quoted string.
pub fn is_escapable(c: u8) -> (r: bool)
    ensures
        r == spec_is_escapable(c),
{
    c == 0x09 || (c >= 0x20 && c <= 0x7e) || c >= 0x80
}


// ---------------------------------------------------------------------
// facts about the specifications

/// A run ends inside the input and never before its start.
pub proof fn lemma_class_run_bounds(class: CharClass, s: Seq<u8>, i: int)
    requires
        0 <= i <= s.len(),
    ensures
        i <= class_run_end(class, s, i) <= s.len(),
        forall|j: int| i <= j < class_run_end(class, s, i) ==> in_class(class, #[trigger] s[j]),
        class_run_end(class, s, i) == s.len() || !in_class(class, s[class_run_end(class, s, i)]),
    decreases s.len() - i,
{
    if i < s.len() && in_class(class, s[i]) {
        lemma_class_run_bounds(class, s, i + 1);
    }
}

/// Spaces end inside the input and never before their start.
pub proof fn lemma_space_bounds(s: Seq<u8>, i: int)
    requires
        0 <= i <= s.len(),
    ensures
        i <= space_end(s, i) <= s.len(),
    decreases s.len() - i,
{
    if i < s.len() && (s[i] == 0x20 || s[i] == 0x09) {
        lemma_space_bounds(s, i + 1);
    }
}

/// The body of a quoted string stops inside the input, after its start.
pub proof fn lemma_unescape_bounds(s: Seq<u8>, i: int)
    requires
        0 <= i <= s.len(),
    ensures
        unescape_from(s, i) matches Some((e, o)) ==> i <= e <= s.len(),
    decreases s.len() - i,
{
    if i < s.len() {
        if spec_is_quoted_text(s[i]) {
            lemma_unescape_bounds(s, i + 1);
        } else if s[i] == 0x5c && i + 1 < s.len() && spec_is_escapable(s[i + 1]) {
            lemma_unescape_bounds(s, i + 2);
        }
    }
}

/// A value that parses consumes at least one byte and stays in the input.
pub proof fn lemma_value_bounds(s: Seq<u8>, i: int)
    requires
        0 <= i <= s.len(),
    ensures
        spec_value_at(s, i) matches Ok((e, v)) ==> i < e <= s.len(),
{
    lemma_class_run_bounds(CharClass::Token, s, i);
    if i + 1 <= s.len() {
        lemma_unescape_bounds(s, i + 1);
    }
}

/// A pair that parses consumes at least one byte and stays in the input.
pub proof fn lemma_pair_bounds(s: Seq<u8>, i: int)
    requires
        0 <= i <= s.len(),
    ensures
        spec_pair_at(s, i) matches Ok((e, p)) ==> i < e <= s.len(),
{
    lemma_class_run_bounds(CharClass::Token, s, i);
    let e = class_run_end(CharClass::Token, s, i);
    if e < s.len() {
        lemma_value_bounds(s, e + 1);
    }
}

pub proof fn lemma_element_tail_bounds(s: Seq<u8>, i: int)
    requires
        0 <= i <= s.len(),
    ensures
        spec_element_tail(s, i) matches Ok((e, ps)) ==> i <= e <= s.len(),
    decreases s.len() - i,
{
    if let Some(j) = semicolon_at(s, i) {
        lemma_pair_bounds(s, j);
        if let Ok((e, p)) = spec_pair_at(s, j) {
            if i < e <= s.len() {
                lemma_element_tail_bounds(s, e);
            }
        }
    }
}

/// An element that parses consumes at least one byte and stays in the input.
pub proof fn lemma_element_bounds(s: Seq<u8>, i: int)
    requires
        0 <= i <= s.len(),
    ensures
        spec_element_at(s, i) matches Ok((e, el)) ==> i < e <= s.len(),
{
    lemma_pair_bounds(s, i);
    if let Ok((e, p)) = spec_pair_at(s, i) {
        lemma_element_tail_bounds(s, e);
    }
}

pub proof fn lemma_values_tail_bounds(s: Seq<u8>, i: int)
    requires
        0 <= i <= s.len(),
    ensures
        spec_values_tail(s, i) matches Ok((e, vs)) ==> i <= e <= s.len(),
    decreases s.len() - i,
{
    if let Some(j) = comma_space_at(s, i) {
        lemma_space_bounds(s, i + 1);
        lemma_value_bounds(s, j);
        if let Ok((e, v)) = spec_value_at(s, j) {
            if i < e <= s.len() {
                lemma_values_tail_bounds(s, e);
            }
        }
    }
}

pub proof fn lemma_elements_tail_bounds(s: Seq<u8>, i: int)
    requires
        0 <= i <= s.len(),
    ensures
        spec_elements_tail(s, i) matches Ok((e, es)) ==> i <= e <= s.len(),
    decreases s.len() - i,
{
    if let Some(j) = comma_space_at(s, i) {
        lemma_space_bounds(s, i + 1);
        lemma_element_bounds(s, j);
        if let Ok((e, el)) = spec_element_at(s, j) {
            if i < e <= s.len() {
                lemma_elements_tail_bounds(s, e);
            }
        }
    }
}

// ---------------------------------------------------------------------
// parsers on a whole input and a position

fn class_end(class: CharClass, s: &[u8], i: usize) -> (e: usize)
    requires
        i <= s@.len(),
    ensures
        e == class_run_end(class, s@, i as int),
{
    let mut n = i;
    while n < s.len() && class_contains(class, s[n])
        invariant
            i <= n <= s@.len(),
            class_run_end(class, s@, n as int) == class_run_end(class, s@, i as int),
        decreases s@.len() - n,
    {
        n += 1;
    }
    n
}

fn spaces_end(s: &[u8], i: usize) -> (e: usize)
    requires
        i <= s@.len(),
    ensures
        e == space_end(s@, i as int),
{
    let mut n = i;
    while n < s.len() && (s[n] == 0x20 || s[n] == 0x09)
        invariant
            i <= n <= s@.len(),
            space_end(s@, n as int) == space_end(s@, i as int),
        decreases s@.len() - n,
    {
        n += 1;
    }
    n
}

pub open spec fn unescaped_view(r: Option<(usize, Vec<u8>)>) -> Option<(int, Seq<u8>)> {
    match r {
        Some((e, o)) => Some((e as int, o@)),
        None => None,
    }
}

pub open spec fn bytes_res_view(r: Result<(usize, Vec<u8>), ParseError>) -> Result<
    (int, Seq<u8>),
    ParseError,
> {
    match r {
        Ok((e, o)) => Ok((e as int, o@)),
        Err(x) => Err(x),
    }
}

pub open spec fn pair_view(p: (Vec<u8>, Vec<u8>)) -> (Seq<u8>, Seq<u8>) {
    (p.0@, p.1@)
}

pub open spec fn pairs_view(ps: Seq<(Vec<u8>, Vec<u8>)>) -> Seq<(Seq<u8>, Seq<u8>)> {
    ps.map_values(|p: (Vec<u8>, Vec<u8>)| pair_view(p))
}

pub open spec fn pair_res_view(r: Result<(usize, (Vec<u8>, Vec<u8>)), ParseError>) -> Result<
    (int, (Seq<u8>, Seq<u8>)),
    ParseError,
> {
    match r {
        Ok((e, p)) => Ok((e as int, pair_view(p))),
        Err(x) => Err(x),
    }
}

pub open spec fn pairs_res_view(r: Result<(usize, Vec<(Vec<u8>, Vec<u8>)>), ParseError>) -> Result<
    (int, Seq<(Seq<u8>, Seq<u8>)>),
    ParseError,
> {
    match r {
        Ok((e, ps)) => Ok((e as int, pairs_view(ps@))),
        Err(x) => Err(x),
    }
}

pub open spec fn values_view(vs: Seq<Vec<u8>>) -> Seq<Seq<u8>> {
    vs.map_values(|v: Vec<u8>| v@)
}

pub open spec fn values_res_view(r: Result<(usize, Vec<Vec<u8>>), ParseError>) -> Result<
    (int, Seq<Seq<u8>>),
    ParseError,
> {
    match r {
        Ok((e, vs)) => Ok((e as int, values_view(vs@))),
        Err(x) => Err(x),
    }
}

pub open spec fn elements_view(es: Seq<Vec<(Vec<u8>, Vec<u8>)>>) -> Seq<Seq<(Seq<u8>, Seq<u8>)>> {
    es.map_values(|e: Vec<(Vec<u8>, Vec<u8>)>| pairs_view(e@))
}

pub open spec fn elements_res_view(
    r: Result<(usize, Vec<Vec<(Vec<u8>, Vec<u8>)>>), ParseError>,
) -> Result<(int, Seq<Seq<(Seq<u8>, Seq<u8>)>>), ParseError> {
    match r {
        Ok((e, es)) => Ok((e as int, elements_view(es@))),
        Err(x) => Err(x),
    }
}

proof fn lemma_prepend_out_assoc(a: Seq<u8>, b: Seq<u8>, r: Option<(int, Seq<u8>)>)
    ensures
        prepend_out(a, prepend_out(b, r)) == prepend_out(a + b, r),
{
    if let Some((e, o)) = r {
        assert(a + (b + o) =~= (a + b) + o);
    }
}

fn unescape_at(s: &[u8], start: usize) -> (r: Option<(usize, Vec<u8>)>)
    requires
        start <= s@.len(),
    ensures
        unescaped_view(r) == unescape_from(s@, start as int),
{
    let mut out: Vec<u8> = Vec::new();
    let mut i = start;
    proof {
        assert(out@ + Seq::<u8>::empty() =~= out@);
        assert(prepend_out(out@, unescape_from(s@, i as int)) == unescape_from(s@, i as int)) by {
            if let Some((e, o)) = unescape_from(s@, i as int) {
                assert(Seq::<u8>::empty() + o =~= o);
            }
        }
    }
    loop
        invariant
            start <= i <= s@.len(),
            unescape_from(s@, start as int) == prepend_out(out@, unescape_from(s@, i as int)),
        decreases s@.len() - i,
    {
        if i >= s.len() {
            proof {
                assert(out@ + Seq::<u8>::empty() =~= out@);
            }
            return Some((i, out));
        }
        let c = s[i];
        if is_quoted_text(c) {
            proof {
                lemma_prepend_out_assoc(out@, seq![c], unescape_from(s@, i + 1));
                assert(out@ + seq![c] =~= out@.push(c));
            }
            out.push(c);
            i += 1;
        } else if c == 0x5c {
            if i + 1 < s.len() && is_escapable(s[i + 1]) {
                let d = s[i + 1];
                proof {
                    lemma_prepend_out_assoc(out@, seq![d], unescape_from(s@, i + 2));
                    assert(out@ + seq![d] =~= out@.push(d));
                }
                out.push(d);
                i += 2;
            } else {
                return None;
            }
        } else {
            proof {
                assert(out@ + Seq::<u8>::empty() =~= out@);
            }
            return Some((i, out));
        }
    }
}

fn quoted_at(s: &[u8], i: usize) -> (r: Result<(usize, Vec<u8>), ParseError>)
    requires
        i <= s@.len(),
    ensures
        bytes_res_view(r) == spec_quoted_at(s@, i as int),
{
    if i >= s.len() || s[i] != 0x22 {
        return Err(ParseError::Backtrack);
    }
    let j = i + 1;
    if j < s.len() && !is_quoted_text(s[j]) && s[j] != 0x5c {
        return Err(ParseError::Cut);
    }
    proof {
        lemma_unescape_bounds(s@, j as int);
    }
    match unescape_at(s, j) {
        None => Err(ParseError::Cut),
        Some((e, o)) => {
            if e < s.len() && s[e] == 0x22 {
                Ok((e + 1, o))
            } else {
                Err(ParseError::Cut)
            }
        },
    }
}

fn value_at(s: &[u8], i: usize) -> (r: Result<(usize, Vec<u8>), ParseError>)
    requires
        i <= s@.len(),
    ensures
        bytes_res_view(r) == spec_value_at(s@, i as int),
{
    let e = class_end(CharClass::Token, s, i);
    proof {
        lemma_class_run_bounds(CharClass::Token, s@, i as int);
    }
    if e > i {
        let v = vstd::slice::slice_to_vec(&s[i..e]);
        proof {
            assert(v@ =~= s@.subrange(i as int, e as int));
        }
        Ok((e, v))
    } else {
        quoted_at(s, i)
    }
}

fn pair_at(s: &[u8], i: usize) -> (r: Result<(usize, (Vec<u8>, Vec<u8>)), ParseError>)
    requires
        i <= s@.len(),
    ensures
        pair_res_view(r) == spec_pair_at(s@, i as int),
{
    let e = class_end(CharClass::Token, s, i);
    proof {
        lemma_class_run_bounds(CharClass::Token, s@, i as int);
    }
    if e == i {
        return Err(ParseError::Backtrack);
    }
    if e < s.len() && s[e] == 0x3d {
        match value_at(s, e + 1) {
            Err(x) => Err(x),
            Ok((e2, v)) => {
                let k = vstd::slice::slice_to_vec(&s[i..e]);
                proof {
                    assert(k@ =~= s@.subrange(i as int, e as int));
                }
                Ok((e2, (k, v)))
            },
        }
    } else {
        Err(ParseError::Backtrack)
    }
}


pub open spec fn prepend_items<T>(xs: Seq<T>, r: Result<(int, Seq<T>), ParseError>) -> Result<
    (int, Seq<T>),
    ParseError,
> {
    match r {
        Ok((e, ys)) => Ok((e, xs + ys)),
        Err(z) => Err(z),
    }
}

proof fn lemma_prepend_items_push<T>(xs: Seq<T>, x: T, r: Result<(int, Seq<T>), ParseError>)
    ensures
        prepend_items(xs, prepend_item(x, r)) == prepend_items(xs.push(x), r),
        prepend_items(seq![x], r) == prepend_item(x, r),
{
    if let Ok((e, ys)) = r {
        assert(xs + (seq![x] + ys) =~= xs.push(x) + ys);
    }
}

proof fn lemma_prepend_items_done<T>(xs: Seq<T>, e: int)
    ensures
        prepend_items(xs, Ok((e, Seq::<T>::empty()))) == Ok::<(int, Seq<T>), ParseError>((e, xs)),
{
    assert(xs + Seq::<T>::empty() =~= xs);
}

fn element_at(s: &[u8], i: usize) -> (r: Result<(usize, Vec<(Vec<u8>, Vec<u8>)>), ParseError>)
    requires
        i <= s@.len(),
    ensures
        pairs_res_view(r) == spec_element_at(s@, i as int),
{
    proof {
        lemma_pair_bounds(s@, i as int);
    }
    let (e0, p0) = match pair_at(s, i) {
        Err(x) => return Err(x),
        Ok(v) => v,
    };
    let mut items: Vec<(Vec<u8>, Vec<u8>)> = Vec::new();
    items.push(p0);
    let mut pos = e0;
    proof {
        lemma_prepend_items_push(Seq::<(Seq<u8>, Seq<u8>)>::empty(), pair_view(p0), spec_element_tail(s@, pos as int));
        assert(pairs_view(items@) =~= seq![pair_view(p0)]);
    }
    loop
        invariant
            e0 <= pos <= s@.len(),
            spec_element_at(s@, i as int) == prepend_items(
                pairs_view(items@),
                spec_element_tail(s@, pos as int),
            ),
        decreases s@.len() - pos,
    {
        if pos < s.len() && s[pos] == 0x3b {
            let j = pos + 1;
            proof {
                lemma_pair_bounds(s@, j as int);
            }
            match pair_at(s, j) {
                Err(ParseError::Backtrack) => {
                    proof {
                        lemma_prepend_items_done(pairs_view(items@), pos as int);
                    }
                    return Ok((pos, items));
                },
                Err(ParseError::Cut) => return Err(ParseError::Cut),
                Ok((e, p)) => {
                    if e <= pos {
                        return Err(ParseError::Backtrack);
                    }
                    proof {
                        lemma_prepend_items_push(pairs_view(items@), pair_view(p), spec_element_tail(s@, e as int));
                        assert(pairs_view(items@.push(p)) =~= pairs_view(items@).push(pair_view(p)));
                    }
                    items.push(p);
                    pos = e;
                },
            }
        } else {
            proof {
                lemma_prepend_items_done(pairs_view(items@), pos as int);
            }
            return Ok((pos, items));
        }
    }
}

fn values_list_at(s: &[u8], i: usize) -> (r: Result<(usize, Vec<Vec<u8>>), ParseError>)
    requires
        i <= s@.len(),
    ensures
        values_res_view(r) == spec_values_list_at(s@, i as int),
{
    proof {
        lemma_value_bounds(s@, i as int);
    }
    let (e0, v0) = match value_at(s, i) {
        Err(x) => return Err(x),
        Ok(v) => v,
    };
    let ghost v0v = v0@;
    let mut items: Vec<Vec<u8>> = Vec::new();
    items.push(v0);
    let mut pos = e0;
    proof {
        lemma_prepend_items_push(Seq::<Seq<u8>>::empty(), v0v, spec_values_tail(s@, pos as int));
        assert(values_view(items@) =~= seq![v0v]);
    }
    loop
        invariant
            e0 <= pos <= s@.len(),
            spec_value_at(s@, i as int) matches Ok((e, v)) && e == e0 && v == v0v,
            prepend_item(v0v, spec_values_tail(s@, e0 as int)) == prepend_items(
                values_view(items@),
                spec_values_tail(s@, pos as int),
            ),
        decreases s@.len() - pos,
    {
        if pos < s.len() && s[pos] == 0x2c {
            let j = spaces_end(s, pos + 1);
            proof {
                lemma_space_bounds(s@, pos + 1);
                lemma_value_bounds(s@, j as int);
            }
            match value_at(s, j) {
                Err(ParseError::Backtrack) => {
                    proof {
                        lemma_prepend_items_done(values_view(items@), pos as int);
                        lemma_space_bounds(s@, pos as int);
                    }
                    let end = spaces_end(s, pos);
                    return Ok((end, items));
                },
                Err(ParseError::Cut) => return Err(ParseError::Cut),
                Ok((e, v)) => {
                    if e <= pos {
                        return Err(ParseError::Backtrack);
                    }
                    proof {
                        lemma_prepend_items_push(values_view(items@), v@, spec_values_tail(s@, e as int));
                        assert(values_view(items@.push(v)) =~= values_view(items@).push(v@));
                    }
                    items.push(v);
                    pos = e;
                },
            }
        } else {
            proof {
                lemma_prepend_items_done(values_view(items@), pos as int);
                lemma_space_bounds(s@, pos as int);
            }
            let end = spaces_end(s, pos);
            return Ok((end, items));
        }
    }
}

fn elements_at(s: &[u8], i: usize) -> (r: Result<(usize, Vec<Vec<(Vec<u8>, Vec<u8>)>>), ParseError>)
    requires
        i <= s@.len(),
    ensures
        elements_res_view(r) == spec_elements_at(s@, i as int),
{
    proof {
        lemma_element_bounds(s@, i as int);
    }
    let (e0, el0) = match element_at(s, i) {
        Err(x) => return Err(x),
        Ok(v) => v,
    };
    let ghost el0v = pairs_view(el0@);
    let mut items: Vec<Vec<(Vec<u8>, Vec<u8>)>> = Vec::new();
    items.push(el0);
    let mut pos = e0;
    proof {
        lemma_prepend_items_push(Seq::<Seq<(Seq<u8>, Seq<u8>)>>::empty(), el0v, spec_elements_tail(s@, pos as int));
        assert(elements_view(items@) =~= seq![el0v]);
    }
    loop
        invariant
            e0 <= pos <= s@.len(),
            spec_elements_at(s@, i as int) == prepend_items(
                elements_view(items@),
                spec_elements_tail(s@, pos as int),
            ),
        decreases s@.len() - pos,
    {
        if pos < s.len() && s[pos] == 0x2c {
            let j = spaces_end(s, pos + 1);
            proof {
                lemma_space_bounds(s@, pos + 1);
                lemma_element_bounds(s@, j as int);
            }
            match element_at(s, j) {
                Err(ParseError::Backtrack) => {
                    proof {
                        lemma_prepend_items_done(elements_view(items@), pos as int);
                    }
                    return Ok((pos, items));
                },
                Err(ParseError::Cut) => return Err(ParseError::Cut),
                Ok((e, el)) => {
                    if e <= pos {
                        return Err(ParseError::Backtrack);
                    }
                    proof {
                        lemma_prepend_items_push(elements_view(items@), pairs_view(el@), spec_elements_tail(s@, e as int));
                        assert(elements_view(items@.push(el)) =~= elements_view(items@).push(pairs_view(el@)));
                    }
                    items.push(el);
                    pos = e;
                },
            }
        } else {
            proof {
                lemma_prepend_items_done(elements_view(items@), pos as int);
            }
            return Ok((pos, items));
        }
    }
}


// ---------------------------------------------------------------------
// public parsers: a slice in, the unparsed rest out

/// The part of `input` that is left after `e` bytes were consumed.
pub open spec fn rest_after(input: Seq<u8>, e: int) -> Seq<u8> {
    input.subrange(e, input.len() as int)
}

/// What a character-class parser hands back, against its specification.
pub open spec fn class_result_ok(
    class: CharClass,
    input: Seq<u8>,
    r: Result<(&[u8], &[u8]), ParseError>,
) -> bool {
    match spec_class_at(class, input, 0) {
        Ok(e) => r matches Ok((rest, m)) && m@ == input.subrange(0, e) && rest@ == rest_after(
            input,
            e,
        ),
        Err(x) => r == Err::<(&[u8], &[u8]), ParseError>(x),
    }
}

fn take_class<'a>(class: CharClass, input: &'a [u8]) -> (r: Result<(&'a [u8], &'a [u8]), ParseError>)
    ensures
        class_result_ok(class, input@, r),
{
    let e = class_end(class, input, 0);
    proof {
        lemma_class_run_bounds(class, input@, 0);
    }
    if e == 0 {
        Err(ParseError::Backtrack)
    } else {
        let (m, rest) = input.split_at(e);
        Ok((rest, m))
    }
}

/// One or more token characters.
pub fn token<'a>(input: &'a [u8]) -> (r: Result<(&'a [u8], &'a [u8]), ParseError>)
    ensures
        class_result_ok(CharClass::Token, input@, r),
{
    take_class(CharClass::Token, input)
}

/// One or more characters of an obfuscated identifier.
pub fn obs<'a>(input: &'a [u8]) -> (r: Result<(&'a [u8], &'a [u8]), ParseError>)
    ensures
        class_result_ok(CharClass::Obfuscated, input@, r),
{
    take_class(CharClass::Obfuscated, input)
}

/// One or more characters of a URI scheme.
pub fn scheme<'a>(input: &'a [u8]) -> (r: Result<(&'a [u8], &'a [u8]), ParseError>)
    ensures
        class_result_ok(CharClass::Scheme, input@, r),
{
    take_class(CharClass::Scheme, input)
}

/// One or more characters of a host name.
pub fn host<'a>(input: &'a [u8]) -> (r: Result<(&'a [u8], &'a [u8]), ParseError>)
    ensures
        class_result_ok(CharClass::Host, input@, r),
{
    take_class(CharClass::Host, input)
}

/// The body of a quoted string at the start of `input`, with its escapes
/// resolved: the input after it and the unescaped bytes, or `None` where a
/// backslash escapes nothing allowed.
pub fn unescape<'a>(input: &'a [u8]) -> (r: Option<(&'a [u8], Vec<u8>)>)
    ensures
        match unescape_from(input@, 0) {
            Some((e, o)) => r matches Some((rest, v)) && v@ == o && rest@ == rest_after(input@, e),
            None => r is None,
        },
{
    proof {
        lemma_unescape_bounds(input@, 0);
    }
    match unescape_at(input, 0) {
        Some((e, v)) => Some((&input[e..input.len()], v)),
        None => None,
    }
}

/// A quoted string; the result holds the unescaped content.
pub fn quoted_string<'a>(input: &'a [u8]) -> (r: Result<(&'a [u8], Vec<u8>), ParseError>)
    ensures
        match spec_quoted_at(input@, 0) {
            Ok((e, o)) => r matches Ok((rest, v)) && v@ == o && rest@ == rest_after(input@, e),
            Err(x) => r matches Err(y) && y == x,
        },
{
    proof {
        if input@.len() >= 1 {
            lemma_unescape_bounds(input@, 1);
        }
    }
    match quoted_at(input, 0) {
        Ok((e, v)) => Ok((&input[e..input.len()], v)),
        Err(x) => Err(x),
    }
}

/// A token, or else a quoted string.
pub fn value<'a>(input: &'a [u8]) -> (r: Result<(&'a [u8], Vec<u8>), ParseError>)
    ensures
        match spec_value_at(input@, 0) {
            Ok((e, o)) => r matches Ok((rest, v)) && v@ == o && rest@ == rest_after(input@, e),
            Err(x) => r matches Err(y) && y == x,
        },
{
    proof {
        lemma_value_bounds(input@, 0);
    }
    match value_at(input, 0) {
        Ok((e, v)) => Ok((&input[e..input.len()], v)),
        Err(x) => Err(x),
    }
}

/// Values separated by `,` and optional spaces, with trailing spaces.
pub fn values_list<'a>(input: &'a [u8]) -> (r: Result<(&'a [u8], Vec<Vec<u8>>), ParseError>)
    ensures
        match spec_values_list_at(input@, 0) {
            Ok((e, o)) => r matches Ok((rest, vs)) && values_view(vs@) == o && rest@ == rest_after(
                input@,
                e,
            ),
            Err(x) => r matches Err(y) && y == x,
        },
{
    proof {
        lemma_value_bounds(input@, 0);
        if let Ok((e, v)) = spec_value_at(input@, 0) {
            lemma_values_tail_bounds(input@, e);
            if let Ok((e2, vs)) = spec_values_tail(input@, e) {
                lemma_space_bounds(input@, e2);
            }
        }
    }
    match values_list_at(input, 0) {
        Ok((e, v)) => Ok((&input[e..input.len()], v)),
        Err(x) => Err(x),
    }
}

/// A `key=value` pair.
pub fn pair<'a>(input: &'a [u8]) -> (r: Result<(&'a [u8], (Vec<u8>, Vec<u8>)), ParseError>)
    ensures
        match spec_pair_at(input@, 0) {
            Ok((e, o)) => r matches Ok((rest, p)) && pair_view(p) == o && rest@ == rest_after(
                input@,
                e,
            ),
            Err(x) => r matches Err(y) && y == x,
        },
{
    proof {
        lemma_pair_bounds(input@, 0);
    }
    match pair_at(input, 0) {
        Ok((e, v)) => Ok((&input[e..input.len()], v)),
        Err(x) => Err(x),
    }
}

/// Pairs separated by `;`.
pub fn element<'a>(input: &'a [u8]) -> (r: Result<(&'a [u8], Vec<(Vec<u8>, Vec<u8>)>), ParseError>)
    ensures
        match spec_element_at(input@, 0) {
            Ok((e, o)) => r matches Ok((rest, ps)) && pairs_view(ps@) == o && rest@ == rest_after(
                input@,
                e,
            ),
            Err(x) => r matches Err(y) && y == x,
        },
{
    proof {
        lemma_element_bounds(input@, 0);
    }
    match element_at(input, 0) {
        Ok((e, v)) => Ok((&input[e..input.len()], v)),
        Err(x) => Err(x),
    }
}

/// Elements separated by `,` and optional spaces.
pub fn elements<'a>(input: &'a [u8]) -> (r: Result<
    (&'a [u8], Vec<Vec<(Vec<u8>, Vec<u8>)>>),
    ParseError,
>)
    ensures
        match spec_elements_at(input@, 0) {
            Ok((e, o)) => r matches Ok((rest, es)) && elements_view(es@) == o && rest@
                == rest_after(input@, e),
            Err(x) => r matches Err(y) && y == x,
        },
{
    proof {
        lemma_element_bounds(input@, 0);
        if let Ok((e, el)) = spec_element_at(input@, 0) {
            lemma_elements_tail_bounds(input@, e);
        }
    }
    match elements_at(input, 0) {
        Ok((e, v)) => Ok((&input[e..input.len()], v)),
        Err(x) => Err(x),
    }
}

// ---------------------------------------------------------------------
// whole-input strings

/// A header value that is not a well-formed string of the expected kind.
#[derive(Clone, Copy, Debug, PartialEq, Eq)]
pub struct StringError;

/// Calls `String::from_utf8`, which succeeds exactly on valid UTF-8 and
/// then holds the decoded characters.
#[verifier::external_body]
pub(crate) fn string_from_utf8(bytes: Vec<u8>) -> (r: Option<String>)
    ensures
        r is Some <==> valid_utf8(bytes@),
        r matches Some(s) ==> s@ == decode_utf8(bytes@),
{
    String::from_utf8(bytes).ok()
}

/// Calls `std::str::from_utf8`, which succeeds exactly on valid UTF-8 and
/// then views the same bytes as characters.
#[verifier::external_body]
pub(crate) fn str_from_utf8(bytes: &[u8]) -> (r: Option<&str>)
    ensures
        r is Some <==> valid_utf8(bytes@),
        r matches Some(s) ==> s@ == decode_utf8(bytes@),
{
    std::str::from_utf8(bytes).ok()
}

/// The whole input as one run of `class` characters, as a string.
pub open spec fn spec_full_string(class: CharClass, input: Seq<u8>) -> Option<Seq<char>> {
    if class_run_end(class, input, 0) == input.len() && input.len() > 0 && valid_utf8(input) {
        Some(decode_utf8(input))
    } else {
        None
    }
}

/// The whole input, which must be one run of `class` characters, as a string.
pub fn full_string(input: &[u8], class: CharClass) -> (r: Result<String, StringError>)
    ensures
        match spec_full_string(class, input@) {
            Some(s) => r matches Ok(v) && v@ == s,
            None => r is Err,
        },
{
    proof {
        lemma_class_run_bounds(class, input@, 0);
    }
    let (rest, m) = match take_class(class, input) {
        Ok(v) => v,
        Err(_) => return Err(StringError),
    };
    if rest.len() != 0 {
        return Err(StringError);
    }
    proof {
        assert(class_run_end(class, input@, 0) == input@.len());
        assert(m@ =~= input@);
    }
    match string_from_utf8(vstd::slice::slice_to_vec(m)) {
        Some(s) => Ok(s),
        None => Err(StringError),
    }
}

/// The whole input as a string.
pub fn all_string(input: &[u8]) -> (r: Result<&str, StringError>)
    ensures
        valid_utf8(input@) ==> (r matches Ok(v) && v@ == decode_utf8(input@)),
        !valid_utf8(input@) ==> r is Err,
{
    match str_from_utf8(input) {
        Some(s) => Ok(s),
        None => Err(StringError),
    }
}

} // verus!
