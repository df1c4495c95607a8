//! A scanner for the portal's login-page HTML: it tokenizes the document
//! into tags (with their attributes) and text runs, and the scraper reads
//! the per-session fields out of that token stream.
use vstd::prelude::*;

use crate::strutil::{
    find_char_from, find_pat_from, first_idx, first_pat_idx, is_space, is_space_char,
    lemma_first_idx, lemma_first_pat_idx, matches_at, str_matches_at,
};
use vstd::string::StrSliceExecFns;

verus! {

/// The ASCII-lowered form of a character, for the case-insensitive names
/// of HTML elements and attributes.
pub open spec fn lower_char(c: char) -> char {
    if 65 <= c as u32 && c as u32 <= 90 {
        ((c as u32 + 32) as u8) as char
    } else {
        c
    }
}

/// Character sequences equal up to ASCII case.
pub open spec fn ci_equal(a: Seq<char>, b: Seq<char>) -> bool {
    a.len() == b.len() && forall|k: int|
        0 <= k < a.len() ==> lower_char(a[k]) == lower_char(#[trigger] b[k])
}

/// Lowers one character's ASCII case.
fn lower(c: char) -> (r: char)
    ensures
        r == lower_char(c),
{
    let u = c as u32;
    if 65 <= u && u <= 90 {
        ((u + 32) as u8) as char
    } else {
        c
    }
}

/// Compares two strings up to ASCII case.
pub fn ci_eq(a: &str, b: &str) -> (r: bool)
    ensures
        r == ci_equal(a@, b@),
{
    let n = a.unicode_len();
    let m = b.unicode_len();
    if n != m {
        return false;
    }
    let mut k: usize = 0;
    while k < n
        invariant
            k <= n,
            n == a@.len(),
            n == b@.len(),
            forall|t: int| 0 <= t < k ==> lower_char(a@[t]) == lower_char(#[trigger] b@[t]),
        decreases n - k,
    {
        if lower(a.get_char(k)) != lower(b.get_char(k)) {
            return false;
        }
        k = k + 1;
    }
    true
}

/// The first index in `[from, end)` whose character satisfies `stop`, or
/// `end` when there is none.
pub open spec fn scan_until(text: Seq<char>, from: int, end: int, stop: spec_fn(char) -> bool) -> int
    decreases end - from,
    when 0 <= from <= end <= text.len()
{
    if from >= end {
        end
    } else if stop(text[from]) {
        from
    } else {
        scan_until(text, from + 1, end, stop)
    }
}

/// The scan's result is in range, is a stop when inside the range, and
/// nothing before it stops.
pub proof fn lemma_scan_until(text: Seq<char>, from: int, end: int, stop: spec_fn(char) -> bool)
    requires
        0 <= from <= end <= text.len(),
    ensures
        from <= scan_until(text, from, end, stop) <= end,
        scan_until(text, from, end, stop) < end ==> stop(text[scan_until(text, from, end, stop)]),
        forall|k: int| from <= k < scan_until(text, from, end, stop) ==> !stop(text[k]),
    decreases end - from,
{
    if from < end && !stop(text[from]) {
        lemma_scan_until(text, from + 1, end, stop);
    }
}

/// True for the characters that end an element or attribute name.
pub open spec fn is_name_stop(c: char) -> bool {
    is_space_char(c) || c == '=' || c == '/' || c == '>'
}

/// True for the filler between attributes: whitespace and stray slashes.
pub open spec fn is_attr_sep(c: char) -> bool {
    is_space_char(c) || c == '/'
}

/// The scan predicate for the first character that could start an
/// attribute.
pub open spec fn stop_not_sep() -> spec_fn(char) -> bool {
    |c: char| !is_attr_sep(c)
}

/// The scan predicate for the end of a name.
pub open spec fn stop_name() -> spec_fn(char) -> bool {
    |c: char| is_name_stop(c)
}

/// The scan predicate for the first non-whitespace character.
pub open spec fn stop_not_ws() -> spec_fn(char) -> bool {
    |c: char| !is_space_char(c)
}

/// The scan predicate for the first whitespace character.
pub open spec fn stop_ws() -> spec_fn(char) -> bool {
    |c: char| is_space_char(c)
}

/// The scan predicate for a closing quote.
pub open spec fn stop_quote(q: char) -> spec_fn(char) -> bool {
    |c: char| c == q
}

/// The index of the `>` that closes a tag whose inside starts at `from`,
/// skipping over quoted attribute values; the text's length when the tag
/// never closes.
pub open spec fn tag_end_idx(text: Seq<char>, from: int) -> int
    decreases text.len() - from,
    when 0 <= from <= text.len()
    via tag_end_idx_dec
{
    if from >= text.len() {
        text.len() as int
    } else if text[from] == '>' {
        from
    } else if text[from] == '"' {
        let q = first_idx(text, '"', from + 1);
        if q < text.len() {
            tag_end_idx(text, q + 1)
        } else {
            text.len() as int
        }
    } else if text[from] == '\'' {
        let q = first_idx(text, '\'', from + 1);
        if q < text.len() {
            tag_end_idx(text, q + 1)
        } else {
            text.len() as int
        }
    } else {
        tag_end_idx(text, from + 1)
    }
}

#[via_fn]
proof fn tag_end_idx_dec(text: Seq<char>, from: int) {
    if 0 <= from && from < text.len() {
        if text[from] == '"' {
            lemma_first_idx(text, '"', from + 1);
        } else if text[from] == '\'' {
            lemma_first_idx(text, '\'', from + 1);
        }
    }
}

/// The tag's end is in range, and it is a real `>` when inside the text.
pub proof fn lemma_tag_end_idx(text: Seq<char>, from: int)
    requires
        0 <= from <= text.len(),
    ensures
        from <= tag_end_idx(text, from) <= text.len(),
        tag_end_idx(text, from) < text.len() ==> text[tag_end_idx(text, from)] == '>',
    decreases text.len() - from,
{
    if from < text.len() {
        if text[from] == '"' {
            lemma_first_idx(text, '"', from + 1);
            let q = first_idx(text, '"', from + 1);
            if q < text.len() {
                lemma_tag_end_idx(text, q + 1);
            }
        } else if text[from] == '\'' {
            lemma_first_idx(text, '\'', from + 1);
            let q = first_idx(text, '\'', from + 1);
            if q < text.len() {
                lemma_tag_end_idx(text, q + 1);
            }
        } else if text[from] != '>' {
            lemma_tag_end_idx(text, from + 1);
        }
    }
}

/// Finds the `>` that closes a tag, skipping quoted attribute values.
fn tag_end_exec(text: &str, n: usize, from: usize) -> (r: usize)
    requires
        n == text@.len(),
        from <= n,
    ensures
        r == tag_end_idx(text@, from as int),
{
    let mut j = from;
    while j < n
        invariant
            from <= j <= n,
            n == text@.len(),
            tag_end_idx(text@, from as int) == tag_end_idx(text@, j as int),
        decreases n - j,
    {
        let c = text.get_char(j);
        if c == '>' {
            return j;
        } else if c == '"' || c == '\'' {
            proof {
                lemma_first_idx(text@, c, j + 1);
            }
            let q = find_char_from(text, c, j + 1);
            if q >= n {
                return n;
            }
            j = q + 1;
        } else {
            j = j + 1;
        }
    }
    n
}

/// The attributes of a tag, read from its inside `[p, end)`: names run to
/// whitespace, `=`, `/` or the tag's end; a value is quoted with either
/// quote (an unterminated one runs to the tag's end) or unquoted up to
/// whitespace; an attribute without `=` has the empty value.
pub open spec fn attrs_from(text: Seq<char>, p: int, end: int) -> Seq<(Seq<char>, Seq<char>)>
    decreases end - p,
    when 0 <= p <= end <= text.len()
    via attrs_from_dec
{
    let q = scan_until(text, p, end, stop_not_sep());
    if q >= end {
        seq![]
    } else {
        let ne = scan_until(text, q, end, stop_name());
        if ne == q {
            attrs_from(text, q + 1, end)
        } else {
            let name = text.subrange(q, ne);
            let w = scan_until(text, ne, end, stop_not_ws());
            if w < end && text[w] == '=' {
                let v = scan_until(text, w + 1, end, stop_not_ws());
                if v < end && (text[v] == '"' || text[v] == '\'') {
                    let quote = text[v];
                    let close = scan_until(text, v + 1, end, stop_quote(quote));
                    let value = text.subrange(v + 1, close);
                    if close < end {
                        seq![(name, value)] + attrs_from(text, close + 1, end)
                    } else {
                        seq![(name, value)]
                    }
                } else if v < end {
                    let vu = scan_until(text, v, end, stop_ws());
                    seq![(name, text.subrange(v, vu))] + attrs_from(text, vu, end)
                } else {
                    seq![(name, Seq::empty())]
                }
            } else {
                seq![(name, Seq::empty())] + attrs_from(text, w, end)
            }
        }
    }
}

/// Finds the first character that could start an attribute.
fn scan_not_sep(text: &str, from: usize, end: usize) -> (r: usize)
    requires
        from <= end <= text@.len(),
    ensures
        r == scan_until(text@, from as int, end as int, stop_not_sep()),
{
    let mut j = from;
    while j < end
        invariant
            from <= j <= end <= text@.len(),
            scan_until(text@, from as int, end as int, stop_not_sep()) == scan_until(
                text@,
                j as int,
                end as int,
                stop_not_sep(),
            ),
        decreases end - j,
    {
        let c = text.get_char(j);
        if !(is_space(c) || c == '/') {
            return j;
        }
        j = j + 1;
    }
    end
}

/// Finds the end of a name.
fn scan_name_end(text: &str, from: usize, end: usize) -> (r: usize)
    requires
        from <= end <= text@.len(),
    ensures
        r == scan_until(text@, from as int, end as int, stop_name()),
{
    let mut j = from;
    while j < end
        invariant
            from <= j <= end <= text@.len(),
            scan_until(text@, from as int, end as int, stop_name()) == scan_until(
                text@,
                j as int,
                end as int,
                stop_name(),
            ),
        decreases end - j,
    {
        let c = text.get_char(j);
        if is_space(c) || c == '=' || c == '/' || c == '>' {
            return j;
        }
        j = j + 1;
    }
    end
}

/// Finds the first non-whitespace character.
fn scan_not_ws(text: &str, from: usize, end: usize) -> (r: usize)
    requires
        from <= end <= text@.len(),
    ensures
        r == scan_until(text@, from as int, end as int, stop_not_ws()),
{
    let mut j = from;
    while j < end
        invariant
            from <= j <= end <= text@.len(),
            scan_until(text@, from as int, end as int, stop_not_ws()) == scan_until(
                text@,
                j as int,
                end as int,
                stop_not_ws(),
            ),
        decreases end - j,
    {
        if !is_space(text.get_char(j)) {
            return j;
        }
        j = j + 1;
    }
    end
}

/// Finds the first whitespace character.
fn scan_ws(text: &str, from: usize, end: usize) -> (r: usize)
    requires
        from <= end <= text@.len(),
    ensures
        r == scan_until(text@, from as int, end as int, stop_ws()),
{
    let mut j = from;
    while j < end
        invariant
            from <= j <= end <= text@.len(),
            scan_until(text@, from as int, end as int, stop_ws()) == scan_until(
                text@,
                j as int,
                end as int,
                stop_ws(),
            ),
        decreases end - j,
    {
        if is_space(text.get_char(j)) {
            return j;
        }
        j = j + 1;
    }
    end
}

/// Finds the quote that closes an attribute value.
fn scan_quote(text: &str, from: usize, end: usize, quote: char) -> (r: usize)
    requires
        from <= end <= text@.len(),
    ensures
        r == scan_until(text@, from as int, end as int, stop_quote(quote)),
{
    let mut j = from;
    while j < end
        invariant
            from <= j <= end <= text@.len(),
            scan_until(text@, from as int, end as int, stop_quote(quote)) == scan_until(
                text@,
                j as int,
                end as int,
                stop_quote(quote),
            ),
        decreases end - j,
    {
        if text.get_char(j) == quote {
            return j;
        }
        j = j + 1;
    }
    end
}

/// Reads a tag's attributes out of its inside `[af, at)`.
pub(crate) fn parse_attrs(text: &str, af: usize, at: usize) -> (r: Vec<(String, String)>)
    requires
        af <= at <= text@.len(),
    ensures
        crate::query::pairs_view(r@) == attrs_from(text@, af as int, at as int),
{
    let ghost t = text@;
    let ghost end = at as int;
    let mut r: Vec<(String, String)> = Vec::new();
    let mut p = af;
    proof {
        assert(crate::query::pairs_view(r@) =~= Seq::<(Seq<char>, Seq<char>)>::empty());
        assert(attrs_from(t, af as int, end) == crate::query::pairs_view(r@) + attrs_from(
            t,
            p as int,
            end,
        ));
    }
    while p < at
        invariant
            af <= p <= at <= t.len(),
            text@ == t,
            end == at as int,
            attrs_from(t, af as int, end) == crate::query::pairs_view(r@) + attrs_from(
                t,
                p as int,
                end,
            ),
        decreases at - p,
    {
        proof {
            lemma_scan_until(t, p as int, end, stop_not_sep());
        }
        let q = scan_not_sep(text, p, at);
        if q >= at {
            proof {
                assert(attrs_from(t, p as int, end) =~= Seq::<(Seq<char>, Seq<char>)>::empty());
            }
            p = at;
        } else {
            proof {
                lemma_scan_until(t, q as int, end, stop_name());
            }
            let ne = scan_name_end(text, q, at);
            if ne == q {
                p = q + 1;
            } else {
                let name = text.substring_char(q, ne).to_owned();
                proof {
                    lemma_scan_until(t, ne as int, end, stop_not_ws());
                }
                let w = scan_not_ws(text, ne, at);
                if w < at && text.get_char(w) == '=' {
                    proof {
                        lemma_scan_until(t, w + 1, end, stop_not_ws());
                    }
                    let v = scan_not_ws(text, w + 1, at);
                    let vc = if v < at {
                        Some(text.get_char(v))
                    } else {
                        None
                    };
                    if v < at && (vc == Some('"') || vc == Some('\'')) {
                        let quote = text.get_char(v);
                        proof {
                            lemma_scan_until(t, v + 1, end, stop_quote(quote));
                        }
                        let close = scan_quote(text, v + 1, at, quote);
                        let value = text.substring_char(v + 1, close).to_owned();
                        proof {
                            assert(crate::query::pairs_view(r@.push((name, value))) =~=
                            crate::query::pairs_view(r@) + seq![(name@, value@)]);
                        }
                        r.push((name, value));
                        if close < at {
                            p = close + 1;
                        } else {
                            proof {
                                assert(attrs_from(t, end, end) =~= Seq::<
                                    (Seq<char>, Seq<char>),
                                >::empty());
                            }
                            p = at;
                        }
                    } else if v < at {
                        proof {
                            lemma_scan_until(t, v as int, end, stop_ws());
                        }
                        let vu = scan_ws(text, v, at);
                        let value = text.substring_char(v, vu).to_owned();
                        proof {
                            assert(crate::query::pairs_view(r@.push((name, value))) =~=
                            crate::query::pairs_view(r@) + seq![(name@, value@)]);
                        }
                        r.push((name, value));
                        p = vu;
                    } else {
                        let value = String::new();
                        proof {
                            assert(crate::query::pairs_view(r@.push((name, value))) =~=
                            crate::query::pairs_view(r@) + seq![(name@, value@)]);
                            assert(attrs_from(t, end, end) =~= Seq::<
                                (Seq<char>, Seq<char>),
                            >::empty());
                        }
                        r.push((name, value));
                        p = at;
                    }
                } else {
                    let value = String::new();
                    proof {
                        assert(crate::query::pairs_view(r@.push((name, value))) =~=
                        crate::query::pairs_view(r@) + seq![(name@, value@)]);
                    }
                    r.push((name, value));
                    p = w;
                }
            }
        }
    }
    proof {
        assert(attrs_from(t, end, end) =~= Seq::<(Seq<char>, Seq<char>)>::empty());
        assert(crate::query::pairs_view(r@) =~= attrs_from(t, af as int, end));
    }
    r
}

/// The value of the first attribute with the given (case-insensitive)
/// name; as in HTML, later duplicates of an attribute do not count.
pub open spec fn attr_first_ci(attrs: Seq<(Seq<char>, Seq<char>)>, name: Seq<char>) -> Option<
    Seq<char>,
>
    decreases attrs.len(),
{
    if attrs.len() == 0 {
        None
    } else if ci_equal(attrs[0].0, name) {
        Some(attrs[0].1)
    } else {
        attr_first_ci(attrs.drop_first(), name)
    }
}

/// Looks an attribute up by case-insensitive name, first occurrence
/// winning.
pub(crate) fn attr_lookup(attrs: &Vec<(String, String)>, name: &str) -> (r: Option<String>)
    ensures
        match attr_first_ci(crate::query::pairs_view(attrs@), name@) {
            Some(v) => r matches Some(s) && s@ == v,
            None => r is None,
        },
{
    let ghost av = crate::query::pairs_view(attrs@);
    let mut i: usize = 0;
    proof {
        assert(av.skip(0) =~= av);
    }
    while i < attrs.len()
        invariant
            i <= attrs@.len(),
            av == crate::query::pairs_view(attrs@),
            attr_first_ci(av, name@) == attr_first_ci(av.skip(i as int), name@),
        decreases attrs@.len() - i,
    {
        proof {
            assert(av.skip(i as int)[0] == (attrs@[i as int].0@, attrs@[i as int].1@));
            assert(av.skip(i as int).drop_first() =~= av.skip(i + 1));
        }
        if ci_eq(attrs[i].0.as_str(), name) {
            return Some(attrs[i].1.clone());
        }
        i = i + 1;
    }
    proof {
        assert(av.skip(av.len() as int) =~= Seq::<(Seq<char>, Seq<char>)>::empty());
    }
    None
}

/// One token of the document: a text run, or a tag with its name and,
/// for an opening tag, its attributes.
pub enum HtmlTok {
    Text(Seq<char>),
    Tag { name: Seq<char>, attrs: Seq<(Seq<char>, Seq<char>)>, closing: bool },
}

/// The document's tokens from position `i` on: comments disappear, tags
/// carry their names and attributes, and everything between tags is a
/// text run. An unterminated construct ends the stream.
pub open spec fn html_toks(text: Seq<char>, i: int) -> Seq<HtmlTok>
    decreases text.len() - i,
    when 0 <= i <= text.len()
    via html_toks_dec
{
    if i >= text.len() {
        seq![]
    } else if text[i] == '<' {
        if matches_at(text, "<!--"@, i) {
            let j = first_pat_idx(text, "-->"@, i + 4);
            if j < text.len() {
                html_toks(text, j + 3)
            } else {
                seq![]
            }
        } else if matches_at(text, "</"@, i) {
            let ne = scan_until(text, i + 2, text.len() as int, stop_name());
            let e = tag_end_idx(text, ne);
            if e < text.len() {
                seq![
                    HtmlTok::Tag { name: text.subrange(i + 2, ne), attrs: seq![], closing: true },
                ] + html_toks(text, e + 1)
            } else {
                seq![]
            }
        } else {
            let ne = scan_until(text, i + 1, text.len() as int, stop_name());
            let e = tag_end_idx(text, ne);
            if e < text.len() {
                seq![
                    HtmlTok::Tag {
                        name: text.subrange(i + 1, ne),
                        attrs: attrs_from(text, ne, e),
                        closing: false,
                    },
                ] + html_toks(text, e + 1)
            } else {
                seq![]
            }
        }
    } else {
        let j = first_idx(text, '<', i + 1);
        seq![HtmlTok::Text(text.subrange(i, j))] + html_toks(text, j)
    }
}

#[via_fn]
proof fn html_toks_dec(text: Seq<char>, i: int) {
    reveal_strlit("<!--");
    reveal_strlit("-->");
    reveal_strlit("</");
    if 0 <= i && i < text.len() {
        if text[i] == '<' {
            if matches_at(text, "<!--"@, i) {
                lemma_first_pat_idx(text, "-->"@, i + 4);
            } else if matches_at(text, "</"@, i) {
                lemma_scan_until(text, i + 2, text.len() as int, stop_name());
                lemma_tag_end_idx(text, scan_until(text, i + 2, text.len() as int, stop_name()));
            } else {
                lemma_scan_until(text, i + 1, text.len() as int, stop_name());
                lemma_tag_end_idx(text, scan_until(text, i + 1, text.len() as int, stop_name()));
            }
        } else {
            lemma_first_idx(text, '<', i + 1);
        }
    }
}

/// What the tokenizer found at one position.
pub(crate) enum TokStep {
    /// A text run `[from, to)`; the stream goes on at `next`.
    Text { from: usize, to: usize, next: usize },
    /// A comment; nothing is emitted.
    Comment { next: usize },
    /// An end tag with its name range.
    EndTag { name_from: usize, name_to: usize, next: usize },
    /// An opening tag with its name range and the range its attributes
    /// are read from.
    StartTag { name_from: usize, name_to: usize, attrs_to: usize, next: usize },
    /// An unterminated construct: the token stream ends here.
    Truncated,
}

/// Reads the token starting at `i`.
pub(crate) fn next_tok(text: &str, n: usize, i: usize) -> (r: TokStep)
    requires
        n == text@.len(),
        i < n,
    ensures
        match r {
            TokStep::Truncated => html_toks(text@, i as int) == Seq::<HtmlTok>::empty(),
            TokStep::Comment { next } => i < next <= n && html_toks(text@, i as int) == html_toks(
                text@,
                next as int,
            ),
            TokStep::Text { from, to, next } => i < next <= n && from <= to <= n && html_toks(
                text@,
                i as int,
            ) == seq![HtmlTok::Text(text@.subrange(from as int, to as int))] + html_toks(
                text@,
                next as int,
            ),
            TokStep::EndTag { name_from, name_to, next } => i < next <= n && name_from <= name_to
                <= n && html_toks(text@, i as int) == seq![
                HtmlTok::Tag {
                    name: text@.subrange(name_from as int, name_to as int),
                    attrs: seq![],
                    closing: true,
                },
            ] + html_toks(text@, next as int),
            TokStep::StartTag { name_from, name_to, attrs_to, next } => i < next <= n && name_from
                <= name_to <= attrs_to <= n && html_toks(text@, i as int) == seq![
                HtmlTok::Tag {
                    name: text@.subrange(name_from as int, name_to as int),
                    attrs: attrs_from(text@, name_to as int, attrs_to as int),
                    closing: false,
                },
            ] + html_toks(text@, next as int),
        },
{
    let ghost t = text@;
    let c = text.get_char(i);
    if c == '<' {
        if str_matches_at(text, i, "<!--") {
            proof {
                reveal_strlit("<!--");
                reveal_strlit("-->");
                lemma_first_pat_idx(t, "-->"@, i + 4);
            }
            let j = find_pat_from(text, "-->", i + 4);
            if j >= n {
                return TokStep::Truncated;
            }
            TokStep::Comment { next: j + 3 }
        } else if str_matches_at(text, i, "</") {
            proof {
                reveal_strlit("<!--");
                reveal_strlit("</");
                lemma_scan_until(t, i + 2, n as int, stop_name());
            }
            let ne = scan_name_end(text, i + 2, n);
            proof {
                lemma_tag_end_idx(t, ne as int);
            }
            let e = tag_end_exec(text, n, ne);
            if e >= n {
                return TokStep::Truncated;
            }
            TokStep::EndTag { name_from: i + 2, name_to: ne, next: e + 1 }
        } else {
            proof {
                reveal_strlit("<!--");
                reveal_strlit("</");
                lemma_scan_until(t, i + 1, n as int, stop_name());
            }
            let ne = scan_name_end(text, i + 1, n);
            proof {
                lemma_tag_end_idx(t, ne as int);
            }
            let e = tag_end_exec(text, n, ne);
            if e >= n {
                return TokStep::Truncated;
            }
            TokStep::StartTag { name_from: i + 1, name_to: ne, attrs_to: e, next: e + 1 }
        }
    } else {
        proof {
            lemma_first_idx(t, '<', i + 1);
        }
        let j = find_char_from(text, '<', i + 1);
        TokStep::Text { from: i, to: j, next: j }
    }
}

#[via_fn]
proof fn attrs_from_dec(text: Seq<char>, p: int, end: int) {
    if 0 <= p <= end <= text.len() {
        let q = scan_until(text, p, end, stop_not_sep());
        lemma_scan_until(text, p, end, stop_not_sep());
        if q < end {
            let ne = scan_until(text, q, end, stop_name());
            lemma_scan_until(text, q, end, stop_name());
            if ne != q {
                let w = scan_until(text, ne, end, stop_not_ws());
                lemma_scan_until(text, ne, end, stop_not_ws());
                if w < end && text[w] == '=' {
                    let v = scan_until(text, w + 1, end, stop_not_ws());
                    lemma_scan_until(text, w + 1, end, stop_not_ws());
                    if v < end && (text[v] == '"' || text[v] == '\'') {
                        let quote = text[v];
                        lemma_scan_until(text, v + 1, end, stop_quote(quote));
                    } else if v < end {
                        lemma_scan_until(text, v, end, stop_ws());
                    }
                }
            }
        }
    }
}

} // verus!
