//! The login-page scraper: the per-session encryption script path, the
//! password form's hidden fields with the encryption salt among them, and
//! the error banner on a failed attempt.
use vstd::prelude::*;

use crate::errors::ParseError;
use crate::html::{
    attr_first_ci, attr_lookup, ci_eq, ci_equal, html_toks, next_tok, parse_attrs, HtmlTok, TokStep,
};
use crate::query::{lookup_last, lookup_pair, pairs_view};
use crate::strutil::{find_pat_from, first_pat_idx, lemma_first_pat_idx, str_eq, trim_str, trimmed};
use vstd::string::StrSliceExecFns;

verus! {

/// No field name appears twice.
pub open spec fn unique_keys(m: Seq<(Seq<char>, Seq<char>)>) -> bool {
    forall|i: int, j: int| 0 <= i < j < m.len() ==> (#[trigger] m[i]).0 != (#[trigger] m[j]).0
}

/// True when some pair carries the key `x`.
pub open spec fn key_in(m: Seq<(Seq<char>, Seq<char>)>, x: Seq<char>) -> bool {
    exists|i: int| 0 <= i < m.len() && (#[trigger] m[i]).0 == x
}

/// The mapping with `k` bound to `v`: an existing binding of `k` is
/// replaced in place, a new one goes to the end.
pub open spec fn upsert(m: Seq<(Seq<char>, Seq<char>)>, k: Seq<char>, v: Seq<char>) -> Seq<
    (Seq<char>, Seq<char>),
>
    decreases m.len(),
{
    if m.len() == 0 {
        seq![(k, v)]
    } else if m[0].0 == k {
        seq![(k, v)] + m.drop_first()
    } else {
        seq![m[0]] + upsert(m.drop_first(), k, v)
    }
}

/// The mapping after binding every pair in order, later bindings of a key
/// replacing earlier ones.
pub open spec fn upsert_all(
    m: Seq<(Seq<char>, Seq<char>)>,
    pairs: Seq<(Seq<char>, Seq<char>)>,
) -> Seq<(Seq<char>, Seq<char>)>
    decreases pairs.len(),
{
    if pairs.len() == 0 {
        m
    } else {
        upsert_all(upsert(m, pairs[0].0, pairs[0].1), pairs.drop_first())
    }
}

/// Binding a key keeps the keys unique, and the keys afterwards are the
/// old ones together with the bound one.
proof fn lemma_upsert_unique(m: Seq<(Seq<char>, Seq<char>)>, k: Seq<char>, v: Seq<char>)
    requires
        unique_keys(m),
    ensures
        unique_keys(upsert(m, k, v)),
        forall|x: Seq<char>| #[trigger] key_in(upsert(m, k, v), x) <==> (key_in(m, x) || x == k),
    decreases m.len(),
{
    let u = upsert(m, k, v);
    if m.len() == 0 {
        assert forall|x: Seq<char>| #[trigger] key_in(u, x) implies (key_in(m, x) || x == k) by {
            let i = choose|i: int| 0 <= i < u.len() && u[i].0 == x;
            assert(u[0].0 == k);
        }
        assert(key_in(u, k)) by {
            assert(u[0].0 == k);
        }
    } else if m[0].0 == k {
        assert forall|x: Seq<char>| #[trigger] key_in(u, x) implies (key_in(m, x) || x == k) by {
            let i = choose|i: int| 0 <= i < u.len() && u[i].0 == x;
            if i > 0 {
                assert(m[i].0 == x);
            }
        }
        assert forall|x: Seq<char>| key_in(m, x) implies #[trigger] key_in(u, x) by {
            let i = choose|i: int| 0 <= i < m.len() && m[i].0 == x;
            if i == 0 {
                assert(u[0].0 == k);
            } else {
                assert(u[i].0 == x);
            }
        }
        assert(unique_keys(u)) by {
            assert forall|i: int, j: int| 0 <= i < j < u.len() implies (#[trigger] u[i]).0 != (
            #[trigger] u[j]).0 by {
                assert(u[j].0 == m[j].0);
                if i == 0 {
                    assert(m[0].0 != m[j].0);
                } else {
                    assert(u[i].0 == m[i].0);
                }
            }
        }
    } else {
        assert(unique_keys(m.drop_first())) by {
            assert forall|i: int, j: int|
                0 <= i < j < m.drop_first().len() implies (#[trigger] m.drop_first()[i]).0 != (
            #[trigger] m.drop_first()[j]).0 by {
                assert(m.drop_first()[i] == m[i + 1]);
                assert(m.drop_first()[j] == m[j + 1]);
            }
        }
        lemma_upsert_unique(m.drop_first(), k, v);
        let ud = upsert(m.drop_first(), k, v);
        assert(u == seq![m[0]] + ud);
        assert(!key_in(m.drop_first(), m[0].0)) by {
            if key_in(m.drop_first(), m[0].0) {
                let i = choose|i: int|
                    0 <= i < m.drop_first().len() && m.drop_first()[i].0 == m[0].0;
                assert(m[i + 1].0 == m[0].0);
            }
        }
        assert(unique_keys(u)) by {
            assert forall|i: int, j: int| 0 <= i < j < u.len() implies (#[trigger] u[i]).0 != (
            #[trigger] u[j]).0 by {
                assert(u[j] == ud[j - 1]);
                if i == 0 {
                    assert(!key_in(ud, m[0].0));
                    assert(ud[j - 1].0 != m[0].0) by {
                        if ud[j - 1].0 == m[0].0 {
                            assert(key_in(ud, m[0].0));
                        }
                    }
                } else {
                    assert(u[i] == ud[i - 1]);
                }
            }
        }
        assert forall|x: Seq<char>| #[trigger] key_in(u, x) implies (key_in(m, x) || x == k) by {
            let i = choose|i: int| 0 <= i < u.len() && u[i].0 == x;
            if i == 0 {
                assert(m[0].0 == x);
            } else {
                assert(ud[i - 1].0 == x);
                assert(key_in(ud, x));
                if key_in(m.drop_first(), x) {
                    let j = choose|j: int|
                        0 <= j < m.drop_first().len() && m.drop_first()[j].0 == x;
                    assert(m[j + 1].0 == x);
                }
            }
        }
        assert forall|x: Seq<char>| (key_in(m, x) || x == k) implies #[trigger] key_in(u, x) by {
            if x == k {
                assert(key_in(ud, x));
                let j = choose|j: int| 0 <= j < ud.len() && ud[j].0 == x;
                assert(u[j + 1].0 == x);
            } else {
                let i = choose|i: int| 0 <= i < m.len() && m[i].0 == x;
                if i == 0 {
                    assert(u[0].0 == x);
                } else {
                    assert(m.drop_first()[i - 1].0 == x);
                    assert(key_in(m.drop_first(), x));
                    assert(key_in(ud, x));
                    let j = choose|j: int| 0 <= j < ud.len() && ud[j].0 == x;
                    assert(u[j + 1].0 == x);
                }
            }
        }
    }
}

/// Replacing the first binding of `k` in place is what `upsert` does when
/// `k` is already bound.
proof fn lemma_upsert_at(m: Seq<(Seq<char>, Seq<char>)>, k: Seq<char>, v: Seq<char>, i: int)
    requires
        0 <= i < m.len(),
        m[i].0 == k,
        forall|j: int| 0 <= j < i ==> (#[trigger] m[j]).0 != k,
    ensures
        upsert(m, k, v) =~= m.update(i, (k, v)),
    decreases i,
{
    if i == 0 {
        assert(upsert(m, k, v) =~= m.update(0, (k, v)));
    } else {
        assert forall|j: int| 0 <= j < i - 1 implies (#[trigger] m.drop_first()[j]).0 != k by {
            assert(m.drop_first()[j] == m[j + 1]);
        }
        assert(m.drop_first()[i - 1].0 == k);
        lemma_upsert_at(m.drop_first(), k, v, i - 1);
        assert(upsert(m, k, v) =~= m.update(i, (k, v)));
    }
}

/// Appending is what `upsert` does when `k` is not bound yet.
proof fn lemma_upsert_append(m: Seq<(Seq<char>, Seq<char>)>, k: Seq<char>, v: Seq<char>)
    requires
        forall|j: int| 0 <= j < m.len() ==> (#[trigger] m[j]).0 != k,
    ensures
        upsert(m, k, v) =~= m.push((k, v)),
    decreases m.len(),
{
    if m.len() > 0 {
        assert forall|j: int| 0 <= j < m.drop_first().len() implies (#[trigger] m.drop_first()[
        j]).0 != k by {
            assert(m.drop_first()[j] == m[j + 1]);
        }
        lemma_upsert_append(m.drop_first(), k, v);
        assert(upsert(m, k, v) =~= m.push((k, v)));
    }
}

/// Binds `k` to `v` in the field list, replacing an earlier binding in
/// place.
pub(crate) fn upsert_field(m: &mut Vec<(String, String)>, k: String, v: String)
    ensures
        pairs_view(final(m)@) == upsert(pairs_view(old(m)@), k@, v@),
{
    let ghost mv = pairs_view(m@);
    let ghost kk = k@;
    let ghost vv = v@;
    let mut i: usize = 0;
    while i < m.len()
        invariant
            i <= m@.len(),
            mv == pairs_view(m@),
            mv == pairs_view(old(m)@),
            kk == k@,
            vv == v@,
            forall|j: int| 0 <= j < i ==> (#[trigger] mv[j]).0 != kk,
        decreases m@.len() - i,
    {
        let ghost mraw = m@;
        if str_eq(m[i].0.as_str(), k.as_str()) {
            proof {
                assert(mv[i as int].0 == kk);
                lemma_upsert_at(mv, kk, vv, i as int);
            }
            m.remove(i);
            m.insert(i, (k, v));
            proof {
                assert(m@ =~= mraw.update(i as int, m@[i as int]));
                assert(m@[i as int].0@ == kk && m@[i as int].1@ == vv);
                let lhs = pairs_view(m@);
                let rhs = mv.update(i as int, (kk, vv));
                assert(lhs.len() == rhs.len());
                assert forall|j: int| 0 <= j < lhs.len() implies lhs[j] == rhs[j] by {
                    assert(lhs[j] == (m@[j].0@, m@[j].1@));
                    if j != i {
                        assert(m@[j] == mraw[j]);
                        assert(rhs[j] == mv[j]);
                        assert(mv[j] == (mraw[j].0@, mraw[j].1@));
                    }
                }
                assert(lhs =~= rhs);
                assert(pairs_view(m@) == upsert(mv, kk, vv));
            }
            return ;
        }
        proof {
            assert(mv[i as int].0 != kk);
        }
        i = i + 1;
    }
    proof {
        lemma_upsert_append(mv, kk, vv);
    }
    m.push((k, v));
    proof {
        assert(pairs_view(m@) =~= mv.push((kk, vv)));
        assert(pairs_view(m@) == upsert(mv, kk, vv));
    }
}

/// True for an opening `script` tag that declares plain javascript and
/// whose `src` holds the substring `encrypt`: the tag that names the
/// portal's password-encryption script.
pub open spec fn is_encrypt_script_tok(tok: HtmlTok) -> bool {
    match tok {
        HtmlTok::Tag { name, attrs, closing } => {
            &&& !closing
            &&& ci_equal(name, "script"@)
            &&& attr_first_ci(attrs, "type"@) == Some("text/javascript"@)
            &&& match attr_first_ci(attrs, "src"@) {
                Some(src) => first_pat_idx(src, "encrypt"@, 0) < src.len(),
                None => false,
            }
        },
        HtmlTok::Text(_) => false,
    }
}

/// The `src` of the first encryption-script tag, if any.
pub open spec fn script_src_of(toks: Seq<HtmlTok>) -> Option<Seq<char>>
    decreases toks.len(),
{
    if toks.len() == 0 {
        None
    } else if is_encrypt_script_tok(toks[0]) {
        match toks[0] {
            HtmlTok::Tag { attrs, .. } => attr_first_ci(attrs, "src"@),
            HtmlTok::Text(_) => None,
        }
    } else {
        script_src_of(toks.drop_first())
    }
}

/// True for an opening `div` tag.
pub open spec fn is_div_start(tok: HtmlTok) -> bool {
    match tok {
        HtmlTok::Tag { name, closing, .. } => !closing && ci_equal(name, "div"@),
        HtmlTok::Text(_) => false,
    }
}

/// True for a closing `div` tag.
pub open spec fn is_div_end(tok: HtmlTok) -> bool {
    match tok {
        HtmlTok::Tag { name, closing, .. } => closing && ci_equal(name, "div"@),
        HtmlTok::Text(_) => false,
    }
}

/// True for the opening `div` whose id is `pwdLoginDiv`: the password
/// login form.
pub open spec fn is_pwd_div_tok(tok: HtmlTok) -> bool {
    match tok {
        HtmlTok::Tag { name, attrs, closing } => {
            &&& !closing
            &&& ci_equal(name, "div"@)
            &&& attr_first_ci(attrs, "id"@) == Some("pwdLoginDiv"@)
        },
        HtmlTok::Text(_) => false,
    }
}

/// The `(id, value)` of an input that carries both attributes.
pub open spec fn input_pair_of(tok: HtmlTok) -> Option<(Seq<char>, Seq<char>)> {
    match tok {
        HtmlTok::Tag { name, attrs, closing } => {
            if !closing && ci_equal(name, "input"@) {
                match (attr_first_ci(attrs, "id"@), attr_first_ci(attrs, "value"@)) {
                    (Some(i), Some(v)) => Some((i, v)),
                    _ => None,
                }
            } else {
                None
            }
        },
        HtmlTok::Text(_) => None,
    }
}

/// The `(id, value)` pairs of the inputs that stand before the `div` end
/// tag that closes the form, nested `div` elements tracked by `depth`.
pub open spec fn inputs_until_div_end(toks: Seq<HtmlTok>, depth: nat) -> Seq<
    (Seq<char>, Seq<char>),
>
    decreases toks.len(),
{
    if toks.len() == 0 {
        seq![]
    } else if is_div_end(toks[0]) {
        if depth == 0 {
            seq![]
        } else {
            inputs_until_div_end(toks.drop_first(), (depth - 1) as nat)
        }
    } else if is_div_start(toks[0]) {
        inputs_until_div_end(toks.drop_first(), depth + 1)
    } else {
        match input_pair_of(toks[0]) {
            Some(p) => seq![p] + inputs_until_div_end(toks.drop_first(), depth),
            None => inputs_until_div_end(toks.drop_first(), depth),
        }
    }
}

/// The input pairs of the password form, or nothing when the page has no
/// `div` with id `pwdLoginDiv`.
pub open spec fn pwd_div_inputs(toks: Seq<HtmlTok>) -> Option<Seq<(Seq<char>, Seq<char>)>>
    decreases toks.len(),
{
    if toks.len() == 0 {
        None
    } else if is_pwd_div_tok(toks[0]) {
        Some(inputs_until_div_end(toks.drop_first(), 0))
    } else {
        pwd_div_inputs(toks.drop_first())
    }
}

/// A token stream starting with `tok` begins where `tok` says.
proof fn lemma_cons_toks(tok: HtmlTok, rest: Seq<HtmlTok>)
    ensures
        (seq![tok] + rest)[0] == tok,
        (seq![tok] + rest).drop_first() =~= rest,
        (seq![tok] + rest).len() == rest.len() + 1,
{
}

/// Checks one opening tag against the encryption-script shape and hands
/// its `src` out on a match.
fn check_script_tok(
    html: &str,
    n: usize,
    name_from: usize,
    name_to: usize,
    attrs_to: usize,
) -> (r: Option<String>)
    requires
        n == html@.len(),
        name_from <= name_to <= attrs_to <= n,
    ensures
        ({
            let tok = HtmlTok::Tag {
                name: html@.subrange(name_from as int, name_to as int),
                attrs: crate::html::attrs_from(html@, name_to as int, attrs_to as int),
                closing: false,
            };
            match r {
                Some(s) => is_encrypt_script_tok(tok) && Some(s@) == attr_first_ci(
                    match tok {
                        HtmlTok::Tag { attrs, .. } => attrs,
                        HtmlTok::Text(_) => seq![],
                    },
                    "src"@,
                ),
                None => !is_encrypt_script_tok(tok),
            }
        }),
{
    if !ci_eq(html.substring_char(name_from, name_to), "script") {
        return None;
    }
    let attrs = parse_attrs(html, name_to, attrs_to);
    let ty = match attr_lookup(&attrs, "type") {
        Some(t) => t,
        None => {
            return None;
        },
    };
    if !str_eq(ty.as_str(), "text/javascript") {
        return None;
    }
    let src = match attr_lookup(&attrs, "src") {
        Some(s) => s,
        None => {
            return None;
        },
    };
    let slen = src.as_str().unicode_len();
    proof {
        lemma_first_pat_idx(src@, "encrypt"@, 0);
    }
    if find_pat_from(src.as_str(), "encrypt", 0) < slen {
        Some(src)
    } else {
        None
    }
}

/// Finds the first encryption-script path of the page, in document order.
fn find_script_path(html: &str, n: usize) -> (r: Option<String>)
    requires
        n == html@.len(),
    ensures
        match script_src_of(html_toks(html@, 0)) {
            Some(v) => r matches Some(s) && s@ == v,
            None => r is None,
        },
{
    let mut pos: usize = 0;
    while pos < n
        invariant
            pos <= n,
            n == html@.len(),
            script_src_of(html_toks(html@, 0)) == script_src_of(html_toks(html@, pos as int)),
        decreases n - pos,
    {
        match next_tok(html, n, pos) {
            TokStep::Truncated => {
                return None;
            },
            TokStep::Comment { next } => {
                pos = next;
            },
            TokStep::Text { from, to, next } => {
                proof {
                    lemma_cons_toks(
                        HtmlTok::Text(html@.subrange(from as int, to as int)),
                        html_toks(html@, next as int),
                    );
                }
                pos = next;
            },
            TokStep::EndTag { name_from, name_to, next } => {
                proof {
                    lemma_cons_toks(
                        HtmlTok::Tag {
                            name: html@.subrange(name_from as int, name_to as int),
                            attrs: seq![],
                            closing: true,
                        },
                        html_toks(html@, next as int),
                    );
                }
                pos = next;
            },
            TokStep::StartTag { name_from, name_to, attrs_to, next } => {
                let ghost tok = HtmlTok::Tag {
                    name: html@.subrange(name_from as int, name_to as int),
                    attrs: crate::html::attrs_from(html@, name_to as int, attrs_to as int),
                    closing: false,
                };
                proof {
                    lemma_cons_toks(tok, html_toks(html@, next as int));
                }
                match check_script_tok(html, n, name_from, name_to, attrs_to) {
                    Some(s) => {
                        return Some(s);
                    },
                    None => {
                        pos = next;
                    },
                }
            },
        }
    }
    None
}

/// Reads the password form's `(id, value)` pairs into a field list with
/// unique keys, a later input with a seen id replacing the earlier value.
/// Nothing comes back when the page has no `div` with id `pwdLoginDiv`.
fn collect_form_data(html: &str, n: usize) -> (r: Option<Vec<(String, String)>>)
    requires
        n == html@.len(),
    ensures
        match pwd_div_inputs(html_toks(html@, 0)) {
            Some(pairs) => r matches Some(fd) && pairs_view(fd@) == upsert_all(
                Seq::empty(),
                pairs,
            ) && unique_keys(pairs_view(fd@)),
            None => r is None,
        },
{
    let mut pos: usize = 0;
    let mut inside = false;
    let mut depth: usize = 0;
    let mut form: Vec<(String, String)> = Vec::new();
    let ghost toks0 = html_toks(html@, 0);
    proof {
        assert(unique_keys(Seq::<(Seq<char>, Seq<char>)>::empty()));
        assert(pairs_view(form@) =~= Seq::<(Seq<char>, Seq<char>)>::empty());
    }
    while pos < n
        invariant
            pos <= n,
            n == html@.len(),
            toks0 == html_toks(html@, 0),
            depth <= pos,
            !inside ==> {
                &&& pwd_div_inputs(toks0) == pwd_div_inputs(html_toks(html@, pos as int))
                &&& form@.len() == 0
                &&& depth == 0
            },
            inside ==> match pwd_div_inputs(toks0) {
                Some(pairs) => upsert_all(Seq::empty(), pairs) == upsert_all(
                    pairs_view(form@),
                    inputs_until_div_end(html_toks(html@, pos as int), depth as nat),
                ) && unique_keys(pairs_view(form@)),
                None => false,
            },
        decreases n - pos,
    {
        let step = next_tok(html, n, pos);
        match step {
            TokStep::Truncated => {
                if inside {
                    return Some(form);
                }
                return None;
            },
            TokStep::Comment { next } => {
                pos = next;
            },
            TokStep::Text { from, to, next } => {
                proof {
                    lemma_cons_toks(
                        HtmlTok::Text(html@.subrange(from as int, to as int)),
                        html_toks(html@, next as int),
                    );
                }
                pos = next;
            },
            TokStep::EndTag { name_from, name_to, next } => {
                let ghost tok = HtmlTok::Tag {
                    name: html@.subrange(name_from as int, name_to as int),
                    attrs: seq![],
                    closing: true,
                };
                proof {
                    lemma_cons_toks(tok, html_toks(html@, next as int));
                }
                if inside && ci_eq(html.substring_char(name_from, name_to), "div") {
                    if depth == 0 {
                        return Some(form);
                    }
                    depth = depth - 1;
                }
                pos = next;
            },
            TokStep::StartTag { name_from, name_to, attrs_to, next } => {
                let ghost tok = HtmlTok::Tag {
                    name: html@.subrange(name_from as int, name_to as int),
                    attrs: crate::html::attrs_from(html@, name_to as int, attrs_to as int),
                    closing: false,
                };
                proof {
                    lemma_cons_toks(tok, html_toks(html@, next as int));
                }
                let name_is_div = ci_eq(html.substring_char(name_from, name_to), "div");
                let name_is_input = ci_eq(html.substring_char(name_from, name_to), "input");
                proof {
                    reveal_strlit("div");
                    reveal_strlit("input");
                    if name_is_div && name_is_input {
                        assert(false);
                    }
                }
                if !inside {
                    if name_is_div {
                        let attrs = parse_attrs(html, name_to, attrs_to);
                        let is_pwd = match attr_lookup(&attrs, "id") {
                            Some(idv) => str_eq(idv.as_str(), "pwdLoginDiv"),
                            None => false,
                        };
                        if is_pwd {
                            proof {
                                assert(is_pwd_div_tok(tok));
                                assert(pairs_view(form@) =~= Seq::<(Seq<char>, Seq<char>)>::empty());
                            }
                            inside = true;
                        }
                    }
                    pos = next;
                } else {
                    if name_is_div {
                        depth = depth + 1;
                        pos = next;
                    } else if name_is_input {
                        let attrs = parse_attrs(html, name_to, attrs_to);
                        let idv = attr_lookup(&attrs, "id");
                        let valv = attr_lookup(&attrs, "value");
                        match (idv, valv) {
                            (Some(id), Some(value)) => {
                                let ghost p = (id@, value@);
                                proof {
                                    assert(input_pair_of(tok) == Some(p));
                                    lemma_upsert_unique(pairs_view(form@), id@, value@);
                                    let rest_inputs = inputs_until_div_end(
                                        html_toks(html@, next as int),
                                        depth as nat,
                                    );
                                    assert((seq![p] + rest_inputs)[0] == p);
                                    assert((seq![p] + rest_inputs).drop_first() =~= rest_inputs);
                                }
                                upsert_field(&mut form, id, value);
                            },
                            _ => {
                                proof {
                                    assert(input_pair_of(tok) is None);
                                }
                            },
                        }
                        pos = next;
                    } else {
                        pos = next;
                    }
                }
            },
        }
    }
    if inside {
        return Some(form);
    }
    None
}

/// True for an opening tag with id `showErrorTip`: the portal's error
/// banner on a failed login.
pub open spec fn is_error_tip_tok(tok: HtmlTok) -> bool {
    match tok {
        HtmlTok::Tag { attrs, closing, .. } => !closing && attr_first_ci(attrs, "id"@) == Some(
            "showErrorTip"@,
        ),
        HtmlTok::Text(_) => false,
    }
}

/// The element name of a tag token.
pub open spec fn tok_name(tok: HtmlTok) -> Seq<char> {
    match tok {
        HtmlTok::Tag { name, .. } => name,
        HtmlTok::Text(_) => Seq::empty(),
    }
}

/// All text before the end tag that closes an element named `name`,
/// nested elements of the same name tracked by `depth`; text inside
/// other descendants is included.
pub open spec fn texts_until_close(toks: Seq<HtmlTok>, name: Seq<char>, depth: nat) -> Seq<char>
    decreases toks.len(),
{
    if toks.len() == 0 {
        Seq::empty()
    } else {
        match toks[0] {
            HtmlTok::Text(s) => s + texts_until_close(toks.drop_first(), name, depth),
            HtmlTok::Tag { name: n2, closing, .. } => {
                if ci_equal(n2, name) {
                    if closing {
                        if depth == 0 {
                            Seq::empty()
                        } else {
                            texts_until_close(toks.drop_first(), name, (depth - 1) as nat)
                        }
                    } else {
                        texts_until_close(toks.drop_first(), name, depth + 1)
                    }
                } else {
                    texts_until_close(toks.drop_first(), name, depth)
                }
            },
        }
    }
}

/// The error banner's trimmed text: the content of the first element with
/// id `showErrorTip`, or nothing when the element is absent or blank.
pub open spec fn error_tip_of(toks: Seq<HtmlTok>) -> Option<Seq<char>>
    decreases toks.len(),
{
    if toks.len() == 0 {
        None
    } else if is_error_tip_tok(toks[0]) {
        let t = trimmed(texts_until_close(toks.drop_first(), tok_name(toks[0]), 0));
        if t.len() == 0 {
            None
        } else {
            Some(t)
        }
    } else {
        error_tip_of(toks.drop_first())
    }
}

/// Gathers the text of the element opened just before `start`, up to the
/// end tag that closes it.
fn collect_elem_text(html: &str, n: usize, start: usize, name: &str) -> (r: String)
    requires
        n == html@.len(),
        start <= n,
    ensures
        r@ == texts_until_close(html_toks(html@, start as int), name@, 0),
{
    let mut acc = String::new();
    let mut pos = start;
    let mut depth: usize = 0;
    let ghost total = texts_until_close(html_toks(html@, start as int), name@, 0);
    proof {
        assert(total =~= acc@ + total);
    }
    while pos < n
        invariant
            start <= pos <= n,
            n == html@.len(),
            depth <= pos,
            total == texts_until_close(html_toks(html@, start as int), name@, 0),
            total == acc@ + texts_until_close(html_toks(html@, pos as int), name@, depth as nat),
        decreases n - pos,
    {
        match next_tok(html, n, pos) {
            TokStep::Truncated => {
                proof {
                    assert(total =~= acc@);
                }
                return acc;
            },
            TokStep::Comment { next } => {
                pos = next;
            },
            TokStep::Text { from, to, next } => {
                let ghost s = html@.subrange(from as int, to as int);
                proof {
                    lemma_cons_toks(HtmlTok::Text(s), html_toks(html@, next as int));
                }
                acc.append(html.substring_char(from, to));
                proof {
                    assert(total =~= acc@ + texts_until_close(
                        html_toks(html@, next as int),
                        name@,
                        depth as nat,
                    ));
                }
                pos = next;
            },
            TokStep::EndTag { name_from, name_to, next } => {
                let ghost tok = HtmlTok::Tag {
                    name: html@.subrange(name_from as int, name_to as int),
                    attrs: seq![],
                    closing: true,
                };
                proof {
                    lemma_cons_toks(tok, html_toks(html@, next as int));
                }
                if ci_eq(html.substring_char(name_from, name_to), name) {
                    if depth == 0 {
                        proof {
                            assert(total =~= acc@);
                        }
                        return acc;
                    }
                    depth = depth - 1;
                }
                pos = next;
            },
            TokStep::StartTag { name_from, name_to, attrs_to, next } => {
                let ghost tok = HtmlTok::Tag {
                    name: html@.subrange(name_from as int, name_to as int),
                    attrs: crate::html::attrs_from(html@, name_to as int, attrs_to as int),
                    closing: false,
                };
                proof {
                    lemma_cons_toks(tok, html_toks(html@, next as int));
                }
                if ci_eq(html.substring_char(name_from, name_to), name) {
                    depth = depth + 1;
                }
                pos = next;
            },
        }
    }
    proof {
        assert(total =~= acc@);
    }
    acc
}

/// Reads the portal's error banner: the trimmed text of the element with
/// id `showErrorTip`, or nothing when the banner is absent or blank. This
/// lookup never fails; it only enriches a login failure.
pub fn extract_error_message(html: &str) -> (r: Option<String>)
    ensures
        match error_tip_of(html_toks(html@, 0)) {
            Some(v) => r matches Some(s) && s@ == v,
            None => r is None,
        },
{
    let n = html.unicode_len();
    let mut pos: usize = 0;
    while pos < n
        invariant
            pos <= n,
            n == html@.len(),
            error_tip_of(html_toks(html@, 0)) == error_tip_of(html_toks(html@, pos as int)),
        decreases n - pos,
    {
        match next_tok(html, n, pos) {
            TokStep::Truncated => {
                return None;
            },
            TokStep::Comment { next } => {
                pos = next;
            },
            TokStep::Text { from, to, next } => {
                proof {
                    lemma_cons_toks(
                        HtmlTok::Text(html@.subrange(from as int, to as int)),
                        html_toks(html@, next as int),
                    );
                }
                pos = next;
            },
            TokStep::EndTag { name_from, name_to, next } => {
                proof {
                    lemma_cons_toks(
                        HtmlTok::Tag {
                            name: html@.subrange(name_from as int, name_to as int),
                            attrs: seq![],
                            closing: true,
                        },
                        html_toks(html@, next as int),
                    );
                }
                pos = next;
            },
            TokStep::StartTag { name_from, name_to, attrs_to, next } => {
                let ghost tok = HtmlTok::Tag {
                    name: html@.subrange(name_from as int, name_to as int),
                    attrs: crate::html::attrs_from(html@, name_to as int, attrs_to as int),
                    closing: false,
                };
                proof {
                    lemma_cons_toks(tok, html_toks(html@, next as int));
                }
                let attrs = parse_attrs(html, name_to, attrs_to);
                let is_tip = match attr_lookup(&attrs, "id") {
                    Some(idv) => str_eq(idv.as_str(), "showErrorTip"),
                    None => false,
                };
                if is_tip {
                    proof {
                        assert(is_error_tip_tok(tok));
                    }
                    let name = html.substring_char(name_from, name_to);
                    let text = collect_elem_text(html, n, next, name);
                    let piece = trim_str(text.as_str());
                    if piece.unicode_len() == 0 {
                        return None;
                    }
                    return Some(piece.to_owned());
                }
                pos = next;
            },
        }
    }
    None
}

/// What the scraper read from a login page: the optional path of the
/// encryption script, the per-session encryption salt, and the form's
/// hidden fields, each id bound once.
#[derive(Debug, Clone)]
pub struct LoginPageInfo {
    /// The URL path of the page's password-encryption script.
    pub encrypt_script_path: Option<String>,
    /// The value of the input with id `pwdEncryptSalt`.
    pub pwd_encrypt_salt: String,
    /// The other hidden fields of the password form, id to value.
    pub form_data: Vec<(String, String)>,
}

impl LoginPageInfo {
    /// The field list binds no id twice.
    pub open spec fn wf(&self) -> bool {
        unique_keys(pairs_view(self.form_data@))
    }
}

/// Scrapes the login page: the first plain-javascript `script` tag whose
/// `src` mentions `encrypt` (optional), and the inputs of the `div` with
/// id `pwdLoginDiv` that carry both an id and a value, a later input with
/// a seen id replacing the earlier value. The input with id
/// `pwdEncryptSalt` supplies the salt; a page without it cannot be used
/// and is rejected with that field's name.
pub fn parse_login_page(html: &str) -> (r: Result<LoginPageInfo, ParseError>)
    ensures
        ({
            let toks = html_toks(html@, 0);
            match pwd_div_inputs(toks) {
                None => r matches Err(ParseError::MissingField(f)) && f@ == "pwdEncryptSalt"@,
                Some(pairs) => {
                    let fd = upsert_all(Seq::empty(), pairs);
                    match lookup_last(fd, "pwdEncryptSalt"@) {
                        None => r matches Err(ParseError::MissingField(f)) && f@
                            == "pwdEncryptSalt"@,
                        Some(salt) => r matches Ok(info) && {
                            &&& info.pwd_encrypt_salt@ == salt
                            &&& pairs_view(info.form_data@) == fd
                            &&& info.wf()
                            &&& match (info.encrypt_script_path, script_src_of(toks)) {
                                (Some(s), Some(v)) => s@ == v,
                                (None, None) => true,
                                _ => false,
                            }
                        },
                    }
                },
            }
        }),
{
    let n = html.unicode_len();
    let script = find_script_path(html, n);
    match collect_form_data(html, n) {
        None => Err(ParseError::MissingField(String::from_str("pwdEncryptSalt"))),
        Some(form) => {
            match lookup_pair(&form, "pwdEncryptSalt") {
                None => Err(ParseError::MissingField(String::from_str("pwdEncryptSalt"))),
                Some(salt) => Ok(
                    LoginPageInfo {
                        encrypt_script_path: script,
                        pwd_encrypt_salt: salt,
                        form_data: form,
                    },
                ),
            }
        },
    }
}

} // verus!
