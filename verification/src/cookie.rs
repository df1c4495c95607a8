//! Cookie persistence: the in-memory record of one cookie, the JSON array
//! it is saved to, the strict reader of that format, and the cookie-set
//! string a loaded record is re-attached with.
use vstd::prelude::*;

use crate::strutil::{matches_at, push_char, str_matches_at};
use vstd::string::{StrSliceExecFns, StringExecFns};

verus! {

/// The persisted shape of one cookie.
#[derive(Debug, Clone, PartialEq, Eq)]
pub struct CookieRecord {
    pub name: String,
    pub value: String,
    pub domain: String,
    pub path: String,
    /// An expiry is never persisted: every saved cookie is session-scoped.
    pub expires: Option<String>,
    pub secure: bool,
    pub http_only: bool,
}

/// The mathematical shape of one record.
pub struct CookieRecordV {
    pub name: Seq<char>,
    pub value: Seq<char>,
    pub domain: Seq<char>,
    pub path: Seq<char>,
    pub expires: Option<Seq<char>>,
    pub secure: bool,
    pub http_only: bool,
}

impl View for CookieRecord {
    type V = CookieRecordV;

    open spec fn view(&self) -> CookieRecordV {
        CookieRecordV {
            name: self.name@,
            value: self.value@,
            domain: self.domain@,
            path: self.path@,
            expires: match self.expires {
                Some(e) => Some(e@),
                None => None,
            },
            secure: self.secure,
            http_only: self.http_only,
        }
    }
}

/// The views of a list of records.
pub open spec fn jar_view(rs: Seq<CookieRecord>) -> Seq<CookieRecordV> {
    rs.map_values(|r: CookieRecord| r@)
}

/// A record as it is written and reloaded: the same cookie with its
/// expiry dropped.
pub open spec fn persisted(r: CookieRecordV) -> CookieRecordV {
    CookieRecordV {
        name: r.name,
        value: r.value,
        domain: r.domain,
        path: r.path,
        expires: None,
        secure: r.secure,
        http_only: r.http_only,
    }
}

/// Whether a record names the domain it belongs to.
pub open spec fn has_domain() -> spec_fn(CookieRecordV) -> bool {
    |r: CookieRecordV| r.domain.len() > 0
}

/// The records worth persisting: one with an empty domain cannot be
/// re-attached to requests and is dropped.
pub open spec fn kept(rs: Seq<CookieRecordV>) -> Seq<CookieRecordV> {
    rs.filter(has_domain())
}

/// The upper-case hex digit for a value below sixteen.
pub open spec fn hex_digit(d: nat) -> char {
    if d < 10 {
        ((48 + d) as u8) as char
    } else {
        ((55 + d) as u8) as char
    }
}

/// One character inside a JSON string literal: quote, backslash and the
/// named control characters get their two-character escapes, any other
/// control character a `\u00XX` escape, and everything else stands as it
/// is.
pub open spec fn escape_char(c: char) -> Seq<char> {
    if c == '"' {
        seq!['\\', '"']
    } else if c == '\\' {
        seq!['\\', '\\']
    } else if c == '\n' {
        seq!['\\', 'n']
    } else if c == '\r' {
        seq!['\\', 'r']
    } else if c == '\t' {
        seq!['\\', 't']
    } else if (c as u32) < 0x20 {
        seq!['\\', 'u', '0', '0', hex_digit((c as u32 / 16) as nat), hex_digit((c as u32 % 16) as nat)]
    } else {
        seq![c]
    }
}

/// A whole string escaped for a JSON literal.
pub open spec fn escaped(s: Seq<char>) -> Seq<char>
    decreases s.len(),
{
    if s.len() == 0 {
        Seq::empty()
    } else {
        escape_char(s[0]) + escaped(s.drop_first())
    }
}

/// Appends one character's escape.
fn push_escaped_char(out: &mut String, c: char)
    ensures
        final(out)@ == old(out)@ + escape_char(c),
{
    let u = c as u32;
    if c == '"' {
        push_char(out, '\\');
        push_char(out, '"');
        assert(final(out)@ =~= old(out)@ + escape_char(c));
    } else if c == '\\' {
        push_char(out, '\\');
        push_char(out, '\\');
        assert(final(out)@ =~= old(out)@ + escape_char(c));
    } else if c == '\n' {
        push_char(out, '\\');
        push_char(out, 'n');
        assert(final(out)@ =~= old(out)@ + escape_char(c));
    } else if c == '\r' {
        push_char(out, '\\');
        push_char(out, 'r');
        assert(final(out)@ =~= old(out)@ + escape_char(c));
    } else if c == '\t' {
        push_char(out, '\\');
        push_char(out, 't');
        assert(final(out)@ =~= old(out)@ + escape_char(c));
    } else if u < 0x20 {
        push_char(out, '\\');
        push_char(out, 'u');
        push_char(out, '0');
        push_char(out, '0');
        let hi = (u / 16) as u8;
        let lo = (u % 16) as u8;
        push_char(
            out,
            if hi < 10 {
                (48 + hi) as char
            } else {
                (55 + hi) as char
            },
        );
        push_char(
            out,
            if lo < 10 {
                (48 + lo) as char
            } else {
                (55 + lo) as char
            },
        );
        assert(final(out)@ =~= old(out)@ + escape_char(c));
    } else {
        push_char(out, c);
        assert(final(out)@ =~= old(out)@ + escape_char(c));
    }
}

/// Appends a string's JSON escape.
fn push_escaped(out: &mut String, s: &str)
    ensures
        final(out)@ == old(out)@ + escaped(s@),
{
    let n = s.unicode_len();
    let mut i: usize = 0;
    proof {
        assert(s@.skip(0) =~= s@);
        assert(old(out)@ + Seq::<char>::empty() =~= old(out)@);
    }
    while i < n
        invariant
            i <= n,
            n == s@.len(),
            old(out)@ + escaped(s@) == out@ + escaped(s@.skip(i as int)),
        decreases n - i,
    {
        let c = s.get_char(i);
        proof {
            assert(s@.skip(i as int)[0] == s@[i as int]);
            assert(s@.skip(i as int).drop_first() =~= s@.skip(i + 1));
        }
        push_escaped_char(out, c);
        i = i + 1;
    }
    proof {
        assert(s@.skip(n as int) =~= Seq::<char>::empty());
        assert(out@ + Seq::<char>::empty() =~= out@);
    }
}

/// One record as a pretty JSON object, indented for an array element;
/// the expiry is written as absent whatever it was.
pub open spec fn record_json(r: CookieRecordV) -> Seq<char> {
    "  {\n    \"name\": \""@ + escaped(r.name) + "\",\n    \"value\": \""@ + escaped(r.value)
        + "\",\n    \"domain\": \""@ + escaped(r.domain) + "\",\n    \"path\": \""@ + escaped(
        r.path,
    ) + "\",\n    \"expires\": null,\n    \"secure\": "@ + (if r.secure {
        "true"@
    } else {
        "false"@
    }) + ",\n    \"http_only\": "@ + (if r.http_only {
        "true"@
    } else {
        "false"@
    }) + "\n  }"@
}

/// A list of records as a pretty JSON array.
pub open spec fn records_json(rs: Seq<CookieRecordV>) -> Seq<char>
    decreases rs.len(),
{
    if rs.len() == 0 {
        Seq::empty()
    } else if rs.len() == 1 {
        record_json(rs[0])
    } else {
        records_json(rs.drop_last()) + ",\n"@ + record_json(rs.last())
    }
}

/// The whole cookie file: an empty array on its own, or the records
/// between brackets, one object per record.
pub open spec fn jar_json(rs: Seq<CookieRecordV>) -> Seq<char> {
    if rs.len() == 0 {
        "[]"@
    } else {
        "[\n"@ + records_json(rs) + "\n]"@
    }
}

/// Appends one record as JSON.
#[verifier::rlimit(100)]
#[verifier::spinoff_prover]
fn push_record_json(out: &mut String, r: &CookieRecord)
    ensures
        final(out)@ == old(out)@ + record_json(r@),
{
    out.append("  {\n    \"name\": \"");
    push_escaped(out, r.name.as_str());
    out.append("\",\n    \"value\": \"");
    push_escaped(out, r.value.as_str());
    out.append("\",\n    \"domain\": \"");
    push_escaped(out, r.domain.as_str());
    out.append("\",\n    \"path\": \"");
    push_escaped(out, r.path.as_str());
    out.append("\",\n    \"expires\": null,\n    \"secure\": ");
    if r.secure {
        out.append("true");
    } else {
        out.append("false");
    }
    out.append(",\n    \"http_only\": ");
    if r.http_only {
        out.append("true");
    } else {
        out.append("false");
    }
    out.append("\n  }");
    proof {
        assert(final(out)@ =~= old(out)@ + record_json(r@));
    }
}

/// Writes the records with a non-empty domain as a pretty JSON array, the
/// expiry always written as absent: the exact text the loader reads back.
pub fn save_cookies(records: &Vec<CookieRecord>) -> (r: String)
    ensures
        r@ == jar_json(kept(jar_view(records@))),
{
    let ghost all = jar_view(records@);
    let mut body = String::new();
    let mut count: usize = 0;
    let mut i: usize = 0;
    proof {
        reveal_with_fuel(Seq::filter, 1);
        assert(kept(all.take(0)) =~= Seq::<CookieRecordV>::empty());
        assert(body@ =~= records_json(kept(all.take(0))));
    }
    while i < records.len()
        invariant
            i <= records@.len(),
            all == jar_view(records@),
            body@ == records_json(kept(all.take(i as int))),
            count == kept(all.take(i as int)).len(),
        decreases records@.len() - i,
    {
        let ghost prefix = kept(all.take(i as int));
        proof {
            reveal_with_fuel(Seq::filter, 2);
            assert(all.take(i + 1).drop_last() =~= all.take(i as int));
            assert(all.take(i + 1).last() == all[i as int]);
            assert(all[i as int] == records@[i as int]@);
        }
        let keep = records[i].domain.as_str().unicode_len() > 0;
        if keep {
            proof {
                assert(kept(all.take(i + 1)) =~= prefix.push(all[i as int]));
            }
            if count > 0 {
                body.append(",\n");
                push_record_json(&mut body, &records[i]);
                proof {
                    assert(kept(all.take(i + 1)).drop_last() =~= prefix);
                    assert(body@ =~= records_json(kept(all.take(i + 1))));
                }
            } else {
                push_record_json(&mut body, &records[i]);
                proof {
                    assert(prefix.len() == 0);
                    assert(kept(all.take(i + 1)).len() == 1);
                    assert(kept(all.take(i + 1))[0] == all[i as int]);
                    assert(Seq::<char>::empty() + record_json(all[i as int]) =~= record_json(
                        all[i as int],
                    ));
                    assert(body@ =~= records_json(kept(all.take(i + 1))));
                }
            }
            count = count + 1;
        } else {
            proof {
                assert(kept(all.take(i + 1)) =~= prefix);
            }
        }
        i = i + 1;
    }
    proof {
        assert(all.take(all.len() as int) =~= all);
    }
    let mut out = String::new();
    if count == 0 {
        out.append("[]");
        proof {
            assert(kept(all).len() == 0);
            assert(out@ =~= jar_json(kept(all)));
        }
        return out;
    }
    out.append("[\n");
    out.append(body.as_str());
    out.append("\n]");
    proof {
        assert(kept(all).len() > 0);
        assert(out@ =~= jar_json(kept(all)));
    }
    out
}

/// Reads a JSON string literal's body at `i` (just past the opening
/// quote) up to its closing quote: the escapes the writer emits are
/// accepted, a raw control character or an unknown escape is not.
pub open spec fn parse_str_body(text: Seq<char>, i: int) -> Option<(Seq<char>, int)>
    decreases text.len() - i,
    when 0 <= i <= text.len()
{
    if i >= text.len() {
        None
    } else if text[i] == '"' {
        Some((Seq::empty(), i + 1))
    } else if text[i] == '\\' {
        if i + 2 <= text.len() {
            let c = text[i + 1];
            if c == '"' || c == '\\' {
                match parse_str_body(text, i + 2) {
                    Some((s, k)) => Some((seq![c] + s, k)),
                    None => None,
                }
            } else if c == 'n' {
                match parse_str_body(text, i + 2) {
                    Some((s, k)) => Some((seq!['\n'] + s, k)),
                    None => None,
                }
            } else if c == 'r' {
                match parse_str_body(text, i + 2) {
                    Some((s, k)) => Some((seq!['\r'] + s, k)),
                    None => None,
                }
            } else if c == 't' {
                match parse_str_body(text, i + 2) {
                    Some((s, k)) => Some((seq!['\t'] + s, k)),
                    None => None,
                }
            } else if c == 'u' {
                if i + 6 <= text.len() && text[i + 2] == '0' && text[i + 3] == '0'
                    && crate::query::is_hex_digit_char(text[i + 4])
                    && crate::query::is_hex_digit_char(text[i + 5]) {
                    match parse_str_body(text, i + 6) {
                        Some((s, k)) => Some(
                            (
                                seq![
                                    (((crate::query::hex_val(text[i + 4]) * 16
                                        + crate::query::hex_val(text[i + 5])) as u8) as char)
                                ] + s,
                                k,
                            ),
                        ),
                        None => None,
                    }
                } else {
                    None
                }
            } else {
                None
            }
        } else {
            None
        }
    } else if (text[i] as u32) < 0x20 {
        None
    } else {
        match parse_str_body(text, i + 1) {
            Some((s, k)) => Some((seq![text[i]] + s, k)),
            None => None,
        }
    }
}

/// A parsed string body ends inside the text, past where it began.
proof fn lemma_parse_str_body_bounds(text: Seq<char>, i: int)
    requires
        0 <= i <= text.len(),
    ensures
        match parse_str_body(text, i) {
            Some((s, k)) => i < k <= text.len(),
            None => true,
        },
    decreases text.len() - i,
{
    if i < text.len() && text[i] != '"' {
        if text[i] == '\\' {
            if i + 2 <= text.len() {
                let c = text[i + 1];
                if c == 'u' {
                    if i + 6 <= text.len() {
                        lemma_parse_str_body_bounds(text, i + 6);
                    }
                } else {
                    lemma_parse_str_body_bounds(text, i + 2);
                }
            }
        } else if (text[i] as u32) >= 0x20 {
            lemma_parse_str_body_bounds(text, i + 1);
        }
    }
}

/// The two halves of a matched concatenation match on their own.
proof fn lemma_matches_split(text: Seq<char>, a: Seq<char>, b: Seq<char>, i: int)
    requires
        matches_at(text, a + b, i),
    ensures
        matches_at(text, a, i),
        matches_at(text, b, i + a.len()),
        forall|j: int| 0 <= j < a.len() ==> text[i + j] == a[j],
{
    assert forall|j: int| 0 <= j < a.len() implies text[i + j] == a[j] by {
        assert(text.subrange(i, i + (a + b).len() as int)[j] == (a + b)[j]);
    }
    assert(text.subrange(i, i + a.len() as int) =~= a);
    assert(text.subrange(i + a.len(), i + a.len() + b.len()) =~= b) by {
        assert forall|j: int| 0 <= j < b.len() implies text.subrange(
            i + a.len(),
            i + a.len() + b.len(),
        )[j] == b[j] by {
            assert(text.subrange(i, i + (a + b).len() as int)[a.len() + j] == (a + b)[a.len() + j]);
        }
    }
}

/// The writer's hex digits read back as their value.
proof fn lemma_hex_digit_val(d: nat)
    requires
        d < 16,
    ensures
        crate::query::is_hex_digit_char(hex_digit(d)),
        crate::query::hex_val(hex_digit(d)) == d,
{
}

/// Reading an escaped string followed by its closing quote gives the
/// original back, ending just past the quote.
proof fn lemma_parse_escaped(s: Seq<char>, text: Seq<char>, i: int)
    requires
        0 <= i <= text.len(),
        matches_at(text, escaped(s) + seq!['"'], i),
    ensures
        parse_str_body(text, i) == Some((s, i + escaped(s).len() + 1)),
    decreases s.len(),
{
    if s.len() == 0 {
        assert(escaped(s) + seq!['"'] =~= seq!['"']);
        assert(text.subrange(i, i + 1) == seq!['"']);
        assert(text[i] == text.subrange(i, i + 1)[0]);
    } else {
        let c = s[0];
        let ec = escape_char(c);
        assert(escaped(s) == ec + escaped(s.drop_first()));
        assert(escaped(s) + seq!['"'] =~= ec + (escaped(s.drop_first()) + seq!['"']));
        lemma_matches_split(text, ec, escaped(s.drop_first()) + seq!['"'], i);
        assert(i + ec.len() <= text.len());
        lemma_parse_escaped(s.drop_first(), text, i + ec.len());
        if c == '"' || c == '\\' {
            assert(text[i] == '\\' && text[i + 1] == c);
            assert(parse_str_body(text, i) == Some(
                (seq![c] + s.drop_first(), i + escaped(s).len() + 1),
            ));
            assert(seq![c] + s.drop_first() =~= s);
        } else if c == '\n' {
            assert(text[i] == '\\' && text[i + 1] == 'n');
            assert(seq![c] + s.drop_first() =~= s);
        } else if c == '\r' {
            assert(text[i] == '\\' && text[i + 1] == 'r');
            assert(seq![c] + s.drop_first() =~= s);
        } else if c == '\t' {
            assert(text[i] == '\\' && text[i + 1] == 't');
            assert(seq![c] + s.drop_first() =~= s);
        } else if (c as u32) < 0x20 {
            let u = c as u32;
            assert(text[i] == '\\' && text[i + 1] == 'u' && text[i + 2] == '0' && text[i + 3]
                == '0' && text[i + 4] == hex_digit((u / 16) as nat) && text[i + 5] == hex_digit(
                (u % 16) as nat,
            ));
            lemma_hex_digit_val((u / 16) as nat);
            lemma_hex_digit_val((u % 16) as nat);
            assert(crate::query::hex_val(text[i + 4]) * 16 + crate::query::hex_val(text[i + 5])
                == u);
            let b = u as u8;
            assert(b as u32 == u);
            assert(((b as char) as u32) == u);
            vstd::utf8::char_u32_cast(c, u);
            vstd::utf8::char_u32_cast(b as char, u);
            assert((((u) as u8) as char) == c);
            assert(seq![c] + s.drop_first() =~= s);
        } else {
            assert(ec =~= seq![c]);
            assert(ec[0] == c);
            assert(text[i + 0] == ec[0]);
            assert(text[i] == c);
            assert(text[i] != '"' && text[i] != '\\');
            assert(seq![c] + s.drop_first() =~= s);
        }
    }
}

/// Consumes one fixed piece of text, or fails.
pub open spec fn expect(text: Seq<char>, lit: Seq<char>, i: int) -> Option<int> {
    if matches_at(text, lit, i) {
        Some(i + lit.len())
    } else {
        None
    }
}

/// Reads `true` or `false`.
pub open spec fn parse_bool_at(text: Seq<char>, i: int) -> Option<(bool, int)> {
    if matches_at(text, "true"@, i) {
        Some((true, i + "true"@.len()))
    } else if matches_at(text, "false"@, i) {
        Some((false, i + "false"@.len()))
    } else {
        None
    }
}

/// Reads one record object exactly as the writer lays it out; whatever
/// stood in `expires` comes back absent.
pub open spec fn parse_record(text: Seq<char>, i: int) -> Option<(CookieRecordV, int)> {
    match expect(text, "  {\n    \"name\": \""@, i) {
        None => None,
        Some(i1) => match parse_str_body(text, i1) {
            None => None,
            Some((name, i2)) => match expect(text, ",\n    \"value\": \""@, i2) {
                None => None,
                Some(i3) => match parse_str_body(text, i3) {
                    None => None,
                    Some((value, i4)) => match expect(text, ",\n    \"domain\": \""@, i4) {
                        None => None,
                        Some(i5) => match parse_str_body(text, i5) {
                            None => None,
                            Some((domain, i6)) => match expect(text, ",\n    \"path\": \""@, i6) {
                                None => None,
                                Some(i7) => match parse_str_body(text, i7) {
                                    None => None,
                                    Some((path, i8)) => match expect(
                                        text,
                                        ",\n    \"expires\": null,\n    \"secure\": "@,
                                        i8,
                                    ) {
                                        None => None,
                                        Some(i9) => match parse_bool_at(text, i9) {
                                            None => None,
                                            Some((secure, i10)) => match expect(
                                                text,
                                                ",\n    \"http_only\": "@,
                                                i10,
                                            ) {
                                                None => None,
                                                Some(i11) => match parse_bool_at(text, i11) {
                                                    None => None,
                                                    Some((http_only, i12)) => match expect(
                                                        text,
                                                        "\n  }"@,
                                                        i12,
                                                    ) {
                                                        None => None,
                                                        Some(i13) => Some(
                                                            (
                                                                CookieRecordV {
                                                                    name,
                                                                    value,
                                                                    domain,
                                                                    path,
                                                                    expires: None,
                                                                    secure,
                                                                    http_only,
                                                                },
                                                                i13,
                                                            ),
                                                        ),
                                                    },
                                                },
                                            },
                                        },
                                    },
                                },
                            },
                        },
                    },
                },
            },
        },
    }
}

/// Reading back what the writer wrote for one record gives the record
/// with its expiry dropped, ending right after the object.
#[verifier::rlimit(100)]
#[verifier::spinoff_prover]
proof fn lemma_parse_record_json(r: CookieRecordV, text: Seq<char>, i: int)
    requires
        0 <= i <= text.len(),
        matches_at(text, record_json(r), i),
    ensures
        parse_record(text, i) == Some((persisted(r), i + record_json(r).len())),
{
    reveal_strlit("  {\n    \"name\": \"");
    reveal_strlit("\",\n    \"value\": \"");
    reveal_strlit(",\n    \"value\": \"");
    reveal_strlit("\",\n    \"domain\": \"");
    reveal_strlit(",\n    \"domain\": \"");
    reveal_strlit("\",\n    \"path\": \"");
    reveal_strlit(",\n    \"path\": \"");
    reveal_strlit("\",\n    \"expires\": null,\n    \"secure\": ");
    reveal_strlit(",\n    \"expires\": null,\n    \"secure\": ");
    reveal_strlit(",\n    \"http_only\": ");
    reveal_strlit("\n  }");
    reveal_strlit("true");
    reveal_strlit("false");
    let p1 = "  {\n    \"name\": \""@;
    let p2 = ",\n    \"value\": \""@;
    let p3 = ",\n    \"domain\": \""@;
    let p4 = ",\n    \"path\": \""@;
    let p5 = ",\n    \"expires\": null,\n    \"secure\": "@;
    let p6 = ",\n    \"http_only\": "@;
    let p7 = "\n  }"@;
    let bs: Seq<char> = if r.secure {
        "true"@
    } else {
        "false"@
    };
    let bh: Seq<char> = if r.http_only {
        "true"@
    } else {
        "false"@
    };
    let s1 = escaped(r.name) + seq!['"'];
    let s2 = escaped(r.value) + seq!['"'];
    let s3 = escaped(r.domain) + seq!['"'];
    let s4 = escaped(r.path) + seq!['"'];
    let tail2 = p2 + (s2 + (p3 + (s3 + (p4 + (s4 + (p5 + (bs + (p6 + (bh + p7)))))))));
    let tail1 = s1 + tail2;
    assert(record_json(r) =~= p1 + tail1);
    lemma_matches_split(text, p1, tail1, i);
    let i1 = i + p1.len();
    lemma_matches_split(text, s1, tail2, i1);
    lemma_parse_escaped(r.name, text, i1);
    let i2 = i1 + s1.len();
    let tail3 = s2 + (p3 + (s3 + (p4 + (s4 + (p5 + (bs + (p6 + (bh + p7))))))));
    lemma_matches_split(text, p2, tail3, i2);
    let i3 = i2 + p2.len();
    let tail4 = p3 + (s3 + (p4 + (s4 + (p5 + (bs + (p6 + (bh + p7)))))));
    lemma_matches_split(text, s2, tail4, i3);
    lemma_parse_escaped(r.value, text, i3);
    let i4 = i3 + s2.len();
    let tail5 = s3 + (p4 + (s4 + (p5 + (bs + (p6 + (bh + p7))))));
    lemma_matches_split(text, p3, tail5, i4);
    let i5 = i4 + p3.len();
    let tail6 = p4 + (s4 + (p5 + (bs + (p6 + (bh + p7)))));
    lemma_matches_split(text, s3, tail6, i5);
    lemma_parse_escaped(r.domain, text, i5);
    let i6 = i5 + s3.len();
    let tail7 = s4 + (p5 + (bs + (p6 + (bh + p7))));
    lemma_matches_split(text, p4, tail7, i6);
    let i7 = i6 + p4.len();
    let tail8 = p5 + (bs + (p6 + (bh + p7)));
    lemma_matches_split(text, s4, tail8, i7);
    lemma_parse_escaped(r.path, text, i7);
    let i8 = i7 + s4.len();
    let tail9 = bs + (p6 + (bh + p7));
    lemma_matches_split(text, p5, tail9, i8);
    let i9 = i8 + p5.len();
    let tail10 = p6 + (bh + p7);
    lemma_matches_split(text, bs, tail10, i9);
    if !r.secure {
        assert(!matches_at(text, "true"@, i9)) by {
            if matches_at(text, "true"@, i9) {
                assert(text.subrange(i9, i9 + 4)[0] == 't');
                assert(text[i9] == 'f');
            }
        }
    }
    let i10 = i9 + bs.len();
    let tail11 = bh + p7;
    lemma_matches_split(text, p6, tail11, i10);
    let i11 = i10 + p6.len();
    lemma_matches_split(text, bh, p7, i11);
    if !r.http_only {
        assert(!matches_at(text, "true"@, i11)) by {
            if matches_at(text, "true"@, i11) {
                assert(text.subrange(i11, i11 + 4)[0] == 't');
                assert(text[i11] == 'f');
            }
        }
    }
    let i12 = i11 + bh.len();
    assert(parse_record(text, i) == Some((persisted(r), i12 + p7.len())));
    assert(i12 + p7.len() == i + record_json(r).len());
}

/// A parsed record ends inside the text, past where it began.
proof fn lemma_parse_record_bounds(text: Seq<char>, i: int)
    requires
        0 <= i <= text.len(),
    ensures
        match parse_record(text, i) {
            Some((r, k)) => i < k <= text.len(),
            None => true,
        },
{
    reveal_strlit("  {\n    \"name\": \"");
    if parse_record(text, i) is Some {
        let i1 = i + "  {\n    \"name\": \""@.len();
        lemma_parse_str_body_bounds(text, i1);
        let (name, i2) = parse_str_body(text, i1)->Some_0;
        let i3 = i2 + ",\n    \"value\": \""@.len();
        lemma_parse_str_body_bounds(text, i3);
        let (value, i4) = parse_str_body(text, i3)->Some_0;
        let i5 = i4 + ",\n    \"domain\": \""@.len();
        lemma_parse_str_body_bounds(text, i5);
        let (domain, i6) = parse_str_body(text, i5)->Some_0;
        let i7 = i6 + ",\n    \"path\": \""@.len();
        lemma_parse_str_body_bounds(text, i7);
    }
}

/// Reads the records of a non-empty array: objects separated by a comma
/// and line break.
pub open spec fn parse_records(text: Seq<char>, i: int) -> Option<(Seq<CookieRecordV>, int)>
    decreases text.len() - i,
    when 0 <= i <= text.len()
    via parse_records_dec
{
    match parse_record(text, i) {
        None => None,
        Some((r, j)) => {
            if matches_at(text, ",\n"@, j) && j + 2 <= text.len() {
                match parse_records(text, j + 2) {
                    Some((rs, k)) => Some((seq![r] + rs, k)),
                    None => None,
                }
            } else {
                Some((seq![r], j))
            }
        },
    }
}

#[via_fn]
proof fn parse_records_dec(text: Seq<char>, i: int) {
    if 0 <= i <= text.len() {
        lemma_parse_record_bounds(text, i);
    }
}

/// A split of the record list off its front, matching the reader's order.
#[verifier::rlimit(100)]
#[verifier::spinoff_prover]
proof fn lemma_records_json_front(rs: Seq<CookieRecordV>)
    requires
        rs.len() >= 1,
    ensures
        rs.len() == 1 ==> records_json(rs) == record_json(rs[0]),
        rs.len() > 1 ==> records_json(rs) == record_json(rs[0]) + ",\n"@ + records_json(
            rs.drop_first(),
        ),
    decreases rs.len(),
{
    if rs.len() == 2 {
        assert(rs.drop_last() =~= seq![rs[0]]);
        assert(rs.drop_first() =~= seq![rs[1]]);
        assert(rs.drop_first()[0] == rs[1]);
        assert(records_json(rs) == records_json(rs.drop_last()) + ",\n"@ + record_json(rs.last()));
        assert(records_json(seq![rs[0]]) == record_json(seq![rs[0]][0]));
        assert(seq![rs[0]][0] == rs[0]);
        assert(records_json(rs.drop_first()) == record_json(rs[1]));
    } else if rs.len() > 2 {
        lemma_records_json_front(rs.drop_last());
        assert(rs.drop_last()[0] == rs[0]);
        assert(rs.drop_last().drop_first() =~= rs.drop_first().drop_last());
        assert(rs.drop_first().last() == rs.last());
        assert(rs.drop_first().len() > 1);
        assert(records_json(rs) == records_json(rs.drop_last()) + ",\n"@ + record_json(rs.last()));
        assert(records_json(rs.drop_last()) == record_json(rs[0]) + ",\n"@ + records_json(
            rs.drop_last().drop_first(),
        ));
        assert(records_json(rs.drop_first()) == records_json(rs.drop_first().drop_last()) + ",\n"@
            + record_json(rs.drop_first().last()));
        assert(records_json(rs) =~= record_json(rs[0]) + ",\n"@ + records_json(rs.drop_first()));
    }
}

/// The records as written and then read: each comes back with its expiry
/// dropped, and the reader stops right before the closing bracket.
#[verifier::rlimit(100)]
#[verifier::spinoff_prover]
proof fn lemma_parse_records_json(rs: Seq<CookieRecordV>, text: Seq<char>, i: int)
    requires
        0 <= i <= text.len(),
        rs.len() >= 1,
        matches_at(text, records_json(rs) + "\n]"@, i),
    ensures
        parse_records(text, i) == Some(
            (rs.map_values(|r: CookieRecordV| persisted(r)), i + records_json(rs).len()),
        ),
    decreases rs.len(),
{
    reveal_strlit("\n]");
    reveal_strlit(",\n");
    lemma_records_json_front(rs);
    if rs.len() == 1 {
        lemma_matches_split(text, record_json(rs[0]), "\n]"@, i);
        lemma_parse_record_json(rs[0], text, i);
        let j = i + record_json(rs[0]).len();
        assert(!matches_at(text, ",\n"@, j)) by {
            if matches_at(text, ",\n"@, j) {
                assert(text.subrange(j, j + 2)[0] == ',');
                assert(text[j] == '\n');
            }
        }
        assert(seq![persisted(rs[0])] =~= rs.map_values(|r: CookieRecordV| persisted(r)));
    } else {
        let rest = rs.drop_first();
        assert(records_json(rs) + "\n]"@ =~= record_json(rs[0]) + (",\n"@ + (records_json(rest)
            + "\n]"@)));
        lemma_matches_split(text, record_json(rs[0]), ",\n"@ + (records_json(rest) + "\n]"@), i);
        lemma_parse_record_json(rs[0], text, i);
        let j = i + record_json(rs[0]).len();
        lemma_matches_split(text, ",\n"@, records_json(rest) + "\n]"@, j);
        lemma_parse_records_json(rest, text, j + 2);
        assert(seq![persisted(rs[0])] + rest.map_values(|r: CookieRecordV| persisted(r)) =~=
        rs.map_values(|r: CookieRecordV| persisted(r)));
    }
}

/// Reads a whole cookie file: the empty array, or a bracketed list of
/// records filling the file exactly. Anything else is no cookie file.
pub open spec fn parse_jar(text: Seq<char>) -> Option<Seq<CookieRecordV>> {
    if text == "[]"@ {
        Some(seq![])
    } else if matches_at(text, "[\n"@, 0) {
        match parse_records(text, "[\n"@.len() as int) {
            Some((rs, j)) => {
                if matches_at(text, "\n]"@, j) && j + "\n]"@.len() == text.len() {
                    Some(rs)
                } else {
                    None
                }
            },
            None => None,
        }
    } else {
        None
    }
}

/// Saving any records and loading the result preserves name, value,
/// domain, path and the two flags of every record with a non-empty
/// domain, drops records with an empty domain, and never preserves an
/// expiry: the save-then-load round trip, stated over the file text.
pub proof fn lemma_cookie_round_trip(rs: Seq<CookieRecordV>)
    ensures
        parse_jar(jar_json(kept(rs))) == Some(
            kept(rs).map_values(|r: CookieRecordV| persisted(r)),
        ),
{
    reveal_strlit("[]");
    reveal_strlit("[\n");
    reveal_strlit("\n]");
    let ks = kept(rs);
    let text = jar_json(ks);
    if ks.len() == 0 {
        assert(text == "[]"@);
        assert(ks.map_values(|r: CookieRecordV| persisted(r)) =~= Seq::<CookieRecordV>::empty());
    } else {
        assert(text =~= "[\n"@ + (records_json(ks) + "\n]"@));
        assert(text != "[]"@) by {
            if text == "[]"@ {
                assert(text.len() == 2);
                assert(text[1] == ']');
                assert(text[1] == ("[\n"@ + (records_json(ks) + "\n]"@))[1]);
                assert(("[\n"@)[1] == '\n');
            }
        }
        assert(matches_at(text, "[\n"@ + (records_json(ks) + "\n]"@), 0)) by {
            assert(text.subrange(0, ("[\n"@ + (records_json(ks) + "\n]"@)).len() as int) =~= "[\n"@
                + (records_json(ks) + "\n]"@));
        }
        lemma_matches_split(text, "[\n"@, records_json(ks) + "\n]"@, 0);
        lemma_parse_records_json(ks, text, 2);
        let j: int = 2 + records_json(ks).len() as int;
        assert(matches_at(text, "\n]"@, j)) by {
            assert(text.subrange(j, j + 2) =~= "\n]"@);
        }
        assert(j + 2 == text.len());
    }
}

/// Reads a string literal's body, mirroring its specification.
fn parse_string_body_exec(text: &str, n: usize, i: usize) -> (r: Option<(String, usize)>)
    requires
        n == text@.len(),
        i <= n,
    ensures
        match parse_str_body(text@, i as int) {
            Some((s, k)) => r matches Some(p) && p.0@ == s && p.1 == k,
            None => r is None,
        },
{
    let mut acc = String::new();
    let mut pos = i;
    proof {
        assert(Seq::<char>::empty() + Seq::<char>::empty() =~= Seq::<char>::empty());
    }
    while pos < n
        invariant
            i <= pos <= n,
            n == text@.len(),
            parse_str_body(text@, i as int) == (match parse_str_body(text@, pos as int) {
                Some((s, k)) => Some((acc@ + s, k)),
                None => None::<(Seq<char>, int)>,
            }),
        decreases n - pos,
    {
        let c = text.get_char(pos);
        if c == '"' {
            proof {
                assert(acc@ + Seq::<char>::empty() =~= acc@);
            }
            return Some((acc, pos + 1));
        } else if c == '\\' {
            if n - pos < 2 {
                return None;
            }
            let c2 = text.get_char(pos + 1);
            if c2 == '"' || c2 == '\\' {
                let ghost a0 = acc@;
                push_char(&mut acc, c2);
                proof {
                    if parse_str_body(text@, pos + 2) is Some {
                        lemma_snoc_assoc(a0, c2, parse_str_body(text@, pos + 2)->Some_0.0);
                    }
                }
                pos = pos + 2;
            } else if c2 == 'n' {
                let ghost a0 = acc@;
                push_char(&mut acc, '\n');
                proof {
                    if parse_str_body(text@, pos + 2) is Some {
                        lemma_snoc_assoc(a0, '\n', parse_str_body(text@, pos + 2)->Some_0.0);
                    }
                }
                pos = pos + 2;
            } else if c2 == 'r' {
                let ghost a0 = acc@;
                push_char(&mut acc, '\r');
                proof {
                    if parse_str_body(text@, pos + 2) is Some {
                        lemma_snoc_assoc(a0, '\r', parse_str_body(text@, pos + 2)->Some_0.0);
                    }
                }
                pos = pos + 2;
            } else if c2 == 't' {
                let ghost a0 = acc@;
                push_char(&mut acc, '\t');
                proof {
                    if parse_str_body(text@, pos + 2) is Some {
                        lemma_snoc_assoc(a0, '\t', parse_str_body(text@, pos + 2)->Some_0.0);
                    }
                }
                pos = pos + 2;
            } else if c2 == 'u' {
                if n - pos < 6 {
                    return None;
                }
                if !(text.get_char(pos + 2) == '0' && text.get_char(pos + 3) == '0') {
                    return None;
                }
                let h1 = text.get_char(pos + 4);
                let h2 = text.get_char(pos + 5);
                let u1 = h1 as u32;
                let u2 = h2 as u32;
                let ok1 = (48 <= u1 && u1 <= 57) || (65 <= u1 && u1 <= 70) || (97 <= u1 && u1
                    <= 102);
                let ok2 = (48 <= u2 && u2 <= 57) || (65 <= u2 && u2 <= 70) || (97 <= u2 && u2
                    <= 102);
                if !(ok1 && ok2) {
                    return None;
                }
                let v1: u8 = if 48 <= u1 && u1 <= 57 {
                    (u1 - 48) as u8
                } else if 65 <= u1 && u1 <= 70 {
                    (u1 - 55) as u8
                } else {
                    (u1 - 87) as u8
                };
                let v2: u8 = if 48 <= u2 && u2 <= 57 {
                    (u2 - 48) as u8
                } else if 65 <= u2 && u2 <= 70 {
                    (u2 - 55) as u8
                } else {
                    (u2 - 87) as u8
                };
                let c3 = (v1 * 16 + v2) as char;
                proof {
                    assert(v1 == crate::query::hex_val(h1));
                    assert(v2 == crate::query::hex_val(h2));
                }
                let ghost a0 = acc@;
                push_char(&mut acc, c3);
                proof {
                    if parse_str_body(text@, pos + 6) is Some {
                        lemma_snoc_assoc(a0, c3, parse_str_body(text@, pos + 6)->Some_0.0);
                    }
                }
                pos = pos + 6;
            } else {
                return None;
            }
        } else if (c as u32) < 0x20 {
            return None;
        } else {
            let ghost a0 = acc@;
                push_char(&mut acc, c);
                proof {
                    if parse_str_body(text@, pos + 1) is Some {
                        lemma_snoc_assoc(a0, c, parse_str_body(text@, pos + 1)->Some_0.0);
                    }
                }
            pos = pos + 1;
        }
    }
    None
}

/// Appending one character and then a tail is appending the character
/// followed by the tail.
proof fn lemma_snoc_assoc(a: Seq<char>, c: char, s: Seq<char>)
    ensures
        (a + seq![c]) + s =~= a + (seq![c] + s),
{
}

/// Reads one record, mirroring its specification.
fn parse_record_exec(text: &str, n: usize, i: usize) -> (r: Option<(CookieRecord, usize)>)
    requires
        n == text@.len(),
        i <= n,
    ensures
        match parse_record(text@, i as int) {
            Some((rv, k)) => r matches Some(p) && p.0@ == rv && p.1 == k,
            None => r is None,
        },
{
    let i1 = match expect_lit(text, n, i, "  {\n    \"name\": \"") {
        Some(j) => j,
        None => {
            return None;
        },
    };
    proof {
        lemma_parse_str_body_bounds(text@, i1 as int);
    }
    let (name, i2) = match parse_string_body_exec(text, n, i1) {
        Some(p) => p,
        None => {
            return None;
        },
    };
    let i3 = match expect_lit(text, n, i2, ",\n    \"value\": \"") {
        Some(j) => j,
        None => {
            return None;
        },
    };
    proof {
        lemma_parse_str_body_bounds(text@, i3 as int);
    }
    let (value, i4) = match parse_string_body_exec(text, n, i3) {
        Some(p) => p,
        None => {
            return None;
        },
    };
    let i5 = match expect_lit(text, n, i4, ",\n    \"domain\": \"") {
        Some(j) => j,
        None => {
            return None;
        },
    };
    proof {
        lemma_parse_str_body_bounds(text@, i5 as int);
    }
    let (domain, i6) = match parse_string_body_exec(text, n, i5) {
        Some(p) => p,
        None => {
            return None;
        },
    };
    let i7 = match expect_lit(text, n, i6, ",\n    \"path\": \"") {
        Some(j) => j,
        None => {
            return None;
        },
    };
    proof {
        lemma_parse_str_body_bounds(text@, i7 as int);
    }
    let (path, i8) = match parse_string_body_exec(text, n, i7) {
        Some(p) => p,
        None => {
            return None;
        },
    };
    let i9 = match expect_lit(text, n, i8, ",\n    \"expires\": null,\n    \"secure\": ") {
        Some(j) => j,
        None => {
            return None;
        },
    };
    let (secure, i10) = match parse_bool_exec(text, n, i9) {
        Some(p) => p,
        None => {
            return None;
        },
    };
    let i11 = match expect_lit(text, n, i10, ",\n    \"http_only\": ") {
        Some(j) => j,
        None => {
            return None;
        },
    };
    let (http_only, i12) = match parse_bool_exec(text, n, i11) {
        Some(p) => p,
        None => {
            return None;
        },
    };
    let i13 = match expect_lit(text, n, i12, "\n  }") {
        Some(j) => j,
        None => {
            return None;
        },
    };
    Some((CookieRecord { name, value, domain, path, expires: None, secure, http_only }, i13))
}

/// Consumes one fixed piece of text.
fn expect_lit(text: &str, n: usize, i: usize, lit: &str) -> (r: Option<usize>)
    requires
        n == text@.len(),
        i <= n,
    ensures
        match expect(text@, lit@, i as int) {
            Some(k) => r matches Some(j) && j == k,
            None => r is None,
        },
{
    if str_matches_at(text, i, lit) {
        Some(i + lit.unicode_len())
    } else {
        None
    }
}

/// Reads `true` or `false`.
fn parse_bool_exec(text: &str, n: usize, i: usize) -> (r: Option<(bool, usize)>)
    requires
        n == text@.len(),
        i <= n,
    ensures
        match parse_bool_at(text@, i as int) {
            Some((b, k)) => r matches Some(p) && p.0 == b && p.1 == k,
            None => r is None,
        },
{
    proof {
        reveal_strlit("true");
        reveal_strlit("false");
    }
    if str_matches_at(text, i, "true") {
        Some((true, i + 4))
    } else if str_matches_at(text, i, "false") {
        Some((false, i + 5))
    } else {
        None
    }
}

/// Reads a whole cookie file into records, mirroring the strict grammar.
fn parse_jar_exec(text: &str) -> (r: Option<Vec<CookieRecord>>)
    ensures
        match parse_jar(text@) {
            Some(rs) => r matches Some(v) && jar_view(v@) == rs,
            None => r is None,
        },
{
    proof {
        reveal_strlit("[]");
        reveal_strlit("[\n");
        reveal_strlit("\n]");
        reveal_strlit(",\n");
        reveal_strlit("  {\n    \"name\": \"");
    }
    let n = text.unicode_len();
    if crate::strutil::str_eq(text, "[]") {
        let out: Vec<CookieRecord> = Vec::new();
        proof {
            assert(jar_view(out@) =~= Seq::<CookieRecordV>::empty());
        }
        return Some(out);
    }
    if !str_matches_at(text, 0, "[\n") {
        return None;
    }
    let mut out: Vec<CookieRecord> = Vec::new();
    let mut pos: usize = 2;
    proof {
        assert(jar_view(out@) =~= Seq::<CookieRecordV>::empty());
    }
    while pos < n
        invariant
            2 <= pos <= n,
            n == text@.len(),
            text@ != "[]"@,
            matches_at(text@, "[\n"@, 0),
            parse_records(text@, 2) == (match parse_records(text@, pos as int) {
                Some((rs, k)) => Some((jar_view(out@) + rs, k)),
                None => None::<(Seq<CookieRecordV>, int)>,
            }),
        decreases n - pos,
    {
        proof {
            reveal_strlit("[]");
            reveal_strlit("[\n");
            reveal_strlit("\n]");
        }
        proof {
            lemma_parse_record_bounds(text@, pos as int);
        }
        match parse_record_exec(text, n, pos) {
            None => {
                return None;
            },
            Some((rec, j)) => {
                let ghost rv = rec@;
                proof {
                    assert(jar_view(out@.push(rec)) =~= jar_view(out@) + seq![rv]);
                }
                out.push(rec);
                proof {
                    reveal_strlit(",\n");
                }
                if j < n && str_matches_at(text, j, ",\n") {
                    proof {
                        let rest = parse_records(text@, j + 2);
                        if rest is Some {
                            let (rs2, k2) = rest->Some_0;
                            assert((jar_view(out@).drop_last() + (seq![rv] + rs2)) =~= (jar_view(
                                out@,
                            ) + rs2));
                        }
                    }
                    pos = j + 2;
                } else {
                    proof {
                        assert(parse_records(text@, pos as int) == Some(
                            (seq![rv], j as int),
                        )) by {
                            if matches_at(text@, ",\n"@, j as int) && j + 2 <= text@.len() {
                                assert(j < n);
                            }
                        }
                        assert(jar_view(out@).drop_last() + seq![rv] =~= jar_view(out@));
                    }
                    if str_matches_at(text, j, "\n]") && n - j == 2 {
                        return Some(out);
                    }
                    return None;
                }
            },
        }
    }
    proof {
        reveal_strlit("  {\n    \"name\": \"");
        assert(expect(text@, "  {\n    \"name\": \""@, pos as int) is None);
    }
    None
}

/// Reads the persisted cookie file back into records: the strict JSON
/// array the saver writes, with records lacking a domain skipped; text
/// that is no cookie file gives the empty jar rather than an error.
pub fn load_cookies(text: &str) -> (r: Vec<CookieRecord>)
    ensures
        match parse_jar(text@) {
            None => r@.len() == 0,
            Some(rs) => jar_view(r@) == kept(rs),
        },
{
    let mut v = match parse_jar_exec(text) {
        None => {
            return Vec::new();
        },
        Some(v) => v,
    };
    let ghost rs0 = jar_view(v@);
    let mut out: Vec<CookieRecord> = Vec::new();
    proof {
        reveal_with_fuel(Seq::filter, 1);
        assert(jar_view(out@) + kept(jar_view(v@)) =~= kept(rs0));
    }
    while v.len() > 0
        invariant
            kept(rs0) == jar_view(out@) + kept(jar_view(v@)),
        decreases v@.len(),
    {
        let ghost vv = jar_view(v@);
        let rec = v.remove(0);
        proof {
            reveal_with_fuel(Seq::filter, 2);
            assert(vv =~= seq![rec@] + jar_view(v@));
            Seq::filter_distributes_over_add(seq![rec@], jar_view(v@), has_domain());
            assert(kept(vv) == kept(seq![rec@]) + kept(jar_view(v@)));
            assert(seq![rec@].drop_last() =~= Seq::<CookieRecordV>::empty());
        }
        let keep = rec.domain.as_str().unicode_len() > 0;
        if keep {
            let ghost outv = jar_view(out@);
            proof {
                assert(kept(seq![rec@]) =~= seq![rec@]);
            }
            out.push(rec);
            proof {
                assert(jar_view(out@) =~= outv + seq![rec@]);
                assert((outv + seq![rec@]) + kept(jar_view(v@)) =~= outv + (seq![rec@] + kept(
                    jar_view(v@),
                )));
                assert(kept(rs0) =~= jar_view(out@) + kept(jar_view(v@)));
            }
        } else {
            proof {
                assert(kept(seq![rec@]) =~= Seq::<CookieRecordV>::empty());
                assert(kept(rs0) =~= jar_view(out@) + kept(jar_view(v@)));
            }
        }
    }
    proof {
        assert(jar_view(v@) =~= Seq::<CookieRecordV>::empty());
        reveal_with_fuel(Seq::filter, 1);
        assert(kept(jar_view(v@)) =~= Seq::<CookieRecordV>::empty());
        assert(jar_view(out@) =~= kept(rs0));
    }
    out
}

/// The cookie-set string a loaded record is re-attached with: name and
/// value, the domain and path directives, and the two flags when set; no
/// expiry directive, so the cookie is session-scoped.
pub open spec fn set_cookie_spec(r: CookieRecordV) -> Seq<char> {
    r.name + "="@ + r.value + "; Domain="@ + r.domain + "; Path="@ + r.path + (if r.secure {
        "; Secure"@
    } else {
        Seq::empty()
    }) + (if r.http_only {
        "; HttpOnly"@
    } else {
        Seq::empty()
    })
}

/// Builds the cookie-set string for one record.
pub fn build_set_cookie_string(r: &CookieRecord) -> (s: String)
    ensures
        s@ == set_cookie_spec(r@),
{
    let mut out = String::new();
    out.append(r.name.as_str());
    out.append("=");
    out.append(r.value.as_str());
    out.append("; Domain=");
    out.append(r.domain.as_str());
    out.append("; Path=");
    out.append(r.path.as_str());
    if r.secure {
        out.append("; Secure");
    }
    if r.http_only {
        out.append("; HttpOnly");
    }
    proof {
        assert(out@ =~= set_cookie_spec(r@));
    }
    out
}

} // verus!
