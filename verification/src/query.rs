//! URL query strings: percent encoding and decoding, and extraction of
//! `key=value` pairs from a URL's query part.
use vstd::prelude::*;

use crate::strutil::{find_char_from, first_idx, push_char};
use vstd::string::StrSliceExecFns;
use vstd::utf8::encode_scalar;

verus! {

/// True for the characters the percent encoder passes through unchanged:
/// ASCII letters, digits, `-`, `.`, `_` and `~`.
pub open spec fn is_unreserved_char(c: char) -> bool {
    ||| (65 <= c as u32 && c as u32 <= 90)
    ||| (97 <= c as u32 && c as u32 <= 122)
    ||| (48 <= c as u32 && c as u32 <= 57)
    ||| c as u32 == 45
    ||| c as u32 == 46
    ||| c as u32 == 95
    ||| c as u32 == 126
}

/// The upper-case hex digit for a value below sixteen.
pub open spec fn hex_digit_upper(d: nat) -> char {
    if d < 10 {
        ((48 + d) as u8) as char
    } else {
        ((55 + d) as u8) as char
    }
}

/// The three-character escape `%HH` of one byte, upper-case hex.
pub open spec fn percent_byte(b: u8) -> Seq<char> {
    seq!['%', hex_digit_upper(b as nat / 16), hex_digit_upper(b as nat % 16)]
}

/// Each byte written as its `%HH` escape.
pub open spec fn percent_bytes(bs: Seq<u8>) -> Seq<char>
    decreases bs.len(),
{
    if bs.len() == 0 {
        Seq::empty()
    } else {
        percent_bytes(bs.drop_last()) + percent_byte(bs.last())
    }
}

/// An unreserved character stands for itself; any other is written as the
/// `%HH` escapes of its UTF-8 bytes.
pub open spec fn percent_encode_char(c: char) -> Seq<char> {
    if is_unreserved_char(c) {
        seq![c]
    } else {
        percent_bytes(encode_scalar(c as u32))
    }
}

/// The percent encoding of a whole string, character by character.
pub open spec fn percent_encoded(s: Seq<char>) -> Seq<char>
    decreases s.len(),
{
    if s.len() == 0 {
        Seq::empty()
    } else {
        percent_encoded(s.drop_last()) + percent_encode_char(s.last())
    }
}

/// Writes the upper-case hex digit of a value below sixteen.
fn hex_upper(d: u8) -> (r: char)
    requires
        d < 16,
    ensures
        r == hex_digit_upper(d as nat),
{
    if d < 10 {
        (48 + d) as char
    } else {
        (55 + d) as char
    }
}

/// The UTF-8 bytes of one character.
fn char_utf8_bytes(c: char) -> (r: Vec<u8>)
    ensures
        r@ == encode_scalar(c as u32),
{
    let u = c as u32;
    let mut r: Vec<u8> = Vec::new();
    if u <= 0x7F {
        r.push((u & 0x7F) as u8);
        assert(r@ =~= encode_scalar(c as u32));
    } else if u <= 0x7FF {
        r.push(0xC0 | (((u >> 6) & 0x1F) as u8));
        r.push(0x80 | ((u & 0x3F) as u8));
        assert(r@ =~= encode_scalar(c as u32));
    } else if u <= 0xFFFF {
        r.push(0xE0 | (((u >> 12) & 0x0F) as u8));
        r.push(0x80 | (((u >> 6) & 0x3F) as u8));
        r.push(0x80 | ((u & 0x3F) as u8));
        assert(r@ =~= encode_scalar(c as u32));
    } else {
        r.push(0xF0 | (((u >> 18) & 0x7) as u8));
        r.push(0x80 | (((u >> 12) & 0x3F) as u8));
        r.push(0x80 | (((u >> 6) & 0x3F) as u8));
        r.push(0x80 | ((u & 0x3F) as u8));
        assert(r@ =~= encode_scalar(c as u32));
    }
    r
}

/// Percent-encodes a string: unreserved characters pass through, every
/// other character becomes the `%HH` escapes of its UTF-8 bytes.
pub fn percent_encode(s: &str) -> (r: String)
    ensures
        r@ == percent_encoded(s@),
{
    let n = s.unicode_len();
    let mut r = String::new();
    let mut i: usize = 0;
    proof {
        assert(s@.take(0) =~= Seq::<char>::empty());
    }
    while i < n
        invariant
            i <= n,
            n == s@.len(),
            r@ == percent_encoded(s@.take(i as int)),
        decreases n - i,
    {
        let c = s.get_char(i);
        if is_unreserved(c) {
            push_char(&mut r, c);
        } else {
            let bytes = char_utf8_bytes(c);
            let mut k: usize = 0;
            while k < bytes.len()
                invariant
                    k <= bytes@.len(),
                    r@ == percent_encoded(s@.take(i as int)) + percent_bytes(bytes@.take(k as int)),
                decreases bytes@.len() - k,
            {
                let b = bytes[k];
                push_char(&mut r, '%');
                push_char(&mut r, hex_upper(b / 16));
                push_char(&mut r, hex_upper(b % 16));
                proof {
                    assert(bytes@.take(k + 1).drop_last() =~= bytes@.take(k as int));
                    assert(bytes@.take(k + 1).last() == b);
                    assert(r@ =~= percent_encoded(s@.take(i as int)) + percent_bytes(
                        bytes@.take(k + 1),
                    ));
                }
                k = k + 1;
            }
            proof {
                assert(bytes@.take(bytes@.len() as int) =~= bytes@);
            }
        }
        proof {
            assert(s@.take(i + 1).drop_last() =~= s@.take(i as int));
            assert(s@.take(i + 1).last() == s@[i as int]);
            assert(r@ =~= percent_encoded(s@.take(i + 1)));
        }
        i = i + 1;
    }
    proof {
        assert(s@.take(n as int) =~= s@);
    }
    r
}

/// Tests a character for being passed through unchanged by the encoder.
fn is_unreserved(c: char) -> (r: bool)
    ensures
        r == is_unreserved_char(c),
{
    let u = c as u32;
    (65 <= u && u <= 90) || (97 <= u && u <= 122) || (48 <= u && u <= 57) || u == 45 || u == 46
        || u == 95 || u == 126
}

/// True for the hex digits of either case.
pub open spec fn is_hex_digit_char(c: char) -> bool {
    ||| (48 <= c as u32 && c as u32 <= 57)
    ||| (65 <= c as u32 && c as u32 <= 70)
    ||| (97 <= c as u32 && c as u32 <= 102)
}

/// The value of one hex digit of either case.
pub open spec fn hex_val(c: char) -> nat {
    if 48 <= c as u32 && c as u32 <= 57 {
        (c as u32 - 48) as nat
    } else if 65 <= c as u32 && c as u32 <= 70 {
        (c as u32 - 55) as nat
    } else {
        (c as u32 - 87) as nat
    }
}

/// The decoding of a query component: `+` stands for a space and `%HH`
/// for the character with code `HH`; a malformed escape stands for itself.
pub open spec fn percent_decoded(s: Seq<char>) -> Seq<char>
    decreases s.len(),
{
    if s.len() == 0 {
        Seq::empty()
    } else if s[0] == '+' {
        seq![' '] + percent_decoded(s.drop_first())
    } else if s[0] == '%' && s.len() >= 3 && is_hex_digit_char(s[1]) && is_hex_digit_char(s[2]) {
        seq![(((hex_val(s[1]) * 16 + hex_val(s[2])) as u8) as char)] + percent_decoded(s.skip(3))
    } else {
        seq![s[0]] + percent_decoded(s.drop_first())
    }
}

/// Tests a character for being a hex digit of either case.
fn is_hex_digit(c: char) -> (r: bool)
    ensures
        r == is_hex_digit_char(c),
{
    let u = c as u32;
    (48 <= u && u <= 57) || (65 <= u && u <= 70) || (97 <= u && u <= 102)
}

/// Decodes a query component: `+` becomes a space, `%HH` the character
/// with code `HH`; a malformed escape is kept as it stands.
pub fn percent_decode(s: &str) -> (r: String)
    ensures
        r@ == percent_decoded(s@),
{
    let n = s.unicode_len();
    let mut r = String::new();
    let mut i: usize = 0;
    proof {
        assert(s@.skip(0) =~= s@);
        assert(Seq::<char>::empty() + percent_decoded(s@) =~= percent_decoded(s@));
    }
    while i < n
        invariant
            i <= n,
            n == s@.len(),
            percent_decoded(s@) == r@ + percent_decoded(s@.skip(i as int)),
        decreases n - i,
    {
        let c = s.get_char(i);
        proof {
            assert(s@.skip(i as int)[0] == s@[i as int]);
        }
        if c == '+' {
            push_char(&mut r, ' ');
            proof {
                assert(s@.skip(i as int).drop_first() =~= s@.skip(i + 1));
            }
            i = i + 1;
        } else if c == '%' && n - i >= 3 && is_hex_digit(s.get_char(i + 1)) && is_hex_digit(
            s.get_char(i + 2),
        ) {
            proof {
                assert(s@.skip(i as int)[1] == s@[i + 1]);
                assert(s@.skip(i as int)[2] == s@[i + 2]);
                assert(s@.skip(i as int).skip(3) =~= s@.skip(i + 3));
            }
            let h1 = hex_value(s.get_char(i + 1));
            let h2 = hex_value(s.get_char(i + 2));
            push_char(&mut r, (h1 * 16 + h2) as char);
            i = i + 3;
        } else {
            push_char(&mut r, c);
            proof {
                assert(s@.skip(i as int).drop_first() =~= s@.skip(i + 1));
            }
            i = i + 1;
        }
    }
    proof {
        assert(s@.skip(n as int) =~= Seq::<char>::empty());
    }
    r
}

/// Reads the value of one hex digit of either case.
fn hex_value(c: char) -> (r: u8)
    requires
        is_hex_digit_char(c),
    ensures
        r == hex_val(c),
        r < 16,
{
    let u = c as u32;
    if 48 <= u && u <= 57 {
        (u - 48) as u8
    } else if 65 <= u && u <= 70 {
        (u - 55) as u8
    } else {
        (u - 87) as u8
    }
}

/// The query part of a URL: everything after the first `?`, up to the
/// first `#` that follows it; empty when the URL has no `?`.
pub open spec fn url_query(url: Seq<char>) -> Seq<char> {
    let q = first_idx(url, '?', 0);
    if q < url.len() {
        url.subrange(q + 1, first_idx(url, '#', q + 1))
    } else {
        Seq::empty()
    }
}

/// One `key=value` piece, decoded: the key is everything before the first
/// `=`, the value everything after it (empty when there is no `=`).
pub open spec fn decoded_pair(piece: Seq<char>) -> (Seq<char>, Seq<char>) {
    let eq = first_idx(piece, '=', 0);
    if eq < piece.len() {
        (percent_decoded(piece.subrange(0, eq)), percent_decoded(
            piece.subrange(eq + 1, piece.len() as int),
        ))
    } else {
        (percent_decoded(piece), Seq::empty())
    }
}

/// The decoded `key=value` pairs of a query string: pieces are separated
/// by `&`, and empty pieces are dropped.
pub open spec fn query_pairs_of(q: Seq<char>) -> Seq<(Seq<char>, Seq<char>)>
    decreases q.len(),
{
    if q.len() == 0 {
        seq![]
    } else {
        let amp = first_idx(q, '&', 0);
        let rest = if 0 <= amp && amp < q.len() {
            query_pairs_of(q.skip(amp + 1))
        } else {
            seq![]
        };
        if amp <= 0 {
            rest
        } else {
            seq![decoded_pair(q.subrange(0, amp))] + rest
        }
    }
}

/// The view of each parsed pair.
pub open spec fn pairs_view(pairs: Seq<(String, String)>) -> Seq<(Seq<char>, Seq<char>)> {
    pairs.map_values(|p: (String, String)| (p.0@, p.1@))
}

/// Splits a URL's query string into its decoded `key=value` pairs, in
/// order of appearance.
pub fn parse_query_pairs(url: &str) -> (r: Vec<(String, String)>)
    ensures
        pairs_view(r@) == query_pairs_of(url_query(url@)),
{
    let n = url.unicode_len();
    let qpos = find_char_from(url, '?', 0);
    let mut r: Vec<(String, String)> = Vec::new();
    if qpos >= n {
        proof {
            assert(pairs_view(r@) =~= query_pairs_of(url_query(url@)));
        }
        return r;
    }
    proof {
        crate::strutil::lemma_first_idx(url@, '?', 0);
        crate::strutil::lemma_first_idx(url@, '#', qpos + 1);
    }
    let hpos = find_char_from(url, '#', qpos + 1);
    let query = url.substring_char(qpos + 1, hpos);
    let qlen = query.unicode_len();
    let ghost qv = query@;
    let mut p: usize = 0;
    proof {
        assert(qv.skip(0) =~= qv);
    }
    while p < qlen
        invariant
            p <= qlen,
            qlen == qv.len(),
            query@ == qv,
            query_pairs_of(qv) == pairs_view(r@) + query_pairs_of(qv.skip(p as int)),
        decreases qlen - p,
    {
        let rest = query.substring_char(p, qlen);
        proof {
            assert(rest@ =~= qv.skip(p as int));
        }
        let restlen = qlen - p;
        let amp = find_char_from(rest, '&', 0);
        proof {
            crate::strutil::lemma_first_idx(rest@, '&', 0);
        }
        if amp == 0 {
            proof {
                assert(qv.skip(p as int).skip(1) =~= qv.skip(p + 1));
            }
            p = p + 1;
        } else {
            let piece = rest.substring_char(0, amp);
            proof {
                assert(piece@ =~= qv.skip(p as int).subrange(0, amp as int));
            }
            let eq = find_char_from(piece, '=', 0);
            let pair = if eq < amp {
                let key = percent_decode(piece.substring_char(0, eq));
                let val = percent_decode(piece.substring_char(eq + 1, amp));
                (key, val)
            } else {
                let key = percent_decode(piece);
                (key, String::new())
            };
            proof {
                assert((pair.0@, pair.1@) == decoded_pair(piece@));
            }
            r.push(pair);
            if amp < restlen {
                proof {
                    assert(qv.skip(p as int).skip(amp + 1) =~= qv.skip(p + amp + 1));
                    assert(pairs_view(r@) =~= pairs_view(r@.drop_last()) + seq![
                        (pair.0@, pair.1@),
                    ]);
                }
                p = p + amp + 1;
            } else {
                proof {
                    assert(pairs_view(r@) =~= pairs_view(r@.drop_last()) + seq![
                        (pair.0@, pair.1@),
                    ]);
                    assert(qv.skip(qv.len() as int) =~= Seq::<char>::empty());
                }
                p = qlen;
            }
        }
    }
    proof {
        assert(qv.skip(qlen as int) =~= Seq::<char>::empty());
        assert(pairs_view(r@) =~= query_pairs_of(qv));
        assert(qv =~= url_query(url@));
    }
    r
}

/// The value of the last pair whose key is `name`, if any; later pairs
/// override earlier ones, as collecting them into a map would.
pub open spec fn lookup_last(pairs: Seq<(Seq<char>, Seq<char>)>, name: Seq<char>) -> Option<
    Seq<char>,
>
    decreases pairs.len(),
{
    if pairs.len() == 0 {
        None
    } else if pairs.last().0 == name {
        Some(pairs.last().1)
    } else {
        lookup_last(pairs.drop_last(), name)
    }
}

/// The named parameter of a URL's query string, decoded; with repeated
/// keys the last occurrence counts.
pub open spec fn query_param(url: Seq<char>, name: Seq<char>) -> Option<Seq<char>> {
    lookup_last(query_pairs_of(url_query(url)), name)
}

/// Looks a key up among parsed pairs, the last occurrence winning.
pub fn lookup_pair(pairs: &Vec<(String, String)>, name: &str) -> (r: Option<String>)
    ensures
        match lookup_last(pairs_view(pairs@), name@) {
            Some(v) => r matches Some(s) && s@ == v,
            None => r is None,
        },
{
    let mut i: usize = pairs.len();
    proof {
        assert(pairs_view(pairs@).take(pairs@.len() as int) =~= pairs_view(pairs@));
    }
    while i > 0
        invariant
            i <= pairs@.len(),
            lookup_last(pairs_view(pairs@), name@) == lookup_last(
                pairs_view(pairs@).take(i as int),
                name@,
            ),
        decreases i,
    {
        i = i - 1;
        let key: &String = &pairs[i].0;
        if crate::strutil::str_eq(key.as_str(), name) {
            proof {
                assert(pairs_view(pairs@).take(i + 1).last() == (pairs@[i as int].0@,
                pairs@[i as int].1@));
            }
            return Some(pairs[i].1.clone());
        }
        proof {
            assert(pairs_view(pairs@).take(i + 1).drop_last() =~= pairs_view(pairs@).take(
                i as int,
            ));
            assert(pairs_view(pairs@).take(i + 1).last() == (pairs@[i as int].0@,
            pairs@[i as int].1@));
        }
    }
    proof {
        assert(pairs_view(pairs@).take(0) =~= Seq::<(Seq<char>, Seq<char>)>::empty());
    }
    None
}

} // verus!
