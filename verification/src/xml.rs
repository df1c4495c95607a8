//! A scanner for the QR-connect XML response: it walks the document's
//! tags, comments, character-data sections and text runs, tracks whether
//! the reader stands inside a `uuid` element, and captures the first text
//! content found there.
use vstd::prelude::*;

use crate::errors::XmlParseError;
use crate::strutil::{
    find_char_from, find_pat_from, first_idx, first_pat_idx, is_space, is_space_char,
    lemma_first_idx, lemma_first_pat_idx, matches_at, str_matches_at, trim_str, trimmed,
};
use vstd::string::StrSliceExecFns;

verus! {

/// A character that ends an element name: whitespace, `/` or `>`.
pub open spec fn is_name_stop_char(c: char) -> bool {
    is_space_char(c) || c == '/' || c == '>'
}

/// The index of the first name-stopping character at or after `from`, or
/// the text's length when there is none.
pub open spec fn xml_name_end(text: Seq<char>, from: int) -> int
    decreases text.len() - from,
    when 0 <= from <= text.len()
{
    if from >= text.len() {
        text.len() as int
    } else if is_name_stop_char(text[from]) {
        from
    } else {
        xml_name_end(text, from + 1)
    }
}

/// The name's end is in range and everything before it is name material.
proof fn lemma_xml_name_end(text: Seq<char>, from: int)
    requires
        0 <= from <= text.len(),
    ensures
        from <= xml_name_end(text, from) <= text.len(),
        forall|k: int| from <= k < xml_name_end(text, from) ==> !is_name_stop_char(text[k]),
        xml_name_end(text, from) < text.len() ==> is_name_stop_char(
            text[xml_name_end(text, from)],
        ),
    decreases text.len() - from,
{
    if from < text.len() && !is_name_stop_char(text[from]) {
        lemma_xml_name_end(text, from + 1);
    }
}

/// Finds the end of an element name.
fn xml_name_end_exec(text: &str, n: usize, from: usize) -> (r: usize)
    requires
        n == text@.len(),
        from <= n,
    ensures
        r == xml_name_end(text@, from as int),
{
    let mut j = from;
    while j < n
        invariant
            from <= j <= n,
            n == text@.len(),
            xml_name_end(text@, from as int) == xml_name_end(text@, j as int),
        decreases n - j,
    {
        let c = text.get_char(j);
        if is_space(c) || c == '/' || c == '>' {
            return j;
        }
        j = j + 1;
    }
    n
}

/// Whether the tag whose name starts at `pos` is named `uuid`.
pub open spec fn tag_named_uuid(text: Seq<char>, pos: int) -> bool {
    text.subrange(pos, xml_name_end(text, pos)) == "uuid"@
}

/// Tests the tag name starting at `pos` against `uuid`.
fn tag_is_uuid(text: &str, n: usize, pos: usize) -> (r: bool)
    requires
        n == text@.len(),
        pos <= n,
    ensures
        r == tag_named_uuid(text@, pos as int),
{
    proof {
        reveal_strlit("uuid");
        lemma_xml_name_end(text@, pos as int);
    }
    let ne = xml_name_end_exec(text, n, pos);
    let r = ne - pos == 4 && str_matches_at(text, pos, "uuid");
    proof {
        let name = text@.subrange(pos as int, xml_name_end(text@, pos as int));
        if r {
            assert(name =~= text@.subrange(pos as int, pos + 4));
        } else {
            if name == "uuid"@ {
                assert(name.len() == 4);
                assert(ne == pos + 4);
                assert(text@.subrange(pos as int, pos + 4) == "uuid"@);
                assert(matches_at(text@, "uuid"@, pos as int));
            }
        }
    }
    r
}

/// What scanning the document from position `i` onward yields: the first
/// captured `uuid` text, the end of the document without one, or a broken
/// construct (a tag, comment, declaration or character-data section whose
/// terminator never comes).
pub enum UuidScan {
    Found(Seq<char>),
    NotFound,
    Malformed,
}

/// One pass over the document. A start or self-closing `uuid` tag opens
/// the element, its end tag closes it; inside it, the first character-data
/// section, or the first text run that is not all whitespace, is captured
/// trimmed. Comments, declarations and processing instructions are skipped.
pub open spec fn uuid_scan(text: Seq<char>, i: int, in_uuid: bool) -> UuidScan
    decreases text.len() - i,
    when 0 <= i <= text.len()
    via uuid_scan_dec
{
    if i >= text.len() {
        UuidScan::NotFound
    } else if text[i] == '<' {
        if matches_at(text, "<!--"@, i) {
            let j = first_pat_idx(text, "-->"@, i + 4);
            if j < text.len() {
                uuid_scan(text, j + 3, in_uuid)
            } else {
                UuidScan::Malformed
            }
        } else if matches_at(text, "<![CDATA["@, i) {
            let j = first_pat_idx(text, "]]>"@, i + 9);
            if j < text.len() {
                if in_uuid {
                    UuidScan::Found(trimmed(text.subrange(i + 9, j)))
                } else {
                    uuid_scan(text, j + 3, in_uuid)
                }
            } else {
                UuidScan::Malformed
            }
        } else if matches_at(text, "<?"@, i) {
            let j = first_pat_idx(text, "?>"@, i + 2);
            if j < text.len() {
                uuid_scan(text, j + 2, in_uuid)
            } else {
                UuidScan::Malformed
            }
        } else if matches_at(text, "<!"@, i) {
            let j = first_idx(text, '>', i + 2);
            if j < text.len() {
                uuid_scan(text, j + 1, in_uuid)
            } else {
                UuidScan::Malformed
            }
        } else if matches_at(text, "</"@, i) {
            let j = first_idx(text, '>', i + 2);
            if j < text.len() {
                uuid_scan(
                    text,
                    j + 1,
                    if tag_named_uuid(text, i + 2) {
                        false
                    } else {
                        in_uuid
                    },
                )
            } else {
                UuidScan::Malformed
            }
        } else {
            let j = first_idx(text, '>', i + 1);
            if j < text.len() {
                uuid_scan(
                    text,
                    j + 1,
                    if tag_named_uuid(text, i + 1) {
                        true
                    } else {
                        in_uuid
                    },
                )
            } else {
                UuidScan::Malformed
            }
        }
    } else {
        let j = first_idx(text, '<', i + 1);
        if in_uuid && trimmed(text.subrange(i, j)).len() > 0 {
            UuidScan::Found(trimmed(text.subrange(i, j)))
        } else {
            uuid_scan(text, j, in_uuid)
        }
    }
}

#[via_fn]
proof fn uuid_scan_dec(text: Seq<char>, i: int, in_uuid: bool) {
    reveal_strlit("<!--");
    reveal_strlit("<![CDATA[");
    reveal_strlit("<?");
    reveal_strlit("<!");
    reveal_strlit("</");
    reveal_strlit("-->");
    reveal_strlit("]]>");
    reveal_strlit("?>");
    if 0 <= i && i < text.len() {
        if text[i] == '<' {
            if matches_at(text, "<!--"@, i) {
                lemma_first_pat_idx(text, "-->"@, i + 4);
            } else if matches_at(text, "<![CDATA["@, i) {
                lemma_first_pat_idx(text, "]]>"@, i + 9);
            } else if matches_at(text, "<?"@, i) {
                lemma_first_pat_idx(text, "?>"@, i + 2);
            } else if matches_at(text, "<!"@, i) {
                lemma_first_idx(text, '>', i + 2);
            } else if matches_at(text, "</"@, i) {
                lemma_first_idx(text, '>', i + 2);
            } else {
                lemma_first_idx(text, '>', i + 1);
            }
        } else {
            lemma_first_idx(text, '<', i + 1);
        }
    }
}

/// Reads the QR session's uuid out of the XML document: the first text or
/// character-data content inside a `uuid` element, trimmed. Fails when the
/// document holds no such content, or when a tag, comment, declaration or
/// character-data section is left unterminated.
pub fn parse_qr_uuid_from_xml(xml_text: &str) -> (r: Result<String, XmlParseError>)
    ensures
        match uuid_scan(xml_text@, 0, false) {
            UuidScan::Found(c) => r matches Ok(s) && s@ == c,
            UuidScan::NotFound => r == Err::<String, XmlParseError>(XmlParseError::UuidNotFound),
            UuidScan::Malformed => r == Err::<String, XmlParseError>(XmlParseError::NotWellFormed),
        },
{
    proof {
        reveal_strlit("<!--");
        reveal_strlit("<![CDATA[");
        reveal_strlit("<?");
        reveal_strlit("<!");
        reveal_strlit("</");
        reveal_strlit("-->");
        reveal_strlit("]]>");
        reveal_strlit("?>");
    }
    let n = xml_text.unicode_len();
    let mut i: usize = 0;
    let mut in_uuid = false;
    while i < n
        invariant
            i <= n,
            n == xml_text@.len(),
            uuid_scan(xml_text@, 0, false) == uuid_scan(xml_text@, i as int, in_uuid),
        decreases n - i,
    {
        let ghost t = xml_text@;
        let c = xml_text.get_char(i);
        if c == '<' {
            if str_matches_at(xml_text, i, "<!--") {
                proof {
                    reveal_strlit("<!--");
                    reveal_strlit("-->");
                    lemma_first_pat_idx(t, "-->"@, i + 4);
                }
                let j = find_pat_from(xml_text, "-->", i + 4);
                if j >= n {
                    return Err(XmlParseError::NotWellFormed);
                }
                i = j + 3;
            } else if str_matches_at(xml_text, i, "<![CDATA[") {
                proof {
                    reveal_strlit("<![CDATA[");
                    reveal_strlit("]]>");
                    reveal_strlit("<!--");
                    lemma_first_pat_idx(t, "]]>"@, i + 9);
                }
                let j = find_pat_from(xml_text, "]]>", i + 9);
                if j >= n {
                    return Err(XmlParseError::NotWellFormed);
                }
                if in_uuid {
                    let content = trim_str(xml_text.substring_char(i + 9, j));
                    return Ok(content.to_owned());
                }
                i = j + 3;
            } else if str_matches_at(xml_text, i, "<?") {
                proof {
                    reveal_strlit("<?");
                    reveal_strlit("?>");
                    lemma_first_pat_idx(t, "?>"@, i + 2);
                }
                let j = find_pat_from(xml_text, "?>", i + 2);
                if j >= n {
                    return Err(XmlParseError::NotWellFormed);
                }
                i = j + 2;
            } else if str_matches_at(xml_text, i, "<!") {
                proof {
                    reveal_strlit("<!");
                    lemma_first_idx(t, '>', i + 2);
                }
                let j = find_char_from(xml_text, '>', i + 2);
                if j >= n {
                    return Err(XmlParseError::NotWellFormed);
                }
                i = j + 1;
            } else if str_matches_at(xml_text, i, "</") {
                proof {
                    reveal_strlit("</");
                    lemma_first_idx(t, '>', i + 2);
                }
                let j = find_char_from(xml_text, '>', i + 2);
                if j >= n {
                    return Err(XmlParseError::NotWellFormed);
                }
                if tag_is_uuid(xml_text, n, i + 2) {
                    in_uuid = false;
                }
                i = j + 1;
            } else {
                proof {
                    lemma_first_idx(t, '>', i + 1);
                }
                let j = find_char_from(xml_text, '>', i + 1);
                if j >= n {
                    return Err(XmlParseError::NotWellFormed);
                }
                if tag_is_uuid(xml_text, n, i + 1) {
                    in_uuid = true;
                }
                i = j + 1;
            }
        } else {
            proof {
                lemma_first_idx(t, '<', i + 1);
            }
            let j = find_char_from(xml_text, '<', i + 1);
            if in_uuid {
                let piece = trim_str(xml_text.substring_char(i, j));
                if piece.unicode_len() > 0 {
                    return Ok(piece.to_owned());
                }
            }
            i = j;
        }
    }
    Err(XmlParseError::UuidNotFound)
}

} // verus!
