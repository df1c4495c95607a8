//! Character-level helpers the scrapers and parsers share: substring
//! matching, whitespace trimming, decimal digits, and appending to strings.
use vstd::prelude::*;

use vstd::string::StrSliceExecFns;

verus! {

/// Relies on `String::push` of std: appends one character to the string.
#[verifier::external_body]
pub fn push_char(s: &mut String, c: char)
    ensures
        final(s)@ == old(s)@ + seq![c],
{
    s.push(c);
}

/// True when `pat` occurs in `text` starting at character index `i`.
pub open spec fn matches_at(text: Seq<char>, pat: Seq<char>, i: int) -> bool {
    &&& 0 <= i
    &&& i + pat.len() <= text.len()
    &&& text.subrange(i, i + pat.len()) == pat
}

/// Compares `pat` against `text` at character position `i`.
pub fn str_matches_at(text: &str, i: usize, pat: &str) -> (r: bool)
    ensures
        r == matches_at(text@, pat@, i as int),
{
    let n = text.unicode_len();
    let m = pat.unicode_len();
    if i > n || m > n - i {
        return false;
    }
    let mut k: usize = 0;
    while k < m
        invariant
            i + m <= n,
            k <= m,
            n == text@.len(),
            m == pat@.len(),
            forall|t: int| 0 <= t < k ==> text@[i + t] == pat@[t],
        decreases m - k,
    {
        if text.get_char(i + k) != pat.get_char(k) {
            proof {
                assert(text@.subrange(i as int, i + m)[k as int] == text@[i + k]);
            }
            return false;
        }
        k = k + 1;
    }
    proof {
        assert(text@.subrange(i as int, i + m) =~= pat@);
    }
    true
}

/// Compares two strings character by character.
pub fn str_eq(a: &str, b: &str) -> (r: bool)
    ensures
        r == (a@ == b@),
{
    let n = a.unicode_len();
    let m = b.unicode_len();
    if n != m {
        return false;
    }
    let r = str_matches_at(a, 0, b);
    proof {
        assert(a@.subrange(0, m as int) =~= a@);
    }
    r
}

/// The characters std's `char::is_whitespace` accepts: Unicode's
/// White_Space set.
pub open spec fn is_space_char(c: char) -> bool {
    ||| c as u32 == 0x20
    ||| (0x09 <= c as u32 && c as u32 <= 0x0D)
    ||| c as u32 == 0x85
    ||| c as u32 == 0xA0
    ||| c as u32 == 0x1680
    ||| (0x2000 <= c as u32 && c as u32 <= 0x200A)
    ||| c as u32 == 0x2028
    ||| c as u32 == 0x2029
    ||| c as u32 == 0x202F
    ||| c as u32 == 0x205F
    ||| c as u32 == 0x3000
}

/// Tests a character against Unicode's White_Space set.
pub fn is_space(c: char) -> (r: bool)
    ensures
        r == is_space_char(c),
{
    let u = c as u32;
    u == 0x20 || (0x09 <= u && u <= 0x0D) || u == 0x85 || u == 0xA0 || u == 0x1680 || (0x2000 <= u
        && u <= 0x200A) || u == 0x2028 || u == 0x2029 || u == 0x202F || u == 0x205F || u == 0x3000
}

/// The index of the first non-whitespace character at or after `i`.
pub open spec fn trim_start_idx(s: Seq<char>, i: int) -> int
    decreases s.len() - i,
    when 0 <= i <= s.len()
{
    if i < s.len() && is_space_char(s[i]) {
        trim_start_idx(s, i + 1)
    } else {
        i
    }
}

/// The index just after the last non-whitespace character strictly before `j`.
pub open spec fn trim_end_idx(s: Seq<char>, j: int) -> int
    decreases j,
    when 0 <= j <= s.len()
{
    if j > 0 && is_space_char(s[j - 1]) {
        trim_end_idx(s, j - 1)
    } else {
        j
    }
}

/// `s` without leading and trailing whitespace.
pub open spec fn trimmed(s: Seq<char>) -> Seq<char> {
    let a = trim_start_idx(s, 0);
    let b = trim_end_idx(s, s.len() as int);
    if a <= b {
        s.subrange(a, b)
    } else {
        Seq::empty()
    }
}

/// Everything skipped over on the way to the first non-whitespace
/// character is itself whitespace.
proof fn lemma_trim_start_bounds(s: Seq<char>, i: int)
    requires
        0 <= i <= s.len(),
    ensures
        i <= trim_start_idx(s, i) <= s.len(),
        forall|k: int| i <= k < trim_start_idx(s, i) ==> is_space_char(s[k]),
    decreases s.len() - i,
{
    if i < s.len() && is_space_char(s[i]) {
        lemma_trim_start_bounds(s, i + 1);
    }
}

/// On an all-whitespace prefix the trailing trim runs all the way down.
proof fn lemma_trim_end_all_spaces(s: Seq<char>, j: int)
    requires
        0 <= j <= s.len(),
        forall|k: int| 0 <= k < j ==> is_space_char(s[k]),
    ensures
        trim_end_idx(s, j) == 0,
    decreases j,
{
    if j > 0 {
        lemma_trim_end_all_spaces(s, j - 1);
    }
}

/// Strips leading and trailing whitespace, as std's `str::trim` does.
pub fn trim_str<'a>(s: &'a str) -> (r: &'a str)
    ensures
        r@ == trimmed(s@),
{
    let n = s.unicode_len();
    let mut a: usize = 0;
    while a < n && is_space(s.get_char(a))
        invariant
            a <= n,
            n == s@.len(),
            trim_start_idx(s@, 0) == trim_start_idx(s@, a as int),
        decreases n - a,
    {
        a = a + 1;
    }
    assert(a == trim_start_idx(s@, 0));
    if a == n {
        proof {
            lemma_trim_start_bounds(s@, 0);
            lemma_trim_end_all_spaces(s@, n as int);
            assert(s@.subrange(n as int, n as int) =~= Seq::<char>::empty());
            assert(trimmed(s@) =~= Seq::<char>::empty());
        }
        return s.substring_char(n, n);
    }
    let mut b: usize = n;
    while b > a && is_space(s.get_char(b - 1))
        invariant
            a < b <= n,
            a < n,
            n == s@.len(),
            a == trim_start_idx(s@, 0),
            !is_space_char(s@[a as int]),
            trim_end_idx(s@, n as int) == trim_end_idx(s@, b as int),
        decreases b,
    {
        b = b - 1;
    }
    proof {
        assert(b == trim_end_idx(s@, n as int));
        assert(trimmed(s@) == s@.subrange(a as int, b as int));
    }
    s.substring_char(a, b)
}

/// The index of the first occurrence of `c` in `s` at or after `from`, or
/// `s.len()` when there is none.
pub open spec fn first_idx(s: Seq<char>, c: char, from: int) -> int
    decreases s.len() - from,
    when 0 <= from <= s.len()
{
    if from >= s.len() {
        s.len() as int
    } else if s[from] == c {
        from
    } else {
        first_idx(s, c, from + 1)
    }
}

/// Everything at or after `from` and strictly before `first_idx` differs
/// from `c`, and the index is in range.
pub proof fn lemma_first_idx(s: Seq<char>, c: char, from: int)
    requires
        0 <= from <= s.len(),
    ensures
        from <= first_idx(s, c, from) <= s.len(),
        first_idx(s, c, from) < s.len() ==> s[first_idx(s, c, from)] == c,
        forall|k: int| from <= k < first_idx(s, c, from) ==> s[k] != c,
    decreases s.len() - from,
{
    if from < s.len() && s[from] != c {
        lemma_first_idx(s, c, from + 1);
    }
}

/// Finds the first occurrence of `c` at or after `from`, or the string's
/// character length when there is none.
pub fn find_char_from(s: &str, c: char, from: usize) -> (r: usize)
    requires
        from <= s@.len(),
    ensures
        r == first_idx(s@, c, from as int),
{
    let n = s.unicode_len();
    let mut j = from;
    while j < n
        invariant
            from <= j <= n,
            n == s@.len(),
            first_idx(s@, c, from as int) == first_idx(s@, c, j as int),
        decreases n - j,
    {
        if s.get_char(j) == c {
            return j;
        }
        j = j + 1;
    }
    n
}

/// The index of the first occurrence of `pat` in `s` at or after `from`,
/// or `s.len()` when there is none.
pub open spec fn first_pat_idx(s: Seq<char>, pat: Seq<char>, from: int) -> int
    decreases s.len() - from,
    when 0 <= from <= s.len()
{
    if from >= s.len() {
        s.len() as int
    } else if matches_at(s, pat, from) {
        from
    } else {
        first_pat_idx(s, pat, from + 1)
    }
}

/// The first occurrence is in range, is a match when inside the text, and
/// nothing earlier at or after `from` matches.
pub proof fn lemma_first_pat_idx(s: Seq<char>, pat: Seq<char>, from: int)
    requires
        0 <= from <= s.len(),
    ensures
        from <= first_pat_idx(s, pat, from) <= s.len(),
        first_pat_idx(s, pat, from) < s.len() ==> matches_at(s, pat, first_pat_idx(s, pat, from)),
        forall|k: int| from <= k < first_pat_idx(s, pat, from) ==> !matches_at(s, pat, k),
    decreases s.len() - from,
{
    if from < s.len() && !matches_at(s, pat, from) {
        lemma_first_pat_idx(s, pat, from + 1);
    }
}

/// Finds the first occurrence of `pat` at or after `from`, or the string's
/// character length when there is none.
pub fn find_pat_from(s: &str, pat: &str, from: usize) -> (r: usize)
    requires
        from <= s@.len(),
    ensures
        r == first_pat_idx(s@, pat@, from as int),
{
    let n = s.unicode_len();
    let mut j = from;
    while j < n
        invariant
            from <= j <= n,
            n == s@.len(),
            first_pat_idx(s@, pat@, from as int) == first_pat_idx(s@, pat@, j as int),
        decreases n - j,
    {
        if str_matches_at(s, j, pat) {
            return j;
        }
        j = j + 1;
    }
    n
}

/// True for the ten decimal digit characters.
pub open spec fn is_digit_char(c: char) -> bool {
    48 <= c as u32 && c as u32 <= 57
}

/// Tests a character for being a decimal digit.
pub fn is_digit(c: char) -> (r: bool)
    ensures
        r == is_digit_char(c),
{
    let u = c as u32;
    48 <= u && u <= 57
}

/// The numeric value of one digit character.
pub open spec fn digit_val(c: char) -> nat {
    (c as u32 - 48) as nat
}

/// The number a sequence of digit characters denotes, most significant
/// first; an empty sequence denotes zero.
pub open spec fn digits_val(s: Seq<char>) -> nat
    decreases s.len(),
{
    if s.len() == 0 {
        0
    } else {
        digits_val(s.drop_last()) * 10 + digit_val(s.last())
    }
}

/// The digit character for a value below ten.
pub open spec fn dec_digit_char(d: nat) -> char {
    ((48 + d) as u8) as char
}

/// The decimal notation of `n`, without leading zeroes (a single zero for
/// zero itself).
pub open spec fn dec_str(n: nat) -> Seq<char>
    decreases n,
{
    if n < 10 {
        seq![dec_digit_char(n)]
    } else {
        dec_str(n / 10) + seq![dec_digit_char(n % 10)]
    }
}

/// Writes `n` in decimal.
pub fn u128_to_string(n: u128) -> (r: String)
    ensures
        r@ == dec_str(n as nat),
{
    let mut digits: Vec<char> = Vec::new();
    let mut m = n;
    while m >= 10
        invariant
            dec_str(n as nat) == dec_str(m as nat) + digits@.reverse(),
        decreases m,
    {
        let d = (48u8 + (m % 10) as u8) as char;
        proof {
            assert(d == dec_digit_char((m % 10) as nat));
            assert((digits@ + seq![d]).reverse() =~= seq![d] + digits@.reverse());
            assert(dec_str(m as nat) == dec_str((m / 10) as nat) + seq![dec_digit_char(
                (m % 10) as nat,
            )]);
            assert(dec_str(m as nat) + digits@.reverse() =~= dec_str((m / 10) as nat) + (digits@
                + seq![d]).reverse());
        }
        digits.push(d);
        m = m / 10;
    }
    let d = (48u8 + m as u8) as char;
    proof {
        assert(d == dec_digit_char(m as nat));
        assert((digits@ + seq![d]).reverse() =~= seq![d] + digits@.reverse());
        assert(dec_str(m as nat) =~= seq![d]);
        assert(dec_str(n as nat) =~= (digits@ + seq![d]).reverse());
    }
    digits.push(d);
    let ghost total = dec_str(n as nat);
    assert(total == digits@.reverse());
    let mut r = String::new();
    let mut i: usize = digits.len();
    assert(r@ =~= total.subrange(0, 0));
    while i > 0
        invariant
            i <= digits@.len(),
            total == digits@.reverse(),
            r@ == total.subrange(0, digits@.len() - i),
        decreases i,
    {
        i = i - 1;
        let c = digits[i];
        proof {
            assert(total[digits@.len() - i - 1] == c);
        }
        push_char(&mut r, c);
        proof {
            assert(r@ =~= total.subrange(0, digits@.len() - i));
        }
    }
    proof {
        assert(r@ =~= total);
    }
    r
}

} // verus!
