//! Cell-text helpers: locale normalization of decimal separators, character
//! scans, and the Unicode normalization applied when a spreadsheet cell is
//! read in.
use vstd::prelude::*;
use vstd::string::*;
use unicode_normalization::UnicodeNormalization;

verus! {

/// Every comma replaced by a period; nothing else changes.
pub open spec fn comma_to_dot(s: Seq<char>) -> Seq<char> {
    s.map_values(|c: char| if c == ',' { '.' } else { c })
}

pub fn replace_commas(s: &str) -> (r: String)
    ensures
        r@ == comma_to_dot(s@),
{
    let n = s.unicode_len();
    let mut out = String::new();
    proof {
        reveal_strlit(".");
        assert("."@ =~= seq!['.']);
        assert(out@ =~= comma_to_dot(s@).take(0));
    }
    let mut i: usize = 0;
    while i < n
        invariant
            i <= n,
            n == s@.len(),
            out@ =~= comma_to_dot(s@).take(i as int),
            "."@ =~= seq!['.'],
        decreases n - i,
    {
        let c = s.get_char(i);
        if c == ',' {
            out.append(".");
        } else {
            let sub = s.substring_char(i, i + 1);
            out.append(sub);
        }
        i = i + 1;
        proof {
            assert(out@ =~= comma_to_dot(s@).take(i as int));
        }
    }
    proof {
        assert(out@ =~= comma_to_dot(s@));
    }
    out
}

pub fn str_eq(a: &str, b: &str) -> (r: bool)
    ensures
        r == (a@ == b@),
{
    let na = a.unicode_len();
    let nb = b.unicode_len();
    if na != nb {
        return false;
    }
    let mut i: usize = 0;
    while i < na
        invariant
            i <= na,
            na == a@.len(),
            nb == b@.len(),
            na == nb,
            forall|k: int| 0 <= k < i ==> a@[k] == b@[k],
        decreases na - i,
    {
        if a.get_char(i) != b.get_char(i) {
            return false;
        }
        i = i + 1;
    }
    proof {
        assert(a@ =~= b@);
    }
    true
}

pub fn contains_char(s: &str, c: char) -> (r: bool)
    ensures
        r == s@.contains(c),
{
    let n = s.unicode_len();
    let mut i: usize = 0;
    while i < n
        invariant
            i <= n,
            n == s@.len(),
            forall|k: int| 0 <= k < i ==> s@[k] != c,
        decreases n - i,
    {
        if s.get_char(i) == c {
            return true;
        }
        i = i + 1;
    }
    false
}

/// What canonical composition (NFC) makes of a character sequence; a function
/// of the characters alone.
pub uninterp spec fn nfc_of(s: Seq<char>) -> Seq<char>;

/// What trimming trailing whitespace leaves of a character sequence.
pub uninterp spec fn trim_end_of(s: Seq<char>) -> Seq<char>;

/// Relies on `unicode_normalization::UnicodeNormalization::nfc`: recomposes
/// the text canonically; the result depends on the characters alone, and
/// nothing comes of nothing.
#[verifier::external_body]
fn nfc_string(s: &str) -> (r: String)
    ensures
        r@ == nfc_of(s@),
        s@.len() == 0 ==> r@.len() == 0,
{
    s.nfc().collect::<String>()
}

/// Relies on `str::trim_end`: the text with trailing whitespace removed, a
/// prefix of the input.
#[verifier::external_body]
fn trim_end_string(s: &str) -> (r: String)
    ensures
        r@ == trim_end_of(s@),
        r@.len() <= s@.len(),
        r@ == s@.take(r@.len() as int),
{
    s.trim_end().to_owned()
}

/// Normalizes the text of a spreadsheet cell as the reader hands it to the
/// library: canonical composition, then trailing whitespace trimmed.
pub fn normalize_text(s: &str) -> (r: String)
    ensures
        r@ == trim_end_of(nfc_of(s@)),
{
    let t = nfc_string(s);
    trim_end_string(t.as_str())
}

} // verus!
