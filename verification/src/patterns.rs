//! The two regular expressions of the converter, run by the `regex` crate.
//!
//! Each pattern is matched only through a trusted item below. Its contract
//! states, for that one pattern, what the `regex` documentation fixes: the
//! leftmost match under leftmost-first priorities, with greedy `?`, `+` and
//! `{1,5}`, lazy `*?`, `.` not matching `'\n'`, and `\s` being the Unicode
//! `White_Space` property.
use vstd::prelude::*;
use crate::text::{find_from, has_at, is_ws, lemma_run_end, run_end, ws_pred};

verus! {

/// A bare `http(s)` URL inside literal text.
pub const URL_PATTERN: &'static str = r#"https?://[^\s<>"'\]]+"#;

/// A heading bracket at the start of a line: `[`, one to five `*`, whitespace,
/// then the heading text up to the first `]`.
pub const HEADING_PATTERN: &'static str = r"^\[(\*{1,5})\s+(.*?)\]";

/// A character that may continue a bare URL: `[^\s<>"'\]]`.
pub open spec fn url_char(c: char) -> bool {
    !is_ws(c) && c != '<' && c != '>' && c != '"' && c != '\'' && c != ']'
}

pub open spec fn url_char_pred() -> spec_fn(char) -> bool {
    |c: char| url_char(c)
}

/// Length of the `http://` or `https://` scheme at `i`, or 0 when there is none.
pub open spec fn scheme_len(s: Seq<char>, i: int) -> int {
    if has_at(s, i, "https://"@) {
        "https://"@.len() as int
    } else if has_at(s, i, "http://"@) {
        "http://"@.len() as int
    } else {
        0
    }
}

/// A URL match can start at `i`: a scheme followed by at least one URL character.
pub open spec fn url_starts_at(s: Seq<char>, i: int) -> bool {
    scheme_len(s, i) > 0 && i + scheme_len(s, i) < s.len() && url_char(s[i + scheme_len(s, i)])
}

/// The first index at or after `i` where a URL match starts, or `s.len()`.
pub open spec fn first_url_from(s: Seq<char>, i: int) -> int
    decreases s.len() - i,
{
    if i < 0 || i >= s.len() {
        s.len() as int
    } else if url_starts_at(s, i) {
        i
    } else {
        first_url_from(s, i + 1)
    }
}

/// Start and end of the leftmost match of `URL_PATTERN` in `s`: the leftmost
/// start, extended over every following URL character.
pub open spec fn url_match(s: Seq<char>) -> Option<(int, int)> {
    let a = first_url_from(s, 0);
    if a < s.len() {
        Some((a, run_end(s, a + scheme_len(s, a), url_char_pred())))
    } else {
        None
    }
}

pub open spec fn star_pred() -> spec_fn(char) -> bool {
    |c: char| c == '*'
}

/// The match of `HEADING_PATTERN` on `s`, as (star group, text group, the rest
/// of `s` after the match): the whitespace run is taken whole and the text runs
/// to the first `]`, which must come before any `'\n'`.
pub open spec fn heading_match(s: Seq<char>) -> Option<(Seq<char>, Seq<char>, Seq<char>)> {
    let k = run_end(s, 1, star_pred());
    let w = run_end(s, k, ws_pred());
    let j = find_from(s, ']', w);
    if s.len() > 0 && s[0] == '[' && 2 <= k <= 6 && w > k && j < s.len() && find_from(
        s,
        '\n',
        w,
    ) > j {
        Some((s.subrange(1, k), s.subrange(w, j), s.skip(j + 1)))
    } else {
        None
    }
}

pub proof fn lemma_url_match(s: Seq<char>)
    ensures
        url_match(s) matches Some((a, e)) ==> 0 <= a < e <= s.len() && a + scheme_len(s, a) < e
            && scheme_len(s, a) > 0,
{
    lemma_first_url_from(s, 0);
    let a = first_url_from(s, 0);
    if a < s.len() {
        lemma_run_end(s, a + scheme_len(s, a), url_char_pred());
        assert(url_char_pred()(s[a + scheme_len(s, a)]));
    }
}

pub proof fn lemma_first_url_from(s: Seq<char>, i: int)
    requires
        0 <= i <= s.len(),
    ensures
        i <= first_url_from(s, i) <= s.len(),
        first_url_from(s, i) < s.len() ==> url_starts_at(s, first_url_from(s, i)),
        forall|k: int| i <= k < first_url_from(s, i) ==> !#[trigger] url_starts_at(s, k),
    decreases s.len() - i,
{
    if i < s.len() && !url_starts_at(s, i) {
        lemma_first_url_from(s, i + 1);
    }
}

/// Runs `Regex::find` of the `regex` crate. For `URL_PATTERN` it returns the
/// text before the leftmost match, the match, and the text after it, as
/// `url_match` places them; `None` when the haystack holds no match.
#[verifier::external_body]
fn regex_find(pattern: &str, haystack: &str) -> (r: Option<(String, String, String)>)
    requires
        pattern@ == URL_PATTERN@,
    ensures
        match url_match(haystack@) {
            None => r is None,
            Some((a, e)) => r matches Some((b, m, t)) && b@ == haystack@.take(a) && m@
                == haystack@.subrange(a, e) && t@ == haystack@.skip(e),
        },
{
    match regex::Regex::new(pattern) {
        Ok(re) => re.find(haystack).map(
            |m| (haystack[..m.start()].to_string(), m.as_str().to_string(), haystack[m.end()..].to_string()),
        ),
        Err(_) => None,
    }
}

/// Runs `Regex::captures` of the `regex` crate. For `HEADING_PATTERN` it returns
/// capture groups 1 and 2 and the text after the whole match, as
/// `heading_match` gives them; `None` when the haystack does not match.
#[verifier::external_body]
fn regex_captures(pattern: &str, haystack: &str) -> (r: Option<(String, String, String)>)
    requires
        pattern@ == HEADING_PATTERN@,
    ensures
        match heading_match(haystack@) {
            None => r is None,
            Some((g1, g2, t)) => r matches Some((a, b, c)) && a@ == g1 && b@ == g2 && c@ == t,
        },
{
    match regex::Regex::new(pattern) {
        Ok(re) => re.captures(haystack).map(
            |caps| (
                caps.get(1).map_or(String::new(), |m| m.as_str().to_string()),
                caps.get(2).map_or(String::new(), |m| m.as_str().to_string()),
                caps.get(0).map_or(String::new(), |m| haystack[m.end()..].to_string()),
            ),
        ),
        Err(_) => None,
    }
}

/// The leftmost bare URL of `haystack`: the text before it, the URL, the rest.
pub fn find_url(haystack: &str) -> (r: Option<(String, String, String)>)
    ensures
        match url_match(haystack@) {
            None => r is None,
            Some((a, e)) => r matches Some((b, m, t)) && b@ == haystack@.take(a) && m@
                == haystack@.subrange(a, e) && t@ == haystack@.skip(e),
        },
{
    regex_find(URL_PATTERN, haystack)
}

/// The heading bracket at the start of `line`: its stars, its text, and the
/// rest of the line after the closing `]`.
pub fn match_heading(line: &str) -> (r: Option<(String, String, String)>)
    ensures
        match heading_match(line@) {
            None => r is None,
            Some((g1, g2, t)) => r matches Some((a, b, c)) && a@ == g1 && b@ == g2 && c@ == t,
        },
{
    regex_captures(HEADING_PATTERN, line)
}

} // verus!
