//! Inline classification: scan a line once, turn each `[...]` span into a typed
//! `Inline` node, and wrap bare URLs in the plain-text runs between them.
//!
//! A single left-to-right pass dispatches on the bracket contents, so rules
//! cannot re-match one another's output, and unknown spans fall through
//! verbatim as `Inline::Unknown`.
use vstd::prelude::*;
use crate::ast::{inlines_view, Emphasis, EmphasisV, Inline, InlineV};
use crate::patterns::{find_url, lemma_url_match, star_pred, url_match};
use crate::text::{
    append_chars, chars_of, contains_exec, contains_text, cviews, eq_str, find_from,
    find_from_exec, find_text, find_text_exec, has_at, has_at_exec, is_whitespace, is_ws, join,
    join_exec, lemma_find_from, lemma_find_text, run_end, slice_vec,
    string_from_chars, trim, trim_chars, trim_start, trim_start_chars, words, words_exec,
};

verus! {

/// File extensions that mark a bracketed URL as an image.
pub const IMAGE_EXTENSIONS: [&'static str; 6] = ["png", "jpg", "jpeg", "gif", "svg", "webp"];

// ---------------------------------------------------------------------------
// Specification.
// ---------------------------------------------------------------------------

/// `char::is_alphanumeric`: the Unicode `Alphabetic` or `Numeric` property.
pub uninterp spec fn unicode_alphanumeric(c: char) -> bool;

/// `c` lower-cases (ASCII case folding) to `p`.
pub open spec fn ascii_ci_eq(c: char, p: char) -> bool {
    c == p || ('a' <= p && p <= 'z' && (c as u32) + 32 == (p as u32))
}

/// `s` ends with `suffix`, ASCII letters compared without case.
pub open spec fn ends_with_ci(s: Seq<char>, suffix: Seq<char>) -> bool {
    suffix.len() <= s.len() && forall|k: int|
        0 <= k < suffix.len() ==> ascii_ci_eq(#[trigger] s[s.len() - suffix.len() + k], suffix[k])
}

pub open spec fn no_ws(s: Seq<char>) -> bool {
    forall|k: int| 0 <= k < s.len() ==> !is_ws(#[trigger] s[k])
}

/// An `http://` or `https://` URL without whitespace.
pub open spec fn is_http_url_spec(s: Seq<char>) -> bool {
    (has_at(s, 0, "http://"@) || has_at(s, 0, "https://"@)) && no_ws(s)
}

/// The URL ends in `.` and one of `IMAGE_EXTENSIONS`, in any ASCII case.
pub open spec fn is_image_url_spec(url: Seq<char>) -> bool {
    exists|k: int| 0 <= k < 6 && ends_with_ci(url, seq!['.'] + (#[trigger] IMAGE_EXTENSIONS[k])@)
}

pub open spec fn is_youtube_spec(url: Seq<char>) -> bool {
    contains_text(url, "youtube.com/watch"@) || contains_text(url, "youtu.be/"@)
}

pub open spec fn is_twitter_spec(url: Seq<char>) -> bool {
    (contains_text(url, "twitter.com/"@) || contains_text(url, "x.com/"@)) && contains_text(
        url,
        "/status/"@,
    )
}

/// A link label is non-empty and holds none of `/ - * ]`.
pub open spec fn is_valid_label_spec(label: Seq<char>) -> bool {
    label.len() > 0 && forall|k: int|
        0 <= k < label.len() ==> {
            let c = #[trigger] label[k];
            c != '/' && c != '-' && c != '*' && c != ']'
        }
}

/// A bare page name of word characters, rendered as a `#name` tag.
pub open spec fn is_tag_spec(inner: Seq<char>) -> bool {
    inner.len() > 0 && forall|k: int|
        0 <= k < inner.len() ==> unicode_alphanumeric(#[trigger] inner[k]) || inner[k] == '_'
}

/// `inner` starts with the marker `m`, followed by whitespace.
pub open spec fn marked(inner: Seq<char>, m: Seq<char>) -> bool {
    has_at(inner, 0, m) && m.len() < inner.len() && is_ws(inner[m.len() as int])
}

pub open spec fn emphasis_v(bold: bool, italic: bool, strike: bool, text: Seq<char>) -> EmphasisV {
    EmphasisV { bold, italic, strike, text }
}

/// `[* x]` `[** x]` (bold), `[*/ x]` `[*- x]` `[/- x]` `[/ x]` `[- x]`. A
/// decoration_spec marker must be followed by whitespace; the text is what follows
/// the marker, leading whitespace removed.
pub open spec fn decoration_spec(inner: Seq<char>) -> Option<EmphasisV> {
    let stars = run_end(inner, 0, star_pred());
    if stars > 0 && stars < inner.len() && is_ws(inner[stars]) {
        Some(emphasis_v(true, false, false, trim_start(inner.skip(stars))))
    } else if marked(inner, "*/"@) {
        Some(emphasis_v(true, true, false, trim_start(inner.skip("*/"@.len() as int))))
    } else if marked(inner, "*-"@) {
        Some(emphasis_v(true, false, true, trim_start(inner.skip("*-"@.len() as int))))
    } else if marked(inner, "/-"@) {
        Some(emphasis_v(false, true, true, trim_start(inner.skip("/-"@.len() as int))))
    } else if marked(inner, "/"@) {
        Some(emphasis_v(false, true, false, trim_start(inner.skip("/"@.len() as int))))
    } else if marked(inner, "-"@) {
        Some(emphasis_v(false, false, true, trim_start(inner.skip("-"@.len() as int))))
    } else {
        None
    }
}

/// `[img URL]`: an image with alt text `img`.
pub open spec fn image_directive_spec(inner: Seq<char>) -> Option<InlineV> {
    let url = trim(inner.skip("img"@.len() as int));
    if marked(inner, "img"@) && is_http_url_spec(url) {
        Some(InlineV::Image { alt: "img"@, url })
    } else {
        None
    }
}

pub open spec fn youtube_pred() -> spec_fn(Seq<char>) -> bool {
    |p: Seq<char>| is_http_url_spec(p) && is_youtube_spec(p)
}

pub open spec fn twitter_pred() -> spec_fn(Seq<char>) -> bool {
    |p: Seq<char>| is_http_url_spec(p) && is_twitter_spec(p)
}

/// First index at or after `i` of a part satisfying `pred`, or `parts.len()`.
pub open spec fn first_part(parts: Seq<Seq<char>>, i: int, pred: spec_fn(Seq<char>) -> bool) -> int
    decreases parts.len() - i,
{
    if i < 0 || i >= parts.len() {
        parts.len() as int
    } else if pred(parts[i]) {
        i
    } else {
        first_part(parts, i + 1, pred)
    }
}

/// Bracketed URLs: `[URL]`, `[YouTube .. URL]`, `[Twitter .. URL]`,
/// `[label URL]` and `[URL label]`.
pub open spec fn url_bracket_spec(inner: Seq<char>) -> Option<InlineV> {
    let parts = words(inner);
    if parts.len() == 1 {
        if is_http_url_spec(parts[0]) {
            if is_image_url_spec(parts[0]) {
                Some(InlineV::Image { alt: seq![], url: parts[0] })
            } else {
                Some(InlineV::AutoLink(parts[0]))
            }
        } else {
            None
        }
    } else if parts.len() >= 2 {
        let yt = first_part(parts, 0, youtube_pred());
        let tw = first_part(parts, 0, twitter_pred());
        let last = parts.last();
        let head_label = join(parts.drop_last(), " "@);
        let tail_label = join(parts.skip(1), " "@);
        if parts[0] == "YouTube"@ && yt < parts.len() {
            Some(InlineV::Link { label: "YouTube Video"@, url: parts[yt] })
        } else if parts[0] == "Twitter"@ && tw < parts.len() {
            Some(InlineV::Link { label: "Twitter Post"@, url: parts[tw] })
        } else if is_http_url_spec(last) && is_valid_label_spec(head_label) {
            Some(InlineV::Link { label: head_label, url: last })
        } else if is_http_url_spec(parts[0]) && is_valid_label_spec(tail_label) {
            Some(InlineV::Link { label: tail_label, url: parts[0] })
        } else {
            None
        }
    } else {
        None
    }
}

/// The node for the contents of a `[...]` span.
pub open spec fn classify_bracket_spec(inner: Seq<char>) -> InlineV {
    match decoration_spec(inner) {
        Some(e) => InlineV::Emphasis(e),
        None => match image_directive_spec(inner) {
            Some(i) => i,
            None => match url_bracket_spec(inner) {
                Some(l) => l,
                None => if is_tag_spec(inner) {
                    InlineV::Tag(inner)
                } else {
                    InlineV::Unknown(seq!['['] + inner + seq![']'])
                },
            },
        },
    }
}

/// The bracket span at the start of `r` (which starts with `[`) and the number
/// of characters it takes; `None` when there is no closing `]`, the span would
/// cross a line, or it is a markdown link `[label](url)`.
pub open spec fn bracket(r: Seq<char>) -> Option<(InlineV, int)> {
    let c2 = find_text(r, "]]"@, 2);
    let c = find_from(r, ']', 1);
    if has_at(r, 0, "[["@) && c2 < r.len() && find_from(r, '\n', 2) >= c2 {
        Some((InlineV::Emphasis(emphasis_v(true, false, false, r.subrange(2, c2))), c2 + 2))
    } else if c >= r.len() || find_from(r, '\n', 1) < c || (c + 1 < r.len() && r[c + 1] == '(') {
        None
    } else {
        Some((classify_bracket_spec(r.subrange(1, c)), c + 1))
    }
}

pub proof fn lemma_bracket(r: Seq<char>)
    requires
        r.len() > 0,
    ensures
        bracket(r) matches Some((_, n)) ==> 2 <= n <= r.len(),
{
    reveal_strlit("]]");
    reveal_strlit("[[");
    lemma_find_text(r, "]]"@, 0);
    lemma_find_from(r, ']', 1);
    if has_at(r, 0, "[["@) {
        lemma_find_text(r, "]]"@, 2);
    }
}

/// The nodes for a run of literal text: each bare URL becomes an `AutoLink`
/// unless it directly follows `<` or `(`; the text between them is `Text`.
/// `from` is where the search resumes, `last` where the pending text starts.
pub open spec fn plain_scan(t: Seq<char>, from: int, last: int) -> Seq<InlineV>
    decreases t.len() - from,
{
    if from < 0 || from > t.len() {
        seq![]
    } else {
        match url_match(t.skip(from)) {
            None => if last < t.len() {
                seq![InlineV::Text(t.subrange(last, t.len() as int))]
            } else {
                seq![]
            },
            Some((a, e)) => {
                let ms = from + a;
                let me = from + e;
                proof {
                    lemma_url_match(t.skip(from));
                }
                if ms > 0 && (t[ms - 1] == '<' || t[ms - 1] == '(') {
                    plain_scan(t, me, last)
                } else {
                    (if ms > last {
                        seq![InlineV::Text(t.subrange(last, ms))]
                    } else {
                        seq![]
                    }) + seq![InlineV::AutoLink(t.subrange(ms, me))] + plain_scan(t, me, me)
                }
            },
        }
    }
}

pub open spec fn plain_nodes(t: Seq<char>) -> Seq<InlineV> {
    plain_scan(t, 0, 0)
}

/// The nodes of `s` from `pos` on, with `plain` the literal text collected so far.
pub open spec fn inline_scan(s: Seq<char>, pos: int, plain: Seq<char>) -> Seq<InlineV>
    decreases s.len() - pos,
{
    if pos < 0 || pos >= s.len() {
        plain_nodes(plain)
    } else if s[pos] == '[' && bracket(s.skip(pos)) is Some {
        let (node, n) = bracket(s.skip(pos)).unwrap();
        proof {
            lemma_bracket(s.skip(pos));
        }
        plain_nodes(plain) + seq![node] + inline_scan(s, pos + n, seq![])
    } else {
        inline_scan(s, pos + 1, plain.push(s[pos]))
    }
}

/// The inline nodes of a line.
pub open spec fn parse_inline_spec(s: Seq<char>) -> Seq<InlineV> {
    inline_scan(s, 0, seq![])
}

pub open spec fn opt_inline(o: Option<Inline>) -> Option<InlineV> {
    match o {
        Some(i) => Some(i@),
        None => None,
    }
}

// ---------------------------------------------------------------------------
// Implementation.
// ---------------------------------------------------------------------------

/// Runs `char::is_alphanumeric`, the Unicode `Alphabetic` or `Numeric`
/// property; the property itself is named, not stated.
#[verifier::external_body]
fn is_alphanumeric(c: char) -> (b: bool)
    ensures
        b == unicode_alphanumeric(c),
{
    c.is_alphanumeric()
}

/// The inline nodes of `text`.
pub fn parse_inline(text: &str) -> (r: Vec<Inline>)
    ensures
        inlines_view(r@) == parse_inline_spec(text@),
{
    let s = chars_of(text);
    parse_inline_chars(&s)
}

pub fn parse_inline_chars(s: &Vec<char>) -> (r: Vec<Inline>)
    ensures
        inlines_view(r@) == parse_inline_spec(s@),
{
    let mut result: Vec<Inline> = Vec::new();
    let mut plain: Vec<char> = Vec::new();
    let mut pos: usize = 0;
    while pos < s.len()
        invariant
            pos <= s.len(),
            inlines_view(result@) + inline_scan(s@, pos as int, plain@) == parse_inline_spec(s@),
        decreases s.len() - pos,
    {
        let mut taken = false;
        if s[pos] == '[' {
            let b = try_bracket(s, pos);
            proof {
                lemma_bracket(s@.skip(pos as int));
            }
            match b {
                Some((node, n)) => {
                    let ghost before = inlines_view(result@);
                    push_plain(&plain, &mut result);
                    let ghost mid = inlines_view(result@);
                    result.push(node);
                    assert(inlines_view(result@) =~= mid.push(node@));
                    assert(inlines_view(result@) + inline_scan(s@, pos + n, seq![]) =~= before
                        + inline_scan(s@, pos as int, plain@));
                    plain = Vec::new();
                    pos = pos + n;
                    taken = true;
                },
                None => {},
            }
        }
        if !taken {
            plain.push(s[pos]);
            pos = pos + 1;
        }
    }
    push_plain(&plain, &mut result);
    result
}

/// Flushes literal text into nodes, wrapping bare `http(s)` URLs in `AutoLink`.
/// A URL directly after `<` or `(` is left as text (it is inside an existing
/// autolink or markdown link).
#[verifier::rlimit(40)]
fn push_plain(plain: &Vec<char>, out: &mut Vec<Inline>)
    ensures
        inlines_view(final(out)@) == inlines_view(old(out)@) + plain_nodes(plain@),
{
    let ghost t = plain@;
    let mut rest = string_from_chars(plain);
    let ghost mut from: int = 0;
    let ghost mut last: int = 0;
    let mut pending: Vec<char> = Vec::new();
    let mut prev: Option<char> = None;
    assert(t.skip(0) =~= t);
    assert(t.subrange(0, 0) =~= pending@);
    loop
        invariant
            0 <= last <= from <= t.len(),
            t == plain@,
            rest@ == t.skip(from),
            pending@ == t.subrange(last, from),
            prev == (if from > 0 {
                Some(t[from - 1])
            } else {
                None::<char>
            }),
            inlines_view(out@) + plain_scan(t, from, last) == inlines_view(old(out)@)
                + plain_nodes(t),
        decreases t.len() - from,
    {
        let found = find_url(rest.as_str());
        match found {
            None => {
                let rc = chars_of(rest.as_str());
                append_chars(&mut pending, &rc);
                assert(pending@ =~= t.subrange(last, t.len() as int));
                if pending.len() > 0 {
                    let ghost before = inlines_view(out@);
                    let txt = string_from_chars(&pending);
                    out.push(Inline::Text(txt));
                    assert(inlines_view(out@) =~= before.push(InlineV::Text(pending@)));
                } else {
                    assert(plain_scan(t, from, last) =~= Seq::<InlineV>::empty());
                }
                assert(inlines_view(out@) =~= inlines_view(old(out)@) + plain_nodes(t));
                return ;
            },
            Some((b, m, a)) => {
                let ghost u = t.skip(from);
                proof {
                    lemma_url_match(u);
                }
                let ghost ua = url_match(u).unwrap().0;
                let ghost ue = url_match(u).unwrap().1;
                let bc = chars_of(b.as_str());
                let mc = chars_of(m.as_str());
                let ghost ms = from + ua;
                let ghost me = from + ue;
                assert(bc@ =~= t.subrange(from, ms));
                assert(mc@ =~= t.subrange(ms, me));
                let preceded: Option<char> = if bc.len() > 0 {
                    Some(bc[bc.len() - 1])
                } else {
                    prev
                };
                let skip = match preceded {
                    Some(c) => c == '<' || c == '(',
                    None => false,
                };
                assert(skip == (ms > 0 && (t[ms - 1] == '<' || t[ms - 1] == '(')));
                if skip {
                    append_chars(&mut pending, &bc);
                    append_chars(&mut pending, &mc);
                    assert(pending@ =~= t.subrange(last, me));
                } else {
                    append_chars(&mut pending, &bc);
                    assert(pending@ =~= t.subrange(last, ms));
                    let ghost before = inlines_view(out@);
                    if pending.len() > 0 {
                        let txt = string_from_chars(&pending);
                        out.push(Inline::Text(txt));
                    }
                    let ghost mid = inlines_view(out@);
                    assert(mid =~= before + (if ms > last {
                        seq![InlineV::Text(t.subrange(last, ms))]
                    } else {
                        seq![]
                    }));
                    out.push(Inline::AutoLink(m));
                    assert(inlines_view(out@) =~= mid.push(InlineV::AutoLink(t.subrange(ms, me))));
                    pending = Vec::new();
                    proof {
                        last = me;
                    }
                    assert(pending@ =~= t.subrange(last, me));
                }
                prev = Some(mc[mc.len() - 1]);
                rest = a;
                proof {
                    from = me;
                }
                assert(rest@ =~= t.skip(from));
            },
        }
    }
}

/// Parses the bracket span that starts at `s[pos] == '['`: the node and the
/// number of characters it takes.
fn try_bracket(s: &Vec<char>, pos: usize) -> (res: Option<(Inline, usize)>)
    requires
        pos < s.len(),
    ensures
        match bracket(s@.skip(pos as int)) {
            None => res is None,
            Some((node, n)) => res matches Some((i, k)) && i@ == node && k == n,
        },
{
    let r = slice_vec(s, pos, s.len());
    assert(r@ =~= s@.skip(pos as int));
    proof {
        reveal_strlit("[[");
        reveal_strlit("]]");
    }
    if has_at_exec(&r, 0, "[[") {
        let c2 = find_text_exec(&r, "]]", 2);
        proof {
            lemma_find_text(r@, "]]"@, 2);
        }
        if c2 < r.len() {
            let nl = find_from_exec(&r, '\n', 2);
            if nl >= c2 {
                let inner = slice_vec(&r, 2, c2);
                let text = string_from_chars(&inner);
                return Some(
                    (Inline::Emphasis(Emphasis { bold: true, italic: false, strike: false, text }), c2 + 2),
                );
            }
        }
    }
    let c = find_from_exec(&r, ']', 1);
    proof {
        lemma_find_from(r@, ']', 1);
    }
    if c >= r.len() {
        return None;
    }
    let nl = find_from_exec(&r, '\n', 1);
    if nl < c {
        return None;
    }
    if c + 1 < r.len() && r[c + 1] == '(' {
        return None;
    }
    let inner = slice_vec(&r, 1, c);
    Some((classify_bracket(&inner), c + 1))
}

fn classify_bracket(inner: &Vec<char>) -> (r: Inline)
    ensures
        r@ == classify_bracket_spec(inner@),
{
    if let Some(e) = decoration(inner) {
        return Inline::Emphasis(e);
    }
    if let Some(i) = image_directive(inner) {
        return i;
    }
    if let Some(l) = url_bracket(inner) {
        return l;
    }
    if is_tag(inner) {
        return Inline::Tag(string_from_chars(inner));
    }
    let mut raw: Vec<char> = Vec::new();
    raw.push('[');
    append_chars(&mut raw, inner);
    raw.push(']');
    assert(raw@ =~= seq!['['] + inner@ + seq![']']);
    Inline::Unknown(string_from_chars(&raw))
}

fn marked_exec(inner: &Vec<char>, m: &str) -> (b: bool)
    ensures
        b == marked(inner@, m@),
{
    let mv = chars_of(m);
    has_at_exec(inner, 0, m) && mv.len() < inner.len() && is_whitespace(inner[mv.len()])
}

/// The emphasis whose text is `inner` after `n` characters, leading whitespace removed.
fn emphasis_after(inner: &Vec<char>, n: usize, bold: bool, italic: bool, strike: bool) -> (e:
    Emphasis)
    requires
        n <= inner.len(),
    ensures
        e@ == emphasis_v(bold, italic, strike, trim_start(inner@.skip(n as int))),
{
    let after = slice_vec(inner, n, inner.len());
    let text = trim_start_chars(&after);
    Emphasis { bold, italic, strike, text: string_from_chars(&text) }
}

fn decoration(inner: &Vec<char>) -> (r: Option<Emphasis>)
    ensures
        match decoration_spec(inner@) {
            None => r is None,
            Some(e) => r matches Some(x) && x@ == e,
        },
{
    let mut stars: usize = 0;
    while stars < inner.len() && inner[stars] == '*'
        invariant
            stars <= inner.len(),
            run_end(inner@, 0, star_pred()) == run_end(inner@, stars as int, star_pred()),
        decreases inner.len() - stars,
    {
        stars = stars + 1;
    }
    if stars > 0 && stars < inner.len() && is_whitespace(inner[stars]) {
        return Some(emphasis_after(inner, stars, true, false, false));
    }
    if marked_exec(inner, "*/") {
        return Some(emphasis_after(inner, chars_of("*/").len(), true, true, false));
    }
    if marked_exec(inner, "*-") {
        return Some(emphasis_after(inner, chars_of("*-").len(), true, false, true));
    }
    if marked_exec(inner, "/-") {
        return Some(emphasis_after(inner, chars_of("/-").len(), false, true, true));
    }
    if marked_exec(inner, "/") {
        return Some(emphasis_after(inner, chars_of("/").len(), false, true, false));
    }
    if marked_exec(inner, "-") {
        return Some(emphasis_after(inner, chars_of("-").len(), false, false, true));
    }
    None
}

fn image_directive(inner: &Vec<char>) -> (r: Option<Inline>)
    ensures
        opt_inline(r) == image_directive_spec(inner@),
{
    if !marked_exec(inner, "img") {
        return None;
    }
    let n = chars_of("img").len();
    let after = slice_vec(inner, n, inner.len());
    let url = trim_chars(&after);
    if is_http_url(&url) {
        Some(Inline::Image { alt: "img".to_owned(), url: string_from_chars(&url) })
    } else {
        None
    }
}

fn is_http_url(s: &Vec<char>) -> (b: bool)
    ensures
        b == is_http_url_spec(s@),
{
    if !(has_at_exec(s, 0, "http://") || has_at_exec(s, 0, "https://")) {
        return false;
    }
    let mut k: usize = 0;
    while k < s.len()
        invariant
            k <= s.len(),
            forall|m: int| 0 <= m < k ==> !is_ws(#[trigger] s@[m]),
        decreases s.len() - k,
    {
        if is_whitespace(s[k]) {
            return false;
        }
        k = k + 1;
    }
    true
}

pub(crate) fn ends_with_ci_exec(s: &Vec<char>, suffix: &Vec<char>) -> (b: bool)
    ensures
        b == ends_with_ci(s@, suffix@),
{
    if suffix.len() > s.len() {
        return false;
    }
    let off = s.len() - suffix.len();
    let mut k: usize = 0;
    while k < suffix.len()
        invariant
            k <= suffix.len(),
            off == s.len() - suffix.len(),
            forall|m: int|
                0 <= m < k ==> ascii_ci_eq(#[trigger] s@[s@.len() - suffix@.len() + m], suffix@[m]),
        decreases suffix.len() - k,
    {
        let c = s[off + k];
        let p = suffix[k];
        let same = c == p || ('a' <= p && p <= 'z' && (c as u32) == (p as u32) - 32);
        assert(same == ascii_ci_eq(s@[s@.len() - suffix@.len() + k], suffix@[k as int]));
        if !same {
            return false;
        }
        k = k + 1;
    }
    true
}

fn is_image_url(url: &Vec<char>) -> (b: bool)
    ensures
        b == is_image_url_spec(url@),
{
    let mut k: usize = 0;
    while k < 6
        invariant
            k <= 6,
            forall|m: int|
                0 <= m < k ==> !ends_with_ci(url@, seq!['.'] + (#[trigger] IMAGE_EXTENSIONS[m])@),
        decreases 6 - k,
    {
        let mut suffix: Vec<char> = Vec::new();
        suffix.push('.');
        let ext: &str = IMAGE_EXTENSIONS[k];
        let e = chars_of(ext);
        append_chars(&mut suffix, &e);
        assert(suffix@ =~= seq!['.'] + IMAGE_EXTENSIONS[k as int]@);
        if ends_with_ci_exec(url, &suffix) {
            return true;
        }
        k = k + 1;
    }
    false
}

fn is_youtube(url: &Vec<char>) -> (b: bool)
    ensures
        b == is_youtube_spec(url@),
{
    contains_exec(url, "youtube.com/watch") || contains_exec(url, "youtu.be/")
}

fn is_twitter(url: &Vec<char>) -> (b: bool)
    ensures
        b == is_twitter_spec(url@),
{
    (contains_exec(url, "twitter.com/") || contains_exec(url, "x.com/")) && contains_exec(
        url,
        "/status/",
    )
}

fn is_valid_label(label: &Vec<char>) -> (b: bool)
    ensures
        b == is_valid_label_spec(label@),
{
    if label.len() == 0 {
        return false;
    }
    let mut k: usize = 0;
    while k < label.len()
        invariant
            k <= label.len(),
            forall|m: int|
                0 <= m < k ==> {
                    let c = #[trigger] label@[m];
                    c != '/' && c != '-' && c != '*' && c != ']'
                },
        decreases label.len() - k,
    {
        let c = label[k];
        if c == '/' || c == '-' || c == '*' || c == ']' {
            return false;
        }
        k = k + 1;
    }
    true
}

fn is_tag(inner: &Vec<char>) -> (b: bool)
    ensures
        b == is_tag_spec(inner@),
{
    if inner.len() == 0 {
        return false;
    }
    let mut k: usize = 0;
    while k < inner.len()
        invariant
            k <= inner.len(),
            forall|m: int|
                0 <= m < k ==> unicode_alphanumeric(#[trigger] inner@[m]) || inner@[m] == '_',
        decreases inner.len() - k,
    {
        let c = inner[k];
        if !(is_alphanumeric(c) || c == '_') {
            return false;
        }
        k = k + 1;
    }
    true
}

fn first_part_exec(parts: &Vec<Vec<char>>, youtube: bool) -> (k: usize)
    ensures
        k == first_part(
            cviews(parts@),
            0,
            if youtube {
                youtube_pred()
            } else {
                twitter_pred()
            },
        ),
{
    let ghost pred = if youtube {
        youtube_pred()
    } else {
        twitter_pred()
    };
    let mut k: usize = 0;
    while k < parts.len()
        invariant
            k <= parts.len(),
            pred == (if youtube {
                youtube_pred()
            } else {
                twitter_pred()
            }),
            first_part(cviews(parts@), 0, pred) == first_part(cviews(parts@), k as int, pred),
        decreases parts.len() - k,
    {
        let p = &parts[k];
        assert(cviews(parts@)[k as int] == p@);
        assert(youtube_pred()(p@) == (is_http_url_spec(p@) && is_youtube_spec(p@)));
        assert(twitter_pred()(p@) == (is_http_url_spec(p@) && is_twitter_spec(p@)));
        let hit = is_http_url(p) && if youtube {
            is_youtube(p)
        } else {
            is_twitter(p)
        };
        assert(pred(cviews(parts@)[k as int]) == hit);
        if hit {
            return k;
        }
        k = k + 1;
    }
    k
}

fn url_bracket(inner: &Vec<char>) -> (r: Option<Inline>)
    ensures
        opt_inline(r) == url_bracket_spec(inner@),
{
    let parts = words_exec(inner);
    let ghost ps = cviews(parts@);
    if parts.len() == 1 {
        assert(ps[0] == parts[0]@);
        if is_http_url(&parts[0]) {
            let url = string_from_chars(&parts[0]);
            if is_image_url(&parts[0]) {
                return Some(Inline::Image { alt: String::new(), url });
            } else {
                return Some(Inline::AutoLink(url));
            }
        }
        return None;
    }
    if parts.len() < 2 {
        return None;
    }
    assert(ps[0] == parts[0]@);
    if eq_str(&parts[0], "YouTube") {
        let k = first_part_exec(&parts, true);
        if k < parts.len() {
            assert(ps[k as int] == parts[k as int]@);
            return Some(
                Inline::Link { label: "YouTube Video".to_owned(), url: string_from_chars(&parts[k]) },
            );
        }
    }
    if eq_str(&parts[0], "Twitter") {
        let k = first_part_exec(&parts, false);
        if k < parts.len() {
            assert(ps[k as int] == parts[k as int]@);
            return Some(
                Inline::Link { label: "Twitter Post".to_owned(), url: string_from_chars(&parts[k]) },
            );
        }
    }
    let n = parts.len();
    assert(ps.last() == parts[n - 1]@);
    if is_http_url(&parts[n - 1]) {
        let mut head: Vec<Vec<char>> = Vec::new();
        let mut k: usize = 0;
        while k < n - 1
            invariant
                k <= n - 1,
                n == parts.len(),
                cviews(head@) == ps.take(k as int),
                ps == cviews(parts@),
            decreases n - 1 - k,
        {
            let ghost before = cviews(head@);
            let w = slice_vec(&parts[k], 0, parts[k].len());
            assert(w@ =~= ps[k as int]);
            head.push(w);
            assert(cviews(head@) =~= before.push(w@));
            assert(cviews(head@) =~= ps.take(k + 1));
            k = k + 1;
        }
        assert(ps.take((n - 1) as int) =~= ps.drop_last());
        let label = join_exec(&head, " ");
        if is_valid_label(&label) {
            return Some(
                Inline::Link { label: string_from_chars(&label), url: string_from_chars(&parts[n - 1]) },
            );
        }
    }
    if is_http_url(&parts[0]) {
        let mut tail: Vec<Vec<char>> = Vec::new();
        let mut k: usize = 1;
        while k < n
            invariant
                1 <= k <= n,
                n == parts.len(),
                cviews(tail@) == ps.subrange(1, k as int),
                ps == cviews(parts@),
            decreases n - k,
        {
            let ghost before = cviews(tail@);
            let w = slice_vec(&parts[k], 0, parts[k].len());
            assert(w@ =~= ps[k as int]);
            tail.push(w);
            assert(cviews(tail@) =~= before.push(w@));
            assert(cviews(tail@) =~= ps.subrange(1, k + 1));
            k = k + 1;
        }
        assert(ps.subrange(1, n as int) =~= ps.skip(1));
        let label = join_exec(&tail, " ");
        if is_valid_label(&label) {
            return Some(
                Inline::Link { label: string_from_chars(&label), url: string_from_chars(&parts[0]) },
            );
        }
    }
    None
}

} // verus!
