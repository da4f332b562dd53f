//! Character-level text operations on `Seq<char>`, each with the executable
//! counterpart the parser and renderer use. Everything here works on whole
//! characters, so no operation can split a multibyte character.
use vstd::prelude::*;

verus! {

/// The Unicode `White_Space` property: the characters that `char::is_whitespace`
/// and the regex class `\s` both accept.
pub open spec fn is_ws(c: char) -> bool {
    ('\u{9}' <= c && c <= '\u{d}') || c == ' ' || c == '\u{85}' || c == '\u{a0}' || c
        == '\u{1680}' || ('\u{2000}' <= c && c <= '\u{200a}') || c == '\u{2028}' || c
        == '\u{2029}' || c == '\u{202f}' || c == '\u{205f}' || c == '\u{3000}'
}

pub fn is_whitespace(c: char) -> (b: bool)
    ensures
        b == is_ws(c),
{
    ('\u{9}' <= c && c <= '\u{d}') || c == ' ' || c == '\u{85}' || c == '\u{a0}' || c
        == '\u{1680}' || ('\u{2000}' <= c && c <= '\u{200a}') || c == '\u{2028}' || c
        == '\u{2029}' || c == '\u{202f}' || c == '\u{205f}' || c == '\u{3000}'
}

pub open spec fn ws_pred() -> spec_fn(char) -> bool {
    |c: char| is_ws(c)
}

pub open spec fn non_ws_pred() -> spec_fn(char) -> bool {
    |c: char| !is_ws(c)
}

/// End of the run of characters satisfying `p` that starts at `i`.
pub open spec fn run_end(s: Seq<char>, i: int, p: spec_fn(char) -> bool) -> int
    decreases s.len() - i,
{
    if 0 <= i < s.len() && p(s[i]) {
        run_end(s, i + 1, p)
    } else {
        i
    }
}

/// Start of the run of characters satisfying `p` that ends just before `j`.
pub open spec fn run_back(s: Seq<char>, j: int, p: spec_fn(char) -> bool) -> int
    decreases j,
{
    if 0 < j <= s.len() && p(s[j - 1]) {
        run_back(s, j - 1, p)
    } else {
        j
    }
}

pub proof fn lemma_run_end(s: Seq<char>, i: int, p: spec_fn(char) -> bool)
    requires
        0 <= i <= s.len(),
    ensures
        i <= run_end(s, i, p) <= s.len(),
        forall|k: int| i <= k < run_end(s, i, p) ==> #[trigger] p(s[k]),
        run_end(s, i, p) < s.len() ==> !p(s[run_end(s, i, p)]),
    decreases s.len() - i,
{
    if i < s.len() && p(s[i]) {
        lemma_run_end(s, i + 1, p);
    }
}

pub proof fn lemma_run_back(s: Seq<char>, j: int, p: spec_fn(char) -> bool)
    requires
        0 <= j <= s.len(),
    ensures
        0 <= run_back(s, j, p) <= j,
        forall|k: int| run_back(s, j, p) <= k < j ==> #[trigger] p(s[k]),
        run_back(s, j, p) > 0 ==> !p(s[run_back(s, j, p) - 1]),
    decreases j,
{
    if j > 0 && p(s[j - 1]) {
        lemma_run_back(s, j - 1, p);
    }
}

/// `s` with leading whitespace removed (`str::trim_start`).
pub open spec fn trim_start(s: Seq<char>) -> Seq<char> {
    s.skip(run_end(s, 0, ws_pred()))
}

/// `s` with trailing whitespace removed (`str::trim_end`).
pub open spec fn trim_end(s: Seq<char>) -> Seq<char> {
    s.take(run_back(s, s.len() as int, ws_pred()))
}

/// `s` with leading and trailing whitespace removed (`str::trim`).
pub open spec fn trim(s: Seq<char>) -> Seq<char> {
    trim_end(trim_start(s))
}

/// Whether `s` is empty or all whitespace.
pub open spec fn is_blank(s: Seq<char>) -> bool {
    forall|k: int| 0 <= k < s.len() ==> is_ws(#[trigger] s[k])
}

/// `s` has the text `p` at position `i`.
pub open spec fn has_at(s: Seq<char>, i: int, p: Seq<char>) -> bool {
    0 <= i && i + p.len() <= s.len() && s.subrange(i, i + p.len()) == p
}

pub open spec fn starts_with(s: Seq<char>, p: Seq<char>) -> bool {
    has_at(s, 0, p)
}

/// First index at or after `i` that holds `c`, or `s.len()` when there is none.
pub open spec fn find_from(s: Seq<char>, c: char, i: int) -> int
    decreases s.len() - i,
{
    if i < 0 || i >= s.len() {
        s.len() as int
    } else if s[i] == c {
        i
    } else {
        find_from(s, c, i + 1)
    }
}

pub proof fn lemma_find_from(s: Seq<char>, c: char, i: int)
    requires
        0 <= i <= s.len(),
    ensures
        i <= find_from(s, c, i) <= s.len(),
        forall|k: int| i <= k < find_from(s, c, i) ==> #[trigger] s[k] != c,
        find_from(s, c, i) < s.len() ==> s[find_from(s, c, i)] == c,
    decreases s.len() - i,
{
    if i < s.len() && s[i] != c {
        lemma_find_from(s, c, i + 1);
    }
}

/// Pieces of `s` between occurrences of `c` (`str::split`), from index `i` on.
pub open spec fn split_from(s: Seq<char>, c: char, i: int) -> Seq<Seq<char>>
    decreases s.len() - i,
{
    let j = find_from(s, c, i);
    if i < 0 || i > s.len() || j >= s.len() || j < i {
        seq![s.subrange(i, s.len() as int)]
    } else {
        seq![s.subrange(i, j)] + split_from(s, c, j + 1)
    }
}

/// `str::split` with a single-character separator.
pub open spec fn split(s: Seq<char>, c: char) -> Seq<Seq<char>> {
    split_from(s, c, 0)
}

/// `parts` joined with `sep` between each pair (`[..].join(sep)`).
pub open spec fn join(parts: Seq<Seq<char>>, sep: Seq<char>) -> Seq<char>
    decreases parts.len(),
{
    if parts.len() == 0 {
        seq![]
    } else if parts.len() == 1 {
        parts[0]
    } else {
        join(parts.drop_last(), sep) + sep + parts.last()
    }
}

/// Drops one `'\r'` from the end of a line that was ended by `'\n'`.
pub open spec fn strip_cr(line: Seq<char>) -> Seq<char> {
    if line.len() > 0 && line.last() == '\r' {
        line.drop_last()
    } else {
        line
    }
}

/// The lines of `s` from index `i` on (`str::lines`): split at `'\n'`, a
/// `'\r'` just before a `'\n'` dropped, and no empty line after a final `'\n'`.
pub open spec fn lines_from(s: Seq<char>, i: int) -> Seq<Seq<char>>
    decreases s.len() - i,
{
    if i < 0 || i >= s.len() {
        seq![]
    } else {
        let j = find_from(s, '\n', i);
        if j >= s.len() || j < i {
            seq![s.subrange(i, s.len() as int)]
        } else {
            seq![strip_cr(s.subrange(i, j))] + lines_from(s, j + 1)
        }
    }
}

pub open spec fn lines(s: Seq<char>) -> Seq<Seq<char>> {
    lines_from(s, 0)
}

// ---------------------------------------------------------------------------
// Executable counterparts.
// ---------------------------------------------------------------------------

/// The characters of a string slice, in order.
pub fn chars_of(s: &str) -> (v: Vec<char>)
    ensures
        v@ == s@,
{
    let mut v: Vec<char> = Vec::new();
    for c in it: s.chars()
        invariant
            v@ == it.seq().take(it.index() as int),
    {
        v.push(c);
    }
    v
}

/// A copy of `v[a..b]`.
pub fn slice_vec(v: &Vec<char>, a: usize, b: usize) -> (r: Vec<char>)
    requires
        a <= b <= v.len(),
    ensures
        r@ == v@.subrange(a as int, b as int),
{
    let mut r: Vec<char> = Vec::new();
    let mut k = a;
    while k < b
        invariant
            a <= k <= b <= v.len(),
            r@ == v@.subrange(a as int, k as int),
        decreases b - k,
    {
        r.push(v[k]);
        k = k + 1;
        assert(r@ =~= v@.subrange(a as int, k as int));
    }
    r
}

/// Appends all of `w` to `v`.
pub fn append_chars(v: &mut Vec<char>, w: &Vec<char>)
    ensures
        final(v)@ == old(v)@ + w@,
{
    let mut k: usize = 0;
    while k < w.len()
        invariant
            k <= w.len(),
            v@ == old(v)@ + w@.take(k as int),
        decreases w.len() - k,
    {
        v.push(w[k]);
        k = k + 1;
        assert(v@ =~= old(v)@ + w@.take(k as int));
    }
    assert(w@.take(w.len() as int) =~= w@);
}

/// Appends the characters of `s` to `v`.
pub fn append_str(v: &mut Vec<char>, s: &str)
    ensures
        final(v)@ == old(v)@ + s@,
{
    let w = chars_of(s);
    append_chars(v, &w);
}

pub fn ws_end(v: &Vec<char>, i: usize) -> (e: usize)
    requires
        i <= v.len(),
    ensures
        e == run_end(v@, i as int, ws_pred()),
{
    let mut k = i;
    while k < v.len() && is_whitespace(v[k])
        invariant
            i <= k <= v.len(),
            run_end(v@, i as int, ws_pred()) == run_end(v@, k as int, ws_pred()),
        decreases v.len() - k,
    {
        k = k + 1;
    }
    k
}

pub fn ws_back(v: &Vec<char>, j: usize) -> (b: usize)
    requires
        j <= v.len(),
    ensures
        b == run_back(v@, j as int, ws_pred()),
{
    let mut k = j;
    while k > 0 && is_whitespace(v[k - 1])
        invariant
            k <= j <= v.len(),
            run_back(v@, j as int, ws_pred()) == run_back(v@, k as int, ws_pred()),
        decreases k,
    {
        k = k - 1;
    }
    k
}

pub fn trim_start_chars(v: &Vec<char>) -> (r: Vec<char>)
    ensures
        r@ == trim_start(v@),
{
    let a = ws_end(v, 0);
    proof {
        lemma_run_end(v@, 0, ws_pred());
    }
    slice_vec(v, a, v.len())
}

pub fn trim_end_chars(v: &Vec<char>) -> (r: Vec<char>)
    ensures
        r@ == trim_end(v@),
{
    let b = ws_back(v, v.len());
    proof {
        lemma_run_back(v@, v@.len() as int, ws_pred());
    }
    slice_vec(v, 0, b)
}

pub fn trim_chars(v: &Vec<char>) -> (r: Vec<char>)
    ensures
        r@ == trim(v@),
{
    let t = trim_start_chars(v);
    trim_end_chars(&t)
}

/// Whether `v` holds the text `p` at position `i`.
pub fn has_at_exec(v: &Vec<char>, i: usize, p: &str) -> (b: bool)
    ensures
        b == has_at(v@, i as int, p@),
{
    let pv = chars_of(p);
    if i > v.len() || pv.len() > v.len() - i {
        return false;
    }
    let mut k: usize = 0;
    while k < pv.len()
        invariant
            k <= pv.len(),
            i + pv.len() <= v.len(),
            pv@ == p@,
            forall|m: int| 0 <= m < k ==> v@[i + m] == pv@[m],
        decreases pv.len() - k,
    {
        if v[i + k] != pv[k] {
            assert(v@.subrange(i as int, i + pv@.len())[k as int] != p@[k as int]);
            return false;
        }
        k = k + 1;
    }
    assert(v@.subrange(i as int, i + pv@.len()) =~= p@);
    true
}

pub fn find_from_exec(v: &Vec<char>, c: char, i: usize) -> (j: usize)
    requires
        i <= v.len(),
    ensures
        j == find_from(v@, c, i as int),
{
    let mut k = i;
    while k < v.len() && v[k] != c
        invariant
            i <= k <= v.len(),
            find_from(v@, c, i as int) == find_from(v@, c, k as int),
        decreases v.len() - k,
    {
        k = k + 1;
    }
    k
}

/// The lines of `s` (`str::lines`).
pub fn lines_exec(s: &Vec<char>) -> (r: Vec<Vec<char>>)
    ensures
        r@.map_values(|l: Vec<char>| l@) == lines(s@),
{
    let mut r: Vec<Vec<char>> = Vec::new();
    let mut i: usize = 0;
    while i < s.len()
        invariant
            i <= s.len(),
            r@.map_values(|l: Vec<char>| l@) + lines_from(s@, i as int) == lines(s@),
        decreases s.len() - i,
    {
        let j = find_from_exec(s, '\n', i);
        proof {
            lemma_find_from(s@, '\n', i as int);
        }
        let ghost before = r@.map_values(|l: Vec<char>| l@);
        if j >= s.len() {
            let line = slice_vec(s, i, s.len());
            r.push(line);
            assert(r@.map_values(|l: Vec<char>| l@) =~= before.push(line@));
            assert(lines_from(s@, s@.len() as int) =~= Seq::<Seq<char>>::empty());
            i = s.len();
        } else {
            let mut line = slice_vec(s, i, j);
            if line.len() > 0 && line[line.len() - 1] == '\r' {
                line.pop();
                assert(line@ =~= strip_cr(s@.subrange(i as int, j as int)));
            }
            r.push(line);
            assert(r@.map_values(|l: Vec<char>| l@) =~= before.push(line@));
            i = j + 1;
        }
    }
    assert(lines_from(s@, i as int) =~= Seq::<Seq<char>>::empty());
    r
}


/// First index at or after `i` where `s` holds the text `p`, or `s.len()`.
pub open spec fn find_text(s: Seq<char>, p: Seq<char>, i: int) -> int
    decreases s.len() - i,
{
    if i < 0 || i >= s.len() {
        s.len() as int
    } else if has_at(s, i, p) {
        i
    } else {
        find_text(s, p, i + 1)
    }
}

pub proof fn lemma_find_text(s: Seq<char>, p: Seq<char>, i: int)
    requires
        0 <= i <= s.len(),
    ensures
        i <= find_text(s, p, i) <= s.len(),
        forall|k: int| i <= k < find_text(s, p, i) ==> !#[trigger] has_at(s, k, p),
        find_text(s, p, i) < s.len() ==> has_at(s, find_text(s, p, i), p),
    decreases s.len() - i,
{
    if i < s.len() && !has_at(s, i, p) {
        lemma_find_text(s, p, i + 1);
    }
}

/// Whether `s` contains the text `p` (`str::contains`).
pub open spec fn contains_text(s: Seq<char>, p: Seq<char>) -> bool {
    exists|k: int| #[trigger] has_at(s, k, p)
}

pub open spec fn cviews(v: Seq<Vec<char>>) -> Seq<Seq<char>> {
    v.map_values(|p: Vec<char>| p@)
}

/// The whitespace-separated words of `s` from index `i` on (`str::split_whitespace`).
pub open spec fn words_from(s: Seq<char>, i: int) -> Seq<Seq<char>>
    decreases s.len() - i,
{
    let a = run_end(s, i, ws_pred());
    if i < 0 || i > s.len() || a >= s.len() {
        seq![]
    } else {
        let b = run_end(s, a, non_ws_pred());
        proof {
            lemma_run_end(s, i, ws_pred());
            lemma_run_end(s, a, non_ws_pred());
            assert(!ws_pred()(s[a]));
        }
        seq![s.subrange(a, b)] + words_from(s, b)
    }
}

pub open spec fn words(s: Seq<char>) -> Seq<Seq<char>> {
    words_from(s, 0)
}

pub fn non_ws_end(v: &Vec<char>, i: usize) -> (e: usize)
    requires
        i <= v.len(),
    ensures
        e == run_end(v@, i as int, non_ws_pred()),
{
    let mut k = i;
    while k < v.len() && !is_whitespace(v[k])
        invariant
            i <= k <= v.len(),
            run_end(v@, i as int, non_ws_pred()) == run_end(v@, k as int, non_ws_pred()),
        decreases v.len() - k,
    {
        k = k + 1;
    }
    k
}

/// The whitespace-separated words of `s`.
pub fn words_exec(s: &Vec<char>) -> (r: Vec<Vec<char>>)
    ensures
        cviews(r@) == words(s@),
{
    let mut r: Vec<Vec<char>> = Vec::new();
    let mut i: usize = 0;
    loop
        invariant
            i <= s.len(),
            cviews(r@) + words_from(s@, i as int) == words(s@),
        decreases s.len() - i,
    {
        let a = ws_end(s, i);
        proof {
            lemma_run_end(s@, i as int, ws_pred());
        }
        if a >= s.len() {
            assert(words_from(s@, i as int) =~= Seq::<Seq<char>>::empty());
            assert(cviews(r@) + words_from(s@, i as int) =~= cviews(r@));
            return r;
        }
        let b = non_ws_end(s, a);
        proof {
            lemma_run_end(s@, a as int, non_ws_pred());
            assert(!ws_pred()(s@[a as int]));
        }
        let w = slice_vec(s, a, b);
        let ghost before = cviews(r@);
        r.push(w);
        assert(cviews(r@) =~= before.push(w@));
        i = b;
    }
}

/// The texts of `parts` joined with `sep`.
pub fn join_exec(parts: &Vec<Vec<char>>, sep: &str) -> (r: Vec<char>)
    ensures
        r@ == join(cviews(parts@), sep@),
{
    let mut r: Vec<char> = Vec::new();
    let mut k: usize = 0;
    while k < parts.len()
        invariant
            k <= parts.len(),
            r@ == join(cviews(parts@).take(k as int), sep@),
        decreases parts.len() - k,
    {
        if k > 0 {
            append_str(&mut r, sep);
        }
        append_chars(&mut r, &parts[k]);
        proof {
            let ps = cviews(parts@);
            assert(ps.take(k + 1).drop_last() =~= ps.take(k as int));
            if k == 0 {
                assert(r@ =~= ps.take(1)[0]);
            }
        }
        k = k + 1;
    }
    assert(cviews(parts@).take(parts.len() as int) =~= cviews(parts@));
    r
}

/// First index at or after `i` where `v` holds `p`, or `v.len()`.
pub fn find_text_exec(v: &Vec<char>, p: &str, i: usize) -> (j: usize)
    requires
        i <= v.len(),
    ensures
        j == find_text(v@, p@, i as int),
{
    let mut k = i;
    while k < v.len() && !has_at_exec(v, k, p)
        invariant
            i <= k <= v.len(),
            find_text(v@, p@, i as int) == find_text(v@, p@, k as int),
        decreases v.len() - k,
    {
        k = k + 1;
    }
    k
}

pub fn contains_exec(v: &Vec<char>, p: &str) -> (b: bool)
    ensures
        b == contains_text(v@, p@),
{
    let pv = chars_of(p);
    if pv.len() == 0 {
        assert(has_at(v@, 0, p@)) by {
            assert(v@.subrange(0, 0) =~= p@);
        }
        return true;
    }
    let j = find_text_exec(v, p, 0);
    proof {
        lemma_find_text(v@, p@, 0);
        if j >= v@.len() {
            assert forall|k: int| !#[trigger] has_at(v@, k, p@) by {
                if 0 <= k < v@.len() {
                }
            }
        }
    }
    j < v.len()
}

/// Whether `v` and `p` hold the same text.
pub fn eq_str(v: &Vec<char>, p: &str) -> (b: bool)
    ensures
        b == (v@ == p@),
{
    let pv = chars_of(p);
    if pv.len() != v.len() {
        return false;
    }
    let b = has_at_exec(v, 0, p);
    proof {
        if b {
            assert(v@.subrange(0, v@.len() as int) =~= v@);
        } else {
            assert(v@.subrange(0, v@.len() as int) =~= v@);
        }
    }
    b
}


/// Collects characters into a `String` (`FromIterator<char>` for `String`): the
/// result holds exactly the characters of `v`, in order.
#[verifier::external_body]
pub(crate) fn string_from_chars(v: &Vec<char>) -> (s: String)
    ensures
        s@ == v@,
{
    v.iter().collect()
}

} // verus!
