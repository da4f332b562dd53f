//! Tokenizer, then block parser. Indentation and line slicing are done by
//! character, never by byte offset, so tab / full-width-space (U+3000)
//! indents and multibyte content never split a character.
use vstd::prelude::*;
use crate::ast::{blocks_view, strs, Block, BlockV, Document, ListItem, ListItemV};
use crate::inline::{ends_with_ci, ends_with_ci_exec};
use crate::patterns::{heading_match, match_heading};
use crate::text::{
    append_chars, chars_of, cviews, has_at, has_at_exec, is_blank, is_whitespace,
    join, join_exec, lemma_run_end, lines, lines_exec, run_end, slice_vec,
    split, split_from, find_from_exec, lemma_find_from, string_from_chars, trim,
    trim_chars,
};

verus! {

// ---------------------------------------------------------------------------
// Tokens.
// ---------------------------------------------------------------------------

pub enum TokenKind {
    Blank,
    Heading { level: usize, text: Vec<char> },
    Fence { language: Vec<char> },
    CodeDirective { descriptor: Vec<char> },
    TableDirective { title: Option<Vec<char>> },
    Text,
}

pub struct Token {
    pub raw: Vec<char>,
    /// Number of leading indentation characters (space, tab, U+3000).
    pub indent: usize,
    pub kind: TokenKind,
}

pub enum TokenKindV {
    Blank,
    Heading { level: nat, text: Seq<char> },
    Fence { language: Seq<char> },
    CodeDirective { descriptor: Seq<char> },
    TableDirective { title: Option<Seq<char>> },
    Text,
}

pub struct TokenV {
    pub raw: Seq<char>,
    pub indent: nat,
    pub kind: TokenKindV,
}

impl View for TokenKind {
    type V = TokenKindV;

    open spec fn view(&self) -> TokenKindV {
        match self {
            TokenKind::Blank => TokenKindV::Blank,
            TokenKind::Heading { level, text } => TokenKindV::Heading {
                level: *level as nat,
                text: text@,
            },
            TokenKind::Fence { language } => TokenKindV::Fence { language: language@ },
            TokenKind::CodeDirective { descriptor } => TokenKindV::CodeDirective {
                descriptor: descriptor@,
            },
            TokenKind::TableDirective { title } => TokenKindV::TableDirective {
                title: match title {
                    Some(t) => Some(t@),
                    None => None,
                },
            },
            TokenKind::Text => TokenKindV::Text,
        }
    }
}

impl View for Token {
    type V = TokenV;

    open spec fn view(&self) -> TokenV {
        TokenV { raw: self.raw@, indent: self.indent as nat, kind: self.kind@ }
    }
}

pub open spec fn tokens_view(v: Seq<Token>) -> Seq<TokenV> {
    v.map_values(|t: Token| t@)
}

/// Space, tab and U+3000 (full-width space) indent a line.
pub open spec fn indent_char(c: char) -> bool {
    c == ' ' || c == '\t' || c == '\u{3000}'
}

pub open spec fn indent_pred() -> spec_fn(char) -> bool {
    |c: char| indent_char(c)
}

/// Number of leading indentation characters of `s`.
pub open spec fn leading_ws_spec(s: Seq<char>) -> nat {
    run_end(s, 0, indent_pred()) as nat
}

/// The token kind of one line.
pub open spec fn kind_of(raw: Seq<char>) -> TokenKindV {
    let indent = leading_ws_spec(raw);
    let stripped = raw.skip(indent as int);
    if stripped.len() == 0 {
        TokenKindV::Blank
    } else if heading_match(raw) is Some {
        let (stars, heading, trailing) = heading_match(raw).unwrap();
        TokenKindV::Heading { level: stars.len(), text: trim(trim(heading) + trailing) }
    } else if has_at(stripped, 0, "```"@) {
        TokenKindV::Fence { language: trim(stripped.skip("```"@.len() as int)) }
    } else if has_at(stripped, 0, "code:"@) {
        TokenKindV::CodeDirective { descriptor: trim(stripped.skip("code:"@.len() as int)) }
    } else if indent == 0 && has_at(stripped, 0, "table:"@) {
        let t = trim(stripped.skip("table:"@.len() as int));
        TokenKindV::TableDirective {
            title: if t.len() > 0 {
                Some(t)
            } else {
                None
            },
        }
    } else {
        TokenKindV::Text
    }
}

pub open spec fn token_of(raw: Seq<char>) -> TokenV {
    TokenV { raw, indent: leading_ws_spec(raw), kind: kind_of(raw) }
}

/// One token per line of the text.
pub open spec fn tokenize_spec(text: Seq<char>) -> Seq<TokenV> {
    lines(text).map_values(|l: Seq<char>| token_of(l))
}

// ---------------------------------------------------------------------------
// Block rules.
// ---------------------------------------------------------------------------

pub open spec fn is_directive(k: TokenKindV) -> bool {
    k is CodeDirective || k is TableDirective
}

/// First index at or after `i` of a fence token at indentation `base`.
pub open spec fn fence_end(toks: Seq<TokenV>, i: int, base: nat) -> int
    decreases toks.len() - i,
{
    if i < 0 || i >= toks.len() {
        toks.len() as int
    } else if toks[i].kind is Fence && toks[i].indent == base {
        i
    } else {
        fence_end(toks, i + 1, base)
    }
}

/// A fenced code line: the fence's own indentation removed when the line has it.
pub open spec fn fence_line(raw: Seq<char>, prefix: Seq<char>) -> Seq<char> {
    if has_at(raw, 0, prefix) {
        raw.skip(prefix.len() as int)
    } else {
        raw
    }
}

/// A fenced code block opened at `start`: its lines run to the next fence at
/// the same indentation (or to the end), which closes it.
pub open spec fn fenced(toks: Seq<TokenV>, start: int, language: Seq<char>) -> (BlockV, int) {
    let base = toks[start].indent;
    let prefix = toks[start].raw.take(base as int);
    let end = fence_end(toks, start + 1, base);
    let lines = toks.subrange(start + 1, end).map_values(|t: TokenV| fence_line(t.raw, prefix));
    (
        BlockV::Code { language, lines, indent: prefix },
        if end < toks.len() {
            end + 1
        } else {
            end
        },
    )
}

/// First index at or after `i` of a non-blank token, or `toks.len()`.
pub open spec fn next_nonblank(toks: Seq<TokenV>, i: int) -> int
    decreases toks.len() - i,
{
    if i < 0 || i >= toks.len() {
        toks.len() as int
    } else if !is_blank(toks[i].raw) {
        i
    } else {
        next_nonblank(toks, i + 1)
    }
}

/// Where the body of a `code:` block whose directive has indentation `base`
/// ends: at a directive, at a non-blank line not deeper than `base`, or at a
/// blank run followed by one of those. A blank run that reaches the end of the
/// text belongs to the block.
pub open spec fn code_end(toks: Seq<TokenV>, i: int, base: nat) -> int
    decreases toks.len() - i,
{
    if i < 0 || i >= toks.len() {
        toks.len() as int
    } else if is_directive(toks[i].kind) {
        i
    } else if is_blank(toks[i].raw) {
        let nx = next_nonblank(toks, i + 1);
        if nx >= toks.len() {
            toks.len() as int
        } else if is_directive(toks[nx].kind) || toks[nx].indent <= base {
            i
        } else {
            code_end(toks, i + 1, base)
        }
    } else if toks[i].indent > base {
        code_end(toks, i + 1, base)
    } else {
        i
    }
}

/// Smallest indentation of the non-blank lines, if any.
pub open spec fn min_indent(ls: Seq<Seq<char>>) -> Option<nat>
    decreases ls.len(),
{
    if ls.len() == 0 {
        None
    } else {
        let rest = min_indent(ls.drop_last());
        let l = ls.last();
        if is_blank(l) {
            rest
        } else {
            match rest {
                None => Some(leading_ws_spec(l)),
                Some(m) => Some(
                    if leading_ws_spec(l) < m {
                        leading_ws_spec(l)
                    } else {
                        m
                    },
                ),
            }
        }
    }
}

/// `ls` without its trailing empty lines.
pub open spec fn drop_trailing_empty(ls: Seq<Seq<char>>) -> Seq<Seq<char>>
    decreases ls.len(),
{
    if ls.len() > 0 && ls.last().len() == 0 {
        drop_trailing_empty(ls.drop_last())
    } else {
        ls
    }
}

/// A blank code line becomes empty; another loses its first `m` characters.
pub open spec fn normalize_line(l: Seq<char>, m: nat) -> Seq<char> {
    if is_blank(l) {
        seq![]
    } else {
        l.skip(m as int)
    }
}

/// Code lines with their common indentation removed, blank lines emptied and
/// trailing empty lines dropped.
pub open spec fn normalize_code_lines_spec(ls: Seq<Seq<char>>) -> Seq<Seq<char>> {
    match min_indent(ls) {
        None => seq![],
        Some(m) => drop_trailing_empty(ls.map_values(|l: Seq<char>| normalize_line(l, m))),
    }
}

/// Index of the last `c` in `s`, or -1.
pub open spec fn last_index_of(s: Seq<char>, c: char, j: int) -> int
    decreases j,
{
    if j <= 0 || j > s.len() {
        -1
    } else if s[j - 1] == c {
        j - 1
    } else {
        last_index_of(s, c, j - 1)
    }
}

/// The language of a `code:` descriptor: the text after its last `.`, or the
/// whole descriptor when it has none.
pub open spec fn infer_language_spec(d: Seq<char>) -> Seq<char> {
    let k = last_index_of(d, '.', d.len() as int);
    if d.len() == 0 {
        seq![]
    } else if k >= 0 {
        d.skip(k + 1)
    } else {
        d
    }
}

/// The descriptor is `tex` in any ASCII case.
pub open spec fn is_tex(d: Seq<char>) -> bool {
    d.len() == 3 && ends_with_ci(d, "tex"@)
}

/// A `code:` block opened at `start`.
pub open spec fn code_block(toks: Seq<TokenV>, start: int, descriptor: Seq<char>) -> (BlockV, int) {
    let base = toks[start].indent;
    let indent = toks[start].raw.take(base as int);
    let end = code_end(toks, start + 1, base);
    let ls = normalize_code_lines_spec(toks.subrange(start + 1, end).map_values(|t: TokenV| t.raw));
    (
        if is_tex(descriptor) {
            BlockV::Math { lines: ls, indent }
        } else {
            BlockV::Code { language: infer_language_spec(descriptor), lines: ls, indent }
        },
        end,
    )
}

/// First index at or after `i` of a token that is unindented or blank.
pub open spec fn item_end(toks: Seq<TokenV>, i: int) -> int
    decreases toks.len() - i,
{
    if i < 0 || i >= toks.len() {
        toks.len() as int
    } else if toks[i].indent == 0 || is_blank(toks[i].raw) {
        i
    } else {
        item_end(toks, i + 1)
    }
}

/// Table cells: the content split at tabs, each cell trimmed.
pub open spec fn split_cells_spec(content: Seq<char>) -> Seq<Seq<char>> {
    split(content, '\t').map_values(|c: Seq<char>| trim(c))
}

/// A `table:` block opened at `start`: its rows are the following indented,
/// non-blank lines; the first row is the header. No rows, no table.
pub open spec fn table(toks: Seq<TokenV>, start: int, title: Option<Seq<char>>) -> (
    Option<BlockV>,
    int,
) {
    let end = item_end(toks, start + 1);
    let rows = toks.subrange(start + 1, end).map_values(|t: TokenV| split_cells_spec(trim(t.raw)));
    (
        if rows.len() == 0 {
            None
        } else {
            Some(BlockV::Table { title, header: rows[0], rows: rows.skip(1) })
        },
        end,
    )
}

/// `stack` with every depth at least `d` popped off its top.
pub open spec fn pop_until(stack: Seq<int>, d: int) -> Seq<int>
    decreases stack.len(),
{
    if stack.len() > 0 && stack.last() >= d {
        pop_until(stack.drop_last(), d)
    } else {
        stack
    }
}

/// Levels of the items from `i` on: an item's level is the number of earlier
/// items still open above it, an item staying open until one at the same or a
/// smaller depth follows.
pub open spec fn levels_from(depths: Seq<int>, i: int, stack: Seq<int>) -> Seq<nat>
    decreases depths.len() - i,
{
    if i < 0 || i >= depths.len() {
        seq![]
    } else {
        let st = pop_until(stack, depths[i]);
        seq![st.len()] + levels_from(depths, i + 1, st.push(depths[i]))
    }
}

pub open spec fn levels(depths: Seq<int>) -> Seq<nat> {
    levels_from(depths, 0, seq![])
}

/// A bullet list starting at `start`: the indented, non-blank lines from there;
/// an item's depth is its indentation less one.
pub open spec fn list(toks: Seq<TokenV>, start: int) -> (BlockV, int) {
    let end = item_end(toks, start);
    let items = toks.subrange(start, end);
    let lv = levels(items.map_values(|t: TokenV| t.indent - 1));
    (
        BlockV::BulletList {
            items: Seq::new(
                items.len(),
                |k: int| ListItemV { level: lv[k], text: trim(items[k].raw) },
            ),
        },
        end,
    )
}

pub open spec fn flush(para: Seq<Seq<char>>) -> Seq<BlockV> {
    if para.len() == 0 {
        seq![]
    } else {
        seq![BlockV::Paragraph { text: join(para, "\n"@) }]
    }
}

/// The blocks of the tokens from `i` on, with `para` the paragraph lines
/// collected so far.
pub open spec fn parse_from(toks: Seq<TokenV>, i: int, para: Seq<Seq<char>>) -> Seq<BlockV>
    decreases toks.len() - i,
{
    if i < 0 || i >= toks.len() {
        flush(para)
    } else {
        let t = toks[i];
        proof {
            lemma_scan_ends(toks, i);
        }
        match t.kind {
            TokenKindV::Blank => flush(para) + seq![BlockV::BlankLine] + parse_from(toks, i + 1, seq![]),
            TokenKindV::Heading { level, text } => flush(para) + seq![
                BlockV::Heading { level, text },
            ] + parse_from(toks, i + 1, seq![]),
            TokenKindV::Fence { language } => {
                let (b, n) = fenced(toks, i, language);
                flush(para) + seq![b] + parse_from(toks, n, seq![])
            },
            TokenKindV::CodeDirective { descriptor } => {
                let (b, n) = code_block(toks, i, descriptor);
                flush(para) + seq![b] + parse_from(toks, n, seq![])
            },
            TokenKindV::TableDirective { title } => {
                let (b, n) = table(toks, i, title);
                flush(para) + (match b {
                    Some(b) => seq![b],
                    None => seq![],
                }) + parse_from(toks, n, seq![])
            },
            TokenKindV::Text => if t.indent == 0 {
                parse_from(toks, i + 1, para.push(t.raw))
            } else if is_blank(t.raw) {
                flush(para) + seq![BlockV::BlankLine] + parse_from(toks, i + 1, seq![])
            } else {
                let (b, n) = list(toks, i);
                flush(para) + seq![b] + parse_from(toks, n, seq![])
            },
        }
    }
}

/// The document of a text.
pub open spec fn parse_spec(text: Seq<char>) -> Seq<BlockV> {
    parse_from(tokenize_spec(text), 0, seq![])
}

pub proof fn lemma_fence_end(toks: Seq<TokenV>, i: int, base: nat)
    requires
        0 <= i <= toks.len(),
    ensures
        i <= fence_end(toks, i, base) <= toks.len(),
    decreases toks.len() - i,
{
    if i < toks.len() && !(toks[i].kind is Fence && toks[i].indent == base) {
        lemma_fence_end(toks, i + 1, base);
    }
}

pub proof fn lemma_code_end(toks: Seq<TokenV>, i: int, base: nat)
    requires
        0 <= i <= toks.len(),
    ensures
        i <= code_end(toks, i, base) <= toks.len(),
    decreases toks.len() - i,
{
    if i < toks.len() {
        lemma_code_end(toks, i + 1, base);
    }
}

pub proof fn lemma_item_end(toks: Seq<TokenV>, i: int)
    requires
        0 <= i <= toks.len(),
    ensures
        i <= item_end(toks, i) <= toks.len(),
        forall|k: int|
            i <= k < item_end(toks, i) ==> #[trigger] toks[k].indent != 0 && !is_blank(
                toks[k].raw,
            ),
    decreases toks.len() - i,
{
    if i < toks.len() && toks[i].indent != 0 && !is_blank(toks[i].raw) {
        lemma_item_end(toks, i + 1);
    }
}

/// Every block rule that starts at `i` ends past `i`.
pub proof fn lemma_scan_ends(toks: Seq<TokenV>, i: int)
    requires
        0 <= i < toks.len(),
    ensures
        i < fenced(toks, i, seq![]).1 <= toks.len(),
        i < code_block(toks, i, seq![]).1 <= toks.len(),
        i < table(toks, i, None).1 <= toks.len(),
        toks[i].indent != 0 && !is_blank(toks[i].raw) ==> i < list(toks, i).1 <= toks.len(),
{
    lemma_fence_end(toks, i + 1, toks[i].indent);
    lemma_code_end(toks, i + 1, toks[i].indent);
    lemma_item_end(toks, i + 1);
    lemma_item_end(toks, i);
}


pub open spec fn token_wf(t: TokenV) -> bool {
    t == token_of(t.raw)
}

pub open spec fn tokens_wf(toks: Seq<TokenV>) -> bool {
    forall|k: int| 0 <= k < toks.len() ==> token_wf(#[trigger] toks[k])
}

pub proof fn lemma_token(raw: Seq<char>)
    ensures
        leading_ws_spec(raw) <= raw.len(),
        (kind_of(raw) is Blank) <==> leading_ws_spec(raw) == raw.len(),
        leading_ws_spec(raw) < raw.len() ==> !indent_char(raw[leading_ws_spec(raw) as int]),
        forall|k: int| 0 <= k < leading_ws_spec(raw) ==> indent_char(#[trigger] raw[k]),
{
    lemma_run_end(raw, 0, indent_pred());
    let n = leading_ws_spec(raw);
    if n < raw.len() {
        assert(!indent_pred()(raw[n as int]));
    }
    assert forall|k: int| 0 <= k < leading_ws_spec(raw) implies indent_char(#[trigger] raw[k]) by {
        assert(indent_pred()(raw[k]));
    }
}

// ---------------------------------------------------------------------------
// Implementation.
// ---------------------------------------------------------------------------

fn leading_ws(v: &Vec<char>) -> (n: usize)
    ensures
        n == leading_ws_spec(v@),
{
    let mut k: usize = 0;
    while k < v.len() && (v[k] == ' ' || v[k] == '\t' || v[k] == '\u{3000}')
        invariant
            k <= v.len(),
            run_end(v@, 0, indent_pred()) == run_end(v@, k as int, indent_pred()),
        decreases v.len() - k,
    {
        k = k + 1;
    }
    k
}

pub fn is_blank_exec(v: &Vec<char>) -> (b: bool)
    ensures
        b == is_blank(v@),
{
    let mut k: usize = 0;
    while k < v.len()
        invariant
            k <= v.len(),
            forall|m: int| 0 <= m < k ==> crate::text::is_ws(#[trigger] v@[m]),
        decreases v.len() - k,
    {
        if !is_whitespace(v[k]) {
            return false;
        }
        k = k + 1;
    }
    true
}

/// The characters of `v` from its `n`-th on.
fn char_substr_from(v: &Vec<char>, n: usize) -> (r: Vec<char>)
    requires
        n <= v.len(),
    ensures
        r@ == v@.skip(n as int),
{
    slice_vec(v, n, v.len())
}

/// The first `n` characters of `v`.
fn first_chars(v: &Vec<char>, n: usize) -> (r: Vec<char>)
    requires
        n <= v.len(),
    ensures
        r@ == v@.take(n as int),
{
    slice_vec(v, 0, n)
}

impl Token {
    /// The line is empty or all whitespace.
    fn is_blank(&self) -> (b: bool)
        ensures
            b == is_blank(self.raw@),
    {
        is_blank_exec(&self.raw)
    }

    /// The line, trimmed.
    fn content(&self) -> (r: Vec<char>)
        ensures
            r@ == trim(self.raw@),
    {
        trim_chars(&self.raw)
    }
}

fn kind_of_exec(raw: &Vec<char>, indent: usize) -> (k: TokenKind)
    requires
        indent == leading_ws_spec(raw@),
    ensures
        k@ == kind_of(raw@),
{
    proof {
        lemma_token(raw@);
    }
    if indent >= raw.len() {
        return TokenKind::Blank;
    }
    let stripped = char_substr_from(raw, indent);
    let line = string_from_chars(raw);
    if let Some((stars, heading, trailing)) = match_heading(line.as_str()) {
        let sc = chars_of(stars.as_str());
        let hc = chars_of(heading.as_str());
        let tc = chars_of(trailing.as_str());
        let mut joined = trim_chars(&hc);
        append_chars(&mut joined, &tc);
        let text = trim_chars(&joined);
        return TokenKind::Heading { level: sc.len(), text };
    }
    if has_at_exec(&stripped, 0, "```") {
        let rest = char_substr_from(&stripped, chars_of("```").len());
        return TokenKind::Fence { language: trim_chars(&rest) };
    }
    if has_at_exec(&stripped, 0, "code:") {
        let rest = char_substr_from(&stripped, chars_of("code:").len());
        return TokenKind::CodeDirective { descriptor: trim_chars(&rest) };
    }
    if indent == 0 && has_at_exec(&stripped, 0, "table:") {
        let rest = char_substr_from(&stripped, chars_of("table:").len());
        let t = trim_chars(&rest);
        let title = if t.len() > 0 {
            Some(t)
        } else {
            None
        };
        return TokenKind::TableDirective { title };
    }
    TokenKind::Text
}

fn token_of_exec(raw: Vec<char>) -> (t: Token)
    ensures
        t@ == token_of(raw@),
{
    let indent = leading_ws(&raw);
    let kind = kind_of_exec(&raw, indent);
    Token { raw, indent, kind }
}

/// One token per line of `text`.
fn tokenize(text: &Vec<char>) -> (r: Vec<Token>)
    ensures
        tokens_view(r@) == tokenize_spec(text@),
        tokens_wf(tokens_view(r@)),
{
    let ls = lines_exec(text);
    let ghost lv = lines(text@);
    let mut r: Vec<Token> = Vec::new();
    let mut k: usize = 0;
    while k < ls.len()
        invariant
            k <= ls.len(),
            cviews(ls@) == lv,
            tokens_view(r@) == lv.take(k as int).map_values(|l: Seq<char>| token_of(l)),
        decreases ls.len() - k,
    {
        let raw = slice_vec(&ls[k], 0, ls[k].len());
        assert(raw@ =~= lv[k as int]);
        let ghost before = tokens_view(r@);
        r.push(token_of_exec(raw));
        assert(tokens_view(r@) =~= before.push(token_of(lv[k as int])));
        assert(lv.take(k + 1).map_values(|l: Seq<char>| token_of(l)) =~= lv.take(
            k as int,
        ).map_values(|l: Seq<char>| token_of(l)).push(token_of(lv[k as int])));
        k = k + 1;
    }
    assert(lv.take(ls.len() as int) =~= lv);
    r
}

fn flush_paragraph(paragraph: &mut Vec<Vec<char>>, blocks: &mut Vec<Block>)
    ensures
        blocks_view(final(blocks)@) == blocks_view(old(blocks)@) + flush(cviews(old(paragraph)@)),
        final(paragraph)@.len() == 0,
{
    if paragraph.len() > 0 {
        let text = join_exec(paragraph, "\n");
        let ghost before = blocks_view(blocks@);
        blocks.push(Block::Paragraph { text: string_from_chars(&text) });
        assert(blocks_view(blocks@) =~= before + flush(cviews(old(paragraph)@)));
        paragraph.clear();
    } else {
        assert(blocks_view(blocks@) =~= blocks_view(old(blocks)@) + flush(cviews(old(paragraph)@)));
    }
}

/// A copy of a token's raw line as a `String`-ready character vector.
fn copy_raw(t: &Token) -> (r: Vec<char>)
    ensures
        r@ == t.raw@,
{
    let r = slice_vec(&t.raw, 0, t.raw.len());
    assert(r@ =~= t.raw@);
    r
}

fn strings_of(v: &Vec<Vec<char>>) -> (r: Vec<String>)
    ensures
        strs(r@) == cviews(v@),
{
    let mut r: Vec<String> = Vec::new();
    let mut k: usize = 0;
    while k < v.len()
        invariant
            k <= v.len(),
            strs(r@) == cviews(v@).take(k as int),
        decreases v.len() - k,
    {
        let ghost before = strs(r@);
        let sk = string_from_chars(&v[k]);
        assert(sk@ == cviews(v@)[k as int]);
        r.push(sk);
        assert(strs(r@) =~= before.push(sk@));
        assert(strs(r@) =~= cviews(v@).take(k + 1));
        k = k + 1;
    }
    assert(cviews(v@).take(v.len() as int) =~= cviews(v@));
    r
}

fn parse_fenced_code(tokens: &Vec<Token>, start: usize, language: &Vec<char>) -> (res: (Block, usize))
    requires
        start < tokens.len(),
        tokens_wf(tokens_view(tokens@)),
    ensures
        res.0@ == fenced(tokens_view(tokens@), start as int, language@).0,
        res.1 == fenced(tokens_view(tokens@), start as int, language@).1,
{
    let ghost toks = tokens_view(tokens@);
    let base = tokens[start].indent;
    proof {
        assert(token_wf(toks[start as int]));
        lemma_token(toks[start as int].raw);
    }
    let prefix = first_chars(&tokens[start].raw, base);
    let mut end = start + 1;
    while end < tokens.len() && !(matches!(tokens[end].kind, TokenKind::Fence { .. })
        && tokens[end].indent == base)
        invariant
            start < end <= tokens.len(),
            toks == tokens_view(tokens@),
            fence_end(toks, start + 1, base as nat) == fence_end(toks, end as int, base as nat),
        decreases tokens.len() - end,
    {
        end = end + 1;
    }
    let ghost pv = prefix@;
    let mut collected: Vec<Vec<char>> = Vec::new();
    let mut k = start + 1;
    while k < end
        invariant
            start + 1 <= k <= end <= tokens.len(),
            toks == tokens_view(tokens@),
            pv == prefix@,
            prefix@.len() == base,
            cviews(collected@) == toks.subrange(start + 1, k as int).map_values(
                |t: TokenV| fence_line(t.raw, pv),
            ),
        decreases end - k,
    {
        let raw = &tokens[k].raw;
        let line = if has_at_exec(raw, 0, &string_from_chars(&prefix)) {
            char_substr_from(raw, base)
        } else {
            copy_raw(&tokens[k])
        };
        let ghost before = cviews(collected@);
        collected.push(line);
        assert(cviews(collected@) =~= before.push(fence_line(toks[k as int].raw, pv)));
        assert(toks.subrange(start + 1, k + 1).map_values(|t: TokenV| fence_line(t.raw, pv))
            =~= toks.subrange(start + 1, k as int).map_values(|t: TokenV| fence_line(t.raw, pv)).push(
            fence_line(toks[k as int].raw, pv),
        ));
        k = k + 1;
    }
    let next = if end < tokens.len() {
        end + 1
    } else {
        end
    };
    let lines = strings_of(&collected);
    (
        Block::Code {
            language: string_from_chars(language),
            lines,
            indent: string_from_chars(&prefix),
        },
        next,
    )
}


fn is_directive_exec(t: &Token) -> (b: bool)
    ensures
        b == is_directive(t@.kind),
{
    matches!(t.kind, TokenKind::CodeDirective { .. } | TokenKind::TableDirective { .. })
}

/// End of the body of the `code:` block whose directive is at `start`.
fn code_end_exec(tokens: &Vec<Token>, start: usize, base: usize) -> (end: usize)
    requires
        start < tokens.len(),
    ensures
        end == code_end(tokens_view(tokens@), start + 1, base as nat),
{
    let ghost toks = tokens_view(tokens@);
    let mut i = start + 1;
    while i < tokens.len()
        invariant
            start < i <= tokens.len(),
            toks == tokens_view(tokens@),
            code_end(toks, start + 1, base as nat) == code_end(toks, i as int, base as nat),
        decreases tokens.len() - i,
    {
        let current = &tokens[i];
        if is_directive_exec(current) {
            return i;
        }
        if current.is_blank() {
            let mut next = i + 1;
            while next < tokens.len() && tokens[next].is_blank()
                invariant
                    i < next <= tokens.len(),
                    toks == tokens_view(tokens@),
                    next_nonblank(toks, i + 1) == next_nonblank(toks, next as int),
                decreases tokens.len() - next,
            {
                next = next + 1;
            }
            if next >= tokens.len() {
                return tokens.len();
            }
            if is_directive_exec(&tokens[next]) || tokens[next].indent <= base {
                return i;
            }
            i = i + 1;
        } else if current.indent > base {
            i = i + 1;
        } else {
            return i;
        }
    }
    i
}

/// Code lines with their common indentation removed, blank lines emptied and
/// trailing empty lines dropped.
fn normalize_code_lines(ls: &Vec<Vec<char>>) -> (r: Vec<Vec<char>>)
    ensures
        cviews(r@) == normalize_code_lines_spec(cviews(ls@)),
{
    let ghost lv = cviews(ls@);
    let mut width: Option<usize> = None;
    let mut k: usize = 0;
    while k < ls.len()
        invariant
            k <= ls.len(),
            lv == cviews(ls@),
            match width {
                None => min_indent(lv.take(k as int)) is None,
                Some(w) => min_indent(lv.take(k as int)) == Some(w as nat),
            },
        decreases ls.len() - k,
    {
        assert(lv.take(k + 1).drop_last() =~= lv.take(k as int));
        assert(lv.take(k + 1).last() == ls[k as int]@);
        if !is_blank_exec(&ls[k]) {
            let w = leading_ws(&ls[k]);
            width = match width {
                None => Some(w),
                Some(m) => Some(
                    if w < m {
                        w
                    } else {
                        m
                    },
                ),
            };
        }
        k = k + 1;
    }
    assert(lv.take(ls.len() as int) =~= lv);
    let m = match width {
        None => {
            return Vec::new();
        },
        Some(m) => m,
    };
    let mut out: Vec<Vec<char>> = Vec::new();
    let mut k: usize = 0;
    while k < ls.len()
        invariant
            k <= ls.len(),
            lv == cviews(ls@),
            min_indent(lv) == Some(m as nat),
            cviews(out@) == lv.take(k as int).map_values(|l: Seq<char>| normalize_line(l, m as nat)),
        decreases ls.len() - k,
    {
        let line = &ls[k];
        let ghost before = cviews(out@);
        if is_blank_exec(line) {
            let e: Vec<char> = Vec::new();
            assert(e@ =~= normalize_line(lv[k as int], m as nat));
            out.push(e);
            assert(cviews(out@) =~= before.push(normalize_line(lv[k as int], m as nat)));
        } else {
            proof {
                lemma_min_indent_le(lv, k as int);
                lemma_token(lv[k as int]);
                if leading_ws_spec(lv[k as int]) == lv[k as int].len() {
                    assert(is_blank(lv[k as int]));
                }
            }
            let rest = char_substr_from(line, m);
            assert(rest@ == normalize_line(lv[k as int], m as nat));
            out.push(rest);
            assert(cviews(out@) =~= before.push(normalize_line(lv[k as int], m as nat)));
        }
        assert(lv.take(k + 1).map_values(|l: Seq<char>| normalize_line(l, m as nat)) =~= lv.take(
            k as int,
        ).map_values(|l: Seq<char>| normalize_line(l, m as nat)).push(
            normalize_line(lv[k as int], m as nat),
        ));
        k = k + 1;
    }
    assert(lv.take(ls.len() as int) =~= lv);
    let ghost mapped = cviews(out@);
    while out.len() > 0 && out[out.len() - 1].len() == 0
        invariant
            drop_trailing_empty(cviews(out@)) == drop_trailing_empty(mapped),
        decreases out.len(),
    {
        let ghost before = cviews(out@);
        out.pop();
        assert(cviews(out@) =~= before.drop_last());
    }
    out
}

/// Every non-blank line is indented at least by `min_indent`.
proof fn lemma_min_indent_le(ls: Seq<Seq<char>>, k: int)
    requires
        0 <= k < ls.len(),
        !is_blank(ls[k]),
    ensures
        min_indent(ls) matches Some(m) && m <= leading_ws_spec(ls[k]),
    decreases ls.len(),
{
    if k < ls.len() - 1 {
        lemma_min_indent_le(ls.drop_last(), k);
    }
}

fn infer_language(d: &Vec<char>) -> (r: Vec<char>)
    ensures
        r@ == infer_language_spec(d@),
{
    if d.len() == 0 {
        return Vec::new();
    }
    let mut j = d.len();
    while j > 0 && d[j - 1] != '.'
        invariant
            j <= d.len(),
            last_index_of(d@, '.', d@.len() as int) == last_index_of(d@, '.', j as int),
        decreases j,
    {
        j = j - 1;
    }
    if j > 0 {
        char_substr_from(d, j)
    } else {
        slice_vec(d, 0, d.len())
    }
}

fn parse_code_block(tokens: &Vec<Token>, start: usize, descriptor: &Vec<char>) -> (res: (Block, usize))
    requires
        start < tokens.len(),
        tokens_wf(tokens_view(tokens@)),
    ensures
        res.0@ == code_block(tokens_view(tokens@), start as int, descriptor@).0,
        res.1 == code_block(tokens_view(tokens@), start as int, descriptor@).1,
{
    let ghost toks = tokens_view(tokens@);
    let base = tokens[start].indent;
    proof {
        assert(token_wf(toks[start as int]));
        lemma_token(toks[start as int].raw);
        lemma_code_end(toks, start + 1, base as nat);
    }
    let indent = first_chars(&tokens[start].raw, base);
    let end = code_end_exec(tokens, start, base);
    let mut collected: Vec<Vec<char>> = Vec::new();
    let mut k = start + 1;
    while k < end
        invariant
            start + 1 <= k <= end <= tokens.len(),
            toks == tokens_view(tokens@),
            cviews(collected@) == toks.subrange(start + 1, k as int).map_values(|t: TokenV| t.raw),
        decreases end - k,
    {
        let ghost before = cviews(collected@);
        collected.push(copy_raw(&tokens[k]));
        assert(cviews(collected@) =~= before.push(toks[k as int].raw));
        assert(toks.subrange(start + 1, k + 1).map_values(|t: TokenV| t.raw) =~= toks.subrange(
            start + 1,
            k as int,
        ).map_values(|t: TokenV| t.raw).push(toks[k as int].raw));
        k = k + 1;
    }
    let normalized = normalize_code_lines(&collected);
    let lines = strings_of(&normalized);
    let tex = chars_of("tex");
    let block = if descriptor.len() == 3 && ends_with_ci_exec(descriptor, &tex) {
        Block::Math { lines, indent: string_from_chars(&indent) }
    } else {
        let language = infer_language(descriptor);
        Block::Code {
            language: string_from_chars(&language),
            lines,
            indent: string_from_chars(&indent),
        }
    };
    (block, end)
}

/// First index at or after `i` of an unindented or blank token.
fn item_end_exec(tokens: &Vec<Token>, i: usize) -> (end: usize)
    requires
        i <= tokens.len(),
    ensures
        end == item_end(tokens_view(tokens@), i as int),
        i <= end <= tokens.len(),
{
    let ghost toks = tokens_view(tokens@);
    let mut k = i;
    while k < tokens.len() && tokens[k].indent != 0 && !tokens[k].is_blank()
        invariant
            i <= k <= tokens.len(),
            toks == tokens_view(tokens@),
            item_end(toks, i as int) == item_end(toks, k as int),
        decreases tokens.len() - k,
    {
        k = k + 1;
    }
    k
}

/// Table cells: `content` split at tabs, each cell trimmed.
fn split_cells(content: &Vec<char>) -> (r: Vec<String>)
    ensures
        strs(r@) == split_cells_spec(content@),
{
    let mut r: Vec<String> = Vec::new();
    let mut i: usize = 0;
    loop
        invariant
            i <= content.len(),
            strs(r@) + split_from(content@, '\t', i as int).map_values(|c: Seq<char>| trim(c)) == split_cells_spec(content@),
        decreases content.len() - i,
    {
        let j = find_from_exec(content, '\t', i);
        proof {
            lemma_find_from(content@, '\t', i as int);
        }
        let ghost before = strs(r@);
        if j >= content.len() {
            let cell = slice_vec(content, i, content.len());
            let t = trim_chars(&cell);
            let ts = string_from_chars(&t);
            r.push(ts);
            assert(strs(r@) =~= before.push(trim(cell@)));
            assert(split_from(content@, '\t', i as int) =~= seq![cell@]);
            assert(split_from(content@, '\t', i as int).map_values(|c: Seq<char>| trim(c)) =~= seq![trim(cell@)]);
            return r;
        }
        let cell = slice_vec(content, i, j);
        let t = trim_chars(&cell);
        let ts = string_from_chars(&t);
        r.push(ts);
        assert(strs(r@) =~= before.push(trim(cell@)));
        assert(split_from(content@, '\t', i as int) =~= seq![cell@] + split_from(content@, '\t', j + 1));
        assert(split_from(content@, '\t', i as int).map_values(|c: Seq<char>| trim(c)) =~= seq![trim(cell@)]
            + split_from(content@, '\t', j + 1).map_values(|c: Seq<char>| trim(c)));
        i = j + 1;
    }
}

fn parse_table(tokens: &Vec<Token>, start: usize, title: &Option<Vec<char>>) -> (res: (
    Option<Block>,
    usize,
))
    requires
        start < tokens.len(),
    ensures
        res.1 == table(
            tokens_view(tokens@),
            start as int,
            match title {
                Some(t) => Some(t@),
                None => None,
            },
        ).1,
        match table(
            tokens_view(tokens@),
            start as int,
            match title {
                Some(t) => Some(t@),
                None => None,
            },
        ).0 {
            None => res.0 is None,
            Some(b) => res.0 matches Some(x) && x@ == b,
        },
{
    let ghost toks = tokens_view(tokens@);
    let end = item_end_exec(tokens, start + 1);
    let mut rows: Vec<Vec<String>> = Vec::new();
    let mut k = start + 1;
    while k < end
        invariant
            start + 1 <= k <= end <= tokens.len(),
            toks == tokens_view(tokens@),
            crate::ast::rows_view(rows@) == toks.subrange(start + 1, k as int).map_values(|t: TokenV| split_cells_spec(trim(t.raw))),
        decreases end - k,
    {
        let content = tokens[k].content();
        let cells = split_cells(&content);
        let ghost before = crate::ast::rows_view(rows@);
        assert(content@ == trim(toks[k as int].raw));
        rows.push(cells);
        assert(crate::ast::rows_view(rows@) =~= before.push(split_cells_spec(trim(toks[k as int].raw))));
        assert(toks.subrange(start + 1, k + 1).map_values(|t: TokenV| split_cells_spec(trim(t.raw))) =~= toks.subrange(
            start + 1,
            k as int,
        ).map_values(|t: TokenV| split_cells_spec(trim(t.raw))).push(split_cells_spec(trim(toks[k as int].raw))));
        k = k + 1;
    }
    if rows.len() == 0 {
        return (None, end);
    }
    let ghost all = crate::ast::rows_view(rows@);
    let header = rows.remove(0);
    assert(crate::ast::rows_view(rows@) =~= all.skip(1));
    let title_s = match title {
        Some(t) => Some(string_from_chars(t)),
        None => None,
    };
    (Some(Block::Table { title: title_s, header, rows }), end)
}

/// Pops every depth at least `d` off the top of `stack`.
fn pop_until_exec(stack: &mut Vec<usize>, d: usize)
    ensures
        final(stack)@.map_values(|x: usize| x as int) == pop_until(
            old(stack)@.map_values(|x: usize| x as int),
            d as int,
        ),
{
    while stack.len() > 0 && stack[stack.len() - 1] >= d
        invariant
            pop_until(stack@.map_values(|x: usize| x as int), d as int) == pop_until(
                old(stack)@.map_values(|x: usize| x as int),
                d as int,
            ),
        decreases stack.len(),
    {
        let ghost before = stack@;
        stack.pop();
        assert(stack@.map_values(|x: usize| x as int) =~= before.map_values(|x: usize| x as int).drop_last());
    }
}

fn parse_list(tokens: &Vec<Token>, start: usize) -> (res: (Block, usize))
    requires
        start < tokens.len(),
    ensures
        res.0@ == list(tokens_view(tokens@), start as int).0,
        res.1 == list(tokens_view(tokens@), start as int).1,
{
    let ghost toks = tokens_view(tokens@);
    let end = item_end_exec(tokens, start);
    proof {
        lemma_item_end(toks, start as int);
    }
    let ghost items = toks.subrange(start as int, end as int);
    let ghost depths = items.map_values(|t: TokenV| t.indent - 1);
    let mut stack: Vec<usize> = Vec::new();
    let ghost mut done: Seq<nat> = seq![];
    let mut out: Vec<ListItem> = Vec::new();
    let mut k = start;
    assert(stack@.map_values(|x: usize| x as int) =~= Seq::<int>::empty());
    assert(done + levels_from(depths, 0, seq![]) =~= levels(depths));
    while k < end
        invariant
            start <= k <= end <= tokens.len(),
            toks == tokens_view(tokens@),
            items == toks.subrange(start as int, end as int),
            depths == items.map_values(|t: TokenV| t.indent - 1),
            forall|m: int| start <= m < end ==> #[trigger] toks[m].indent != 0,
            done.len() == k - start,
            levels(depths) == done + levels_from(
                depths,
                (k - start) as int,
                stack@.map_values(|x: usize| x as int),
            ),
            crate::ast::items_view(out@) == Seq::new(
                (k - start) as nat,
                |m: int| ListItemV { level: done[m], text: trim(items[m].raw) },
            ),
        decreases end - k,
    {
        assert(toks[k as int].indent != 0);
        let depth = tokens[k].indent - 1;
        assert(depths[k - start] == depth as int);
        let ghost s0 = stack@.map_values(|x: usize| x as int);
        pop_until_exec(&mut stack, depth);
        let level = stack.len();
        let ghost s1 = stack@.map_values(|x: usize| x as int);
        stack.push(depth);
        let ghost sv = stack@.map_values(|x: usize| x as int);
        assert(sv =~= s1.push(depth as int));
        let ghost i = (k - start) as int;
        assert(levels_from(depths, i, s0) =~= seq![s1.len()] + levels_from(depths, i + 1, sv));
        let ghost done0 = done;
        proof {
            done = done.push(level as nat);
        }
        assert(done0 + levels_from(depths, i, s0) =~= done + levels_from(depths, i + 1, sv));
        let text = tokens[k].content();
        let ghost before = crate::ast::items_view(out@);
        let item = ListItem { level, text: string_from_chars(&text) };
        assert(items[i] == toks[k as int]);
        assert(item@ == ListItemV { level: done[i], text: trim(items[i].raw) });
        out.push(item);
        assert(crate::ast::items_view(out@) =~= before.push(item@));
        assert(crate::ast::items_view(out@) =~= Seq::new(
            (k + 1 - start) as nat,
            |m: int| ListItemV { level: done[m], text: trim(items[m].raw) },
        ));
        k = k + 1;
    }
    assert(levels_from(depths, (end - start) as int, stack@.map_values(|x: usize| x as int)) =~= Seq::<nat>::empty());
    assert(done =~= levels(depths));
    (Block::BulletList { items: out }, end)
}


/// Parses Cosense text into its blocks.
///
/// A line whose only content is whitespace other than the indentation
/// characters (say, U+2003 after a space) is a blank line.
#[verifier::rlimit(60)]
pub fn parse(text: &str) -> (d: Document)
    ensures
        d@ == parse_spec(text@),
{
    let chars = chars_of(text);
    let tokens = tokenize(&chars);
    let ghost toks = tokens_view(tokens@);
    let mut blocks: Vec<Block> = Vec::new();
    let mut paragraph: Vec<Vec<char>> = Vec::new();
    let mut i: usize = 0;
    assert(cviews(paragraph@) =~= Seq::<Seq<char>>::empty());
    assert(blocks_view(blocks@) =~= Seq::<BlockV>::empty());
    assert(blocks_view(blocks@) + parse_from(toks, 0, cviews(paragraph@)) =~= parse_spec(text@));
    while i < tokens.len()
        invariant
            i <= tokens.len(),
            toks == tokens_view(tokens@),
            toks == tokenize_spec(text@),
            tokens_wf(toks),
            blocks_view(blocks@) + parse_from(toks, i as int, cviews(paragraph@)) == parse_spec(
                text@,
            ),
        decreases tokens.len() - i,
    {
        let token = &tokens[i];
        let ghost para = cviews(paragraph@);
        let ghost b0 = blocks_view(blocks@);
        let ghost i0 = i as int;
        proof {
            lemma_scan_ends(toks, i as int);
            assert(toks[i as int] == token@);
        }
        match &token.kind {
            TokenKind::Blank => {
                flush_paragraph(&mut paragraph, &mut blocks);
                let ghost b1 = blocks_view(blocks@);
                blocks.push(Block::BlankLine);
                assert(blocks_view(blocks@) =~= b1.push(BlockV::BlankLine));
                i = i + 1;
                assert(cviews(paragraph@) =~= Seq::<Seq<char>>::empty());
                assert(b0 + parse_from(toks, i0, para) =~= blocks_view(blocks@) + parse_from(
                    toks,
                    i as int,
                    cviews(paragraph@),
                ));
            },
            TokenKind::Heading { level, text } => {
                flush_paragraph(&mut paragraph, &mut blocks);
                let ghost b1 = blocks_view(blocks@);
                let h = Block::Heading { level: *level, text: string_from_chars(text) };
                blocks.push(h);
                assert(blocks_view(blocks@) =~= b1.push(h@));
                i = i + 1;
                assert(cviews(paragraph@) =~= Seq::<Seq<char>>::empty());
                assert(b0 + parse_from(toks, i0, para) =~= blocks_view(blocks@) + parse_from(
                    toks,
                    i as int,
                    cviews(paragraph@),
                ));
            },
            TokenKind::Fence { language } => {
                flush_paragraph(&mut paragraph, &mut blocks);
                let ghost b1 = blocks_view(blocks@);
                let (block, next) = parse_fenced_code(&tokens, i, language);
                blocks.push(block);
                assert(blocks_view(blocks@) =~= b1.push(block@));
                i = next;
                assert(cviews(paragraph@) =~= Seq::<Seq<char>>::empty());
                assert(b0 + parse_from(toks, i0, para) =~= blocks_view(blocks@) + parse_from(
                    toks,
                    i as int,
                    cviews(paragraph@),
                ));
            },
            TokenKind::CodeDirective { descriptor } => {
                flush_paragraph(&mut paragraph, &mut blocks);
                let ghost b1 = blocks_view(blocks@);
                let (block, next) = parse_code_block(&tokens, i, descriptor);
                blocks.push(block);
                assert(blocks_view(blocks@) =~= b1.push(block@));
                i = next;
                assert(cviews(paragraph@) =~= Seq::<Seq<char>>::empty());
                assert(b0 + parse_from(toks, i0, para) =~= blocks_view(blocks@) + parse_from(
                    toks,
                    i as int,
                    cviews(paragraph@),
                ));
            },
            TokenKind::TableDirective { title } => {
                flush_paragraph(&mut paragraph, &mut blocks);
                let ghost b1 = blocks_view(blocks@);
                let (block, next) = parse_table(&tokens, i, title);
                match block {
                    Some(b) => {
                        blocks.push(b);
                        assert(blocks_view(blocks@) =~= b1.push(b@));
                    },
                    None => {
                        assert(blocks_view(blocks@) =~= b1 + Seq::<BlockV>::empty());
                    },
                }
                i = next;
                assert(cviews(paragraph@) =~= Seq::<Seq<char>>::empty());
                assert(b0 + parse_from(toks, i0, para) =~= blocks_view(blocks@) + parse_from(
                    toks,
                    i as int,
                    cviews(paragraph@),
                ));
            },
            TokenKind::Text => {
                if token.indent == 0 {
                    let raw = copy_raw(token);
                    paragraph.push(raw);
                    assert(cviews(paragraph@) =~= para.push(token.raw@));
                    i = i + 1;
                    assert(b0 + parse_from(toks, i0, para) =~= blocks_view(blocks@) + parse_from(
                        toks,
                        i as int,
                        cviews(paragraph@),
                    ));
                } else if token.is_blank() {
                    flush_paragraph(&mut paragraph, &mut blocks);
                    let ghost b1 = blocks_view(blocks@);
                    blocks.push(Block::BlankLine);
                    assert(blocks_view(blocks@) =~= b1.push(BlockV::BlankLine));
                    i = i + 1;
                    assert(cviews(paragraph@) =~= Seq::<Seq<char>>::empty());
                    assert(b0 + parse_from(toks, i0, para) =~= blocks_view(blocks@) + parse_from(
                        toks,
                        i as int,
                        cviews(paragraph@),
                    ));
                } else {
                    flush_paragraph(&mut paragraph, &mut blocks);
                    let ghost b1 = blocks_view(blocks@);
                    let (block, next) = parse_list(&tokens, i);
                    blocks.push(block);
                    assert(blocks_view(blocks@) =~= b1.push(block@));
                    i = next;
                    assert(cviews(paragraph@) =~= Seq::<Seq<char>>::empty());
                    assert(b0 + parse_from(toks, i0, para) =~= blocks_view(blocks@) + parse_from(
                        toks,
                        i as int,
                        cviews(paragraph@),
                    ));
                }
            },
        }
    }
    let ghost para = cviews(paragraph@);
    flush_paragraph(&mut paragraph, &mut blocks);
    assert(parse_from(toks, i as int, para) == flush(para));
    Document { blocks }
}


/// Bracket-form markers a detector can spot without a full parse: the inline
/// decorations and the media directives.
pub const DETECT_BRACKET_MARKERS: [&'static str; 8] = [
    "[*/",
    "[*-",
    "[/-",
    "[/ ",
    "[- ",
    "[img ",
    "[YouTube ",
    "[Twitter ",
];

/// A trimmed line that marks Cosense text: a heading bracket, a `code:` or
/// `table:` directive, or one of `DETECT_BRACKET_MARKERS` at its start.
pub open spec fn cosense_line(line: Seq<char>) -> bool {
    line.len() > 0 && (heading_match(line) is Some || has_at(line, 0, "code:"@) || has_at(
        line,
        0,
        "table:"@,
    ) || exists|k: int| 0 <= k < 8 && has_at(line, 0, (#[trigger] DETECT_BRACKET_MARKERS[k])@))
}

/// Some line of the text, trimmed, marks it as Cosense.
pub open spec fn looks_like_cosense_spec(text: Seq<char>) -> bool {
    exists|k: int| 0 <= k < lines(text).len() && cosense_line(trim(#[trigger] lines(text)[k]))
}

fn cosense_line_exec(line: &Vec<char>) -> (b: bool)
    ensures
        b == cosense_line(line@),
{
    if line.len() == 0 {
        return false;
    }
    let s = string_from_chars(line);
    if match_heading(s.as_str()).is_some() {
        return true;
    }
    if has_at_exec(line, 0, "code:") || has_at_exec(line, 0, "table:") {
        return true;
    }
    let mut k: usize = 0;
    while k < 8
        invariant
            k <= 8,
            line@.len() > 0,
            forall|m: int|
                0 <= m < k ==> !has_at(line@, 0, (#[trigger] DETECT_BRACKET_MARKERS[m])@),
        decreases 8 - k,
    {
        if has_at_exec(line, 0, DETECT_BRACKET_MARKERS[k]) {
            let ghost j = k as int;
            assert(0 <= j < 8 && has_at(line@, 0, DETECT_BRACKET_MARKERS[j]@));
            return true;
        }
        k = k + 1;
    }
    false
}

/// Heuristic that decides whether a text is Cosense notation.
pub fn looks_like_cosense(text: &str) -> (b: bool)
    ensures
        b == looks_like_cosense_spec(text@),
{
    let chars = chars_of(text);
    let ls = lines_exec(&chars);
    let ghost lv = lines(text@);
    let mut k: usize = 0;
    while k < ls.len()
        invariant
            k <= ls.len(),
            cviews(ls@) == lv,
            lv == lines(text@),
            forall|m: int| 0 <= m < k ==> !cosense_line(trim(#[trigger] lv[m])),
        decreases ls.len() - k,
    {
        let t = trim_chars(&ls[k]);
        assert(ls[k as int]@ == lv[k as int]);
        if cosense_line_exec(&t) {
            return true;
        }
        k = k + 1;
    }
    false
}

} // verus!
