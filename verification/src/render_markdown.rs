//! Markdown renderer: walks the block and inline trees and emits CommonMark.
use vstd::prelude::*;
use crate::ast::{
    blocks_view, inlines_view, items_view, strs, Block, BlockV, Document, Emphasis, EmphasisV,
    Inline, InlineV, ListItem, ListItemV,
};
use crate::inline::{parse_inline_chars, parse_inline_spec};
use crate::text::{
    append_chars, append_str, chars_of, cviews, join, join_exec, run_back, run_end, slice_vec, split, split_from, find_from_exec, lemma_find_from,
    string_from_chars, trim_end, trim_end_chars,
};

verus! {

// ---------------------------------------------------------------------------
// Specification.
// ---------------------------------------------------------------------------

/// Markdown for an emphasis: `~~..~~` inside `*..*` inside `**..**`.
pub open spec fn emphasis_md(e: EmphasisV) -> Seq<char> {
    let t1 = if e.strike {
        "~~"@ + e.text + "~~"@
    } else {
        e.text
    };
    let t2 = if e.italic {
        "*"@ + t1 + "*"@
    } else {
        t1
    };
    if e.bold {
        "**"@ + t2 + "**"@
    } else {
        t2
    }
}

/// Markdown for one inline node. A page link carries no URL, so it renders as
/// a `#name` tag; an unknown span is its source, unchanged.
pub open spec fn inline_md(n: InlineV) -> Seq<char> {
    match n {
        InlineV::Text(t) => t,
        InlineV::Emphasis(e) => emphasis_md(e),
        InlineV::Tag(name) => "#"@ + name,
        InlineV::Image { alt, url } => "!["@ + alt + "]("@ + url + ")"@,
        InlineV::Link { label, url } => "["@ + label + "]("@ + url + ")"@,
        InlineV::AutoLink(url) => "<"@ + url + ">"@,
        InlineV::Unknown(raw) => raw,
    }
}

pub open spec fn inlines_md(ns: Seq<InlineV>) -> Seq<char>
    decreases ns.len(),
{
    if ns.len() == 0 {
        seq![]
    } else {
        inlines_md(ns.drop_last()) + inline_md(ns.last())
    }
}

/// Markdown for the inline text of a line.
pub open spec fn render_inline_spec(text: Seq<char>) -> Seq<char> {
    inlines_md(parse_inline_spec(text))
}

/// `p` repeated `n` times.
pub open spec fn repeat_text(p: Seq<char>, n: nat) -> Seq<char>
    decreases n,
{
    if n == 0 {
        seq![]
    } else {
        repeat_text(p, (n - 1) as nat) + p
    }
}

/// Lines of a fenced body: the opening line, each line, the closing line, all
/// carrying `indent`.
pub open spec fn fenced_md(open: Seq<char>, close: Seq<char>, lines: Seq<Seq<char>>, indent: Seq<
    char,
>) -> Seq<Seq<char>> {
    seq![indent + open] + lines.map_values(|l: Seq<char>| indent + l) + seq![indent + close]
}

pub open spec fn code_fence(language: Seq<char>) -> Seq<char> {
    if language.len() == 0 {
        "```"@
    } else {
        "```"@ + language
    }
}

pub open spec fn item_md(it: ListItemV) -> Seq<char> {
    trim_end(repeat_text("  "@, it.level) + "- "@ + render_inline_spec(it.text))
}

/// Length of the longest row, 0 when there is none.
pub open spec fn max_row_len(rows: Seq<Seq<Seq<char>>>) -> nat
    decreases rows.len(),
{
    if rows.len() == 0 {
        0
    } else {
        let m = max_row_len(rows.drop_last());
        if rows.last().len() > m {
            rows.last().len()
        } else {
            m
        }
    }
}

/// A table row padded with empty cells to `width`.
pub open spec fn row_md(cells: Seq<Seq<char>>, width: nat) -> Seq<char> {
    let md = cells.map_values(|c: Seq<char>| render_inline_spec(c));
    let padded = if cells.len() < width {
        md + Seq::new((width - cells.len()) as nat, |_i: int| Seq::<char>::empty())
    } else {
        md
    };
    "| "@ + join(padded, " | "@) + " |"@
}

/// A table: optional `## title` and an empty line, the header row, the
/// delimiter row, then the rows; the column count is the widest row.
pub open spec fn table_md(title: Option<Seq<char>>, header: Seq<Seq<char>>, rows: Seq<Seq<Seq<char>>>) -> Seq<
    Seq<char>,
> {
    let width: nat = if header.len() > max_row_len(rows) {
        header.len()
    } else {
        max_row_len(rows)
    };
    let title_lines = match title {
        Some(t) => seq!["## "@ + render_inline_spec(t), Seq::<char>::empty()],
        None => Seq::<Seq<char>>::empty(),
    };
    title_lines + seq![row_md(header, width), "|"@ + repeat_text("---|"@, width)] + rows.map_values(
        |r: Seq<Seq<char>>| row_md(r, width),
    )
}

/// The output lines of one block.
pub open spec fn block_md(b: BlockV) -> Seq<Seq<char>> {
    match b {
        BlockV::Heading { level, text } => seq![
            trim_end(repeat_text("#"@, level) + " "@ + render_inline_spec(text)),
        ],
        BlockV::Paragraph { text } => split(render_inline_spec(text), '\n'),
        BlockV::BlankLine => seq![Seq::<char>::empty()],
        BlockV::Code { language, lines, indent } => fenced_md(
            code_fence(language),
            "```"@,
            lines,
            indent,
        ),
        BlockV::Math { lines, indent } => fenced_md("$$"@, "$$"@, lines, indent),
        BlockV::BulletList { items } => items.map_values(|it: ListItemV| item_md(it)),
        BlockV::Table { title, header, rows } => table_md(title, header, rows),
    }
}

pub open spec fn doc_lines(blocks: Seq<BlockV>) -> Seq<Seq<char>>
    decreases blocks.len(),
{
    if blocks.len() == 0 {
        seq![]
    } else {
        doc_lines(blocks.drop_last()) + block_md(blocks.last())
    }
}

pub open spec fn nl_pred() -> spec_fn(char) -> bool {
    |c: char| c == '\n'
}

/// `s` without leading and trailing `'\n'` (`str::trim_matches('\n')`).
pub open spec fn trim_newlines(s: Seq<char>) -> Seq<char> {
    let t = s.skip(run_end(s, 0, nl_pred()));
    t.take(run_back(t, t.len() as int, nl_pred()))
}

/// The Markdown of a document: the lines of its blocks joined with `'\n'`,
/// leading and trailing newlines removed.
pub open spec fn render_markdown_spec(doc: Seq<BlockV>) -> Seq<char> {
    trim_newlines(join(doc_lines(doc), "\n"@))
}

// ---------------------------------------------------------------------------
// Implementation.
// ---------------------------------------------------------------------------

fn str_chars(s: &String) -> (v: Vec<char>)
    ensures
        v@ == s@,
{
    chars_of(s.as_str())
}

fn render_emphasis(e: &Emphasis) -> (r: Vec<char>)
    ensures
        r@ == emphasis_md(e@),
{
    let mut text = str_chars(&e.text);
    if e.strike {
        let mut t: Vec<char> = Vec::new();
        append_str(&mut t, "~~");
        append_chars(&mut t, &text);
        append_str(&mut t, "~~");
        text = t;
    }
    if e.italic {
        let mut t: Vec<char> = Vec::new();
        append_str(&mut t, "*");
        append_chars(&mut t, &text);
        append_str(&mut t, "*");
        text = t;
    }
    if e.bold {
        let mut t: Vec<char> = Vec::new();
        append_str(&mut t, "**");
        append_chars(&mut t, &text);
        append_str(&mut t, "**");
        text = t;
    }
    text
}

/// `a` + `x` + `b` + `y` + `c`.
fn wrap2(a: &str, x: &String, b: &str, y: &String, c: &str) -> (r: Vec<char>)
    ensures
        r@ == a@ + x@ + b@ + y@ + c@,
{
    let mut t: Vec<char> = Vec::new();
    append_str(&mut t, a);
    append_str(&mut t, x.as_str());
    append_str(&mut t, b);
    append_str(&mut t, y.as_str());
    append_str(&mut t, c);
    t
}

fn inline_md_exec(n: &Inline) -> (r: Vec<char>)
    ensures
        r@ == inline_md(n@),
{
    match n {
        Inline::Text(t) => str_chars(t),
        Inline::Emphasis(e) => render_emphasis(e),
        Inline::Tag(name) => {
            let mut t: Vec<char> = Vec::new();
            append_str(&mut t, "#");
            append_str(&mut t, name.as_str());
            t
        },
        Inline::Image { alt, url } => wrap2("![", alt, "](", url, ")"),
        Inline::Link { label, url } => wrap2("[", label, "](", url, ")"),
        Inline::AutoLink(url) => {
            let mut t: Vec<char> = Vec::new();
            append_str(&mut t, "<");
            append_str(&mut t, url.as_str());
            append_str(&mut t, ">");
            t
        },
        Inline::Unknown(raw) => str_chars(raw),
    }
}

/// Markdown for the inline text of a line.
pub fn render_inline(text: &Vec<char>) -> (r: Vec<char>)
    ensures
        r@ == render_inline_spec(text@),
{
    let nodes = parse_inline_chars(text);
    let ghost nv = inlines_view(nodes@);
    let mut out: Vec<char> = Vec::new();
    let mut k: usize = 0;
    while k < nodes.len()
        invariant
            k <= nodes.len(),
            nv == inlines_view(nodes@),
            out@ == inlines_md(nv.take(k as int)),
        decreases nodes.len() - k,
    {
        let md = inline_md_exec(&nodes[k]);
        append_chars(&mut out, &md);
        assert(nv.take(k + 1).drop_last() =~= nv.take(k as int));
        k = k + 1;
    }
    assert(nv.take(nodes.len() as int) =~= nv);
    out
}

/// `p` repeated `n` times.
fn repeat_exec(p: &str, n: usize) -> (r: Vec<char>)
    ensures
        r@ == repeat_text(p@, n as nat),
{
    let mut r: Vec<char> = Vec::new();
    let mut k: usize = 0;
    while k < n
        invariant
            k <= n,
            r@ == repeat_text(p@, k as nat),
        decreases n - k,
    {
        append_str(&mut r, p);
        k = k + 1;
    }
    r
}

/// The lines of a fenced body, each carrying `indent`.
fn render_fenced(open: &Vec<char>, close: &str, lines: &Vec<String>, indent: &String) -> (r: Vec<
    Vec<char>,
>)
    ensures
        cviews(r@) == fenced_md(open@, close@, strs(lines@), indent@),
{
    let ind = str_chars(indent);
    let mut r: Vec<Vec<char>> = Vec::new();
    let mut first = slice_vec(&ind, 0, ind.len());
    append_chars(&mut first, open);
    assert(first@ =~= indent@ + open@);
    r.push(first);
    let ghost ls = strs(lines@);
    let mut k: usize = 0;
    while k < lines.len()
        invariant
            k <= lines.len(),
            ls == strs(lines@),
            ind@ == indent@,
            cviews(r@) == seq![indent@ + open@] + ls.take(k as int).map_values(
                |l: Seq<char>| indent@ + l,
            ),
        decreases lines.len() - k,
    {
        let mut line = slice_vec(&ind, 0, ind.len());
        append_str(&mut line, lines[k].as_str());
        assert(line@ =~= indent@ + ls[k as int]);
        let ghost before = cviews(r@);
        r.push(line);
        assert(cviews(r@) =~= before.push(line@));
        assert(ls.take(k + 1).map_values(|l: Seq<char>| indent@ + l) =~= ls.take(
            k as int,
        ).map_values(|l: Seq<char>| indent@ + l).push(indent@ + ls[k as int]));
        k = k + 1;
    }
    let mut last = slice_vec(&ind, 0, ind.len());
    append_str(&mut last, close);
    assert(last@ =~= indent@ + close@);
    let ghost before = cviews(r@);
    r.push(last);
    assert(cviews(r@) =~= before.push(last@));
    assert(ls.take(lines.len() as int) =~= ls);
    r
}

/// A fenced code block: its fence names the language, if any.
fn render_code(language: &String, lines: &Vec<String>, indent: &String) -> (r: Vec<Vec<char>>)
    ensures
        cviews(r@) == fenced_md(code_fence(language@), "```"@, strs(lines@), indent@),
{
    let mut open: Vec<char> = Vec::new();
    append_str(&mut open, "```");
    let lang = str_chars(language);
    append_chars(&mut open, &lang);
    assert(open@ == code_fence(language@)) by {
        if language@.len() == 0 {
            assert(open@ =~= "```"@);
        }
    }
    render_fenced(&open, "```", lines, indent)
}

/// A math block between `$$` lines.
fn render_math(lines: &Vec<String>, indent: &String) -> (r: Vec<Vec<char>>)
    ensures
        cviews(r@) == fenced_md("$$"@, "$$"@, strs(lines@), indent@),
{
    let open = chars_of("$$");
    render_fenced(&open, "$$", lines, indent)
}

fn render_item(it: &ListItem) -> (r: Vec<char>)
    ensures
        r@ == item_md(it@),
{
    let mut line = repeat_exec("  ", it.level);
    append_str(&mut line, "- ");
    let text = str_chars(&it.text);
    let md = render_inline(&text);
    append_chars(&mut line, &md);
    trim_end_chars(&line)
}

fn render_list(items: &Vec<ListItem>) -> (r: Vec<Vec<char>>)
    ensures
        cviews(r@) == items_view(items@).map_values(|it: ListItemV| item_md(it)),
{
    let ghost iv = items_view(items@);
    let mut r: Vec<Vec<char>> = Vec::new();
    let mut k: usize = 0;
    while k < items.len()
        invariant
            k <= items.len(),
            iv == items_view(items@),
            cviews(r@) == iv.take(k as int).map_values(|it: ListItemV| item_md(it)),
        decreases items.len() - k,
    {
        let line = render_item(&items[k]);
        let ghost before = cviews(r@);
        r.push(line);
        assert(cviews(r@) =~= before.push(line@));
        assert(iv.take(k + 1).map_values(|it: ListItemV| item_md(it)) =~= iv.take(
            k as int,
        ).map_values(|it: ListItemV| item_md(it)).push(item_md(iv[k as int])));
        k = k + 1;
    }
    assert(iv.take(items.len() as int) =~= iv);
    r
}

fn render_row(cells: &Vec<String>, width: usize) -> (r: Vec<char>)
    ensures
        r@ == row_md(strs(cells@), width as nat),
{
    let ghost cv = strs(cells@);
    let ghost md = cv.map_values(|c: Seq<char>| render_inline_spec(c));
    let mut rendered: Vec<Vec<char>> = Vec::new();
    let mut k: usize = 0;
    while k < cells.len()
        invariant
            k <= cells.len(),
            cv == strs(cells@),
            md == cv.map_values(|c: Seq<char>| render_inline_spec(c)),
            cviews(rendered@) == md.take(k as int),
        decreases cells.len() - k,
    {
        let text = str_chars(&cells[k]);
        let m = render_inline(&text);
        let ghost before = cviews(rendered@);
        assert(m@ == md[k as int]);
        rendered.push(m);
        assert(cviews(rendered@) =~= before.push(m@));
        assert(cviews(rendered@) =~= md.take(k + 1));
        k = k + 1;
    }
    assert(md.take(cells.len() as int) =~= md);
    let ghost base = cviews(rendered@);
    while rendered.len() < width
        invariant
            cells.len() <= rendered.len() <= width || rendered.len() == cells.len(),
            base == md,
            cviews(rendered@) == base + Seq::new(
                (rendered.len() - cells.len()) as nat,
                |_i: int| Seq::<char>::empty(),
            ),
        decreases width - rendered.len(),
    {
        let ghost before = cviews(rendered@);
        let e: Vec<char> = Vec::new();
        assert(e@ =~= Seq::<char>::empty());
        rendered.push(e);
        assert(cviews(rendered@) =~= before.push(e@));
        assert(cviews(rendered@) =~= base + Seq::new(
            (rendered.len() - cells.len()) as nat,
            |_i: int| Seq::<char>::empty(),
        ));
    }
    if cells.len() >= width {
        assert(cviews(rendered@) =~= md);
    }
    let joined = join_exec(&rendered, " | ");
    let mut out: Vec<char> = Vec::new();
    append_str(&mut out, "| ");
    append_chars(&mut out, &joined);
    append_str(&mut out, " |");
    out
}

fn render_table(title: &Option<String>, header: &Vec<String>, rows: &Vec<Vec<String>>) -> (r: Vec<
    Vec<char>,
>)
    ensures
        cviews(r@) == table_md(crate::ast::opt_view(*title), strs(header@), crate::ast::rows_view(rows@)),
{
    let ghost rv = crate::ast::rows_view(rows@);
    let mut widest: usize = 0;
    let mut k: usize = 0;
    while k < rows.len()
        invariant
            k <= rows.len(),
            rv == crate::ast::rows_view(rows@),
            widest == max_row_len(rv.take(k as int)),
        decreases rows.len() - k,
    {
        assert(rv.take(k + 1).drop_last() =~= rv.take(k as int));
        assert(rv.take(k + 1).last() == strs(rows[k as int]@));
        if rows[k].len() > widest {
            widest = rows[k].len();
        }
        k = k + 1;
    }
    assert(rv.take(rows.len() as int) =~= rv);
    let width = if header.len() > widest {
        header.len()
    } else {
        widest
    };
    let mut r: Vec<Vec<char>> = Vec::new();
    match title {
        Some(t) => {
            let mut line: Vec<char> = Vec::new();
            append_str(&mut line, "## ");
            let tc = str_chars(t);
            let md = render_inline(&tc);
            append_chars(&mut line, &md);
            r.push(line);
            r.push(Vec::new());
        },
        None => {},
    }
    let ghost tl = cviews(r@);
    r.push(render_row(header, width));
    let mut delim: Vec<char> = Vec::new();
    append_str(&mut delim, "|");
    let dashes = repeat_exec("---|", width);
    append_chars(&mut delim, &dashes);
    r.push(delim);
    let ghost head = cviews(r@);
    assert(head =~= tl + seq![
        row_md(strs(header@), width as nat),
        "|"@ + repeat_text("---|"@, width as nat),
    ]);
    let mut k: usize = 0;
    while k < rows.len()
        invariant
            k <= rows.len(),
            rv == crate::ast::rows_view(rows@),
            cviews(r@) == head + rv.take(k as int).map_values(
                |row: Seq<Seq<char>>| row_md(row, width as nat),
            ),
        decreases rows.len() - k,
    {
        let line = render_row(&rows[k], width);
        let ghost before = cviews(r@);
        r.push(line);
        assert(cviews(r@) =~= before.push(line@));
        assert(rv.take(k + 1).map_values(|row: Seq<Seq<char>>| row_md(row, width as nat))
            =~= rv.take(k as int).map_values(|row: Seq<Seq<char>>| row_md(row, width as nat)).push(
            row_md(rv[k as int], width as nat),
        ));
        k = k + 1;
    }
    assert(rv.take(rows.len() as int) =~= rv);
    r
}

/// The pieces of `s` between `'\n'`s.
fn split_lines_exec(s: &Vec<char>) -> (r: Vec<Vec<char>>)
    ensures
        cviews(r@) == split(s@, '\n'),
{
    let mut r: Vec<Vec<char>> = Vec::new();
    let mut i: usize = 0;
    loop
        invariant
            i <= s.len(),
            cviews(r@) + split_from(s@, '\n', i as int) == split(s@, '\n'),
        decreases s.len() - i,
    {
        let j = find_from_exec(s, '\n', i);
        proof {
            lemma_find_from(s@, '\n', i as int);
        }
        let ghost before = cviews(r@);
        if j >= s.len() {
            let piece = slice_vec(s, i, s.len());
            r.push(piece);
            assert(cviews(r@) =~= before.push(piece@));
            return r;
        }
        let piece = slice_vec(s, i, j);
        r.push(piece);
        assert(cviews(r@) =~= before.push(piece@));
        i = j + 1;
    }
}

fn render_block(block: &Block) -> (r: Vec<Vec<char>>)
    ensures
        cviews(r@) == block_md(block@),
{
    match block {
        Block::Heading { level, text } => {
            let mut line = repeat_exec("#", *level);
            append_str(&mut line, " ");
            let tc = str_chars(text);
            let md = render_inline(&tc);
            append_chars(&mut line, &md);
            let t = trim_end_chars(&line);
            let mut r: Vec<Vec<char>> = Vec::new();
            r.push(t);
            assert(cviews(r@) =~= block_md(block@));
            r
        },
        Block::Paragraph { text } => {
            let tc = str_chars(text);
            let md = render_inline(&tc);
            split_lines_exec(&md)
        },
        Block::BlankLine => {
            let mut r: Vec<Vec<char>> = Vec::new();
            r.push(Vec::new());
            assert(cviews(r@) =~= block_md(block@));
            r
        },
        Block::Code { language, lines, indent } => {
            render_code(language, lines, indent)
        },
        Block::Math { lines, indent } => render_math(lines, indent),
        Block::BulletList { items } => render_list(items),
        Block::Table { title, header, rows } => render_table(title, header, rows),
    }
}

/// The Markdown of a document.
pub fn render_markdown(document: &Document) -> (r: String)
    ensures
        r@ == render_markdown_spec(document@),
{
    let ghost bv = blocks_view(document.blocks@);
    let mut lines: Vec<Vec<char>> = Vec::new();
    let mut k: usize = 0;
    while k < document.blocks.len()
        invariant
            k <= document.blocks.len(),
            bv == blocks_view(document.blocks@),
            cviews(lines@) == doc_lines(bv.take(k as int)),
        decreases document.blocks.len() - k,
    {
        let block_lines = render_block(&document.blocks[k]);
        let ghost before = cviews(lines@);
        let mut m: usize = 0;
        while m < block_lines.len()
            invariant
                m <= block_lines.len(),
                cviews(lines@) == before + cviews(block_lines@).take(m as int),
            decreases block_lines.len() - m,
        {
            let line = slice_vec(&block_lines[m], 0, block_lines[m].len());
            assert(line@ =~= block_lines[m as int]@);
            let ghost b2 = cviews(lines@);
            lines.push(line);
            assert(cviews(lines@) =~= b2.push(line@));
            assert(cviews(block_lines@).take(m + 1) =~= cviews(block_lines@).take(m as int).push(
                line@,
            ));
            assert(cviews(lines@) =~= before + cviews(block_lines@).take(m + 1));
            m = m + 1;
        }
        assert(cviews(block_lines@).take(block_lines.len() as int) =~= cviews(block_lines@));
        assert(bv.take(k + 1).drop_last() =~= bv.take(k as int));
        assert(bv.take(k + 1).last() == document.blocks[k as int]@);
        k = k + 1;
    }
    assert(bv.take(document.blocks.len() as int) =~= bv);
    let joined = join_exec(&lines, "\n");
    let mut a: usize = 0;
    while a < joined.len() && joined[a] == '\n'
        invariant
            a <= joined.len(),
            run_end(joined@, 0, nl_pred()) == run_end(joined@, a as int, nl_pred()),
        decreases joined.len() - a,
    {
        a = a + 1;
    }
    let t = slice_vec(&joined, a, joined.len());
    let mut b: usize = t.len();
    while b > 0 && t[b - 1] == '\n'
        invariant
            b <= t.len(),
            run_back(t@, t@.len() as int, nl_pred()) == run_back(t@, b as int, nl_pred()),
        decreases b,
    {
        b = b - 1;
    }
    let out = slice_vec(&t, 0, b);
    string_from_chars(&out)
}

} // verus!
