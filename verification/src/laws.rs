//! Properties of the converter as a whole, proved over the specifications.
use vstd::prelude::*;
use crate::ast::{BlockV, InlineV, ListItemV};
use crate::inline::{is_http_url_spec, is_valid_label_spec, url_bracket_spec, classify_bracket_spec, inline_scan, parse_inline_spec, plain_nodes, plain_scan};
use crate::patterns::{first_url_from, scheme_len, url_starts_at};
use crate::render_markdown::{
    block_md, doc_lines, inline_md, inlines_md, nl_pred, render_inline_spec, trim_newlines,
};
use crate::text::{
    find_from, has_at, join, lemma_find_from, lines, lines_from, run_back, run_end, split,
    split_from, strip_cr, trim,
};
use crate::parser::{
    infer_language_spec, last_index_of, levels, levels_from, list, parse_from, parse_spec, pop_until,
    split_cells_spec, TokenV, tokenize_spec,
};
use crate::patterns::{lemma_url_match, url_match};

verus! {

// ---------------------------------------------------------------------------
// Literal text is never lost.
// ---------------------------------------------------------------------------

/// The text a plain-run node stands for.
pub open spec fn node_literal(n: InlineV) -> Seq<char> {
    match n {
        InlineV::Text(t) => t,
        InlineV::AutoLink(u) => u,
        _ => seq![],
    }
}

pub open spec fn literal_text(ns: Seq<InlineV>) -> Seq<char>
    decreases ns.len(),
{
    if ns.len() == 0 {
        seq![]
    } else {
        node_literal(ns[0]) + literal_text(ns.skip(1))
    }
}

pub open spec fn plain_kind(n: InlineV) -> bool {
    n is Text || n is AutoLink
}

pub proof fn lemma_literal_concat(a: Seq<InlineV>, b: Seq<InlineV>)
    ensures
        literal_text(a + b) == literal_text(a) + literal_text(b),
    decreases a.len(),
{
    if a.len() == 0 {
        assert(a + b =~= b);
    } else {
        assert((a + b).skip(1) =~= a.skip(1) + b);
        lemma_literal_concat(a.skip(1), b);
        assert((a + b)[0] == a[0]);
    }
}

proof fn lemma_plain_scan(t: Seq<char>, from: int, last: int)
    requires
        0 <= last <= from <= t.len(),
    ensures
        literal_text(plain_scan(t, from, last)) == t.subrange(last, t.len() as int),
        forall|k: int|
            0 <= k < plain_scan(t, from, last).len() ==> plain_kind(
                #[trigger] plain_scan(t, from, last)[k],
            ),
    decreases t.len() - from,
{
    let u = t.skip(from);
    lemma_url_match(u);
    match url_match(u) {
        None => {
            if last < t.len() {
                let one = seq![InlineV::Text(t.subrange(last, t.len() as int))];
                assert(one.skip(1) =~= Seq::<InlineV>::empty());
                assert(literal_text(one.skip(1)) == Seq::<char>::empty());
                assert(one[0] == InlineV::Text(t.subrange(last, t.len() as int)));
                assert(literal_text(one) =~= t.subrange(last, t.len() as int));
            } else {
                assert(t.subrange(last, t.len() as int) =~= Seq::<char>::empty());
            }
        },
        Some((a, e)) => {
            let ms = from + a;
            let me = from + e;
            if ms > 0 && (t[ms - 1] == '<' || t[ms - 1] == '(') {
                lemma_plain_scan(t, me, last);
            } else {
                lemma_plain_scan(t, me, me);
                let pre = if ms > last {
                    seq![InlineV::Text(t.subrange(last, ms))]
                } else {
                    seq![]
                };
                let link = seq![InlineV::AutoLink(t.subrange(ms, me))];
                let rest = plain_scan(t, me, me);
                assert(plain_scan(t, from, last) == pre + link + rest);
                lemma_literal_concat(pre + link, rest);
                lemma_literal_concat(pre, link);
                assert(link.skip(1) =~= Seq::<InlineV>::empty());
                assert(literal_text(link.skip(1)) == Seq::<char>::empty());
                assert(literal_text(link) =~= t.subrange(ms, me));
                if ms > last {
                    assert(pre.skip(1) =~= Seq::<InlineV>::empty());
                    assert(literal_text(pre.skip(1)) == Seq::<char>::empty());
                    assert(literal_text(pre) =~= t.subrange(last, ms));
                } else {
                    assert(t.subrange(last, ms) =~= Seq::<char>::empty());
                }
                assert(t.subrange(last, ms) + t.subrange(ms, me) + t.subrange(me, t.len() as int)
                    =~= t.subrange(last, t.len() as int));
                assert forall|k: int|
                    0 <= k < plain_scan(t, from, last).len() implies plain_kind(
                    #[trigger] plain_scan(t, from, last)[k],
                ) by {
                    let all = pre + link + rest;
                    if k >= pre.len() + 1 {
                        assert(all[k] == rest[k - pre.len() - 1]);
                    }
                }
            }
        },
    }
}

/// A run of literal text loses nothing: its nodes are text and bare-URL links
/// only, and their texts put together give back the run exactly.
pub proof fn law_plain_run_kept(t: Seq<char>)
    ensures
        literal_text(plain_nodes(t)) == t,
        forall|k: int| 0 <= k < plain_nodes(t).len() ==> plain_kind(#[trigger] plain_nodes(t)[k]),
{
    lemma_plain_scan(t, 0, 0);
    assert(t.subrange(0, t.len() as int) =~= t);
}

// ---------------------------------------------------------------------------
// List levels are sequential.
// ---------------------------------------------------------------------------

/// Levels that start at 0 and never rise by more than one from one item to
/// the next.
pub open spec fn sequential(l: Seq<nat>) -> bool {
    (l.len() > 0 ==> l[0] == 0) && forall|i: int| 0 <= i < l.len() - 1 ==> #[trigger] l[i + 1] <= l[i] + 1
}

proof fn lemma_pop_until(stack: Seq<int>, d: int)
    ensures
        pop_until(stack, d).len() <= stack.len(),
    decreases stack.len(),
{
    if stack.len() > 0 && stack.last() >= d {
        lemma_pop_until(stack.drop_last(), d);
    }
}

proof fn lemma_levels_from(depths: Seq<int>, i: int, stack: Seq<int>)
    requires
        0 <= i <= depths.len(),
    ensures
        levels_from(depths, i, stack).len() == depths.len() - i,
        i < depths.len() ==> levels_from(depths, i, stack)[0] <= stack.len(),
        forall|j: int|
            0 <= j < levels_from(depths, i, stack).len() - 1 ==> #[trigger] levels_from(
                depths,
                i,
                stack,
            )[j + 1] <= levels_from(depths, i, stack)[j] + 1,
    decreases depths.len() - i,
{
    if i < depths.len() {
        let st = pop_until(stack, depths[i]);
        lemma_pop_until(stack, depths[i]);
        let next = st.push(depths[i]);
        lemma_levels_from(depths, i + 1, next);
        let l = levels_from(depths, i, stack);
        let r = levels_from(depths, i + 1, next);
        assert(l == seq![st.len()] + r);
        assert forall|j: int| 0 <= j < l.len() - 1 implies #[trigger] l[j + 1] <= l[j] + 1 by {
            if j > 0 {
                assert(l[j + 1] == r[j]);
                assert(l[j] == r[j - 1]);
                assert(r[(j - 1) + 1] <= r[j - 1] + 1);
            } else {
                assert(l[1] == r[0]);
            }
        }
    }
}

/// Irregular indentation is normalized to sequential levels: the first item
/// is at level 0 and each item is at most one level deeper than the one before.
pub proof fn law_levels_sequential(depths: Seq<int>)
    ensures
        sequential(levels(depths)),
        levels(depths).len() == depths.len(),
{
    lemma_levels_from(depths, 0, seq![]);
}

pub open spec fn list_levels(items: Seq<ListItemV>) -> Seq<nat> {
    items.map_values(|it: ListItemV| it.level)
}

pub open spec fn lists_sequential(blocks: Seq<BlockV>) -> bool {
    forall|k: int|
        0 <= k < blocks.len() ==> (#[trigger] blocks[k] matches BlockV::BulletList { items }
            ==> sequential(list_levels(items)))
}

proof fn lemma_lists_concat(a: Seq<BlockV>, b: Seq<BlockV>)
    requires
        lists_sequential(a),
        lists_sequential(b),
    ensures
        lists_sequential(a + b),
{
    assert forall|k: int| 0 <= k < (a + b).len() implies (#[trigger] (a + b)[k] matches BlockV::BulletList {
        items,
    } ==> sequential(list_levels(items))) by {
        if k < a.len() {
            assert((a + b)[k] == a[k]);
        } else {
            assert((a + b)[k] == b[k - a.len()]);
        }
    }
}

proof fn lemma_list_block(toks: Seq<TokenV>, i: int)
    requires
        0 <= i < toks.len(),
    ensures
        lists_sequential(seq![list(toks, i).0]),
{
    let end = list(toks, i).1;
    crate::parser::lemma_item_end(toks, i);
    let items = toks.subrange(i, end);
    let depths = items.map_values(|t: TokenV| t.indent - 1);
    law_levels_sequential(depths);
    let lv = levels(depths);
    if let BlockV::BulletList { items: its } = list(toks, i).0 {
        assert(list_levels(its) =~= lv);
    }
}

proof fn lemma_no_lists(blocks: Seq<BlockV>)
    requires
        forall|k: int| 0 <= k < blocks.len() ==> !(#[trigger] blocks[k] is BulletList),
    ensures
        lists_sequential(blocks),
{
}

proof fn lemma_parse_from_lists(toks: Seq<TokenV>, i: int, para: Seq<Seq<char>>)
    ensures
        lists_sequential(parse_from(toks, i, para)),
    decreases toks.len() - i,
{
    let f = crate::parser::flush(para);
    lemma_no_lists(f);
    if 0 <= i < toks.len() {
        crate::parser::lemma_scan_ends(toks, i);
        let t = toks[i];
        match t.kind {
            crate::parser::TokenKindV::Blank => {
                lemma_parse_from_lists(toks, i + 1, seq![]);
                lemma_no_lists(seq![BlockV::BlankLine]);
                lemma_lists_concat(f, seq![BlockV::BlankLine]);
                lemma_lists_concat(f + seq![BlockV::BlankLine], parse_from(toks, i + 1, seq![]));
            },
            crate::parser::TokenKindV::Heading { level, text } => {
                let h = seq![BlockV::Heading { level, text }];
                lemma_parse_from_lists(toks, i + 1, seq![]);
                lemma_no_lists(h);
                lemma_lists_concat(f, h);
                lemma_lists_concat(f + h, parse_from(toks, i + 1, seq![]));
            },
            crate::parser::TokenKindV::Fence { language } => {
                let (b, n) = crate::parser::fenced(toks, i, language);
                lemma_parse_from_lists(toks, n, seq![]);
                lemma_no_lists(seq![b]);
                lemma_lists_concat(f, seq![b]);
                lemma_lists_concat(f + seq![b], parse_from(toks, n, seq![]));
            },
            crate::parser::TokenKindV::CodeDirective { descriptor } => {
                let (b, n) = crate::parser::code_block(toks, i, descriptor);
                lemma_parse_from_lists(toks, n, seq![]);
                lemma_no_lists(seq![b]);
                lemma_lists_concat(f, seq![b]);
                lemma_lists_concat(f + seq![b], parse_from(toks, n, seq![]));
            },
            crate::parser::TokenKindV::TableDirective { title } => {
                let (b, n) = crate::parser::table(toks, i, title);
                let bs = match b {
                    Some(b) => seq![b],
                    None => seq![],
                };
                lemma_parse_from_lists(toks, n, seq![]);
                lemma_no_lists(bs);
                lemma_lists_concat(f, bs);
                lemma_lists_concat(f + bs, parse_from(toks, n, seq![]));
            },
            crate::parser::TokenKindV::Text => {
                if t.indent == 0 {
                    lemma_parse_from_lists(toks, i + 1, para.push(t.raw));
                } else if crate::text::is_blank(t.raw) {
                    lemma_parse_from_lists(toks, i + 1, seq![]);
                    lemma_no_lists(seq![BlockV::BlankLine]);
                    lemma_lists_concat(f, seq![BlockV::BlankLine]);
                    lemma_lists_concat(f + seq![BlockV::BlankLine], parse_from(toks, i + 1, seq![]));
                } else {
                    let (b, n) = list(toks, i);
                    lemma_parse_from_lists(toks, n, seq![]);
                    lemma_list_block(toks, i);
                    lemma_lists_concat(f, seq![b]);
                    lemma_lists_concat(f + seq![b], parse_from(toks, n, seq![]));
                }
            },
        }
    }
}

/// Every bullet list of a parsed document has sequential levels.
pub proof fn law_parsed_lists_sequential(text: Seq<char>)
    ensures
        lists_sequential(parse_spec(text)),
{
    lemma_parse_from_lists(tokenize_spec(text), 0, seq![]);
}


// ---------------------------------------------------------------------------
// Plain text passes through unchanged.
// ---------------------------------------------------------------------------

pub open spec fn word_char(c: char) -> bool {
    ('a' <= c && c <= 'z') || ('A' <= c && c <= 'Z') || ('0' <= c && c <= '9')
}

/// A line of ASCII letters, digits and spaces that starts and ends with a
/// letter or digit.
pub open spec fn plain_line(s: Seq<char>) -> bool {
    s.len() > 0 && word_char(s[0]) && word_char(s.last()) && forall|k: int|
        0 <= k < s.len() ==> word_char(#[trigger] s[k]) || s[k] == ' '
}

pub open spec fn text_char(c: char) -> bool {
    word_char(c) || c == ' ' || c == '\n'
}

proof fn lemma_join_front(ls: Seq<Seq<char>>, sep: Seq<char>)
    requires
        ls.len() >= 2,
    ensures
        join(ls, sep) == ls[0] + sep + join(ls.skip(1), sep),
    decreases ls.len(),
{
    if ls.len() == 2 {
        assert(ls.drop_last().len() == 1);
        assert(ls.skip(1).len() == 1);
        assert(join(ls.skip(1), sep) == ls.skip(1)[0]);
        assert(join(ls.drop_last(), sep) == ls.drop_last()[0]);
    } else {
        lemma_join_front(ls.drop_last(), sep);
        assert(ls.drop_last().skip(1) =~= ls.skip(1).drop_last());
        assert(ls.skip(1).last() == ls.last());
        assert(join(ls.skip(1), sep) == join(ls.skip(1).drop_last(), sep) + sep + ls.skip(1).last());
        assert(join(ls, sep) =~= ls[0] + sep + join(ls.skip(1), sep));
    }
}

proof fn lemma_find_shift(pre: Seq<char>, s: Seq<char>, c: char, i: int)
    requires
        0 <= i <= s.len(),
    ensures
        find_from(pre + s, c, pre.len() + i) == pre.len() + find_from(s, c, i),
    decreases s.len() - i,
{
    if i < s.len() {
        assert((pre + s)[pre.len() + i] == s[i]);
        lemma_find_shift(pre, s, c, i + 1);
    }
}

proof fn lemma_lines_shift(pre: Seq<char>, s: Seq<char>, i: int)
    requires
        0 <= i <= s.len(),
    ensures
        lines_from(pre + s, pre.len() + i) == lines_from(s, i),
    decreases s.len() - i,
{
    if i < s.len() {
        let p = pre.len() as int;
        lemma_find_shift(pre, s, '\n', i);
        lemma_find_from(s, '\n', i);
        let j = find_from(s, '\n', i);
        if j < s.len() {
            lemma_lines_shift(pre, s, j + 1);
            assert((pre + s).subrange(p + i, p + j) =~= s.subrange(i, j));
        } else {
            assert((pre + s).subrange(p + i, (pre + s).len() as int) =~= s.subrange(i, s.len() as int));
        }
    }
}

/// The first `c` at or after `i` is at `j`.
proof fn lemma_find_at(s: Seq<char>, c: char, i: int, j: int)
    requires
        0 <= i <= j <= s.len(),
        forall|k: int| i <= k < j ==> s[k] != c,
        j < s.len() ==> s[j] == c,
    ensures
        find_from(s, c, i) == j,
{
    lemma_find_from(s, c, i);
    let f = find_from(s, c, i);
    if f < j {
        assert(s[f] != c);
    }
}

proof fn lemma_lines_join(ls: Seq<Seq<char>>)
    requires
        ls.len() >= 1,
        forall|k: int| 0 <= k < ls.len() ==> plain_line(#[trigger] ls[k]),
    ensures
        lines(join(ls, "\n"@)) == ls,
    decreases ls.len(),
{
    reveal_strlit("\n");
    let a = ls[0];
    assert(plain_line(a));
    if ls.len() == 1 {
        let s = join(ls, "\n"@);
        assert(s == a);
        lemma_find_at(s, '\n', 0, s.len() as int);
        assert(s.subrange(0, s.len() as int) =~= s);
        assert(lines(s) =~= ls);
    } else {
        let r = join(ls.skip(1), "\n"@);
        lemma_join_front(ls, "\n"@);
        let pre = a + "\n"@;
        let s = join(ls, "\n"@);
        assert(s =~= pre + r);
        assert forall|k: int| 0 <= k < a.len() implies s[k] != '\n' by {
            assert(s[k] == a[k]);
        }
        assert(s[a.len() as int] == '\n');
        lemma_find_at(s, '\n', 0, a.len() as int);
        assert(s.subrange(0, a.len() as int) =~= a);
        assert(strip_cr(a) == a);
        lemma_lines_shift(pre, r, 0);
        assert forall|k: int| 0 <= k < ls.skip(1).len() implies plain_line(#[trigger] ls.skip(1)[k]) by {
            assert(ls.skip(1)[k] == ls[k + 1]);
        }
        lemma_lines_join(ls.skip(1));
        assert(lines(s) == seq![a] + lines(r));
        assert(seq![a] + ls.skip(1) =~= ls);
    }
}

proof fn lemma_plain_token(l: Seq<char>)
    requires
        plain_line(l),
    ensures
        crate::parser::token_of(l) == (TokenV {
            raw: l,
            indent: 0,
            kind: crate::parser::TokenKindV::Text,
        }),
{
    reveal_strlit("```");
    reveal_strlit("code:");
    reveal_strlit("table:");
    assert(word_char(l[0]));
    assert(run_end(l, 0, crate::parser::indent_pred()) == 0);
    assert(l.skip(0) =~= l);
    if has_at(l, 0, "```"@) {
        assert(l.subrange(0, 3)[0] == l[0]);
    }
    if has_at(l, 0, "code:"@) {
        assert(l.subrange(0, 5)[4] == l[4]);
        assert(word_char(l[4]) || l[4] == ' ');
    }
    if has_at(l, 0, "table:"@) {
        assert(l.subrange(0, 6)[5] == l[5]);
        assert(word_char(l[5]) || l[5] == ' ');
    }
}

proof fn lemma_paragraph(toks: Seq<TokenV>, ls: Seq<Seq<char>>, i: int, para: Seq<Seq<char>>)
    requires
        toks.len() == ls.len(),
        0 <= i <= toks.len(),
        forall|k: int|
            0 <= k < toks.len() ==> #[trigger] toks[k] == (TokenV {
                raw: ls[k],
                indent: 0,
                kind: crate::parser::TokenKindV::Text,
            }),
    ensures
        parse_from(toks, i, para) == crate::parser::flush(para + ls.skip(i)),
    decreases toks.len() - i,
{
    if i < toks.len() {
        assert(toks[i].kind is Text);
        lemma_paragraph(toks, ls, i + 1, para.push(ls[i]));
        assert(para.push(ls[i]) + ls.skip(i + 1) =~= para + ls.skip(i));
    } else {
        assert(para + ls.skip(i) =~= para);
    }
}

proof fn lemma_join_chars(ls: Seq<Seq<char>>)
    requires
        forall|k: int| 0 <= k < ls.len() ==> plain_line(#[trigger] ls[k]),
    ensures
        forall|k: int|
            0 <= k < join(ls, "\n"@).len() ==> text_char(#[trigger] join(ls, "\n"@)[k]),
    decreases ls.len(),
{
    reveal_strlit("\n");
    if ls.len() == 1 {
        assert(plain_line(ls[0]));
    } else if ls.len() > 1 {
        assert forall|k: int| 0 <= k < ls.drop_last().len() implies plain_line(
            #[trigger] ls.drop_last()[k],
        ) by {
            assert(ls.drop_last()[k] == ls[k]);
        }
        lemma_join_chars(ls.drop_last());
        let a = join(ls.drop_last(), "\n"@);
        let b = ls.last();
        assert(plain_line(b));
        assert forall|k: int| 0 <= k < join(ls, "\n"@).len() implies text_char(
            #[trigger] join(ls, "\n"@)[k],
        ) by {
            let s = join(ls, "\n"@);
            if k < a.len() {
                assert(s[k] == a[k]);
            } else if k == a.len() {
            } else {
                assert(s[k] == b[k - a.len() - 1]);
            }
        }
    }
}

proof fn lemma_inline_plain(t: Seq<char>, pos: int, plain: Seq<char>)
    requires
        0 <= pos <= t.len(),
        forall|k: int| 0 <= k < t.len() ==> #[trigger] t[k] != '[',
    ensures
        inline_scan(t, pos, plain) == plain_nodes(plain + t.skip(pos)),
    decreases t.len() - pos,
{
    if pos < t.len() {
        assert(t[pos] != '[');
        lemma_inline_plain(t, pos + 1, plain.push(t[pos]));
        assert(plain.push(t[pos]) + t.skip(pos + 1) =~= plain + t.skip(pos));
    } else {
        assert(plain + t.skip(pos) =~= plain);
    }
}

proof fn lemma_no_url(u: Seq<char>, i: int)
    requires
        0 <= i <= u.len(),
        forall|k: int| 0 <= k < u.len() ==> #[trigger] u[k] != ':',
    ensures
        first_url_from(u, i) == u.len(),
    decreases u.len() - i,
{
    reveal_strlit("https://");
    reveal_strlit("http://");
    if i < u.len() {
        if has_at(u, i, "https://"@) {
            assert(u.subrange(i, i + 8)[5] == u[i + 5]);
        }
        if has_at(u, i, "http://"@) {
            assert(u.subrange(i, i + 7)[4] == u[i + 4]);
        }
        assert(scheme_len(u, i) == 0);
        assert(!url_starts_at(u, i));
        lemma_no_url(u, i + 1);
    }
}

proof fn lemma_render_plain(t: Seq<char>)
    requires
        t.len() > 0,
        forall|k: int| 0 <= k < t.len() ==> text_char(#[trigger] t[k]),
    ensures
        render_inline_spec(t) == t,
{
    assert forall|k: int| 0 <= k < t.len() implies #[trigger] t[k] != '[' by {
        assert(text_char(t[k]));
    }
    assert forall|k: int| 0 <= k < t.len() implies #[trigger] t[k] != ':' by {
        assert(text_char(t[k]));
    }
    lemma_inline_plain(t, 0, seq![]);
    let u = Seq::<char>::empty() + t.skip(0);
    assert(u =~= t);
    lemma_no_url(t, 0);
    assert(t.skip(0) =~= t);
    assert(url_match(t) is None);
    assert(t.subrange(0, t.len() as int) =~= t);
    assert(plain_nodes(t) == seq![InlineV::Text(t)]);
    assert(parse_inline_spec(t) == seq![InlineV::Text(t)]);
    let ns = seq![InlineV::Text(t)];
    assert(ns.drop_last() =~= Seq::<InlineV>::empty());
    assert(inlines_md(ns.drop_last()) == Seq::<char>::empty());
    assert(inlines_md(ns) =~= t);
}

proof fn lemma_split_len(x: Seq<char>, c: char, i: int)
    requires
        0 <= i <= x.len(),
    ensures
        split_from(x, c, i).len() >= 1,
{
}

proof fn lemma_join_split(x: Seq<char>, i: int)
    requires
        0 <= i <= x.len(),
    ensures
        join(split_from(x, '\n', i), "\n"@) == x.subrange(i, x.len() as int),
    decreases x.len() - i,
{
    reveal_strlit("\n");
    lemma_find_from(x, '\n', i);
    let j = find_from(x, '\n', i);
    if j < x.len() {
        lemma_join_split(x, j + 1);
        lemma_split_len(x, '\n', j + 1);
        let parts = split_from(x, '\n', i);
        assert(parts == seq![x.subrange(i, j)] + split_from(x, '\n', j + 1));
        lemma_join_front(parts, "\n"@);
        assert(parts.skip(1) =~= split_from(x, '\n', j + 1));
        assert(x.subrange(i, j) + "\n"@ + x.subrange(j + 1, x.len() as int) =~= x.subrange(
            i,
            x.len() as int,
        ));
    }
}

proof fn lemma_trim_newlines(t: Seq<char>)
    requires
        t.len() > 0,
        t[0] != '\n',
        t.last() != '\n',
    ensures
        trim_newlines(t) == t,
{
    assert(run_end(t, 0, nl_pred()) == 0);
    assert(t.skip(0) =~= t);
    assert(run_back(t, t.len() as int, nl_pred()) == t.len());
    assert(t.take(t.len() as int) =~= t);
}

/// Lines of plain words (ASCII letters, digits and spaces, starting and ending
/// with a letter or digit), joined by newlines, convert to themselves: with no
/// markup there is nothing to transform and nothing to drop.
pub proof fn law_plain_lines_preserved(ls: Seq<Seq<char>>)
    requires
        ls.len() >= 1,
        forall|k: int| 0 <= k < ls.len() ==> plain_line(#[trigger] ls[k]),
    ensures
        crate::convert_spec(join(ls, "\n"@)) == join(ls, "\n"@),
{
    reveal_strlit("\n");
    let t = join(ls, "\n"@);
    lemma_lines_join(ls);
    let toks = tokenize_spec(t);
    assert forall|k: int| 0 <= k < toks.len() implies #[trigger] toks[k] == (TokenV {
        raw: ls[k],
        indent: 0,
        kind: crate::parser::TokenKindV::Text,
    }) by {
        assert(plain_line(ls[k]));
        lemma_plain_token(ls[k]);
    }
    lemma_paragraph(toks, ls, 0, seq![]);
    assert(Seq::<Seq<char>>::empty() + ls.skip(0) =~= ls);
    let doc = parse_spec(t);
    assert(doc == seq![BlockV::Paragraph { text: t }]);
    lemma_join_chars(ls);
    // first and last characters of the joined text
    assert(plain_line(ls[0]));
    assert(plain_line(ls.last()));
    if ls.len() >= 2 {
        lemma_join_front(ls, "\n"@);
        assert(t[0] == ls[0][0]);
    } else {
        assert(t == ls[0]);
    }
    assert(t.len() > 0);
    assert(t.last() == ls.last().last()) by {
        if ls.len() >= 2 {
            assert(t == join(ls.drop_last(), "\n"@) + "\n"@ + ls.last());
        }
    }
    lemma_render_plain(t);
    assert(doc.drop_last() =~= Seq::<BlockV>::empty());
    assert(doc_lines(doc.drop_last()) == Seq::<Seq<char>>::empty());
    assert(doc.last() == BlockV::Paragraph { text: t });
    assert(block_md(doc.last()) == split(t, '\n'));
    assert(doc_lines(doc) =~= split(t, '\n'));
    lemma_join_split(t, 0);
    assert(t.subrange(0, t.len() as int) =~= t);
    lemma_trim_newlines(t);
}

/// A single line of plain words converts to itself.
pub proof fn law_plain_line_preserved(s: Seq<char>)
    requires
        plain_line(s),
    ensures
        crate::convert_spec(s) == s,
{
    let ls = seq![s];
    assert(join(ls, "\n"@) == s);
    law_plain_lines_preserved(ls);
}


// ---------------------------------------------------------------------------
// Unrecognised spans pass through.
// ---------------------------------------------------------------------------

/// A bracket span the classifier does not recognise renders as its own source,
/// brackets included.
pub proof fn law_unknown_span_verbatim(inner: Seq<char>)
    ensures
        classify_bracket_spec(inner) is Unknown ==> inline_md(classify_bracket_spec(inner)) == seq![
            '[',
        ] + inner + seq![']'],
{
}


// ---------------------------------------------------------------------------
// List levels follow indentation.
// ---------------------------------------------------------------------------

proof fn lemma_pop_until_top(stack: Seq<int>, d: int)
    ensures
        pop_until(stack, d).len() == 0 || pop_until(stack, d).last() < d,
    decreases stack.len(),
{
    if stack.len() > 0 && stack.last() >= d {
        lemma_pop_until_top(stack.drop_last(), d);
    }
}

proof fn lemma_pop_until_keeps(stack: Seq<int>, d: int)
    requires
        stack.len() == 0 || stack.last() < d,
    ensures
        pop_until(stack, d) == stack,
{
}

/// How the levels of items `i` and `i + 1` relate, from any stack.
proof fn lemma_adjacent_levels(depths: Seq<int>, i: int, stack: Seq<int>)
    requires
        0 <= i < depths.len() - 1,
    ensures
        ({
            let lf = levels_from(depths, i, stack);
            &&& depths[i + 1] == depths[i] ==> lf[1] == lf[0]
            &&& depths[i + 1] > depths[i] ==> lf[1] == lf[0] + 1
            &&& depths[i + 1] < depths[i] ==> lf[1] <= lf[0]
        }),
{
    let x = depths[i];
    let p = pop_until(stack, x);
    lemma_pop_until_top(stack, x);
    let next = p.push(x);
    let lf = levels_from(depths, i, stack);
    let rest = levels_from(depths, i + 1, next);
    assert(lf == seq![p.len()] + rest);
    assert(lf[1] == rest[0]);
    assert(rest[0] == pop_until(next, depths[i + 1]).len());
    assert(next.drop_last() =~= p);
    if depths[i + 1] == x {
        assert(pop_until(next, x) == pop_until(p, x));
        lemma_pop_until_keeps(p, x);
    } else if depths[i + 1] > x {
        lemma_pop_until_keeps(next, depths[i + 1]);
    } else {
        assert(pop_until(next, depths[i + 1]) == pop_until(p, depths[i + 1]));
        lemma_pop_until(p, depths[i + 1]);
    }
}

proof fn lemma_all_adjacent(depths: Seq<int>, i: int, stack: Seq<int>, j: int)
    requires
        0 <= i <= j < depths.len() - 1,
    ensures
        ({
            let lf = levels_from(depths, i, stack);
            &&& depths[j + 1] == depths[j] ==> lf[j - i + 1] == lf[j - i]
            &&& depths[j + 1] > depths[j] ==> lf[j - i + 1] == lf[j - i] + 1
            &&& depths[j + 1] < depths[j] ==> lf[j - i + 1] <= lf[j - i]
        }),
    decreases j - i,
{
    if j == i {
        lemma_adjacent_levels(depths, i, stack);
    } else {
        let p = pop_until(stack, depths[i]);
        let next = p.push(depths[i]);
        lemma_all_adjacent(depths, i + 1, next, j);
        lemma_levels_from(depths, i + 1, next);
        let lf = levels_from(depths, i, stack);
        let rest = levels_from(depths, i + 1, next);
        assert(lf == seq![p.len()] + rest);
        assert(lf[j - i] == rest[j - (i + 1)]);
        assert(lf[j - i + 1] == rest[j - (i + 1) + 1]);
    }
}

/// List levels follow indentation depths: an item as deep as the one before it
/// is at the same level, a deeper one is exactly one level further in, and a
/// shallower one is at most at the level of the one before it.
pub proof fn law_levels_follow_depths(depths: Seq<int>, i: int)
    requires
        0 <= i < depths.len() - 1,
    ensures
        depths[i + 1] == depths[i] ==> levels(depths)[i + 1] == levels(depths)[i],
        depths[i + 1] > depths[i] ==> levels(depths)[i + 1] == levels(depths)[i] + 1,
        depths[i + 1] < depths[i] ==> levels(depths)[i + 1] <= levels(depths)[i],
{
    lemma_all_adjacent(depths, 0, seq![], i);
}

/// In a parsed bullet list, an item indented exactly like the item before it
/// gets the same level, and an item indented more gets the next level.
pub proof fn law_list_levels_follow_indentation(toks: Seq<TokenV>, start: int, k: int)
    requires
        0 <= start < toks.len(),
        0 <= k,
        start + k + 1 < list(toks, start).1,
    ensures
        list(toks, start).0 matches BlockV::BulletList { items } && items.len() == list(toks, start).1 - start
            && (toks[start + k + 1].indent == toks[start + k].indent ==> items[k + 1].level == items[k].level)
            && (toks[start + k + 1].indent > toks[start + k].indent ==> items[k + 1].level == items[k].level + 1),
{
    let end = list(toks, start).1;
    crate::parser::lemma_item_end(toks, start);
    let items = toks.subrange(start, end);
    let depths = items.map_values(|t: TokenV| t.indent - 1);
    law_levels_sequential(depths);
    law_levels_follow_depths(depths, k);
    assert(depths[k] == toks[start + k].indent - 1);
    assert(depths[k + 1] == toks[start + k + 1].indent - 1);
}

// ---------------------------------------------------------------------------
// The language of a `code:` block.
// ---------------------------------------------------------------------------

proof fn lemma_last_index_of(s: Seq<char>, c: char, j: int)
    requires
        0 <= j <= s.len(),
    ensures
        -1 <= last_index_of(s, c, j) < j,
        last_index_of(s, c, j) >= 0 ==> s[last_index_of(s, c, j)] == c,
        forall|k: int| last_index_of(s, c, j) < k < j ==> #[trigger] s[k] != c,
    decreases j,
{
    if j > 0 && s[j - 1] != c {
        lemma_last_index_of(s, c, j - 1);
    }
}

/// The language of a `code:` descriptor with a `.` is the text after its last
/// `.`: the descriptor ends with `.` followed by the language, and the language
/// holds no `.`. Without a `.`, the language is the whole descriptor.
pub proof fn law_language_after_last_dot(d: Seq<char>)
    ensures
        ({
            let lang = infer_language_spec(d);
            &&& forall|k: int| 0 <= k < d.len() && d[k] == '.' ==> {
                &&& forall|m: int| 0 <= m < lang.len() ==> #[trigger] lang[m] != '.'
                &&& lang.len() < d.len()
                &&& d == d.take(d.len() - lang.len() - 1) + seq!['.'] + lang
            }
            &&& (forall|k: int| 0 <= k < d.len() ==> d[k] != '.') ==> lang == d
        }),
{
    lemma_last_index_of(d, '.', d.len() as int);
    let k = last_index_of(d, '.', d.len() as int);
    let lang = infer_language_spec(d);
    if k >= 0 {
        assert(lang == d.skip(k + 1));
        assert(d =~= d.take(d.len() - lang.len() - 1) + seq!['.'] + lang);
        assert forall|m: int| 0 <= m < lang.len() implies #[trigger] lang[m] != '.' by {
            assert(lang[m] == d[k + 1 + m]);
        }
    } else {
        assert forall|j: int| 0 <= j < d.len() implies d[j] != '.' by {
            assert(d[j] != '.');
        }
    }
}

// ---------------------------------------------------------------------------
// Table cells.
// ---------------------------------------------------------------------------

/// Number of occurrences of `c` in `s` from index `i` on.
pub open spec fn count_from(s: Seq<char>, c: char, i: int) -> nat
    decreases s.len() - i,
{
    if i < 0 || i >= s.len() {
        0
    } else {
        (if s[i] == c {
            1nat
        } else {
            0nat
        }) + count_from(s, c, i + 1)
    }
}

proof fn lemma_count_skip(s: Seq<char>, c: char, i: int, j: int)
    requires
        0 <= i <= j <= s.len(),
        forall|k: int| i <= k < j ==> s[k] != c,
    ensures
        count_from(s, c, i) == count_from(s, c, j),
    decreases j - i,
{
    if i < j {
        lemma_count_skip(s, c, i + 1, j);
    }
}

proof fn lemma_split_count(s: Seq<char>, c: char, i: int)
    requires
        0 <= i <= s.len(),
    ensures
        split_from(s, c, i).len() == count_from(s, c, i) + 1,
    decreases s.len() - i,
{
    lemma_find_from(s, c, i);
    let j = find_from(s, c, i);
    lemma_count_skip(s, c, i, j);
    if j < s.len() {
        lemma_split_count(s, c, j + 1);
    }
}

/// A table row has one cell per tab-separated field: as many cells as the
/// content has tabs, plus one. Content without a tab is a single cell, the
/// content trimmed, its inner spaces kept.
pub proof fn law_cells_per_tab(content: Seq<char>)
    ensures
        split_cells_spec(content).len() == count_from(content, '\t', 0) + 1,
        (forall|k: int| 0 <= k < content.len() ==> content[k] != '\t') ==> split_cells_spec(content)
            == seq![trim(content)],
{
    lemma_split_count(content, '\t', 0);
    if forall|k: int| 0 <= k < content.len() ==> content[k] != '\t' {
        lemma_find_from(content, '\t', 0);
        assert(content.subrange(0, content.len() as int) =~= content);
        assert(split_cells_spec(content) =~= seq![trim(content)]);
    }
}


// ---------------------------------------------------------------------------
// Detection of Cosense text.
// ---------------------------------------------------------------------------

/// A text with a line that, trimmed, starts with one of the bracket markers
/// `[*/`, `[*-`, `[/-`, `[/ `, `[- `, `[img `, `[YouTube ` or `[Twitter ` is
/// detected as Cosense.
pub proof fn law_marker_line_detected(text: Seq<char>, j: int, m: Seq<char>)
    requires
        0 <= j < lines(text).len(),
        m == "[*/"@ || m == "[*-"@ || m == "[/-"@ || m == "[/ "@ || m == "[- "@ || m == "[img "@
            || m == "[YouTube "@ || m == "[Twitter "@,
        has_at(trim(lines(text)[j]), 0, m),
    ensures
        crate::parser::looks_like_cosense_spec(text),
{
    reveal_strlit("[*/");
    reveal_strlit("[*-");
    reveal_strlit("[/-");
    reveal_strlit("[/ ");
    reveal_strlit("[- ");
    reveal_strlit("[img ");
    reveal_strlit("[YouTube ");
    reveal_strlit("[Twitter ");
    let k: int = if m == "[*/"@ {
        0
    } else if m == "[*-"@ {
        1
    } else if m == "[/-"@ {
        2
    } else if m == "[/ "@ {
        3
    } else if m == "[- "@ {
        4
    } else if m == "[img "@ {
        5
    } else if m == "[YouTube "@ {
        6
    } else {
        7
    };
    assert(crate::parser::DETECT_BRACKET_MARKERS[k]@ == m);
    let line = trim(lines(text)[j]);
    assert(line.len() > 0);
    assert(crate::parser::cosense_line(line));
}


// ---------------------------------------------------------------------------
// Link labels.
// ---------------------------------------------------------------------------

/// A whitespace-free, non-empty word.
pub open spec fn is_word(w: Seq<char>) -> bool {
    w.len() > 0 && forall|k: int| 0 <= k < w.len() ==> !crate::text::is_ws(#[trigger] w[k])
}

/// A character a link label may hold.
pub open spec fn label_char(c: char) -> bool {
    c != '/' && c != '-' && c != '*' && c != ']'
}

proof fn lemma_run_end_at(s: Seq<char>, i: int, j: int, p: spec_fn(char) -> bool)
    requires
        0 <= i <= j <= s.len(),
        forall|k: int| i <= k < j ==> #[trigger] p(s[k]),
        j == s.len() || !p(s[j]),
    ensures
        run_end(s, i, p) == j,
    decreases j - i,
{
    if i < j {
        lemma_run_end_at(s, i + 1, j, p);
    }
}

proof fn lemma_run_end_shift(pre: Seq<char>, s: Seq<char>, i: int, p: spec_fn(char) -> bool)
    requires
        0 <= i <= s.len(),
    ensures
        run_end(pre + s, pre.len() + i, p) == pre.len() + run_end(s, i, p),
    decreases s.len() - i,
{
    if i < s.len() {
        assert((pre + s)[pre.len() + i] == s[i]);
        lemma_run_end_shift(pre, s, i + 1, p);
    }
}

proof fn lemma_words_shift(pre: Seq<char>, s: Seq<char>, i: int)
    requires
        0 <= i <= s.len(),
    ensures
        crate::text::words_from(pre + s, pre.len() + i) == crate::text::words_from(s, i),
    decreases s.len() - i,
{
    let ws = crate::text::ws_pred();
    let nws = crate::text::non_ws_pred();
    lemma_run_end_shift(pre, s, i, ws);
    crate::text::lemma_run_end(s, i, ws);
    let a = run_end(s, i, ws);
    if a < s.len() {
        lemma_run_end_shift(pre, s, a, nws);
        crate::text::lemma_run_end(s, a, nws);
        assert(!ws(s[a]));
        let b = run_end(s, a, nws);
        lemma_words_shift(pre, s, b);
        assert((pre + s).subrange(pre.len() + a, pre.len() + b) =~= s.subrange(a, b));
    }
}

proof fn lemma_join_first(ls: Seq<Seq<char>>, sep: Seq<char>)
    requires
        ls.len() >= 1,
        ls[0].len() > 0,
    ensures
        join(ls, sep).len() > 0,
        join(ls, sep)[0] == ls[0][0],
{
    if ls.len() >= 2 {
        lemma_join_front(ls, sep);
    }
}

proof fn lemma_words_join(ps: Seq<Seq<char>>)
    requires
        ps.len() >= 1,
        forall|k: int| 0 <= k < ps.len() ==> is_word(#[trigger] ps[k]),
    ensures
        crate::text::words(join(ps, " "@)) == ps,
    decreases ps.len(),
{
    reveal_strlit(" ");
    let ws = crate::text::ws_pred();
    let nws = crate::text::non_ws_pred();
    let p0 = ps[0];
    assert(is_word(p0));
    let s = join(ps, " "@);
    if ps.len() == 1 {
        assert(s == p0);
        lemma_run_end_at(s, 0, 0, ws);
        assert forall|k: int| 0 <= k < s.len() implies #[trigger] nws(s[k]) by {}
        lemma_run_end_at(s, 0, s.len() as int, nws);
        assert(crate::text::words_from(s, s.len() as int) == Seq::<Seq<char>>::empty());
        assert(s.subrange(0, s.len() as int) =~= s);
        assert(crate::text::words(s) =~= ps);
    } else {
        lemma_join_front(ps, " "@);
        let rest = ps.skip(1);
        assert forall|k: int| 0 <= k < rest.len() implies is_word(#[trigger] rest[k]) by {
            assert(rest[k] == ps[k + 1]);
        }
        let r = join(rest, " "@);
        assert(is_word(rest[0]));
        lemma_join_first(rest, " "@);
        let pre = p0 + " "@;
        assert(s =~= pre + r);
        let n = p0.len() as int;
        assert(s[0] == p0[0]);
        lemma_run_end_at(s, 0, 0, ws);
        assert forall|k: int| 0 <= k < n implies #[trigger] nws(s[k]) by {
            assert(s[k] == p0[k]);
        }
        assert(s[n] == ' ');
        lemma_run_end_at(s, 0, n, nws);
        assert(s.subrange(0, n) =~= p0);
        assert(s[n + 1] == r[0]);
        lemma_run_end_at(s, n, n + 1, ws);
        lemma_run_end_at(s, n + 1, n + 1, ws);
        assert(crate::text::words_from(s, n) == crate::text::words_from(s, n + 1));
        lemma_words_shift(pre, r, 0);
        assert(pre.len() == n + 1);
        lemma_words_join(rest);
        assert(crate::text::words(s) == seq![p0] + crate::text::words_from(s, n));
        assert(crate::text::words(s) =~= ps);
    }
}

proof fn lemma_join_label(ls: Seq<Seq<char>>)
    requires
        ls.len() >= 1,
        forall|k: int| 0 <= k < ls.len() ==> is_word(#[trigger] ls[k]),
        forall|k: int, m: int| 0 <= k < ls.len() && 0 <= m < ls[k].len() ==> label_char(#[trigger] ls[k][m]),
    ensures
        is_valid_label_spec(join(ls, " "@)),
    decreases ls.len(),
{
    reveal_strlit(" ");
    assert(is_word(ls[0]));
    lemma_join_first(ls, " "@);
    if ls.len() > 1 {
        let a = ls.drop_last();
        assert forall|k: int| 0 <= k < a.len() implies is_word(#[trigger] a[k]) by {
            assert(a[k] == ls[k]);
        }
        assert forall|k: int, m: int| 0 <= k < a.len() && 0 <= m < a[k].len() implies label_char(
            #[trigger] a[k][m],
        ) by {
            assert(a[k] == ls[k]);
        }
        lemma_join_label(a);
        let ja = join(a, " "@);
        let b = ls.last();
        let s = join(ls, " "@);
        assert forall|k: int| 0 <= k < s.len() implies label_char(#[trigger] s[k]) by {
            if k < ja.len() {
                assert(s[k] == ja[k]);
            } else if k == ja.len() {
            } else {
                assert(s[k] == b[k - ja.len() - 1]);
                assert(b == ls[ls.len() - 1]);
            }
        }
    } else {
        assert(join(ls, " "@) == ls[0]);
        assert forall|m: int| 0 <= m < ls[0].len() implies label_char(#[trigger] ls[0][m]) by {}
    }
}

/// `[w1 .. wn URL]`: words followed by a URL make a link whose label is the
/// words joined by single spaces (unless the first word is `YouTube` or
/// `Twitter`, which name embeds).
pub proof fn law_label_before_url(ws: Seq<Seq<char>>, u: Seq<char>)
    requires
        ws.len() >= 1,
        forall|k: int| 0 <= k < ws.len() ==> is_word(#[trigger] ws[k]),
        forall|k: int, m: int| 0 <= k < ws.len() && 0 <= m < ws[k].len() ==> label_char(#[trigger] ws[k][m]),
        ws[0] != "YouTube"@,
        ws[0] != "Twitter"@,
        is_http_url_spec(u),
    ensures
        url_bracket_spec(join(ws.push(u), " "@)) == Some(
            InlineV::Link { label: join(ws, " "@), url: u },
        ),
{
    reveal_strlit("http://");
    reveal_strlit("https://");
    let parts = ws.push(u);
    assert(u.len() > 0) by {
        if has_at(u, 0, "http://"@) {
        } else {
        }
    }
    assert forall|k: int| 0 <= k < parts.len() implies is_word(#[trigger] parts[k]) by {
        if k < ws.len() {
            assert(parts[k] == ws[k]);
        }
    }
    lemma_words_join(parts);
    assert(parts.drop_last() =~= ws);
    lemma_join_label(ws);
}

/// `[URL w1 .. wn]`: a URL followed by words (the last of which is no URL)
/// makes a link whose label is the words joined by single spaces.
pub proof fn law_label_after_url(ws: Seq<Seq<char>>, u: Seq<char>)
    requires
        ws.len() >= 1,
        forall|k: int| 0 <= k < ws.len() ==> is_word(#[trigger] ws[k]),
        forall|k: int, m: int| 0 <= k < ws.len() && 0 <= m < ws[k].len() ==> label_char(#[trigger] ws[k][m]),
        !is_http_url_spec(ws.last()),
        is_http_url_spec(u),
    ensures
        url_bracket_spec(join(seq![u] + ws, " "@)) == Some(
            InlineV::Link { label: join(ws, " "@), url: u },
        ),
{
    reveal_strlit("http://");
    reveal_strlit("https://");
    reveal_strlit("YouTube");
    reveal_strlit("Twitter");
    let parts = seq![u] + ws;
    assert(u.len() > 0 && u[0] == 'h') by {
        if has_at(u, 0, "http://"@) {
            assert(u.subrange(0, 7)[0] == u[0]);
        } else {
            assert(u.subrange(0, 8)[0] == u[0]);
        }
    }
    assert(u != "YouTube"@) by {
        if u == "YouTube"@ {
            assert(u[0] == 'Y');
        }
    }
    assert(u != "Twitter"@) by {
        if u == "Twitter"@ {
            assert(u[0] == 'T');
        }
    }
    assert forall|k: int| 0 <= k < parts.len() implies is_word(#[trigger] parts[k]) by {
        if k > 0 {
            assert(parts[k] == ws[k - 1]);
        }
    }
    lemma_words_join(parts);
    assert(parts.skip(1) =~= ws);
    assert(parts.last() == ws.last());
    lemma_join_label(ws);
}


/// `[YouTube URL]` with a YouTube video URL is a link labelled `YouTube Video`
/// to that URL.
pub proof fn law_youtube_embed(u: Seq<char>)
    requires
        is_http_url_spec(u),
        crate::inline::is_youtube_spec(u),
    ensures
        url_bracket_spec(join(seq!["YouTube"@, u], " "@)) == Some(
            InlineV::Link { label: "YouTube Video"@, url: u },
        ),
{
    reveal_strlit("YouTube");
    reveal_strlit("http://");
    reveal_strlit("https://");
    let parts = seq!["YouTube"@, u];
    assert(u.len() > 0) by {
        if has_at(u, 0, "http://"@) {
        } else {
        }
    }
    assert forall|k: int| 0 <= k < parts.len() implies is_word(#[trigger] parts[k]) by {
        if k == 0 {
            assert(is_word("YouTube"@));
        }
    }
    lemma_words_join(parts);
    assert(!crate::inline::youtube_pred()(parts[0])) by {
        assert(!has_at(parts[0], 0, "http://"@)) by {
            if has_at(parts[0], 0, "http://"@) {
                assert(parts[0].subrange(0, 7)[0] == parts[0][0]);
            }
        }
        assert(!has_at(parts[0], 0, "https://"@)) by {
            if has_at(parts[0], 0, "https://"@) {
                assert(parts[0].subrange(0, 8)[0] == parts[0][0]);
            }
        }
    }
    assert(crate::inline::youtube_pred()(parts[1]));
    assert(crate::inline::first_part(parts, 1, crate::inline::youtube_pred()) == 1);
    assert(crate::inline::first_part(parts, 0, crate::inline::youtube_pred()) == 1);
}

/// `[Twitter URL]` with a tweet URL is a link labelled `Twitter Post` to that
/// URL.
pub proof fn law_twitter_embed(u: Seq<char>)
    requires
        is_http_url_spec(u),
        crate::inline::is_twitter_spec(u),
    ensures
        url_bracket_spec(join(seq!["Twitter"@, u], " "@)) == Some(
            InlineV::Link { label: "Twitter Post"@, url: u },
        ),
{
    reveal_strlit("Twitter");
    reveal_strlit("YouTube");
    reveal_strlit("http://");
    reveal_strlit("https://");
    let parts = seq!["Twitter"@, u];
    assert(u.len() > 0) by {
        if has_at(u, 0, "http://"@) {
        } else {
        }
    }
    assert forall|k: int| 0 <= k < parts.len() implies is_word(#[trigger] parts[k]) by {
        if k == 0 {
            assert(is_word("Twitter"@));
        }
    }
    lemma_words_join(parts);
    assert(parts[0] != "YouTube"@) by {
        assert(parts[0][0] != "YouTube"@[0]);
    }
    assert(!crate::inline::twitter_pred()(parts[0])) by {
        assert(!has_at(parts[0], 0, "http://"@)) by {
            if has_at(parts[0], 0, "http://"@) {
                assert(parts[0].subrange(0, 7)[0] == parts[0][0]);
            }
        }
        assert(!has_at(parts[0], 0, "https://"@)) by {
            if has_at(parts[0], 0, "https://"@) {
                assert(parts[0].subrange(0, 8)[0] == parts[0][0]);
            }
        }
    }
    assert(crate::inline::twitter_pred()(parts[1]));
    assert(crate::inline::first_part(parts, 1, crate::inline::twitter_pred()) == 1);
    assert(crate::inline::first_part(parts, 0, crate::inline::twitter_pred()) == 1);
}


/// A `code:tex` block, in any letter case, is a math block; any other
/// descriptor of a different length gives a code block.
pub proof fn law_tex_is_math(toks: Seq<TokenV>, start: int, d: Seq<char>)
    requires
        0 <= start < toks.len(),
    ensures
        (d.len() == 3 && (d[0] == 't' || d[0] == 'T') && (d[1] == 'e' || d[1] == 'E') && (d[2]
            == 'x' || d[2] == 'X')) ==> crate::parser::code_block(toks, start, d).0 is Math,
        d.len() != 3 ==> crate::parser::code_block(toks, start, d).0 is Code,
{
    reveal_strlit("tex");
    if d.len() == 3 && (d[0] == 't' || d[0] == 'T') && (d[1] == 'e' || d[1] == 'E') && (d[2] == 'x'
        || d[2] == 'X') {
        assert(crate::inline::ends_with_ci(d, "tex"@)) by {
            assert forall|k: int| 0 <= k < 3 implies crate::inline::ascii_ci_eq(
                #[trigger] d[d.len() - 3 + k],
                "tex"@[k],
            ) by {}
        }
    }
}

} // verus!
