//! Properties of the engine as a whole.
use vstd::prelude::*;
use crate::ast::{
    is_quantifier, item_size, lemma_alt_size_bound, lemma_phrase_size_split, lemma_single_size,
    lemma_size_step, phrase_size, quant_bounds, Item,
};
use crate::compiler::{
    class_span, compile_spec, escaped_item, left, parse_alts, parse_items, plain_item, prepend,
    CompileError, CompileResult,
};
use crate::matcher::{
    alternatives, char_matches, consume, grow, here, phrase_match, quant, scan, set_active,
    text_at, with_captures, Capture, Search,
};
use crate::{find_spec, first_match, fresh_captures, match_pattern_spec, start_of};

verus! {

/// Characters that have a meaning of their own in pattern text.
pub open spec fn is_special(c: char) -> bool {
    c == '\\' || c == '[' || c == ']' || c == '(' || c == ')' || c == '|' || c == '^' || c == '$'
        || c == '*' || c == '+' || c == '?' || c == '.'
}

/// Pattern text in which every character stands for itself.
pub open spec fn is_literal_text(s: Seq<char>) -> bool {
    forall|i: int| 0 <= i < s.len() ==> !is_special(#[trigger] s[i])
}

/// The items of literal text, one per character.
pub open spec fn literal_phrase(s: Seq<char>) -> Seq<Item>
    decreases s.len(),
{
    if s.len() == 0 {
        seq![]
    } else {
        seq![Item::Char(s[0])] + literal_phrase(s.subrange(1, s.len() as int))
    }
}

/// One step of `literal_phrase`, with the first character `c` of `s`.
proof fn lemma_literal_step(s: Seq<char>, c: char)
    requires
        s.len() > 0,
        c == s[0],
    ensures
        literal_phrase(s) == seq![Item::Char(c)] + literal_phrase(s.subrange(1, s.len() as int)),
        literal_phrase(s).len() == 1 + literal_phrase(s.subrange(1, s.len() as int)).len(),
        literal_phrase(s)[0] == Item::Char(c),
        literal_phrase(s).subrange(1, literal_phrase(s).len() as int) == literal_phrase(
            s.subrange(1, s.len() as int),
        ),
{
    let t = literal_phrase(s.subrange(1, s.len() as int));
    assert((seq![Item::Char(c)] + t).subrange(1, 1 + t.len() as int) =~= t);
}

proof fn lemma_literal_len(s: Seq<char>)
    ensures
        literal_phrase(s).len() == s.len(),
    decreases s.len(),
{
    if s.len() > 0 {
        lemma_literal_step(s, s[0]);
        lemma_literal_len(s.subrange(1, s.len() as int));
    }
}

proof fn lemma_parse_literal(s: Seq<char>, i: int, g: nat, first: bool)
    requires
        is_literal_text(s),
        0 <= i <= s.len(),
    ensures
        parse_items(s, i, g, first) == Ok::<_, CompileError>(
            (literal_phrase(s.subrange(i, s.len() as int)), (s.len() - i) as nat, g),
        ),
    decreases s.len() - i,
{
    if i < s.len() {
        let c = s[i];
        assert(!is_special(c));
        assert(plain_item(c, first) == Item::Char(c));
        lemma_parse_literal(s, i + 1, g, false);
        assert(s.subrange(i, s.len() as int).subrange(1, s.len() - i) =~= s.subrange(i + 1, s.len() as int));
        lemma_literal_step(s.subrange(i, s.len() as int), c);
    } else {
        assert(s.subrange(i, s.len() as int).len() == 0);
    }
}

/// Matching one literal character `c` at position `j` of `s`.
proof fn lemma_match_char_step(s: Seq<char>, j: int, c: char)
    requires
        0 <= j < s.len(),
        c == s[j],
    ensures
        ({
            let st = Search { text: s, pos: j, captures: Seq::<Capture>::empty(), matched: s.subrange(0, j) };
            let re = literal_phrase(s.subrange(j, s.len() as int));
            here(st, re) == here(
                Search { text: s, pos: j + 1, captures: Seq::<Capture>::empty(), matched: s.subrange(0, j + 1) },
                literal_phrase(s.subrange(j + 1, s.len() as int)),
            )
        }),
{
    let st = Search { text: s, pos: j, captures: Seq::<Capture>::empty(), matched: s.subrange(0, j) };
    let sub = s.subrange(j, s.len() as int);
    let re = literal_phrase(sub);
    assert(sub.subrange(1, sub.len() as int) =~= s.subrange(j + 1, s.len() as int));
    lemma_literal_step(sub, c);
    if j + 1 < s.len() {
        let sub1 = s.subrange(j + 1, s.len() as int);
        lemma_literal_step(sub1, s[j + 1]);
        assert(re[1] == re.subrange(1, re.len() as int)[0]);
        assert(re[1] is Char);
    } else {
        lemma_literal_len(s.subrange(j + 1, s.len() as int));
    }
    assert(char_matches(c, Item::Char(c)));
    assert(grow(Seq::<Capture>::empty(), seq![c]) =~= Seq::<Capture>::empty());
    assert(s.subrange(0, j) + seq![c] =~= s.subrange(0, j + 1));
}

proof fn lemma_match_literal(s: Seq<char>, j: int)
    requires
        0 <= j <= s.len(),
    ensures
        here(
            Search { text: s, pos: j, captures: Seq::<Capture>::empty(), matched: s.subrange(0, j) },
            literal_phrase(s.subrange(j, s.len() as int)),
        ) == Some(Search { text: s, pos: s.len() as int, captures: Seq::<Capture>::empty(), matched: s }),
    decreases s.len() - j,
{
    if j == s.len() {
        lemma_literal_len(s.subrange(j, s.len() as int));
        assert(s.subrange(0, j) =~= s);
    } else {
        lemma_match_char_step(s, j, s[j]);
        lemma_match_literal(s, j + 1);
    }
}

/// Literal pattern text finds itself: matched against its own text it
/// compiles, matches, and the match is the whole text.
pub proof fn lemma_literal_matches_itself(s: Seq<char>)
    requires
        is_literal_text(s),
    ensures
        match_pattern_spec(s, s) == Ok::<_, CompileError>(Some(s)),
{
    lemma_parse_literal(s, 0, 0, true);
    assert(s.subrange(0, s.len() as int) =~= s);
    let items = literal_phrase(s);
    assert(compile_spec(s) == Ok::<_, CompileError>((seq![items], 0nat)));
    let st = start_of(s, 0);
    assert(fresh_captures(0) =~= Seq::<Capture>::empty());
    assert(s.subrange(0, 0) =~= Seq::<char>::empty());
    lemma_match_literal(s, 0);
    let r = Search { text: s, pos: s.len() as int, captures: Seq::<Capture>::empty(), matched: s };
    assert(here(st, items) == Some(r));
    assert(scan(st, items) == Some(r));
    if s.len() > 0 {
        assert(items[0] == Item::Char(s[0]));
    }
    assert(phrase_match(st, items) == Some(r));
    assert(seq![items][0] == items);
    assert(first_match(seq![items], 0, s, 0) == Some(r));
}

/// The empty pattern matches every text, at its start, with an empty match.
pub proof fn lemma_empty_pattern_matches(text: Seq<char>)
    ensures
        match_pattern_spec(text, Seq::empty()) == Ok::<_, CompileError>(Some(Seq::<char>::empty())),
{
    let items = Seq::<Item>::empty();
    assert(compile_spec(Seq::empty()) == Ok::<_, CompileError>((seq![items], 0nat)));
    let st = start_of(text, 0);
    assert(here(st, items) == Some(st));
    assert(scan(st, items) == Some(st));
    assert(phrase_match(st, items) == Some(st));
    assert(seq![items][0] == items);
    assert(first_match(seq![items], 0, text, 0) == Some(st));
}

/// Compiling the same text twice gives the same pattern, which then finds
/// the same match in every text: no state outlives a compilation.
pub proof fn lemma_compile_twice(p: Seq<char>, a: CompileResult, b: CompileResult, text: Seq<char>)
    requires
        compile_spec(p) == Ok::<_, CompileError>(a.model()),
        compile_spec(p) == Ok::<_, CompileError>(b.model()),
    ensures
        a.model() == b.model(),
        find_spec(a.model(), text) == find_spec(b.model(), text),
{
}

/// `r` continues `s`: same text, a position no earlier and within the
/// text, the characters passed over appended to the match, and as many
/// capture buffers.
pub open spec fn advances(s: Search, r: Search) -> bool {
    &&& r.text == s.text
    &&& s.pos <= r.pos <= s.text.len()
    &&& r.matched == s.matched + s.text.subrange(s.pos, r.pos)
    &&& r.captures.len() == s.captures.len()
}

proof fn lemma_advances_chain(s: Search, m: Search, r: Search)
    requires
        0 <= s.pos,
        advances(s, m),
        advances(m, r),
    ensures
        advances(s, r),
{
    assert(s.text.subrange(s.pos, m.pos) + s.text.subrange(m.pos, r.pos) =~= s.text.subrange(s.pos, r.pos));
    assert(s.matched + s.text.subrange(s.pos, m.pos) + s.text.subrange(m.pos, r.pos) =~= s.matched
        + s.text.subrange(s.pos, r.pos));
}

proof fn lemma_consume_advances(s: Search, cs: Seq<char>)
    requires
        text_at(s, cs),
    ensures
        advances(s, consume(s, cs)),
{
}

proof fn lemma_here_advances(s: Search, re: Seq<Item>)
    requires
        0 <= s.pos <= s.text.len(),
    ensures
        here(s, re) matches Some(r) ==> advances(s, r),
    decreases phrase_size(re), 1nat, 0nat,
{
    if re.len() == 0 {
        assert(s.matched + s.text.subrange(s.pos, s.pos) =~= s.matched);
    } else {
        let rest = re.subrange(1, re.len() as int);
        lemma_size_step(re);
        if re.len() >= 2 && is_quantifier(re[1]) {
            let after = re.subrange(2, re.len() as int);
            assert(rest.subrange(1, rest.len() as int) =~= after);
            lemma_size_step(rest);
            lemma_quant_advances(s, re[0], quant_bounds(re[1]).0, quant_bounds(re[1]).1, after);
        } else {
            match re[0] {
                Item::Group(n, alts) => {
                    lemma_alternatives_advances(s, n, alts, 0, rest);
                },
                Item::GroupEnd(n) => {
                    let s2 = with_captures(s, set_active(s.captures, n as int, false));
                    lemma_here_advances(s2, rest);
                },
                Item::Backreference(k) => {
                    if k < s.captures.len() && text_at(s, s.captures[k as int].value) {
                        let s2 = consume(s, s.captures[k as int].value);
                        lemma_consume_advances(s, s.captures[k as int].value);
                        lemma_here_advances(s2, rest);
                        if let Some(r) = here(s2, rest) {
                            lemma_advances_chain(s, s2, r);
                        }
                    }
                },
                Item::AnchorStart => {
                    lemma_here_advances(s, rest);
                },
                Item::AnchorEnd => {
                    lemma_here_advances(s, rest);
                },
                it => {
                    if 0 <= s.pos < s.text.len() && char_matches(s.text[s.pos], it) {
                        let cs = seq![s.text[s.pos]];
                        assert(s.text.subrange(s.pos, s.pos + 1) =~= cs);
                        let s2 = consume(s, cs);
                        lemma_consume_advances(s, cs);
                        lemma_here_advances(s2, rest);
                        if let Some(r) = here(s2, rest) {
                            lemma_advances_chain(s, s2, r);
                        }
                    }
                },
            }
        }
    }
}

proof fn lemma_quant_advances(s: Search, item: Item, min: nat, max: nat, rest: Seq<Item>)
    requires
        0 <= s.pos <= s.text.len(),
    ensures
        quant(s, item, min, max, rest) matches Some(r) ==> advances(s, r),
    decreases item_size(item) + 1 + phrase_size(rest), 0nat, max,
{
    if max > 0 {
        lemma_single_size(item);
        let s0 = Search { text: s.text, pos: s.pos, captures: s.captures, matched: seq![] };
        lemma_here_advances(s0, seq![item]);
        match here(s0, seq![item]) {
            Some(one) => {
                let s1 = Search {
                    text: s.text,
                    pos: one.pos,
                    captures: one.captures,
                    matched: s.matched + one.matched,
                };
                assert(seq![] + s.text.subrange(s.pos, one.pos) =~= s.text.subrange(s.pos, one.pos));
                assert(advances(s, s1));
                lemma_here_advances(s1, rest);
                if let Some(r) = here(s1, rest) {
                    lemma_advances_chain(s, s1, r);
                }
                if one.pos != s.pos {
                    let min1: nat = if min > 0 { (min - 1) as nat } else { 0 };
                    lemma_quant_advances(s1, item, min1, (max - 1) as nat, rest);
                    if let Some(r) = quant(s1, item, min1, (max - 1) as nat, rest) {
                        lemma_advances_chain(s, s1, r);
                    }
                }
            },
            None => {
                lemma_here_advances(s, rest);
            },
        }
    }
}

proof fn lemma_alternatives_advances(s: Search, n: nat, alts: Seq<Seq<Item>>, k: nat, rest: Seq<Item>)
    requires
        0 <= s.pos <= s.text.len(),
    ensures
        alternatives(s, n, alts, k, rest) matches Some(r) ==> advances(s, r),
    decreases item_size(Item::Group(n, alts)) + phrase_size(rest), 0nat, alts.len() - k,
{
    if k < alts.len() {
        let cont = alts[k as int] + seq![Item::GroupEnd(n)] + rest;
        lemma_alt_size_bound(alts, k as int);
        lemma_phrase_size_split(alts[k as int] + seq![Item::GroupEnd(n)], rest);
        lemma_phrase_size_split(alts[k as int], seq![Item::GroupEnd(n)]);
        lemma_single_size(Item::GroupEnd(n));
        let s2 = with_captures(s, set_active(s.captures, n as int, true));
        lemma_here_advances(s2, cont);
        lemma_alternatives_advances(s, n, alts, k + 1, rest);
    }
}

proof fn lemma_scan_advances(s: Search, re: Seq<Item>)
    requires
        0 <= s.pos <= s.text.len(),
    ensures
        scan(s, re) matches Some(r) ==> exists|a: int|
            s.pos <= a && #[trigger] advances(Search { text: s.text, pos: a, captures: s.captures, matched: s.matched }, r),
    decreases s.text.len() - s.pos,
{
    lemma_here_advances(s, re);
    if here(s, re) is None && s.pos < s.text.len() {
        let s2 = Search { text: s.text, pos: s.pos + 1, captures: s.captures, matched: s.matched };
        lemma_scan_advances(s2, re);
    } else if let Some(r) = here(s, re) {
        assert(advances(Search { text: s.text, pos: s.pos, captures: s.captures, matched: s.matched }, r));
    }
}

proof fn lemma_first_match_span(phrases: Seq<Seq<Item>>, groups: nat, text: Seq<char>, k: nat)
    ensures
        first_match(phrases, groups, text, k) matches Some(r) ==> exists|a: int|
            0 <= a && #[trigger] advances(Search { text, pos: a, captures: fresh_captures(groups), matched: seq![] }, r),
    decreases phrases.len() - k,
{
    if k < phrases.len() {
        let st = start_of(text, groups);
        let re = phrases[k as int];
        if re.len() > 0 && re[0] is AnchorStart {
            lemma_here_advances(st, re.subrange(1, re.len() as int));
            if let Some(r) = here(st, re.subrange(1, re.len() as int)) {
                assert(advances(Search { text, pos: 0, captures: fresh_captures(groups), matched: seq![] }, r));
            }
        } else {
            lemma_scan_advances(st, re);
        }
        lemma_first_match_span(phrases, groups, text, k + 1);
    }
}

/// A match is a stretch of the text: the characters from the position
/// where the successful attempt started to the position where it ended.
pub proof fn lemma_match_is_substring(text: Seq<char>, p: Seq<char>)
    ensures
        match_pattern_spec(text, p) matches Ok(Some(m)) ==> exists|a: int, b: int|
            0 <= a <= b <= text.len() && m == #[trigger] text.subrange(a, b),
{
    if let Ok((phrases, groups)) = compile_spec(p) {
        lemma_first_match_span(phrases, groups, text, 0);
        if let Some(r) = first_match(phrases, groups, text, 0) {
            let a = choose|a: int|
                0 <= a && #[trigger] advances(Search { text, pos: a, captures: fresh_captures(groups), matched: seq![] }, r);
            assert(seq![] + text.subrange(a, r.pos) =~= text.subrange(a, r.pos));
            assert(r.matched == text.subrange(a, r.pos));
        }
    }
}

/// Group numbers of a phrase, in the order in which its groups open.
pub open spec fn group_ids(ph: Seq<Item>) -> Seq<nat>
    decreases ph,
{
    if ph.len() == 0 {
        seq![]
    } else {
        item_ids(ph[0]) + group_ids(ph.subrange(1, ph.len() as int))
    }
}

pub open spec fn item_ids(it: Item) -> Seq<nat>
    decreases it,
{
    match it {
        Item::Group(n, alts) => seq![n] + alts_ids(alts),
        _ => seq![],
    }
}

pub open spec fn alts_ids(alts: Seq<Seq<Item>>) -> Seq<nat>
    decreases alts,
{
    if alts.len() == 0 {
        seq![]
    } else {
        group_ids(alts[0]) + alts_ids(alts.subrange(1, alts.len() as int))
    }
}

/// The numbers `a`, `a + 1`, ..., `b - 1`.
pub open spec fn numbers_from(a: nat, b: nat) -> Seq<nat> {
    Seq::new((b - a) as nat, |i: int| (a + i) as nat)
}

proof fn lemma_numbers_concat(a: nat, b: nat, c: nat)
    requires
        a <= b <= c,
    ensures
        numbers_from(a, b) + numbers_from(b, c) == numbers_from(a, c),
{
    assert(numbers_from(a, b) + numbers_from(b, c) =~= numbers_from(a, c));
}

proof fn lemma_ids_cons(it: Item, rest: Seq<Item>)
    ensures
        group_ids(seq![it] + rest) == item_ids(it) + group_ids(rest),
{
    let ph = seq![it] + rest;
    assert(ph[0] == it);
    assert(ph.subrange(1, ph.len() as int) =~= rest);
}

proof fn lemma_alts_cons(ph: Seq<Item>, rest: Seq<Seq<Item>>)
    ensures
        alts_ids(seq![ph] + rest) == group_ids(ph) + alts_ids(rest),
{
    let a = seq![ph] + rest;
    assert(a[0] == ph);
    assert(a.subrange(1, a.len() as int) =~= rest);
}

/// A unit `it` before a parse whose group numbers run from `g` on.
proof fn lemma_prepend_ids(it: Item, k: nat, g: nat, r: Result<(Seq<Item>, nat, nat), CompileError>)
    requires
        r matches Ok((items, n, g1)) ==> g <= g1 && group_ids(items) == numbers_from(g, g1),
        !(it is Group),
    ensures
        prepend(seq![it], k, r) matches Ok((items, n, g1)) ==> g <= g1 && group_ids(items) == numbers_from(g, g1),
{
    if let Ok((items, n, g1)) = r {
        lemma_ids_cons(it, items);
        assert(item_ids(it) =~= Seq::<nat>::empty());
        assert(item_ids(it) + group_ids(items) =~= group_ids(items));
    }
}

proof fn lemma_parse_items_ids(p: Seq<char>, i: int, g: nat, first: bool)
    ensures
        parse_items(p, i, g, first) matches Ok((items, n, g1)) ==> g <= g1 && group_ids(items) == numbers_from(g, g1),
    decreases left(p, i), 0nat,
{
    if i < 0 || i >= p.len() || p[i] == '|' || p[i] == ')' {
        assert(numbers_from(g, g) =~= Seq::<nat>::empty());
    } else {
        let c = p[i];
        if c == '(' {
            lemma_parse_alts_ids(p, i + 1, g + 1);
            if let Ok((alts, m, g1)) = parse_alts(p, i + 1, g + 1) {
                lemma_parse_items_ids(p, i + 2 + m, g1, false);
                if let Ok((items, n, g2)) = parse_items(p, i + 2 + m, g1, false) {
                    lemma_ids_cons(Item::Group(g, alts), items);
                    lemma_numbers_concat(g + 1, g1, g2);
                    assert(seq![g] + numbers_from(g + 1, g2) =~= numbers_from(g, g2));
                    assert(item_ids(Item::Group(g, alts)) == seq![g] + alts_ids(alts));
                    assert(seq![g] + numbers_from(g + 1, g1) + numbers_from(g1, g2) =~= seq![g]
                        + numbers_from(g + 1, g2));
                }
            }
        } else if c == '[' {
            if i + 1 < p.len() {
                if p[i + 1] == ']' {
                    lemma_parse_items_ids(p, i + 2, g, false);
                    if let Ok((items, n, g1)) = parse_items(p, i + 2, g, false) {
                        assert(seq![] + items =~= items);
                    }
                } else {
                    let close = i + 2 + class_span(p, i + 2);
                    if close < p.len() && p[close] != '\\' {
                        let item = if p[i + 1] == '^' {
                            Item::NegCharClass(p.subrange(i + 2, close))
                        } else {
                            Item::CharClass(p.subrange(i + 1, close))
                        };
                        lemma_parse_items_ids(p, close + 1, g, false);
                        lemma_prepend_ids(item, (close + 1 - i) as nat, g, parse_items(p, close + 1, g, false));
                    } else {
                        assert(numbers_from(g, g) =~= Seq::<nat>::empty());
                    }
                }
            } else {
                assert(numbers_from(g, g) =~= Seq::<nat>::empty());
            }
        } else if c == '\\' {
            if i + 1 < p.len() {
                if let Some(item) = escaped_item(p[i + 1]) {
                    lemma_parse_items_ids(p, i + 2, g, false);
                    lemma_prepend_ids(item, 2, g, parse_items(p, i + 2, g, false));
                }
            } else {
                assert(numbers_from(g, g) =~= Seq::<nat>::empty());
            }
        } else if c != ']' {
            lemma_parse_items_ids(p, i + 1, g, false);
            lemma_prepend_ids(plain_item(c, first), 1, g, parse_items(p, i + 1, g, false));
        }
    }
}

proof fn lemma_parse_alts_ids(p: Seq<char>, i: int, g: nat)
    ensures
        parse_alts(p, i, g) matches Ok((alts, n, g1)) ==> g <= g1 && alts_ids(alts) == numbers_from(g, g1),
    decreases left(p, i), 1nat,
{
    lemma_parse_items_ids(p, i, g, true);
    if let Ok((ph, n, g1)) = parse_items(p, i, g, true) {
        let j = i + n;
        if !(i < 0 || j >= p.len()) {
            if p[j] == '|' {
                lemma_parse_alts_ids(p, j + 1, g1);
                if let Ok((alts, m, g2)) = parse_alts(p, j + 1, g1) {
                    lemma_alts_cons(ph, alts);
                    lemma_numbers_concat(g, g1, g2);
                }
            } else if p[j] == ')' {
                lemma_alts_cons(ph, seq![]);
                assert(alts_ids(Seq::<Seq<Item>>::empty()) =~= Seq::<nat>::empty());
                assert(seq![ph] + Seq::<Seq<Item>>::empty() =~= seq![ph]);
                assert(group_ids(ph) + Seq::<nat>::empty() =~= group_ids(ph));
            }
        }
    }
}

/// Groups are numbered from 0 in the order in which they open, whatever
/// was compiled before: a compiled pattern is one phrase whose group
/// numbers, read left to right, are 0, 1, ..., up to its group count.
pub proof fn lemma_group_numbering(p: Seq<char>)
    ensures
        compile_spec(p) matches Ok((phrases, groups)) ==> phrases.len() == 1 && group_ids(phrases[0])
            == numbers_from(0, groups),
{
    lemma_parse_items_ids(p, 0, 0, true);
}

/// A phrase ends at the end of the text or before `|` or `)`, and no
/// parse reports a bad group separator.
proof fn lemma_parse_items_stop(p: Seq<char>, i: int, g: nat, first: bool)
    requires
        0 <= i,
    ensures
        parse_items(p, i, g, first) matches Ok((items, n, g1)) ==> (i + n >= p.len() || p[i + n] == '|'
            || p[i + n] == ')'),
        parse_items(p, i, g, first) != Err::<(Seq<Item>, nat, nat), CompileError>(
            CompileError::InvalidGroupSeparator,
        ),
    decreases left(p, i), 0nat,
{
    if !(i >= p.len() || p[i] == '|' || p[i] == ')') {
        let c = p[i];
        if c == '(' {
            lemma_parse_alts_stop(p, i + 1, g + 1);
            if let Ok((alts, m, g1)) = parse_alts(p, i + 1, g + 1) {
                lemma_parse_items_stop(p, i + 2 + m, g1, false);
            }
        } else if c == '[' {
            if i + 1 < p.len() {
                if p[i + 1] == ']' {
                    lemma_parse_items_stop(p, i + 2, g, false);
                } else {
                    let close = i + 2 + class_span(p, i + 2);
                    if close < p.len() && p[close] != '\\' {
                        lemma_parse_items_stop(p, close + 1, g, false);
                    }
                }
            }
        } else if c == '\\' {
            if i + 1 < p.len() {
                lemma_parse_items_stop(p, i + 2, g, false);
            }
        } else if c != ']' {
            lemma_parse_items_stop(p, i + 1, g, false);
        }
    }
}

proof fn lemma_parse_alts_stop(p: Seq<char>, i: int, g: nat)
    requires
        0 <= i,
    ensures
        parse_alts(p, i, g) != Err::<(Seq<Seq<Item>>, nat, nat), CompileError>(
            CompileError::InvalidGroupSeparator,
        ),
    decreases left(p, i), 1nat,
{
    lemma_parse_items_stop(p, i, g, true);
    if let Ok((ph, n, g1)) = parse_items(p, i, g, true) {
        let j = i + n;
        if j < p.len() && p[j] == '|' {
            lemma_parse_alts_stop(p, j + 1, g1);
        }
    }
}

/// The bad-group-separator error is never reported: a group's alternative
/// can only end at `|`, at `)` or at the end of the text.
pub proof fn lemma_no_bad_separator(p: Seq<char>)
    ensures
        compile_spec(p) != Err::<(Seq<Seq<Item>>, nat), CompileError>(CompileError::InvalidGroupSeparator),
{
    lemma_parse_items_stop(p, 0, 0, true);
}

} // verus!
