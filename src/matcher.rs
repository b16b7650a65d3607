//! Backtracking matcher over compiled patterns.
use vstd::prelude::*;
use crate::ast::{
    alts_view, copy_item, copy_phrase, is_char_item, is_quantifier, item_size,
    lemma_alt_size_bound, lemma_group_view, lemma_phrase_size_split, lemma_rest_step,
    lemma_single_size, lemma_size_step,
    phrase_size, phrase_view, quant_bounds, Item, ReItem,
};

verus! {

/// Model of a capture buffer: the text captured so far, and whether the
/// group is open on the current path.
pub struct Capture {
    pub value: Seq<char>,
    pub active: bool,
}

/// Model of a point of the search: the text, the position in it, the
/// capture buffers and the text matched so far.
pub struct Search {
    pub text: Seq<char>,
    pub pos: int,
    pub captures: Seq<Capture>,
    pub matched: Seq<char>,
}

/// Capture buffer of one group.
pub struct Backref {
    pub value: Vec<char>,
    pub active: bool,
}

impl View for Backref {
    type V = Capture;

    open spec fn view(&self) -> Capture {
        Capture { value: self.value@, active: self.active }
    }
}

impl Clone for Backref {
    fn clone(&self) -> (r: Self)
        ensures
            r@ == self@,
    {
        Backref { value: self.value.clone(), active: self.active }
    }
}

impl Backref {
    /// An empty, closed buffer.
    pub fn new() -> (r: Self)
        ensures
            r@ == (Capture { value: Seq::empty(), active: false }),
    {
        Backref { value: Vec::new(), active: false }
    }
}

pub open spec fn caps_view(v: Seq<Backref>) -> Seq<Capture> {
    v.map_values(|b: Backref| b@)
}

pub open spec fn is_digit(c: char) -> bool {
    '0' <= c <= '9'
}

pub open spec fn is_alnum(c: char) -> bool {
    is_digit(c) || 'a' <= c <= 'z' || 'A' <= c <= 'Z'
}

/// Whether character `c` satisfies a single-character item.
pub open spec fn char_matches(c: char, it: Item) -> bool {
    match it {
        Item::Char(x) => c == x,
        Item::Digit => is_digit(c),
        Item::Alphanum => is_alnum(c),
        Item::CharClass(s) => s.contains(c),
        Item::NegCharClass(s) => !s.contains(c),
        Item::Wildcard => true,
        _ => false,
    }
}

/// Appends `cs` to every open capture buffer.
pub open spec fn grow(caps: Seq<Capture>, cs: Seq<char>) -> Seq<Capture> {
    caps.map_values(
        |c: Capture|
            if c.active {
                Capture { value: c.value + cs, active: true }
            } else {
                c
            },
    )
}

/// Opens or closes the buffer of group `n`, if there is one.
pub open spec fn set_active(caps: Seq<Capture>, n: int, on: bool) -> Seq<Capture> {
    if 0 <= n < caps.len() {
        caps.update(n, Capture { value: caps[n].value, active: on })
    } else {
        caps
    }
}

/// The search after consuming the characters `cs`.
pub open spec fn consume(s: Search, cs: Seq<char>) -> Search {
    Search {
        text: s.text,
        pos: s.pos + cs.len(),
        captures: grow(s.captures, cs),
        matched: s.matched + cs,
    }
}

pub open spec fn with_captures(s: Search, caps: Seq<Capture>) -> Search {
    Search { text: s.text, pos: s.pos, captures: caps, matched: s.matched }
}

/// Whether the text continues with `cs` at the search position.
pub open spec fn text_at(s: Search, cs: Seq<char>) -> bool {
    0 <= s.pos && s.pos + cs.len() <= s.text.len() && s.text.subrange(s.pos, s.pos + cs.len())
        == cs
}

/// Outcome of matching the items `re` from the search point `s`: the first
/// successful derivation in backtracking order.
pub open spec fn here(s: Search, re: Seq<Item>) -> Option<Search>
    decreases phrase_size(re), 1nat, 0nat,
{
    if re.len() == 0 {
        Some(s)
    } else {
        let rest = re.subrange(1, re.len() as int);
        proof {
            assert(phrase_size(re) == item_size(re[0]) + phrase_size(rest));
        }
        if re.len() >= 2 && is_quantifier(re[1]) {
            let after = re.subrange(2, re.len() as int);
            proof {
                assert(rest.subrange(1, rest.len() as int) =~= after);
                assert(phrase_size(rest) == item_size(rest[0]) + phrase_size(after));
            }
            quant(s, re[0], quant_bounds(re[1]).0, quant_bounds(re[1]).1, after)
        } else {
            match re[0] {
                Item::Group(n, alts) => alternatives(s, n, alts, 0, rest),
                Item::GroupEnd(n) => here(with_captures(s, set_active(s.captures, n as int, false)), rest),
                Item::Backreference(k) => {
                    if k < s.captures.len() && text_at(s, s.captures[k as int].value) {
                        here(consume(s, s.captures[k as int].value), rest)
                    } else {
                        None
                    }
                },
                Item::AnchorStart => if s.pos == 0 {
                    here(s, rest)
                } else {
                    None
                },
                Item::AnchorEnd => if s.pos >= s.text.len() {
                    here(s, rest)
                } else {
                    None
                },
                it => {
                    if 0 <= s.pos < s.text.len() && char_matches(s.text[s.pos], it) {
                        here(consume(s, seq![s.text[s.pos]]), rest)
                    } else {
                        None
                    }
                },
            }
        }
    }
}

/// Greedy repetition of `item`, between `min` and `max` more times, then
/// `rest`. A repetition that consumes no text ends the expansion.
pub open spec fn quant(s: Search, item: Item, min: nat, max: nat, rest: Seq<Item>) -> Option<Search>
    decreases item_size(item) + 1 + phrase_size(rest), 0nat, max,
{
    if max == 0 {
        None
    } else {
        proof {
            lemma_single_size(item);
        }
        match here(Search { text: s.text, pos: s.pos, captures: s.captures, matched: seq![] }, seq![item]) {
            Some(one) => {
                let s1 = Search {
                    text: s.text,
                    pos: one.pos,
                    captures: one.captures,
                    matched: s.matched + one.matched,
                };
                if one.pos == s.pos {
                    here(s1, rest)
                } else {
                    let min1: nat = if min > 0 { (min - 1) as nat } else { 0 };
                    match quant(s1, item, min1, (max - 1) as nat, rest) {
                        Some(r) => Some(r),
                        None => here(s1, rest),
                    }
                }
            },
            None => if min == 0 {
                here(s, rest)
            } else {
                None
            },
        }
    }
}

/// Group `n`: its alternatives from the `k`-th on, each followed by the
/// group's end and then `rest`, with the group's buffer open.
pub open spec fn alternatives(s: Search, n: nat, alts: Seq<Seq<Item>>, k: nat, rest: Seq<Item>) -> Option<Search>
    decreases item_size(Item::Group(n, alts)) + phrase_size(rest), 0nat, alts.len() - k,
{
    if k >= alts.len() {
        None
    } else {
        let cont = alts[k as int] + seq![Item::GroupEnd(n)] + rest;
        proof {
            lemma_alt_size_bound(alts, k as int);
            lemma_phrase_size_split(alts[k as int] + seq![Item::GroupEnd(n)], rest);
            lemma_phrase_size_split(alts[k as int], seq![Item::GroupEnd(n)]);
            lemma_single_size(Item::GroupEnd(n));
        }
        match here(with_captures(s, set_active(s.captures, n as int, true)), cont) {
            Some(r) => Some(r),
            None => alternatives(s, n, alts, k + 1, rest),
        }
    }
}

/// Unanchored search: the first position from `s.pos` on where `re` matches.
pub open spec fn scan(s: Search, re: Seq<Item>) -> Option<Search>
    decreases s.text.len() - s.pos,
{
    match here(s, re) {
        Some(r) => Some(r),
        None => if s.pos < 0 || s.pos >= s.text.len() {
            None
        } else {
            scan(Search { text: s.text, pos: s.pos + 1, captures: s.captures, matched: s.matched }, re)
        },
    }
}

/// A phrase led by `^` matches only where the search stands; any other is
/// searched for.
pub open spec fn phrase_match(s: Search, re: Seq<Item>) -> Option<Search> {
    if re.len() > 0 && re[0] is AnchorStart {
        here(s, re.subrange(1, re.len() as int))
    } else {
        scan(s, re)
    }
}

/// Lazy repetition of a single-character item, `count` repetitions made.
pub open spec fn lazy(s: Search, item: Item, min: nat, max: nat, rest: Seq<Item>, count: nat) -> Option<Search>
    decreases s.text.len() - s.pos,
{
    if count > max {
        None
    } else {
        let tried = if count >= min {
            here(s, rest)
        } else {
            None
        };
        if tried is Some {
            tried
        } else if 0 <= s.pos < s.text.len() && char_matches(s.text[s.pos], item) {
            lazy(consume(s, seq![s.text[s.pos]]), item, min, max, rest, count + 1)
        } else {
            None
        }
    }
}

/// Whether `c` satisfies the single-character item `re_item`.
pub fn match_char(text_char: char, re_item: &ReItem) -> (r: bool)
    requires
        is_char_item(re_item@),
    ensures
        r == char_matches(text_char, re_item@),
{
    match re_item {
        ReItem::Char(c) => *c == text_char,
        ReItem::Digit => '0' <= text_char && text_char <= '9',
        ReItem::Alphanum => ('0' <= text_char && text_char <= '9') || ('a' <= text_char
            && text_char <= 'z') || ('A' <= text_char && text_char <= 'Z'),
        ReItem::CharClass(s) => class_contains(s, text_char),
        ReItem::NegCharClass(s) => !class_contains(s, text_char),
        ReItem::Wildcard => true,
        _ => false,
    }
}

fn class_contains(s: &Vec<char>, c: char) -> (r: bool)
    ensures
        r == s@.contains(c),
{
    let mut i: usize = 0;
    while i < s.len()
        invariant
            i <= s@.len(),
            forall|j: int| 0 <= j < i ==> s@[j] != c,
        decreases s@.len() - i,
    {
        if s[i] == c {
            return true;
        }
        i = i + 1;
    }
    false
}

/// Appends `c` to every open buffer.
fn grow_captures(caps: &mut Vec<Backref>, c: char)
    ensures
        caps_view(final(caps)@) == grow(caps_view(old(caps)@), seq![c]),
{
    let mut i: usize = 0;
    while i < caps.len()
        invariant
            i <= caps@.len(),
            caps@.len() == old(caps)@.len(),
            forall|j: int| 0 <= j < i ==> (#[trigger] caps@[j])@ == grow(caps_view(old(caps)@), seq![c])[j],
            forall|j: int| i <= j < caps@.len() ==> (#[trigger] caps@[j])@ == old(caps)@[j]@,
        decreases caps@.len() - i,
    {
        if caps[i].active {
            let mut b = caps[i].clone();
            b.value.push(c);
            proof {
                assert(b.value@ =~= old(caps)@[i as int].value@ + seq![c]);
            }
            caps.set(i, b);
        }
        i = i + 1;
    }
    assert(caps_view(caps@) =~= grow(caps_view(old(caps)@), seq![c]));
}

/// Opens or closes the buffer of group `n`, if there is one.
fn set_capture_active(caps: &mut Vec<Backref>, n: usize, on: bool)
    ensures
        caps_view(final(caps)@) == set_active(caps_view(old(caps)@), n as int, on),
{
    if n < caps.len() {
        let mut b = caps[n].clone();
        b.active = on;
        caps.set(n, b);
    }
    assert(caps_view(caps@) =~= set_active(caps_view(old(caps)@), n as int, on));
}

} // verus!

verus! {

/// A successful match: the matched text, the capture buffers, and the
/// position in the text where the match ends.
pub struct MatchResult {
    pub matched: Vec<char>,
    pub backreferences: Vec<Backref>,
    pub remainder: usize,
}

/// The model of a matcher's outcome on `text`.
pub open spec fn outcome(text: Seq<char>, r: Option<MatchResult>) -> Option<Search> {
    match r {
        Some(m) => Some(
            Search {
                text,
                pos: m.remainder as int,
                captures: caps_view(m.backreferences@),
                matched: m.matched@,
            },
        ),
        None => None,
    }
}

/// A point of the search together with the items still to match.
pub struct Matcher<'a> {
    pub text: &'a Vec<char>,
    pub pos: usize,
    pub re: &'a Vec<ReItem>,
    pub re_pos: usize,
    pub backreferences: Vec<Backref>,
    pub matched: Vec<char>,
}

fn clone_captures(v: &Vec<Backref>) -> (r: Vec<Backref>)
    ensures
        caps_view(r@) == caps_view(v@),
{
    let r = v.clone();
    assert(caps_view(r@) =~= caps_view(v@));
    r
}

fn clone_chars(v: &Vec<char>) -> (r: Vec<char>)
    ensures
        r@ == v@,
{
    let r = v.clone();
    assert(r@ =~= v@);
    r
}

fn is_quant_marker(it: &ReItem) -> (r: bool)
    ensures
        r == is_quantifier(it@),
{
    match it {
        ReItem::QuantZeroPlus | ReItem::QuantOnePlus | ReItem::QuantZeroOrOne => true,
        _ => false,
    }
}

fn repeat_bounds(q: &ReItem) -> (r: (usize, usize))
    requires
        is_quantifier(q@),
    ensures
        (r.0 as nat, r.1 as nat) == quant_bounds(q@),
{
    match q {
        ReItem::QuantOnePlus => (1, usize::MAX),
        ReItem::QuantZeroOrOne => (0, 1),
        _ => (0, usize::MAX),
    }
}

pub proof fn lemma_consume_step(s: Search, a: Seq<char>, c: char)
    ensures
        consume(consume(s, a), seq![c]) == consume(s, a + seq![c]),
{
    let l = grow(grow(s.captures, a), seq![c]);
    let r = grow(s.captures, a + seq![c]);
    assert forall|i: int| 0 <= i < l.len() implies l[i] == r[i] by {
        if s.captures[i].active {
            assert(s.captures[i].value + a + seq![c] =~= s.captures[i].value + (a + seq![c]));
        }
    }
    assert(l =~= r);
    assert(s.matched + a + seq![c] =~= s.matched + (a + seq![c]));
}

impl<'a> Matcher<'a> {
    /// The model of the search point.
    pub open spec fn search(&self) -> Search {
        Search {
            text: self.text@,
            pos: self.pos as int,
            captures: caps_view(self.backreferences@),
            matched: self.matched@,
        }
    }

    /// The model of the items still to match.
    pub open spec fn rest(&self) -> Seq<Item> {
        phrase_view(self.re@.subrange(self.re_pos as int, self.re@.len() as int))
    }

    pub open spec fn wf(&self) -> bool {
        self.pos <= self.text@.len() && self.re_pos <= self.re@.len()
    }

    /// A successful outcome ends between the search position and the end of the text.
    pub open spec fn ends_within(&self, r: Option<MatchResult>) -> bool {
        r matches Some(m) ==> self.pos <= m.remainder <= self.text@.len()
    }

    /// The search point as a finished match.
    pub fn into_result(self) -> (r: MatchResult)
        ensures
            outcome(self.text@, Some(r)) == Some(self.search()),
            r.remainder == self.pos,
    {
        MatchResult { matched: self.matched, backreferences: self.backreferences, remainder: self.pos }
    }

    /// Matches the remaining items from the search point.
    pub fn match_here(self) -> (r: Option<MatchResult>)
        requires
            self.wf(),
        ensures
            outcome(self.text@, r) == here(self.search(), self.rest()),
            self.ends_within(r),
        decreases phrase_size(self.rest()), 1nat, 0nat,
    {
        let mut this = self;
        let re = this.re;
        if this.re_pos >= re.len() {
            proof {
                assert(this.rest() =~= Seq::<Item>::empty());
            }
            return Some(this.into_result());
        }
        let ghost rest0 = this.rest();
        let r0 = &re[this.re_pos];
        proof {
            lemma_rest_step(re@, this.re_pos as int);
            lemma_size_step(rest0);
        }
        let next = this.re_pos + 1;
        if next < re.len() && is_quant_marker(&re[next]) {
            proof {
                lemma_rest_step(re@, next as int);
                let r1 = rest0.subrange(1, rest0.len() as int);
                lemma_size_step(r1);
                assert(r1.subrange(1, r1.len() as int) =~= rest0.subrange(2, rest0.len() as int));
            }
            let bounds = repeat_bounds(&re[next]);
            this.re_pos = next + 1;
            return this.match_quant_greedy(r0, bounds.0, bounds.1);
        }
        this.re_pos = next;
        let ghost s0 = this.search();
        match r0 {
            ReItem::Group(n, alts) => {
                proof {
                    lemma_group_view(*n, *alts);
                }
                this.match_group(*n, alts)
            },
            ReItem::GroupEnd(n) => this.match_group_end(*n),
            ReItem::Backreference(k) => this.match_backref(*k),
            ReItem::AnchorStart => {
                if this.pos == 0 {
                    this.match_here()
                } else {
                    None
                }
            },
            ReItem::AnchorEnd => {
                if this.pos >= this.text.len() {
                    this.match_here()
                } else {
                    None
                }
            },
            ReItem::QuantZeroPlus | ReItem::QuantOnePlus | ReItem::QuantZeroOrOne => None,
            _ => {
                if this.pos < this.text.len() {
                    let t0 = this.text[this.pos];
                    if match_char(t0, r0) {
                        this.matched.push(t0);
                        grow_captures(&mut this.backreferences, t0);
                        this.pos = this.pos + 1;
                        proof {
                            assert(this.matched@ =~= s0.matched + seq![t0]);
                        }
                        this.match_here()
                    } else {
                        None
                    }
                } else {
                    None
                }
            },
        }
    }

    /// Greedy repetition of `item`, between `min` and `max` more times,
    /// followed by the remaining items.
    pub fn match_quant_greedy(self, item: &ReItem, min: usize, max: usize) -> (r: Option<MatchResult>)
        requires
            self.wf(),
        ensures
            outcome(self.text@, r) == quant(self.search(), item@, min as nat, max as nat, self.rest()),
            self.ends_within(r),
        decreases item_size(item@) + 1 + phrase_size(self.rest()), 0nat, max,
    {
        if max == 0 {
            return None;
        }
        let mut single_re: Vec<ReItem> = Vec::new();
        single_re.push(copy_item(item));
        let single = Matcher {
            text: self.text,
            pos: self.pos,
            re: &single_re,
            re_pos: 0,
            backreferences: clone_captures(&self.backreferences),
            matched: Vec::new(),
        };
        proof {
            assert(single.rest() =~= seq![item@]);
            lemma_single_size(item@);
        }
        match single.match_here() {
            Some(one) => {
                let mut matched = self.matched;
                let mut more = one.matched;
                matched.append(&mut more);
                let rest_m = Matcher {
                    text: self.text,
                    pos: one.remainder,
                    re: self.re,
                    re_pos: self.re_pos,
                    backreferences: one.backreferences,
                    matched,
                };
                if one.remainder == self.pos {
                    return rest_m.match_here();
                }
                let deeper_m = Matcher {
                    text: self.text,
                    pos: one.remainder,
                    re: self.re,
                    re_pos: self.re_pos,
                    backreferences: clone_captures(&rest_m.backreferences),
                    matched: clone_chars(&rest_m.matched),
                };
                let min1 = if min > 0 {
                    min - 1
                } else {
                    0
                };
                let deeper = deeper_m.match_quant_greedy(item, min1, max - 1);
                if deeper.is_some() {
                    deeper
                } else {
                    rest_m.match_here()
                }
            },
            None => {
                if min == 0 {
                    self.match_here()
                } else {
                    None
                }
            },
        }
    }

    /// Group `n`: tries each alternative in order, followed by the group's
    /// end and the remaining items, with the group's buffer open.
    pub fn match_group(self, n: usize, alts: &Vec<Vec<ReItem>>) -> (r: Option<MatchResult>)
        requires
            self.wf(),
        ensures
            outcome(self.text@, r) == alternatives(self.search(), n as nat, alts_view(alts@), 0, self.rest()),
            self.ends_within(r),
        decreases item_size(Item::Group(n as nat, alts_view(alts@))) + phrase_size(self.rest()), 0nat, 0nat,
    {
        let mut this = self;
        let ghost s0 = this.search();
        let ghost alts_m = alts_view(alts@);
        let ghost rest = this.rest();
        let ghost pos0 = this.pos;
        set_capture_active(&mut this.backreferences, n, true);
        let mut k: usize = 0;
        while k < alts.len()
            invariant
                this.wf(),
                this.pos == pos0,
                pos0 == s0.pos,
                this.text@ == s0.text,
                this.matched@ == s0.matched,
                caps_view(this.backreferences@) == set_active(s0.captures, n as int, true),
                this.rest() == rest,
                self.rest() == rest,
                self.search() == s0,
                alts_m == alts_view(alts@),
                k <= alts.len(),
                alternatives(s0, n as nat, alts_m, 0, rest) == alternatives(s0, n as nat, alts_m, k as nat, rest),
                phrase_size(rest) < item_size(Item::Group(n as nat, alts_m)) + phrase_size(rest) + 1,
            decreases alts.len() - k,
        {
            let mut cont = copy_phrase(&alts[k], 0);
            cont.push(ReItem::GroupEnd(n));
            let mut tail = copy_phrase(this.re, this.re_pos);
            cont.append(&mut tail);
            let m = Matcher {
                text: this.text,
                pos: this.pos,
                re: &cont,
                re_pos: 0,
                backreferences: clone_captures(&this.backreferences),
                matched: clone_chars(&this.matched),
            };
            proof {
                assert(alts@[k as int]@.subrange(0, alts@[k as int]@.len() as int) =~= alts@[k as int]@);
                assert(m.rest() =~= alts_m[k as int] + seq![Item::GroupEnd(n as nat)] + rest);
                lemma_alt_size_bound(alts_m, k as int);
                lemma_phrase_size_split(alts_m[k as int] + seq![Item::GroupEnd(n as nat)], rest);
                lemma_phrase_size_split(alts_m[k as int], seq![Item::GroupEnd(n as nat)]);
                lemma_single_size(Item::GroupEnd(n as nat));
            }
            let r = m.match_here();
            if r.is_some() {
                return r;
            }
            k = k + 1;
        }
        None
    }

    /// End of group `n`: closes its buffer, then matches the remaining items.
    pub fn match_group_end(self, n: usize) -> (r: Option<MatchResult>)
        requires
            self.wf(),
        ensures
            outcome(self.text@, r) == here(
                with_captures(self.search(), set_active(self.search().captures, n as int, false)),
                self.rest(),
            ),
            self.ends_within(r),
        decreases phrase_size(self.rest()) + 1, 0nat, 0nat,
    {
        let mut this = self;
        set_capture_active(&mut this.backreferences, n, false);
        this.match_here()
    }

    /// Backreference to group `backref`: the text must continue with what
    /// the group captured, then the remaining items must match.
    pub fn match_backref(self, backref: usize) -> (r: Option<MatchResult>)
        requires
            self.wf(),
        ensures
            outcome(self.text@, r) == ({
                let s = self.search();
                if backref < s.captures.len() && text_at(s, s.captures[backref as int].value) {
                    here(consume(s, s.captures[backref as int].value), self.rest())
                } else {
                    None
                }
            }),
            self.ends_within(r),
        decreases phrase_size(self.rest()) + 1, 0nat, 0nat,
    {
        let mut this = self;
        let ghost s0 = this.search();
        let ghost rest0 = this.rest();
        if backref >= this.backreferences.len() {
            return None;
        }
        let value = this.backreferences[backref].value.clone();
        assert(value@ == s0.captures[backref as int].value);
        if value.len() > this.text.len() - this.pos {
            return None;
        }
        let mut j: usize = 0;
        while j < value.len()
            invariant
                j <= value@.len(),
                this.search() == s0,
                self.search() == s0,
                backref < s0.captures.len(),
                value@ == s0.captures[backref as int].value,
                this.pos + value@.len() <= this.text.len(),
                forall|i: int| 0 <= i < j ==> this.text@[this.pos + i] == value@[i],
            decreases value@.len() - j,
        {
            if this.text[this.pos + j] != value[j] {
                proof {
                    assert(s0.text.subrange(s0.pos, s0.pos + value@.len())[j as int] != value@[j as int]);
                }
                return None;
            }
            j = j + 1;
        }
        assert(s0.text.subrange(s0.pos, s0.pos + value@.len()) =~= value@);
        proof {
            assert(value@.take(0) =~= Seq::<char>::empty());
            assert(grow(s0.captures, Seq::<char>::empty()) =~= s0.captures);
            assert(s0.matched + Seq::<char>::empty() =~= s0.matched);
        }
        let mut j: usize = 0;
        while j < value.len()
            invariant
                j <= value@.len(),
                s0.pos + value@.len() <= this.text.len(),
                this.wf(),
                this.text@ == s0.text,
                this.rest() == rest0,
                self.search() == s0,
                self.rest() == rest0,
                this.search() == consume(s0, value@.take(j as int)),
            decreases value@.len() - j,
        {
            let c = value[j];
            this.matched.push(c);
            grow_captures(&mut this.backreferences, c);
            this.pos = this.pos + 1;
            proof {
                lemma_consume_step(s0, value@.take(j as int), c);
                assert(value@.take(j + 1) =~= value@.take(j as int) + seq![c]);
                assert(this.matched@ =~= consume(s0, value@.take(j + 1)).matched);
            }
            j = j + 1;
        }
        assert(value@.take(value@.len() as int) =~= value@);
        this.match_here()
    }

    /// Matches a whole phrase: where it is led by `^`, at the search
    /// position only; otherwise at the first position from there on.
    pub fn match_phrase(self) -> (r: Option<MatchResult>)
        requires
            self.wf(),
        ensures
            outcome(self.text@, r) == phrase_match(self.search(), self.rest()),
            self.ends_within(r),
    {
        let mut this = self;
        let ghost rest0 = this.rest();
        if this.re_pos < this.re.len() {
            proof {
                lemma_rest_step(this.re@, this.re_pos as int);
            }
            if let ReItem::AnchorStart = this.re[this.re_pos] {
                this.re_pos = this.re_pos + 1;
                return this.match_here();
            }
        }
        let ghost s0 = this.search();
        loop
            invariant
                this.wf(),
                this.rest() == rest0,
                self.rest() == rest0,
                self.search() == s0,
                s0.pos <= this.pos,
                this.text@ == s0.text,
                caps_view(this.backreferences@) == s0.captures,
                this.matched@ == s0.matched,
                phrase_match(s0, rest0) == scan(this.search(), rest0),
            decreases this.text@.len() - this.pos,
        {
            let m = Matcher {
                text: this.text,
                pos: this.pos,
                re: this.re,
                re_pos: this.re_pos,
                backreferences: clone_captures(&this.backreferences),
                matched: clone_chars(&this.matched),
            };
            let r = m.match_here();
            if r.is_some() {
                return r;
            }
            if this.pos >= this.text.len() {
                return None;
            }
            this.pos = this.pos + 1;
        }
    }

    /// Lazy repetition of a single-character item, between `min` and `max`
    /// times, followed by the remaining items: the fewest repetitions
    /// that let the rest match.
    pub fn match_quant_lazy(self, item: &ReItem, min: usize, max: usize) -> (r: Option<MatchResult>)
        requires
            self.wf(),
            is_char_item(item@),
        ensures
            outcome(self.text@, r) == lazy(self.search(), item@, min as nat, max as nat, self.rest(), 0),
            self.ends_within(r),
    {
        let mut this = self;
        let ghost s0 = this.search();
        let ghost rest0 = this.rest();
        let mut count: usize = 0;
        while count <= max
            invariant
                this.wf(),
                is_char_item(item@),
                this.rest() == rest0,
                self.rest() == rest0,
                self.search() == s0,
                this.text@ == s0.text,
                s0.pos <= this.pos,
                count == this.pos - s0.pos,
                lazy(s0, item@, min as nat, max as nat, rest0, 0) == lazy(this.search(), item@, min as nat, max as nat, rest0, count as nat),
            decreases this.text@.len() - this.pos,
        {
            if count >= min {
                let m = Matcher {
                    text: this.text,
                    pos: this.pos,
                    re: this.re,
                    re_pos: this.re_pos,
                    backreferences: clone_captures(&this.backreferences),
                    matched: clone_chars(&this.matched),
                };
                let r = m.match_here();
                if r.is_some() {
                    return r;
                }
            }
            if this.pos < this.text.len() {
                let t0 = this.text[this.pos];
                if match_char(t0, item) {
                    let ghost before = this.search();
                    this.matched.push(t0);
                    grow_captures(&mut this.backreferences, t0);
                    this.pos = this.pos + 1;
                    proof {
                        assert(this.matched@ =~= before.matched + seq![t0]);
                        assert(this.search() == consume(before, seq![t0]));
                    }
                    count = count + 1;
                } else {
                    return None;
                }
            } else {
                return None;
            }
        }
        None
    }
}

} // verus!
