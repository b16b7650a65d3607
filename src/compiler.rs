//! Pattern compiler: pattern text to a syntax tree.
use vstd::prelude::*;
use crate::ast::{alts_view, lemma_group_view, phrase_view, Item, Phrase, ReItem};

verus! {

/// Why a pattern text was rejected.
#[derive(Clone, Copy, Debug, PartialEq, Eq, Structural)]
pub enum CompileError {
    /// A `]` outside of a character class.
    UnexpectedClassTerminator,
    /// A `\` followed by a character with no meaning.
    InvalidEscapeSequence,
    /// A `\` inside a character class.
    UnsupportedClassEscape,
    /// The text ends inside a group.
    UnclosedGroup,
    /// An alternative of a group ends on something else than `|` or `)`;
    /// the grammar rules this out, so `compile` never reports it.
    InvalidGroupSeparator,
    /// A `|` outside of any group.
    TopLevelAlternation,
    /// A `)` that closes no group.
    UnmatchedGroupClose,
}

/// A compiled pattern: its alternatives and the number of capture groups.
pub struct CompileResult {
    pub phrases: Vec<Phrase>,
    pub groups: usize,
}

/// Compiler state: the number of groups opened so far.
pub struct ReCompiler {
    pub groups: usize,
}

/// What a parse yields: the items, how many characters it consumed, and
/// the next free group number.
pub type Parsed<T> = Result<(Seq<T>, nat, nat), CompileError>;

/// Characters left from position `i` on.
pub open spec fn left(p: Seq<char>, i: int) -> nat {
    if 0 <= i < p.len() {
        (p.len() - i) as nat
    } else {
        0
    }
}

/// Puts `front` and `k` consumed characters before a parse result.
pub open spec fn prepend<T>(front: Seq<T>, k: nat, r: Parsed<T>) -> Parsed<T> {
    match r {
        Ok((its, n, g)) => Ok((front + its, k + n, g)),
        Err(e) => Err(e),
    }
}

/// Length of the run of class members from `k`: up to `]`, `\` or the end.
pub open spec fn class_span(p: Seq<char>, k: int) -> nat
    decreases left(p, k),
{
    if k < 0 || k >= p.len() || p[k] == ']' || p[k] == '\\' {
        0
    } else {
        1 + class_span(p, k + 1)
    }
}

/// The item of a character that needs no look-ahead.
pub open spec fn plain_item(c: char, first: bool) -> Item {
    if c == '^' && first {
        Item::AnchorStart
    } else if c == '$' {
        Item::AnchorEnd
    } else if c == '*' {
        Item::QuantZeroPlus
    } else if c == '+' {
        Item::QuantOnePlus
    } else if c == '?' {
        Item::QuantZeroOrOne
    } else if c == '.' {
        Item::Wildcard
    } else {
        Item::Char(c)
    }
}

/// The item that `\` followed by `c` stands for, if any.
pub open spec fn escaped_item(c: char) -> Option<Item> {
    if c == 'd' {
        Some(Item::Digit)
    } else if c == 'w' {
        Some(Item::Alphanum)
    } else if c == '\\' {
        Some(Item::Char('\\'))
    } else if '1' <= c <= '9' {
        Some(Item::Backreference((c as nat - '1' as nat) as nat))
    } else {
        None
    }
}

/// The items of the phrase that starts at `i`, with `g` the next group
/// number; the phrase ends at the end of the text or before `|` or `)`.
/// `first` holds at the phrase's first character, where `^` anchors.
pub open spec fn parse_items(p: Seq<char>, i: int, g: nat, first: bool) -> Parsed<Item>
    decreases left(p, i), 0nat,
{
    if i < 0 || i >= p.len() || p[i] == '|' || p[i] == ')' {
        Ok((seq![], 0, g))
    } else {
        let c = p[i];
        if c == '(' {
            match parse_alts(p, i + 1, g + 1) {
                Err(e) => Err(e),
                Ok((alts, m, g1)) => prepend(
                    seq![Item::Group(g, alts)],
                    m + 2,
                    parse_items(p, i + 2 + m, g1, false),
                ),
            }
        } else if c == '[' {
            if i + 1 >= p.len() {
                // an unclosed class is dropped
                Ok((seq![], 1, g))
            } else if p[i + 1] == ']' {
                prepend(seq![], 2, parse_items(p, i + 2, g, false))
            } else {
                let close = i + 2 + class_span(p, i + 2);
                if close >= p.len() {
                    Ok((seq![], (p.len() - i) as nat, g))
                } else if p[close] == '\\' {
                    Err(CompileError::UnsupportedClassEscape)
                } else {
                    let item = if p[i + 1] == '^' {
                        Item::NegCharClass(p.subrange(i + 2, close))
                    } else {
                        Item::CharClass(p.subrange(i + 1, close))
                    };
                    prepend(seq![item], (close + 1 - i) as nat, parse_items(p, close + 1, g, false))
                }
            }
        } else if c == '\\' {
            if i + 1 >= p.len() {
                // a dangling escape is dropped
                Ok((seq![], 1, g))
            } else {
                match escaped_item(p[i + 1]) {
                    Some(item) => prepend(seq![item], 2, parse_items(p, i + 2, g, false)),
                    None => Err(CompileError::InvalidEscapeSequence),
                }
            }
        } else if c == ']' {
            Err(CompileError::UnexpectedClassTerminator)
        } else {
            prepend(seq![plain_item(c, first)], 1, parse_items(p, i + 1, g, false))
        }
    }
}

/// The alternatives of a group whose contents start at `i`, up to (not
/// including) its closing `)`.
pub open spec fn parse_alts(p: Seq<char>, i: int, g: nat) -> Parsed<Seq<Item>>
    decreases left(p, i), 1nat,
{
    match parse_items(p, i, g, true) {
        Err(e) => Err(e),
        Ok((ph, n, g1)) => {
            let j = i + n;
            if i < 0 || j >= p.len() {
                Err(CompileError::UnclosedGroup)
            } else if p[j] == '|' {
                prepend(seq![ph], n + 1, parse_alts(p, j + 1, g1))
            } else if p[j] == ')' {
                Ok((seq![ph], n, g1))
            } else {
                Err(CompileError::InvalidGroupSeparator)
            }
        }
    }
}

/// The compiled form of pattern text `p`: its alternatives and group count.
pub open spec fn compile_spec(p: Seq<char>) -> Result<(Seq<Seq<Item>>, nat), CompileError> {
    match parse_items(p, 0, 0, true) {
        Err(e) => Err(e),
        Ok((items, n, g)) => if n >= p.len() {
            Ok((seq![items], g))
        } else if p[n as int] == '|' {
            Err(CompileError::TopLevelAlternation)
        } else {
            Err(CompileError::UnmatchedGroupClose)
        },
    }
}

impl CompileResult {
    /// The model: alternatives and group count.
    pub open spec fn model(&self) -> (Seq<Seq<Item>>, nat) {
        (alts_view(self.phrases@), self.groups as nat)
    }
}

/// The executable item of a character that needs no look-ahead.
fn plain_reitem(c: char, first: bool) -> (r: ReItem)
    ensures
        r@ == plain_item(c, first),
{
    if c == '^' && first {
        ReItem::AnchorStart
    } else if c == '$' {
        ReItem::AnchorEnd
    } else if c == '*' {
        ReItem::QuantZeroPlus
    } else if c == '+' {
        ReItem::QuantOnePlus
    } else if c == '?' {
        ReItem::QuantZeroOrOne
    } else if c == '.' {
        ReItem::Wildcard
    } else {
        ReItem::Char(c)
    }
}

impl ReCompiler {
    /// Compiles pattern text into its alternatives and group count.
    pub fn compile(re: &str) -> (r: Result<CompileResult, CompileError>)
        ensures
            match compile_spec(re@) {
                Ok(m) => r is Ok && r->Ok_0.model() == m,
                Err(e) => r == Err::<CompileResult, CompileError>(e),
            },
    {
        let chars = crate::chars_of(re);
        let mut compiler = ReCompiler { groups: 0 };
        let mut pos: usize = 0;
        let phrase = match compiler.compile_phrase(&chars, &mut pos) {
            Ok(ph) => ph,
            Err(e) => {
                return Err(e);
            },
        };
        if pos < chars.len() {
            if chars[pos] == '|' {
                return Err(CompileError::TopLevelAlternation);
            } else {
                return Err(CompileError::UnmatchedGroupClose);
            }
        }
        let ghost items = phrase_view(phrase@);
        let mut phrases: Vec<Phrase> = Vec::new();
        phrases.push(phrase);
        proof {
            assert(alts_view(phrases@) =~= seq![items]);
        }
        Ok(CompileResult { phrases, groups: compiler.groups })
    }

    /// Compiles the phrase that starts at `*pos`, leaving `*pos` on the
    /// character that ended it (`|`, `)`) or at the end of the text.
    pub fn compile_phrase(&mut self, re: &Vec<char>, pos: &mut usize) -> (r: Result<Phrase, CompileError>)
        requires
            *old(pos) <= re@.len(),
            old(self).groups + (re@.len() - *old(pos)) <= usize::MAX,
        ensures
            match parse_items(re@, *old(pos) as int, old(self).groups as nat, true) {
                Ok((items, n, g)) => {
                    &&& r is Ok
                    &&& phrase_view(r->Ok_0@) == items
                    &&& *final(pos) == *old(pos) + n
                    &&& final(self).groups == g
                    &&& old(self).groups <= final(self).groups
                    &&& *final(pos) <= re@.len()
                    &&& final(self).groups - old(self).groups <= *final(pos) - *old(pos)
                },
                Err(e) => r == Err::<Phrase, CompileError>(e),
            },
        decreases re@.len() - *old(pos),
    {
        let ghost start = *pos as int;
        let ghost g0 = self.groups as nat;
        let mut i: usize = *pos;
        let mut items: Vec<ReItem> = Vec::new();
        let mut first = true;
        while i < re.len() && re[i] != '|' && re[i] != ')'
            invariant
                start == *old(pos),
                g0 == old(self).groups,
                start <= i <= re@.len(),
                g0 <= self.groups,
                self.groups - g0 <= i - start,
                g0 + (re@.len() - start) <= usize::MAX,
                parse_items(re@, start, g0, true) == prepend(
                    phrase_view(items@),
                    (i - start) as nat,
                    parse_items(re@, i as int, self.groups as nat, first),
                ),
            decreases re@.len() - i,
        {
            let c = re[i];
            let ghost i0 = i as int;
            let ghost gs = self.groups as nat;
            let ghost before = items@;
            if c == '(' {
                let group_n = self.groups;
                self.groups = self.groups + 1;
                i = i + 1;
                let ghost a0 = i as int;
                let mut grp: Vec<Vec<ReItem>> = Vec::new();
                loop
                    invariant_except_break
                        parse_alts(re@, a0, gs + 1) == prepend(
                            alts_view(grp@),
                            (i - a0) as nat,
                            parse_alts(re@, i as int, self.groups as nat),
                        ),
                    invariant
                        start == *old(pos),
                        g0 == old(self).groups,
                        items@ == before,
                        parse_items(re@, start, g0, true) == prepend(
                            phrase_view(before),
                            (i0 - start) as nat,
                            parse_items(re@, i0, gs, first),
                        ),
                        a0 <= i <= re@.len(),
                        a0 == i0 + 1,
                        start < a0,
                        gs + 1 <= self.groups,
                        self.groups - g0 <= i - start,
                        g0 + (re@.len() - start) <= usize::MAX,
                        gs - g0 <= i0 - start,
                        i0 < re@.len(),
                        re@[i0] == '(',
                    ensures
                        i < re@.len(),
                        re@[i as int] == ')',
                        parse_alts(re@, a0, gs + 1) == Ok::<_, CompileError>((alts_view(grp@), (i - a0) as nat, self.groups as nat)),
                    decreases re@.len() - i,
                {
                    let ghost s = i as int;
                    let ghost gg = self.groups as nat;
                    let ghost grp_before = grp@;
                    let phrase = match self.compile_phrase(re, &mut i) {
                        Ok(ph) => ph,
                        Err(e) => {
                            proof {
                                assert(parse_alts(re@, s, gg) == Err::<(Seq<Seq<Item>>, nat, nat), CompileError>(e));
                                assert(parse_items(re@, i0, gs, first) == Err::<(Seq<Item>, nat, nat), CompileError>(e));
                            }
                            return Err(e);
                        },
                    };
                    grp.push(phrase);
                    proof {
                        assert(alts_view(grp@) =~= alts_view(grp_before) + seq![phrase_view(phrase@)]);
                    }
                    if i >= re.len() {
                        return Err(CompileError::UnclosedGroup);
                    }
                    if re[i] == '|' {
                        proof {
                            lemma_prepend_prepend(alts_view(grp_before), (s - a0) as nat, seq![phrase_view(phrase@)], (i - s + 1) as nat, parse_alts(re@, i + 1, self.groups as nat));
                        }
                        i = i + 1;
                    } else if re[i] == ')' {
                        break;
                    } else {
                        return Err(CompileError::InvalidGroupSeparator);
                    }
                }
                proof {
                    lemma_group_view(group_n, grp);
                    lemma_prepend_prepend(phrase_view(before), (i0 - start) as nat, seq![Item::Group(gs, alts_view(grp@))], (i + 1 - i0) as nat, parse_items(re@, i + 1, self.groups as nat, false));
                }
                items.push(ReItem::Group(group_n, grp));
                i = i + 1;
            } else if c == '[' {
                if i + 1 >= re.len() {
                    i = re.len();
                } else if re[i + 1] == ']' {
                    proof {
                        lemma_prepend_prepend(phrase_view(before), (i0 - start) as nat, seq![], 2, parse_items(re@, i + 2, gs, false));
                        assert(phrase_view(before) + seq![] =~= phrase_view(before));
                    }
                    i = i + 2;
                } else {
                    let neg = re[i + 1] == '^';
                    let mut members: Vec<char> = Vec::new();
                    let ghost from: int = if neg { i + 2 } else { i + 1 };
                    if !neg {
                        members.push(re[i + 1]);
                    }
                    let mut k: usize = i + 2;
                    while k < re.len() && re[k] != ']' && re[k] != '\\'
                        invariant
                            start == *old(pos),
                            g0 == old(self).groups,
                            items@ == before,
                            parse_items(re@, start, g0, true) == prepend(
                                phrase_view(before),
                                (i0 - start) as nat,
                                parse_items(re@, i0, gs, first),
                            ),
                            i == i0,
                            gs == self.groups,
                            re@[i0] == '[',
                            i0 + 2 <= k <= re@.len(),
                            i0 + 1 < re@.len(),
                            from == (if neg { i0 + 2 } else { i0 + 1 }),
                            neg == (re@[i0 + 1] == '^'),
                            class_span(re@, i0 + 2) == (k - (i0 + 2)) + class_span(re@, k as int),
                            members@ == re@.subrange(from, k as int),
                        decreases re@.len() - k,
                    {
                        let ghost m0 = members@;
                        members.push(re[k]);
                        proof {
                            assert(members@ =~= re@.subrange(from, k + 1));
                        }
                        k = k + 1;
                    }
                    if k >= re.len() {
                        i = re.len();
                    } else if re[k] == '\\' {
                        proof {
                            assert(class_span(re@, k as int) == 0);
                            assert(parse_items(re@, i0, gs, first) == Err::<(Seq<Item>, nat, nat), CompileError>(CompileError::UnsupportedClassEscape));
                        }
                        return Err(CompileError::UnsupportedClassEscape);
                    } else {
                        let item = if neg {
                            ReItem::NegCharClass(members)
                        } else {
                            ReItem::CharClass(members)
                        };
                        proof {
                            lemma_prepend_prepend(phrase_view(before), (i0 - start) as nat, seq![item@], (k + 1 - i0) as nat, parse_items(re@, k + 1, gs, false));
                        }
                        items.push(item);
                        i = k + 1;
                    }
                }
            } else if c == '\\' {
                if i + 1 >= re.len() {
                    i = i + 1;
                } else {
                    let d = re[i + 1];
                    let item = if d == 'd' {
                        ReItem::Digit
                    } else if d == 'w' {
                        ReItem::Alphanum
                    } else if d == '\\' {
                        ReItem::Char('\\')
                    } else if '1' <= d && d <= '9' {
                        ReItem::Backreference((d as u32 - '1' as u32) as usize)
                    } else {
                        return Err(CompileError::InvalidEscapeSequence);
                    };
                    proof {
                        assert(escaped_item(d) == Some(item@));
                        lemma_prepend_prepend(phrase_view(before), (i0 - start) as nat, seq![item@], 2, parse_items(re@, i + 2, gs, false));
                    }
                    items.push(item);
                    i = i + 2;
                }
            } else if c == ']' {
                return Err(CompileError::UnexpectedClassTerminator);
            } else {
                let item = plain_reitem(c, first);
                proof {
                    lemma_prepend_prepend(phrase_view(before), (i0 - start) as nat, seq![item@], 1, parse_items(re@, i + 1, gs, false));
                }
                items.push(item);
                i = i + 1;
            }
            proof {
                assert(phrase_view(items@) =~= phrase_view(before) + (if items@.len() == before.len() { seq![] } else { seq![items@.last()@] }));
            }
            first = false;
        }
        *pos = i;
        proof {
            assert(phrase_view(items@) + seq![] =~= phrase_view(items@));
        }
        Ok(items)
    }
}

pub proof fn lemma_prepend_prepend<T>(a: Seq<T>, k: nat, b: Seq<T>, m: nat, r: Parsed<T>)
    ensures
        prepend(a, k, prepend(b, m, r)) == prepend(a + b, k + m, r),
{
    match r {
        Ok((its, n, g)) => {
            assert(a + (b + its) =~= (a + b) + its);
        },
        Err(_) => {},
    }
}

} // verus!
