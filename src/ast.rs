//! Pattern syntax tree: the executable items and their mathematical model.
use vstd::prelude::*;

verus! {

/// Mathematical model of one pattern item.
pub enum Item {
    Char(char),
    Digit,
    Alphanum,
    CharClass(Seq<char>),
    NegCharClass(Seq<char>),
    AnchorStart,
    AnchorEnd,
    QuantZeroPlus,
    QuantOnePlus,
    QuantZeroOrOne,
    Wildcard,
    Group(nat, Seq<Seq<Item>>),
    GroupEnd(nat),
    Backreference(nat),
}

/// One item of a compiled pattern.
#[derive(Debug, PartialEq, Eq)]
pub enum ReItem {
    Char(char),
    Digit,
    Alphanum,
    CharClass(Vec<char>),
    NegCharClass(Vec<char>),
    AnchorStart,
    AnchorEnd,
    QuantZeroPlus,
    QuantOnePlus,
    QuantZeroOrOne,
    Wildcard,
    Group(usize, Vec<Vec<ReItem>>),
    GroupEnd(usize),
    Backreference(usize),
}

/// A sequence of items: one alternative of a group, or a whole pattern.
pub type Phrase = Vec<ReItem>;

pub open spec fn item_view(it: ReItem) -> Item
    decreases it,
{
    match it {
        ReItem::Char(c) => Item::Char(c),
        ReItem::Digit => Item::Digit,
        ReItem::Alphanum => Item::Alphanum,
        ReItem::CharClass(s) => Item::CharClass(s@),
        ReItem::NegCharClass(s) => Item::NegCharClass(s@),
        ReItem::AnchorStart => Item::AnchorStart,
        ReItem::AnchorEnd => Item::AnchorEnd,
        ReItem::QuantZeroPlus => Item::QuantZeroPlus,
        ReItem::QuantOnePlus => Item::QuantOnePlus,
        ReItem::QuantZeroOrOne => Item::QuantZeroOrOne,
        ReItem::Wildcard => Item::Wildcard,
        ReItem::Group(n, alts) => Item::Group(
            n as nat,
            Seq::new(
                alts.len() as nat,
                |i: int|
                    Seq::new(
                        alts[i].len() as nat,
                        |j: int|
                            if 0 <= i < alts.len() && 0 <= j < alts[i].len() {
                                item_view(alts[i][j])
                            } else {
                                Item::Wildcard
                            },
                    ),
            ),
        ),
        ReItem::GroupEnd(n) => Item::GroupEnd(n as nat),
        ReItem::Backreference(n) => Item::Backreference(n as nat),
    }
}

impl View for ReItem {
    type V = Item;

    open spec fn view(&self) -> Item {
        item_view(*self)
    }
}

/// The model of a sequence of executable items.
pub open spec fn phrase_view(ph: Seq<ReItem>) -> Seq<Item> {
    ph.map_values(|it: ReItem| it@)
}

/// The model of a list of alternatives.
pub open spec fn alts_view(alts: Seq<Vec<ReItem>>) -> Seq<Seq<Item>> {
    alts.map_values(|ph: Vec<ReItem>| phrase_view(ph@))
}

/// Size of an item: a group weighs more than all of its alternatives together.
pub open spec fn item_size(it: Item) -> nat
    decreases it,
{
    match it {
        Item::Group(_, alts) => 2 + alts_size(alts),
        _ => 1,
    }
}

pub open spec fn phrase_size(ph: Seq<Item>) -> nat
    decreases ph,
{
    if ph.len() == 0 {
        0
    } else {
        item_size(ph[0]) + phrase_size(ph.subrange(1, ph.len() as int))
    }
}

pub open spec fn alts_size(alts: Seq<Seq<Item>>) -> nat
    decreases alts,
{
    if alts.len() == 0 {
        0
    } else {
        phrase_size(alts[0]) + alts_size(alts.subrange(1, alts.len() as int))
    }
}

/// An item that the character predicate is defined on.
pub open spec fn is_char_item(it: Item) -> bool {
    match it {
        Item::Char(_) | Item::Digit | Item::Alphanum | Item::CharClass(_) | Item::NegCharClass(_)
        | Item::Wildcard | Item::AnchorEnd => true,
        _ => false,
    }
}

pub open spec fn is_quantifier(it: Item) -> bool {
    it is QuantZeroPlus || it is QuantOnePlus || it is QuantZeroOrOne
}

/// Repetition bounds of a quantifier marker.
pub open spec fn quant_bounds(q: Item) -> (nat, nat) {
    match q {
        Item::QuantOnePlus => (1, usize::MAX as nat),
        Item::QuantZeroOrOne => (0, 1),
        _ => (0, usize::MAX as nat),
    }
}

pub proof fn lemma_phrase_size_split(a: Seq<Item>, b: Seq<Item>)
    ensures
        phrase_size(a + b) == phrase_size(a) + phrase_size(b),
    decreases a.len(),
{
    if a.len() == 0 {
        assert(a + b =~= b);
    } else {
        assert((a + b).subrange(1, (a + b).len() as int) =~= a.subrange(1, a.len() as int) + b);
        lemma_phrase_size_split(a.subrange(1, a.len() as int), b);
    }
}

pub proof fn lemma_size_step(ph: Seq<Item>)
    requires
        ph.len() > 0,
    ensures
        phrase_size(ph) == item_size(ph[0]) + phrase_size(ph.subrange(1, ph.len() as int)),
        item_size(ph[0]) >= 1,
{
}

/// The model of a suffix of a phrase, split at its first item.
pub proof fn lemma_rest_step(ph: Seq<ReItem>, p: int)
    requires
        0 <= p < ph.len(),
    ensures
        phrase_view(ph.subrange(p, ph.len() as int)).len() > 0,
        phrase_view(ph.subrange(p, ph.len() as int))[0] == ph[p]@,
        phrase_view(ph.subrange(p, ph.len() as int)).subrange(1, ph.len() - p) == phrase_view(
            ph.subrange(p + 1, ph.len() as int),
        ),
{
    assert(phrase_view(ph.subrange(p, ph.len() as int)).subrange(1, ph.len() - p) =~= phrase_view(
        ph.subrange(p + 1, ph.len() as int),
    ));
}

pub proof fn lemma_alt_size_bound(alts: Seq<Seq<Item>>, k: int)
    requires
        0 <= k < alts.len(),
    ensures
        phrase_size(alts[k]) <= alts_size(alts),
    decreases alts.len(),
{
    if k > 0 {
        lemma_alt_size_bound(alts.subrange(1, alts.len() as int), k - 1);
    }
}

pub proof fn lemma_single_size(it: Item)
    ensures
        phrase_size(seq![it]) == item_size(it),
{
    assert(seq![it].subrange(1, 1) =~= Seq::<Item>::empty());
    assert(seq![it][0] == it);
    assert(phrase_size(Seq::<Item>::empty()) == 0);
}

pub proof fn lemma_group_view(n: usize, alts: Vec<Vec<ReItem>>)
    ensures
        ReItem::Group(n, alts)@ == Item::Group(n as nat, alts_view(alts@)),
{
    let a = ReItem::Group(n, alts)@->Group_1;
    let b = alts_view(alts@);
    assert forall|k: int| 0 <= k < a.len() implies a[k] == b[k] by {
        assert(a[k] =~= b[k]);
    }
    assert(a =~= b);
}

/// Copy of an item, structure for structure.
pub fn copy_item(it: &ReItem) -> (r: ReItem)
    ensures
        r@ == it@,
    decreases it,
{
    match it {
        ReItem::Char(c) => ReItem::Char(*c),
        ReItem::Digit => ReItem::Digit,
        ReItem::Alphanum => ReItem::Alphanum,
        ReItem::CharClass(s) => ReItem::CharClass(s.clone()),
        ReItem::NegCharClass(s) => ReItem::NegCharClass(s.clone()),
        ReItem::AnchorStart => ReItem::AnchorStart,
        ReItem::AnchorEnd => ReItem::AnchorEnd,
        ReItem::QuantZeroPlus => ReItem::QuantZeroPlus,
        ReItem::QuantOnePlus => ReItem::QuantOnePlus,
        ReItem::QuantZeroOrOne => ReItem::QuantZeroOrOne,
        ReItem::Wildcard => ReItem::Wildcard,
        ReItem::Group(n, alts) => {
            let mut out: Vec<Vec<ReItem>> = Vec::new();
            let mut i: usize = 0;
            while i < alts.len()
                invariant
                    *it is Group && it->Group_1 == *alts,
                    i <= alts.len(),
                    out@.len() == i,
                    forall|k: int| 0 <= k < i ==> phrase_view(#[trigger] out@[k]@) == phrase_view(alts@[k]@),
                decreases alts.len() - i,
            {
                proof {
                    assert(decreases_to!(alts => alts@[i as int]));
                    assert(decreases_to!(*it => alts@[i as int]));
                }
                let ph = copy_phrase(&alts[i], 0);
                out.push(ph);
                i = i + 1;
            }
            let r = ReItem::Group(*n, out);
            assert(r@ == it@) by {
                let a = r@->Group_1;
                let b = it@->Group_1;
                assert forall|k: int| 0 <= k < a.len() implies a[k] == b[k] by {
                    assert forall|j: int| 0 <= j < a[k].len() implies a[k][j] == b[k][j] by {
                        assert(phrase_view(out@[k]@)[j] == phrase_view(alts@[k]@)[j]);
                    }
                    assert(a[k] =~= b[k]);
                }
                assert(a =~= b);
            }
            r
        },
        ReItem::GroupEnd(n) => ReItem::GroupEnd(*n),
        ReItem::Backreference(n) => ReItem::Backreference(*n),
    }
}

/// Copy of the items of a phrase from position `from` on.
pub fn copy_phrase(ph: &Vec<ReItem>, from: usize) -> (r: Vec<ReItem>)
    requires
        from <= ph@.len(),
    ensures
        phrase_view(r@) == phrase_view(ph@.subrange(from as int, ph@.len() as int)),
    decreases ph,
{
    let mut out: Vec<ReItem> = Vec::new();
    let mut i: usize = from;
    while i < ph.len()
        invariant
            from <= i <= ph.len(),
            out@.len() == i - from,
            forall|k: int| 0 <= k < out@.len() ==> (#[trigger] out@[k])@ == ph@[from + k]@,
        decreases ph.len() - i,
    {
        proof {
            assert(decreases_to!(ph => ph@[i as int]));
        }
        let it = copy_item(&ph[i]);
        out.push(it);
        i = i + 1;
    }
    assert(phrase_view(out@) =~= phrase_view(ph@.subrange(from as int, ph@.len() as int)));
    out
}

} // verus!
