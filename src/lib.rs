//! A small backtracking regular-expression engine: a compiler from pattern
//! text to a syntax tree, and a matcher over that tree with capture groups
//! and backreferences.
pub mod ast;
pub mod compiler;
pub mod laws;
pub mod matcher;

use vstd::prelude::*;
use vstd::std_specs::iter::IteratorSpec;
use crate::ast::Item;
use crate::compiler::{compile_spec, CompileError, CompileResult, ReCompiler};
use crate::matcher::{caps_view, phrase_match, Backref, Capture, Matcher, Search};

verus! {

/// The text of a successful match.
pub struct Match {
    pub full_text: String,
}

impl View for Match {
    type V = Seq<char>;

    open spec fn view(&self) -> Seq<char> {
        self.full_text@
    }
}

/// One empty, closed buffer per group.
pub open spec fn fresh_captures(groups: nat) -> Seq<Capture> {
    Seq::new(groups, |i: int| Capture { value: Seq::empty(), active: false })
}

/// Where every match attempt starts: the beginning of the text, fresh buffers.
pub open spec fn start_of(text: Seq<char>, groups: nat) -> Search {
    Search { text, pos: 0, captures: fresh_captures(groups), matched: seq![] }
}

/// The first of the alternatives, from the `k`-th on, that matches `text`.
pub open spec fn first_match(phrases: Seq<Seq<Item>>, groups: nat, text: Seq<char>, k: nat) -> Option<Search>
    decreases phrases.len() - k,
{
    if k >= phrases.len() {
        None
    } else {
        match phrase_match(start_of(text, groups), phrases[k as int]) {
            Some(r) => Some(r),
            None => first_match(phrases, groups, text, k + 1),
        }
    }
}

/// The text that a compiled pattern (alternatives, group count) matches in `text`.
pub open spec fn find_spec(pattern: (Seq<Seq<Item>>, nat), text: Seq<char>) -> Option<Seq<char>> {
    match first_match(pattern.0, pattern.1, text, 0) {
        Some(r) => Some(r.matched),
        None => None,
    }
}

/// What pattern text `p` matches in `text`, or why `p` does not compile.
pub open spec fn match_pattern_spec(text: Seq<char>, p: Seq<char>) -> Result<Option<Seq<char>>, CompileError> {
    match compile_spec(p) {
        Err(e) => Err(e),
        Ok(m) => Ok(find_spec(m, text)),
    }
}

pub open spec fn found(r: Option<Match>) -> Option<Seq<char>> {
    match r {
        Some(m) => Some(m@),
        None => None,
    }
}

/// The characters of `s`, in order.
pub fn chars_of(s: &str) -> (r: Vec<char>)
    ensures
        r@ == s@,
{
    let mut it = s.chars();
    let mut out: Vec<char> = Vec::new();
    proof {
        broadcast use vstd::string::axiom_spec_iter, vstd::string::next_postcondition;
    }
    loop
        invariant
            it.remaining() == s@.skip(out@.len() as int),
            out@ == s@.take(out@.len() as int),
            out@.len() <= s@.len(),
        decreases s@.len() - out@.len(),
    {
        match it.next() {
            Some(c) => {
                out.push(c);
            },
            None => {
                return out;
            },
        }
    }
}

/// Relies on std's `FromIterator<char>` for `String`: the string holds the
/// characters in order.
#[verifier::external_body]
fn string_from_chars(cs: &Vec<char>) -> (r: String)
    ensures
        r@ == cs@,
{
    cs.iter().collect()
}

fn new_captures(groups: usize) -> (r: Vec<Backref>)
    ensures
        caps_view(r@) == fresh_captures(groups as nat),
{
    let mut v: Vec<Backref> = Vec::new();
    let mut i: usize = 0;
    while i < groups
        invariant
            i <= groups,
            v@.len() == i,
            caps_view(v@) == fresh_captures(i as nat),
        decreases groups - i,
    {
        let ghost before = v@;
        v.push(Backref::new());
        i = i + 1;
        proof {
            assert forall|j: int| 0 <= j < i implies caps_view(v@)[j] == fresh_captures(i as nat)[j] by {
                if j < i - 1 {
                    assert(v@[j] == before[j]);
                    assert(caps_view(before)[j] == fresh_captures((i - 1) as nat)[j]);
                }
            }
            assert(caps_view(v@) =~= fresh_captures(i as nat));
        }
    }
    proof {
        assert(caps_view(v@) =~= fresh_captures(i as nat));
    }
    v
}

impl CompileResult {
    /// Matches the compiled pattern against `text`: the alternatives are
    /// tried in order and the first that matches gives the result.
    pub fn find(&self, text: &str) -> (r: Option<Match>)
        ensures
            found(r) == find_spec(self.model(), text@),
    {
        let chars = chars_of(text);
        let ghost model = self.model();
        let mut k: usize = 0;
        while k < self.phrases.len()
            invariant
                k <= self.phrases@.len(),
                model == self.model(),
                chars@ == text@,
                first_match(model.0, model.1, text@, 0) == first_match(model.0, model.1, text@, k as nat),
            decreases self.phrases@.len() - k,
        {
            let m = Matcher {
                text: &chars,
                pos: 0,
                re: &self.phrases[k],
                re_pos: 0,
                backreferences: new_captures(self.groups),
                matched: Vec::new(),
            };
            proof {
                assert(m.rest() =~= model.0[k as int]);
                assert(m.search() == start_of(text@, model.1));
            }
            match m.match_phrase() {
                Some(res) => {
                    return Some(Match { full_text: string_from_chars(&res.matched) });
                },
                None => {},
            }
            k = k + 1;
        }
        None
    }
}

/// Compiles pattern text `re` and matches it against `text`.
pub fn match_pattern(text: &str, re: &str) -> (r: Result<Option<Match>, CompileError>)
    ensures
        match r {
            Ok(o) => match_pattern_spec(text@, re@) == Ok::<_, CompileError>(found(o)),
            Err(e) => match_pattern_spec(text@, re@) == Err::<Option<Seq<char>>, _>(e),
        },
{
    match ReCompiler::compile(re) {
        Ok(pattern) => Ok(pattern.find(text)),
        Err(e) => Err(e),
    }
}

} // verus!
