use mini_regex::ast::ReItem;
use mini_regex::compiler::{CompileError, ReCompiler};
use mini_regex::matcher::{match_char, Backref, Matcher};
use mini_regex::{chars_of, match_pattern};

fn run(text: &str, re: &str) -> Option<String> {
    match_pattern(text, re).expect("pattern compiles").map(|m| m.full_text)
}

fn fails(re: &str) -> CompileError {
    match match_pattern("anything", re) {
        Err(e) => e,
        Ok(_) => panic!("pattern {re:?} was accepted"),
    }
}

#[test]
fn literal_text_matches_itself() {
    for s in ["a", "hello world", "abc123", "x y z", ""] {
        assert_eq!(run(s, s), Some(s.to_string()));
    }
}

#[test]
fn anchors_both_ends() {
    assert_eq!(run("abc", "^abc$"), Some("abc".to_string()));
    assert_eq!(run("xabc", "^abc$"), None);
}

#[test]
fn quantifier_counts() {
    assert_eq!(run("", "a*"), Some(String::new()));
    assert_eq!(run("", "a+"), None);
    assert_eq!(run("aaab", "a+b"), Some("aaab".to_string()));
}

#[test]
fn character_classes() {
    assert_eq!(run("3", "\\d"), Some("3".to_string()));
    assert_eq!(run("a", "[^abc]"), None);
    assert_eq!(run("d", "[^abc]"), Some("d".to_string()));
}

#[test]
fn grouping_and_alternation() {
    assert_eq!(run("cat", "(cat|dog)"), Some("cat".to_string()));
    assert_eq!(run("fox", "(cat|dog)"), None);
}

#[test]
fn backreference_to_group() {
    assert_eq!(run("abcabc", "(abc)\\1"), Some("abcabc".to_string()));
    assert_eq!(run("abcxyz", "(abc)\\1"), None);
}

#[test]
fn compiling_twice_behaves_the_same() {
    let re = "(a+)(b|c(d))\\2[xy]";
    let first = ReCompiler::compile(re).unwrap();
    let second = ReCompiler::compile(re).unwrap();
    assert_eq!(first.groups, 3);
    assert_eq!(first.groups, second.groups);
    assert!(first.phrases == second.phrases);
    for text in ["aabbx", "acdcdy", "zzz", "abcy", ""] {
        let a = first.find(text).map(|m| m.full_text);
        let b = second.find(text).map(|m| m.full_text);
        assert_eq!(a, b);
    }
    assert_eq!(first.find("aacdcdy").map(|m| m.full_text), Some("aacdcdy".to_string()));
}

#[test]
fn greedy_gives_back_one() {
    assert_eq!(run("aaa", "a*a"), Some("aaa".to_string()));
}

#[test]
fn empty_pattern_matches_at_start() {
    assert_eq!(run("xyz", ""), Some(String::new()));
    assert_eq!(run("", ""), Some(String::new()));
}

#[test]
fn search_is_unanchored() {
    assert_eq!(run("xxabcxx", "abc"), Some("abc".to_string()));
    assert_eq!(run("xxabcxx", "^abc"), None);
    assert_eq!(run("abc", "$"), Some(String::new()));
}

#[test]
fn optional_and_wildcard() {
    assert_eq!(run("color", "colou?r"), Some("color".to_string()));
    assert_eq!(run("colour", "colou?r"), Some("colour".to_string()));
    assert_eq!(run("a-c", "a.c"), Some("a-c".to_string()));
    assert_eq!(run("ac", "a.c"), None);
}

#[test]
fn word_class_excludes_underscore() {
    assert_eq!(run("  hello_", "\\w+"), Some("hello".to_string()));
    assert_eq!(run("__", "\\w"), None);
    assert_eq!(run("Z9", "\\w\\d"), Some("Z9".to_string()));
}

#[test]
fn class_repetition() {
    assert_eq!(run("xxbcay", "[abc]+"), Some("bca".to_string()));
}

#[test]
fn repeated_group() {
    assert_eq!(run("xababc", "(a|b)+c"), Some("ababc".to_string()));
    assert_eq!(run("aab", "(a*)+b"), Some("aab".to_string()));
}

#[test]
fn empty_repetition_ends() {
    assert_eq!(run("b", "(a*)*"), Some(String::new()));
    assert_eq!(run("b", "(a*)*b"), Some("b".to_string()));
}

#[test]
fn word_backreference() {
    assert_eq!(run("cat and cat", "(\\w+) and \\1"), Some("cat and cat".to_string()));
    assert_eq!(run("cat and dog", "(\\w+) and \\1"), None);
}

#[test]
fn nested_group_backreferences() {
    assert_eq!(run("abcbc-abc", "(a(bc)\\2)-\\1"), None);
    assert_eq!(run("abcbc-abcbc", "(a(bc)\\2)-\\1"), Some("abcbc-abcbc".to_string()));
}

#[test]
fn backreference_without_group_never_matches() {
    assert_eq!(run("a", "a\\2"), None);
    assert_eq!(run("aa", "(a)\\2"), None);
}

#[test]
fn end_anchor_is_zero_width() {
    assert_eq!(run("a", "a$b"), None);
    assert_eq!(run("ab", "(b$)"), Some("b".to_string()));
}

#[test]
fn caret_inside_phrase() {
    assert_eq!(run("a^b", "a^b"), Some("a^b".to_string()));
    assert_eq!(run("ba", "(^a)"), None);
    assert_eq!(run("ab", "(^a)"), Some("a".to_string()));
}

#[test]
fn class_edge_forms() {
    assert_eq!(run("a", "[]a"), Some("a".to_string()));
    assert_eq!(run("z", "[^]"), Some("z".to_string()));
    assert_eq!(run("a\\b", "[\\]"), Some("\\".to_string()));
    assert_eq!(run("x^", "[a^]"), Some("^".to_string()));
}

#[test]
fn unfinished_constructs_are_dropped() {
    assert_eq!(run("abc", "ab\\"), Some("ab".to_string()));
    assert_eq!(run("abc", "a[bc"), Some("a".to_string()));
    assert_eq!(run("a\\b", "\\\\"), Some("\\".to_string()));
}

#[test]
fn stray_quantifier_never_matches() {
    assert_eq!(run("aa", "a**"), None);
    assert_eq!(run("a", "*a"), None);
}

#[test]
fn compile_errors() {
    assert_eq!(fails("a]"), CompileError::UnexpectedClassTerminator);
    assert_eq!(fails("\\x"), CompileError::InvalidEscapeSequence);
    assert_eq!(fails("(a\\|b)"), CompileError::InvalidEscapeSequence);
    assert_eq!(fails("[a\\b]"), CompileError::UnsupportedClassEscape);
    assert_eq!(fails("[^\\]"), CompileError::UnsupportedClassEscape);
    assert_eq!(fails("(ab"), CompileError::UnclosedGroup);
    assert_eq!(fails("("), CompileError::UnclosedGroup);
    assert_eq!(fails("(a|b"), CompileError::UnclosedGroup);
    assert_eq!(fails("a|b"), CompileError::TopLevelAlternation);
    assert_eq!(fails("(a)|b"), CompileError::TopLevelAlternation);
    assert_eq!(fails("a)"), CompileError::UnmatchedGroupClose);
}

#[test]
fn group_numbers_in_opening_order() {
    let p = ReCompiler::compile("(a)(b(c))").unwrap();
    assert_eq!(p.groups, 3);
    assert_eq!(p.phrases.len(), 1);
    let items = &p.phrases[0];
    assert_eq!(items.len(), 2);
    assert!(matches!(items[0], ReItem::Group(0, _)));
    match &items[1] {
        ReItem::Group(1, alts) => {
            assert_eq!(alts.len(), 1);
            assert!(matches!(alts[0][1], ReItem::Group(2, _)));
        }
        other => panic!("unexpected item {other:?}"),
    }
}

#[test]
fn compile_items() {
    let p = ReCompiler::compile("^a\\d\\w[xy][^z].$*+?\\3\\\\").unwrap();
    assert_eq!(
        p.phrases[0],
        vec![
            ReItem::AnchorStart,
            ReItem::Char('a'),
            ReItem::Digit,
            ReItem::Alphanum,
            ReItem::CharClass(vec!['x', 'y']),
            ReItem::NegCharClass(vec!['z']),
            ReItem::Wildcard,
            ReItem::AnchorEnd,
            ReItem::QuantZeroPlus,
            ReItem::QuantOnePlus,
            ReItem::QuantZeroOrOne,
            ReItem::Backreference(2),
            ReItem::Char('\\'),
        ]
    );
    assert_eq!(p.groups, 0);
}

#[test]
fn compile_phrase_stops_before_bar() {
    let chars = chars_of("ab|c");
    let mut compiler = ReCompiler { groups: 0 };
    let mut pos: usize = 0;
    let items = compiler.compile_phrase(&chars, &mut pos).unwrap();
    assert_eq!(items, vec![ReItem::Char('a'), ReItem::Char('b')]);
    assert_eq!(pos, 2);
    assert_eq!(compiler.groups, 0);
}

#[test]
fn char_predicate() {
    assert!(match_char('5', &ReItem::Digit));
    assert!(!match_char('x', &ReItem::Digit));
    assert!(match_char('Q', &ReItem::Alphanum));
    assert!(!match_char('_', &ReItem::Alphanum));
    assert!(match_char('b', &ReItem::CharClass(vec!['a', 'b'])));
    assert!(!match_char('b', &ReItem::NegCharClass(vec!['a', 'b'])));
    assert!(match_char('\n', &ReItem::Wildcard));
    assert!(!match_char('a', &ReItem::AnchorEnd));
    assert!(match_char('a', &ReItem::Char('a')));
}

#[test]
fn fresh_buffer() {
    let b = Backref::new();
    assert!(b.value.is_empty());
    assert!(!b.active);
}

#[test]
fn lazy_repetition_takes_fewest() {
    let text = chars_of("aaab");
    let rest = vec![ReItem::Char('a')];
    let m = Matcher {
        text: &text,
        pos: 0,
        re: &rest,
        re_pos: 0,
        backreferences: Vec::new(),
        matched: Vec::new(),
    };
    let r = m.match_quant_lazy(&ReItem::Char('a'), 0, usize::MAX).unwrap();
    assert_eq!(r.matched, vec!['a']);
    assert_eq!(r.remainder, 1);

    let rest_b = vec![ReItem::Char('b')];
    let m = Matcher {
        text: &text,
        pos: 0,
        re: &rest_b,
        re_pos: 0,
        backreferences: Vec::new(),
        matched: Vec::new(),
    };
    let r = m.match_quant_lazy(&ReItem::Char('a'), 0, usize::MAX).unwrap();
    assert_eq!(r.matched, vec!['a', 'a', 'a', 'b']);

    let m = Matcher {
        text: &text,
        pos: 0,
        re: &rest_b,
        re_pos: 0,
        backreferences: Vec::new(),
        matched: Vec::new(),
    };
    assert!(m.match_quant_lazy(&ReItem::Char('a'), 0, 2).is_none());
}

#[test]
fn captures_after_match() {
    let text = chars_of("xaby");
    let p = ReCompiler::compile("(a(b))").unwrap();
    let m = Matcher {
        text: &text,
        pos: 0,
        re: &p.phrases[0],
        re_pos: 0,
        backreferences: vec![Backref::new(), Backref::new()],
        matched: Vec::new(),
    };
    let r = m.match_phrase().unwrap();
    assert_eq!(r.matched, vec!['a', 'b']);
    assert_eq!(r.remainder, 3);
    assert_eq!(r.backreferences[0].value, vec!['a', 'b']);
    assert_eq!(r.backreferences[1].value, vec!['b']);
    assert!(!r.backreferences[0].active);
}

#[test]
fn chars_of_keeps_order() {
    assert_eq!(chars_of("héllo"), vec!['h', 'é', 'l', 'l', 'o']);
    assert_eq!(run("xé1", "é\\d"), Some("é1".to_string()));
}
