use std::collections::HashMap;
use tiny_regex::matcher::{match_node, match_pattern, match_tree};
use tiny_regex::parser::{Parser, RegexNode, RepeatKind};

fn ends(pattern: &str, line: &str, pos: usize) -> Vec<usize> {
    let mut parser = Parser::new(pattern);
    let ast = parser.parse();
    let input: Vec<char> = line.chars().collect();
    let mut last_group: usize = 0;
    let mut groups: HashMap<usize, (usize, usize)> = HashMap::new();
    match_node(&ast, &input, pos, &mut last_group, &mut groups)
}

#[test]
fn digits_inside_word() {
    assert!(match_pattern("apple123", "\\d+"));
}

#[test]
fn anchored_digits_reject_letters() {
    assert!(!match_pattern("abc123", "^\\d+$"));
}

#[test]
fn anchored_digits_accept_digits() {
    assert!(match_pattern("123", "^\\d+$"));
}

#[test]
fn two_groups_with_backreference() {
    assert!(match_pattern("aabbaa", "(a+)(b+)\\1"));
}

#[test]
fn optional_before_literal() {
    assert!(match_pattern("b", "a?b"));
}

#[test]
fn negated_class_on_empty_line() {
    assert!(!match_pattern("", "[^xyz]"));
}

#[test]
fn alternation_in_sentence() {
    assert!(match_pattern("I have a dog", "(cat|dog)"));
}

#[test]
fn repeated_group_backreference() {
    assert!(match_pattern("catcat", "(cat|dog)\\1"));
    assert!(match_pattern("dogdog", "(cat|dog)\\1"));
    assert!(!match_pattern("catdog", "(cat|dog)\\1"));
}

#[test]
fn star_matches_anything_at_start() {
    assert!(match_pattern("", "a*"));
    assert!(match_pattern("xyz", "a*"));
    assert_eq!(ends("a*", "aab", 0), vec![0, 1, 2]);
    assert_eq!(ends("a*", "", 0), vec![0]);
}

#[test]
fn negated_class_single_characters() {
    assert!(match_pattern("d", "[^abc]"));
    assert!(match_pattern("z", "[^abc]"));
    assert!(!match_pattern("a", "[^abc]"));
    assert!(!match_pattern("abc", "[^abc]"));
    assert_eq!(ends("[^abc]", "xa", 0), vec![1]);
    assert_eq!(ends("[^abc]", "xa", 1), Vec::<usize>::new());
}

#[test]
fn unanchored_match_survives_padding() {
    assert!(match_pattern("dog", "d.g"));
    assert!(match_pattern("xxdogyy", "d.g"));
    assert!(match_pattern("123", "\\d\\d"));
    assert!(match_pattern("ab123cd", "\\d\\d"));
}

#[test]
fn anchors_require_whole_line() {
    assert!(match_pattern("cat", "^cat$"));
    assert!(!match_pattern("cats", "^cat$"));
    assert!(!match_pattern("bobcat", "^cat$"));
    assert!(match_pattern("bobcat", "cat$"));
    assert!(match_pattern("cats", "^cat"));
}

#[test]
fn empty_pattern_matches() {
    assert!(match_pattern("", ""));
    assert!(match_pattern("abc", ""));
}

#[test]
fn word_and_digit_classes() {
    assert!(match_pattern("a_b", "\\w_\\w"));
    assert!(!match_pattern("!!", "\\w"));
    assert!(match_pattern("é", "\\w"));
    assert!(!match_pattern("abc", "\\d"));
}

#[test]
fn plus_needs_one_occurrence() {
    assert!(!match_pattern("bc", "^a+"));
    assert_eq!(ends("a+", "aaab", 0), vec![1, 2, 3]);
    assert_eq!(ends("a+", "b", 0), Vec::<usize>::new());
}

#[test]
fn optional_gives_both_ends() {
    assert_eq!(ends("a?", "a", 0), vec![0, 1]);
    assert_eq!(ends("a?", "b", 0), vec![0]);
}

#[test]
fn sequence_ends_are_sorted_and_unique() {
    assert_eq!(ends("a*a*", "aa", 0), vec![0, 1, 2]);
}

#[test]
fn zero_width_repeat_terminates() {
    assert!(match_pattern("abc", "(a*)*c"));
    assert!(match_pattern("", "(a*)+"));
}

#[test]
fn backreference_to_unmatched_span_fails() {
    assert!(!match_pattern("ab", "(a)b\\1"));
    assert!(match_pattern("aba", "(a)b\\1"));
}

#[test]
fn group_records_last_end() {
    let mut parser = Parser::new("(a+)");
    let ast = parser.parse();
    let input: Vec<char> = "aaa".chars().collect();
    let mut last_group: usize = 0;
    let mut groups: HashMap<usize, (usize, usize)> = HashMap::new();
    let r = match_node(&ast, &input, 0, &mut last_group, &mut groups);
    assert_eq!(r, vec![1, 2, 3]);
    assert_eq!(groups.get(&1), Some(&(0, 3)));
}

#[test]
fn failed_alternation_keeps_captures() {
    let mut parser = Parser::new("(x)|(y)");
    let ast = parser.parse();
    let input: Vec<char> = "z".chars().collect();
    let mut last_group: usize = 0;
    let mut groups: HashMap<usize, (usize, usize)> = HashMap::new();
    groups.insert(7, (0, 1));
    let r = match_node(&ast, &input, 0, &mut last_group, &mut groups);
    assert!(r.is_empty());
    assert_eq!(groups.len(), 1);
}

#[test]
fn multibyte_input_by_character() {
    assert!(match_pattern("naïve", "ï.e"));
    assert_eq!(ends(".", "ïx", 0), vec![1]);
}

#[test]
fn parse_builds_expected_tree() {
    let mut parser = Parser::new("a|b");
    match parser.parse() {
        RegexNode::Alternation(branches) => assert_eq!(branches.len(), 2),
        other => panic!("unexpected tree {:?}", other),
    }
    let mut parser = Parser::new("ab");
    match parser.parse() {
        RegexNode::Sequence(nodes) => {
            assert_eq!(nodes.len(), 2);
            assert!(matches!(nodes[0], RegexNode::Literal('a')));
        }
        other => panic!("unexpected tree {:?}", other),
    }
    let mut parser = Parser::new("");
    assert!(matches!(parser.parse(), RegexNode::Sequence(ref v) if v.is_empty()));
}

#[test]
fn parse_quantifiers_and_groups() {
    let mut parser = Parser::new("(a)*");
    match parser.parse() {
        RegexNode::Sequence(nodes) => match &nodes[0] {
            RegexNode::Repeat { node, kind } => {
                assert_eq!(*kind, RepeatKind::ZeroOrMore);
                assert!(matches!(**node, RegexNode::Group { group_num: 1, .. }));
            }
            other => panic!("unexpected node {:?}", other),
        },
        other => panic!("unexpected tree {:?}", other),
    }
}

#[test]
fn invalid_backreference_is_backslash() {
    let mut parser = Parser::new("\\1");
    match parser.parse() {
        RegexNode::Sequence(nodes) => {
            assert_eq!(nodes.len(), 1);
            assert!(matches!(nodes[0], RegexNode::Literal('\\')));
        }
        other => panic!("unexpected tree {:?}", other),
    }
    let mut parser = Parser::new("(a)\\1");
    match parser.parse() {
        RegexNode::Sequence(nodes) => assert!(matches!(nodes[1], RegexNode::Backreference(1))),
        other => panic!("unexpected tree {:?}", other),
    }
}

#[test]
fn char_class_takes_characters_verbatim() {
    let mut parser = Parser::new("[^a\\]");
    match parser.parse() {
        RegexNode::Sequence(nodes) => match &nodes[0] {
            RegexNode::CharClass { chars, negated } => {
                assert!(*negated);
                assert_eq!(chars, &vec!['a', '\\']);
            }
            other => panic!("unexpected node {:?}", other),
        },
        other => panic!("unexpected tree {:?}", other),
    }
    assert!(!match_pattern("x", "[]"));
}

#[test]
fn trailing_backslash_is_literal() {
    assert!(match_pattern("a\\", "a\\"));
}

#[test]
fn parse_once_match_many() {
    let mut parser = Parser::new("(cat|dog)\\1");
    let ast = parser.parse();
    let lines = ["catcat", "dogdog", "catdog", "a dogdog b"];
    let got: Vec<bool> = lines
        .iter()
        .map(|l| match_tree(&ast, &l.chars().collect::<Vec<char>>()))
        .collect();
    assert_eq!(got, vec![true, true, false, true]);
}

#[test]
fn cloned_tree_matches_alike() {
    let mut parser = Parser::new("(a+)(b+)\\1");
    let ast = parser.parse();
    let copy = ast.clone();
    let line: Vec<char> = "aabbaa".chars().collect();
    assert!(match_tree(&copy, &line));
    assert_eq!(format!("{:?}", ast), format!("{:?}", copy));
}
