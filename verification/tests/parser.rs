use nix_reduce::combinators::{
    applicative, applicative_l, biased_choice, choice, first, fmap, fmap_l, greedy_choice, option,
    Constant,
};
use nix_reduce::parser::Parser;
use nix_reduce::repetition::{greedy, greedy1, greedy_until, many, many1};

fn chars(s: &str) -> Vec<char> {
    s.chars().collect()
}

#[test]
fn symbol_matches_head() {
    let input = ["A", "B", "C", "D"];
    let r = Parser::symbol("A").run(&input);
    assert_eq!(r.len(), 1);
    assert_eq!(r[0].0, "A");
    assert_eq!(r[0].1, &["B", "C", "D"]);
}

#[test]
fn symbol_fails_on_other_head() {
    let input = chars("hello world");
    assert!(Parser::symbol('A').run(&input).is_empty());
    let empty: Vec<char> = vec![];
    assert!(Parser::symbol('A').run(&empty).is_empty());
}

#[test]
fn any_symbol_takes_head() {
    let input = ["B", "C", "D"];
    let r = Parser::any_symbol().run(&input);
    assert_eq!(r, vec![("B", &input[1..])]);
    let empty: [&str; 0] = [];
    assert!(Parser::any_symbol().run(&empty).is_empty());
}

#[test]
fn satisfy_checks_head() {
    let input = ["B", "C", "D"];
    let r = Parser::satisfy(|s: &&str| *s == "B").run(&input);
    assert_eq!(r, vec![("B", &input[1..])]);
    assert!(Parser::satisfy(|s: &&str| *s == "C").run(&input).is_empty());
}

#[test]
fn succeed_and_empty() {
    let input = chars("ab");
    assert_eq!(Parser::succeed(7u32).run(&input), vec![(7u32, &input[..])]);
    let none: Vec<(u32, &[char])> = Parser::empty().run(&input);
    assert!(none.is_empty());
}

#[test]
fn eof_only_at_end() {
    let empty: Vec<char> = vec![];
    assert_eq!(Parser::eof().run(&empty).len(), 1);
    assert!(Parser::eof().run(&chars("x")).is_empty());
}

#[test]
fn token_matches_word() {
    let input = chars("let x");
    let r = Parser::token(chars("let")).run(&input);
    assert_eq!(r, vec![(chars("let"), &input[3..])]);
    assert!(Parser::token(chars("lex")).run(&input).is_empty());
    assert!(Parser::token(chars("let x = 1")).run(&input).is_empty());
    // the empty word always matches and consumes nothing
    assert_eq!(Parser::token(vec![]).run(&input), vec![(vec![], &input[..])]);
}

#[test]
fn greedy_stack_symbol_skips_nested_pairs() {
    let input = chars("a{b{c}}d}e");
    let r = Parser::greedy_stack_symbol('}').run(&input);
    assert_eq!(r.len(), 1);
    assert_eq!(r[0].0, chars("a{b{c}}d}"));
    assert_eq!(r[0].1, &input[9..]);
}

#[test]
fn greedy_stack_symbol_fails_when_unclosed() {
    let input = chars("a{b}");
    assert!(Parser::greedy_stack_symbol('}').run(&input).is_empty());
    let plain = chars("x;y;");
    let r = Parser::greedy_stack_symbol(';').run(&plain);
    assert_eq!(r, vec![(chars("x;"), &plain[2..])]);
}

#[test]
fn fmap_applies_function() {
    let input = chars("ab");
    let r = fmap(|c: char| c.to_ascii_uppercase(), Parser::symbol('a')).run(&input);
    assert_eq!(r, vec![('A', &input[1..])]);
}

#[test]
fn fmap_l_replaces_value() {
    let input = chars("ab");
    let r = fmap_l(42u8, Parser::symbol('a')).run(&input);
    assert_eq!(r, vec![(42u8, &input[1..])]);
}

#[test]
fn applicative_sequences() {
    let input = chars("ab");
    let pair = |a: char| move |b: char| format!("{}{}", a, b);
    let r = applicative(fmap(pair, Parser::symbol('a')), Parser::symbol('b')).run(&input);
    assert_eq!(r, vec![("ab".to_string(), &input[2..])]);
    assert!(applicative(fmap(pair, Parser::symbol('a')), Parser::symbol('c')).run(&input).is_empty());
}

#[test]
fn applicative_l_keeps_applied_value() {
    let input = chars("ab");
    let pair = |a: char| move |b: char| format!("{}{}", a, b);
    let r = applicative_l(fmap(pair, Parser::symbol('a')), Parser::symbol('b')).run(&input);
    assert_eq!(r.len(), 1);
    let Constant(v) = &r[0].0;
    assert_eq!(v, "ab");
    assert_eq!(r[0].1, &input[2..]);
}

#[test]
fn choice_keeps_both() {
    let a = chars("a");
    let c = chars("c");
    let p = || choice(Parser::symbol('c'), Parser::symbol('a'));
    assert_eq!(p().run(&a), vec![('a', &a[1..])]);
    assert_eq!(p().run(&c), vec![('c', &c[1..])]);
    let both = choice(Parser::any_symbol(), Parser::symbol('a')).run(&a);
    assert_eq!(both, vec![('a', &a[1..]), ('a', &a[1..])]);
}

#[test]
fn biased_choice_prefers_first() {
    let a = chars("ab");
    let r = biased_choice(Parser::symbol('a'), Parser::any_symbol()).run(&a);
    assert_eq!(r, vec![('a', &a[1..])]);
    let b = chars("ba");
    let r = biased_choice(Parser::symbol('a'), Parser::any_symbol()).run(&b);
    assert_eq!(r, vec![('b', &b[1..])]);
}

#[test]
fn many_takes_as_many_as_it_can() {
    let input = chars("aaa");
    assert_eq!(many(Parser::symbol('a')).run(&input), vec![(chars("aaa"), &input[3..])]);
    let seven = chars("aaaaaaa");
    assert_eq!(many(Parser::symbol('a')).run(&seven), vec![(chars("aaaaaaa"), &seven[7..])]);
    let none = chars("baa");
    assert_eq!(many(Parser::symbol('a')).run(&none), vec![(vec![], &none[..])]);
}

#[test]
fn many_branches_on_every_parse() {
    // two parses of one symbol each time: every combination comes out
    let input = chars("ab");
    let p = choice(Parser::symbol('a'), Parser::any_symbol());
    let r = many(p).run(&input);
    assert_eq!(r.len(), 2);
    assert!(r.iter().all(|(v, rest)| v == &chars("ab") && rest.is_empty()));
}

#[test]
fn many1_needs_one() {
    let input = chars("aab");
    assert_eq!(many1(Parser::symbol('a')).run(&input), vec![(chars("aa"), &input[2..])]);
    let none = chars("b");
    assert!(many1(Parser::symbol('a')).run(&none).is_empty());
}

#[test]
fn first_takes_first_parse() {
    let input = chars("a");
    let r = first(choice(fmap_l(1u8, Parser::symbol('a')), fmap_l(2u8, Parser::any_symbol()))).run(&input);
    assert_eq!(r, vec![(1u8, &input[1..])]);
    let none = chars("");
    assert!(first(Parser::any_symbol()).run(&none).is_empty());
}

#[test]
fn option_adds_default() {
    let input = chars("ab");
    let r = option(Parser::symbol('a'), 'x').run(&input);
    assert_eq!(r, vec![('a', &input[1..]), ('x', &input[..])]);
    let other = chars("b");
    assert_eq!(option(Parser::symbol('a'), 'x').run(&other), vec![('x', &other[..])]);
}

#[test]
fn greedy_and_greedy1() {
    let input = chars("aab");
    assert_eq!(greedy(Parser::symbol('a')).run(&input), vec![(chars("aa"), &input[2..])]);
    assert_eq!(greedy1(Parser::symbol('a')).run(&input), vec![(chars("aa"), &input[2..])]);
    let none = chars("b");
    assert_eq!(greedy(Parser::symbol('a')).run(&none), vec![(vec![], &none[..])]);
    assert!(greedy1(Parser::symbol('a')).run(&none).is_empty());
}

#[test]
fn greedy_choice_concatenates_in_order() {
    let input = chars("ab");
    let ps = vec![fmap_l(1u8, Parser::symbol('a')), fmap_l(2u8, Parser::symbol('b')), fmap_l(3u8, Parser::symbol('a'))];
    let r = greedy_choice(ps).run(&input);
    assert_eq!(r, vec![(1u8, &input[1..]), (3u8, &input[1..])]);
    let none: Vec<nix_reduce::parser::Parser<nix_reduce::parser::Symbol<char>>> = vec![];
    assert!(greedy_choice(none).run(&input).is_empty());
}

#[test]
fn greedy_until_stops_at_terminator() {
    let input = chars("ab;c");
    let r = greedy_until(Parser::any_symbol(), Parser::symbol(';')).run(&input);
    assert_eq!(r, vec![(chars("ab;"), &input[3..])]);
    let missing = chars("ab");
    assert!(greedy_until(Parser::any_symbol(), Parser::symbol(';')).run(&missing).is_empty());
    let at_once = chars(";x");
    let r = greedy_until(Parser::any_symbol(), Parser::symbol(';')).run(&at_once);
    assert_eq!(r, vec![(chars(";"), &at_once[1..])]);
}

#[test]
fn every_parse_leaves_a_suffix() {
    let input = chars("aab;");
    let r = many(choice(Parser::symbol('a'), Parser::any_symbol())).run(&input);
    assert!(!r.is_empty());
    for (_, rest) in &r {
        assert!(rest.len() <= input.len());
        assert_eq!(*rest, &input[input.len() - rest.len()..]);
    }
}

#[test]
fn symbol_over_other_symbol_types() {
    let bytes = [7u8, 8, 9];
    assert_eq!(Parser::symbol(7u8).run(&bytes), vec![(7u8, &bytes[1..])]);
    assert!(Parser::symbol(8u8).run(&bytes).is_empty());
    let words = vec!["let".to_string(), "x".to_string()];
    assert_eq!(Parser::symbol("let".to_string()).run(&words), vec![("let".to_string(), &words[1..])]);
    assert!(Parser::symbol("in".to_string()).run(&words).is_empty());
    let numbers = [3u64, 4];
    assert_eq!(Parser::symbol(3u64).run(&numbers), vec![(3u64, &numbers[1..])]);
}

#[test]
fn symbol_over_str_needs_equal_text() {
    let input = ["hello", "world"];
    assert!(Parser::symbol("A").run(&input).is_empty());
    let owned = String::from("hello");
    let r = Parser::symbol(owned.as_str()).run(&input);
    assert_eq!(r, vec![("hello", &input[1..])]);
}

#[test]
fn token_over_strings() {
    let input = ["let", "x", "="];
    let r = Parser::token(vec!["let", "x"]).run(&input);
    assert_eq!(r, vec![(vec!["let", "x"], &input[2..])]);
    assert!(Parser::token(vec!["let", "y"]).run(&input).is_empty());
}

#[test]
fn token_over_chars_examples() {
    let input = chars("letx");
    let r = Parser::token(chars("let")).run(&input);
    assert_eq!(r, vec![(chars("let"), &input[3..])]);
    assert!(Parser::token(chars("let")).run(&chars("le")).is_empty());
    assert!(Parser::token(chars("let")).run(&chars("lot")).is_empty());
}

#[test]
fn greedy_until_symbol_examples() {
    let input = chars("aabc");
    let r = greedy_until(Parser::symbol('a'), Parser::symbol('b')).run(&input);
    assert_eq!(r, vec![(chars("aab"), &input[3..])]);
    let unended = chars("aa");
    assert!(greedy_until(Parser::symbol('a'), Parser::symbol('b')).run(&unended).is_empty());
    let bb = chars("bb");
    let r = greedy_until(Parser::any_symbol(), Parser::symbol('b')).run(&bb);
    assert_eq!(r, vec![(chars("b"), &bb[1..])]);
}

#[test]
fn many1_symbol_examples() {
    let ba = chars("ba");
    assert!(many1(Parser::symbol('a')).run(&ba).is_empty());
    let aab = chars("aab");
    assert_eq!(many1(Parser::symbol('a')).run(&aab), vec![(chars("aa"), &aab[2..])]);
}

#[test]
fn fmap_identity_keeps_parses() {
    let input = chars("aab");
    let p = || choice(Parser::symbol('a'), Parser::any_symbol());
    assert_eq!(fmap(|c: char| c, p()).run(&input), p().run(&input));
    let none = chars("");
    assert_eq!(fmap(|c: char| c, p()).run(&none), p().run(&none));
}

#[test]
fn fmap_composition_is_one_fmap() {
    let input = chars("ab");
    let f = |c: char| c as u32;
    let g = |n: u32| n + 1;
    let two = fmap(g, fmap(f, choice(Parser::symbol('a'), Parser::any_symbol()))).run(&input);
    let one = fmap(move |c: char| g(f(c)), choice(Parser::symbol('a'), Parser::any_symbol())).run(&input);
    assert_eq!(two, one);
    assert_eq!(one, vec![(98u32, &input[1..]), (98u32, &input[1..])]);
}

#[test]
fn greedy_stack_symbol_over_strings() {
    let input = ["a", "{", "b", "}", "}", "c"];
    let r = Parser::greedy_stack_symbol("}").run(&input);
    assert_eq!(r, vec![(vec!["a", "{", "b", "}", "}"], &input[5..])]);
    let open = ["{", "x", "}"];
    assert!(Parser::greedy_stack_symbol("}").run(&open).is_empty());
    let owned: Vec<String> = vec!["x".to_string(), "{".to_string(), "}".to_string(), "}".to_string()];
    let r = Parser::greedy_stack_symbol("}".to_string()).run(&owned);
    assert_eq!(r, vec![(owned.clone(), &owned[4..])]);
}

#[test]
fn greedy_stack_symbol_counts_printed_text() {
    // with a symbol that is no brace, what prints as the empty text opens a pair
    let input = ["", ";", ";", "x"];
    let r = Parser::greedy_stack_symbol(";").run(&input);
    assert_eq!(r, vec![(vec!["", ";", ";"], &input[3..])]);
    // numbers never print as a brace
    let nums = [1u8, 2, 3, 2];
    assert_eq!(Parser::greedy_stack_symbol(2u8).run(&nums), vec![(vec![1u8, 2], &nums[2..])]);
}

#[test]
fn many_of_a_parser_that_consumes_nothing_where_it_fails() {
    // eof consumes nothing, but on a non-empty input it has no parse at all
    let input = chars("x");
    let r = many(Parser::eof()).run(&input);
    assert_eq!(r, vec![(vec![], &input[..])]);
    assert!(many1(Parser::eof()).run(&input).is_empty());
}

#[test]
fn greedy_until_never_runs_p_when_q_matches_at_once() {
    let input = chars("bb");
    let r = greedy_until(Parser::succeed('z'), Parser::symbol('b')).run(&input);
    assert_eq!(r, vec![(chars("b"), &input[1..])]);
}
