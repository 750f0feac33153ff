use ai_training::decimal::{decimal, digits};
use ai_training::text::{
    contains, find_from, find_last, join, pieces, replace_first, runs, same_text, split,
    strip_end_chars, trim, white, without_chars, Cut,
};
use ai_training::tools::calculator::{plan, Fault};

fn v(s: &str) -> Vec<char> {
    s.chars().collect()
}

fn told(parts: Vec<Vec<char>>) -> Vec<String> {
    parts.iter().map(|p| p.iter().collect()).collect()
}

#[test]
fn white_space_is_that_of_unicode() {
    for n in 0..=0x10ffffu32 {
        if let Some(c) = char::from_u32(n) {
            assert_eq!(white(c), c.is_whitespace());
        }
    }
}

#[test]
fn trimming_goes_from_both_ends() {
    for s in ["", " ", "a", " a b ", "\u{3000}x\u{85}", "\n\t"] {
        assert_eq!(trim(s), s.trim());
        assert_eq!(trim(&trim(s)), s.trim());
    }
}

#[test]
fn splitting_is_that_of_the_standard_library() {
    for s in ["", "\n\n", "a\n\nb", "\n\n\na\n\n\n\n", "x\n"] {
        let expected: Vec<String> = s.split("\n\n").map(str::to_string).collect();
        assert_eq!(told(split(&v(s), &v("\n\n"))), expected);
        let expected: Vec<String> = s.split('\n').map(str::to_string).collect();
        assert_eq!(told(pieces(&v(s), Cut::Newline)), expected);
    }
    assert_eq!(told(runs(&v(" a  b\tc\n"), Cut::White)), vec!["a", "b", "c"]);
    assert_eq!(told(pieces(&v("a. b!c?d\ne"), Cut::Sentence)), vec!["a", " b", "c", "d", "e"]);
}

#[test]
fn joining_puts_the_separator_between() {
    assert_eq!(join(&vec![v("a"), v(""), v("b")], &v(", ")), v("a, , b"));
    assert_eq!(join(&Vec::new(), &v(", ")), v(""));
}

#[test]
fn searching_finds_the_first_and_the_last() {
    assert_eq!(find_from(&v("abcabc"), &v("bc"), 0), Some(1));
    assert_eq!(find_from(&v("abcabc"), &v("bc"), 2), Some(4));
    assert_eq!(find_from(&v("abcabc"), &v("bc"), 5), None);
    assert_eq!(find_from(&v("ab"), &v("c"), 99), None);
    assert_eq!(find_last(&v("abcabc"), &v("bc")), Some(4));
    assert_eq!(find_last(&v("abc"), &v("x")), None);
    assert!(contains(&v("abc"), &v("")));
    assert!(!contains(&v(""), &v("a")));
    assert!(same_text(&v("é"), &v("é")));
    assert!(!same_text(&v("a"), &v("ab")));
}

#[test]
fn replacing_touches_the_first_only() {
    assert_eq!(replace_first(&v("1 and 1"), &v("1"), &v("____")), v("____ and 1"));
    assert_eq!(replace_first(&v("abc"), &v("x"), &v("y")), v("abc"));
    assert_eq!(without_chars(&v("1,000,"), ','), v("1000"));
    let mut s = v("1.500");
    strip_end_chars(&mut s, '0');
    assert_eq!(s, v("1.5"));
}

#[test]
fn numbers_are_written_in_decimal() {
    for n in [0u64, 7, 10, 99, 100, 1_234_567, u64::MAX] {
        assert_eq!(digits(n), v(&n.to_string()));
    }
    for n in [0i64, -1, 42, -1000, i64::MIN, i64::MAX] {
        assert_eq!(decimal(n), v(&n.to_string()));
    }
}

#[test]
fn the_calculator_reads_the_numbers_that_parse() {
    let mut texts = vec![String::new()];
    for _ in 0..5 {
        let mut longer = Vec::new();
        for t in &texts {
            longer.push(format!("{t}7"));
            longer.push(format!("{t}."));
        }
        for t in &longer {
            let bad = matches!(plan(t).fault, Some(Fault::BadNumber(_)));
            assert_eq!(bad, t.parse::<f64>().is_err());
        }
        texts = longer;
    }
}
