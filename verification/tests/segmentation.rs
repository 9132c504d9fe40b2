use lanchat::wrap::segment;

fn lines(text: &str, max: usize) -> Vec<String> {
    segment(text, max)
}

#[test]
fn short_text_is_one_line() {
    assert_eq!(lines("hello world", 64), vec!["hello world"]);
}

#[test]
fn words_wrap_at_the_width() {
    let out = lines("aa bb cc dd", 5);
    assert_eq!(out, vec!["aa bb", "cc dd"]);
    for l in &out {
        assert!(l.chars().count() <= 5);
    }
}

#[test]
fn wrapped_lines_keep_all_words_in_order() {
    let text = "the quick brown fox jumps over the lazy dog";
    let out = lines(text, 10);
    for l in &out {
        assert!(l.chars().count() <= 10);
    }
    let rejoined: Vec<String> = out.join(" ").split_whitespace().map(String::from).collect();
    let original: Vec<String> = text.split_whitespace().map(String::from).collect();
    assert_eq!(rejoined, original);
}

#[test]
fn oversized_word_is_hard_split() {
    let out = lines("abcdefgh", 3);
    assert_eq!(out, vec!["abc", "def", "gh"]);
}

#[test]
fn oversized_word_among_others_is_not_dropped() {
    let out = lines("hi abcdefgh yo", 4);
    for l in &out {
        assert!(l.chars().count() <= 4);
    }
    let rejoined: String = out.join("");
    assert!(rejoined.contains("abcd"));
    assert!(rejoined.contains("efgh"));
    let all: String = out.join(" ");
    let mut chars: Vec<char> = all.chars().filter(|c| !c.is_whitespace()).collect();
    let mut expected: Vec<char> = "hiabcdefghyo".chars().collect();
    chars.sort_unstable();
    expected.sort_unstable();
    assert_eq!(chars, expected);
}

#[test]
fn whitespace_runs_collapse_to_single_separators() {
    assert_eq!(lines("  a \t b \n  c  ", 20), vec!["a b c"]);
}

#[test]
fn empty_text_yields_one_empty_line() {
    assert_eq!(lines("", 8), vec![""]);
    assert_eq!(lines("   \n\t ", 8), vec![""]);
}

#[test]
fn width_one_splits_everything() {
    assert_eq!(lines("ab c", 1), vec!["a", "b", "c"]);
}

#[test]
fn exact_fit_is_kept_whole() {
    assert_eq!(lines("abcde", 5), vec!["abcde"]);
    assert_eq!(lines("ab cd", 5), vec!["ab cd"]);
}
