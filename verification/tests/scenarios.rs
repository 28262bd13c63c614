use phrase_index::tokens::{f_tokenizer, to_lowercase, tokenizer};
use phrase_index::trie::{index, search};

fn found(phrase: &str, root: &phrase_index::trie::Node) -> Vec<String> {
    let mut v: Vec<String> = search(phrase, root).expect("phrase should be found").clone();
    v.sort();
    v
}

fn strings(v: &[&str]) -> Vec<String> {
    v.iter().map(|s| s.to_string()).collect()
}

#[test]
fn search_single_token() {
    let root = index("a\na b\na b c");
    assert_eq!(found("a", &root), strings(&["a", "a b", "a b c"]));
}

#[test]
fn search_two_tokens() {
    let root = index("a\na b\na b c");
    assert_eq!(found("b c", &root), strings(&["a b c"]));
}

#[test]
fn search_full_line() {
    let root = index("a\na b\na b c");
    assert_eq!(found("a b c", &root), strings(&["a b c"]));
}

#[test]
fn search_absent_token() {
    let root = index("a\na b\na b c");
    assert!(search("x", &root).is_none());
}

#[test]
fn search_phrase_with_unknown_token() {
    let root = index("a\na b");
    assert!(search("a x", &root).is_none());
}

#[test]
fn search_is_case_insensitive() {
    let root = index("Ned Land was here\nned land again\nnothing else");
    let a = found("Ned Land", &root);
    let b = found("ned land", &root);
    let c = found("NED LAND", &root);
    assert_eq!(a, strings(&["Ned Land was here", "ned land again"]));
    assert_eq!(a, b);
    assert_eq!(a, c);
}

#[test]
fn rebuild_gives_identical_results() {
    let corpus = "Ned Land\nCaptain Nemo\nned land and captain nemo";
    let first = index(corpus);
    let second = index(corpus);
    for phrase in ["ned", "captain nemo", "and", "missing"] {
        let a = search(phrase, &first).map(|v| {
            let mut v = v.clone();
            v.sort();
            v
        });
        let b = search(phrase, &second).map(|v| {
            let mut v = v.clone();
            v.sort();
            v
        });
        assert_eq!(a, b);
    }
}

#[test]
fn tokenizer_round_trip_exact() {
    for text in ["Hello, World 42!", "  spaced  out  ", "one", "", "a-b_c", "Jerzy Brzęczyszczykiewicz"] {
        let joined: String = f_tokenizer(text).concat();
        assert_eq!(joined, text);
        let lowered: String = tokenizer(text).concat();
        assert_eq!(lowered, text.to_lowercase());
    }
}

#[test]
fn tokenizer_splits_on_class_change() {
    assert_eq!(f_tokenizer("a b"), strings(&["a", " ", "b"]));
    assert_eq!(tokenizer("Ned Land"), strings(&["ned", " ", "land"]));
    assert_eq!(tokenizer("ab12, cd!"), strings(&["ab12", ", ", "cd", "!"]));
    assert_eq!(f_tokenizer(""), strings(&[""]));
    assert_eq!(f_tokenizer("   "), strings(&["   "]));
}

#[test]
fn lowercase_wrapper_folds() {
    assert_eq!(to_lowercase("AbC"), "abc");
    assert_eq!(to_lowercase(""), "");
}

#[test]
fn separator_runs_are_ordinary_tokens() {
    let root = index("a\na b\na b c");
    assert_eq!(found(" ", &root), strings(&["a b", "a b c"]));
}

#[test]
fn empty_phrase_matches_exactly_empty_lines() {
    let with_empty = index("a\n\nb");
    assert_eq!(found("", &with_empty), strings(&[""]));
    let without_empty = index("a\nb");
    assert!(search("", &without_empty).is_none());
}

#[test]
fn repeated_token_line_recorded_once() {
    let root = index("b b b");
    assert_eq!(found("b", &root), strings(&["b b b"]));
}

#[test]
fn duplicate_lines_collapse() {
    let root = index("a b\na b");
    assert_eq!(found("a b", &root), strings(&["a b"]));
}

#[test]
fn every_contiguous_token_run_is_found() {
    let corpus = "Ned Land was here\nsecond line of text";
    let root = index(corpus);
    for line in corpus.split('\n') {
        let toks = tokenizer(line);
        for st in 0..toks.len() {
            for en in st + 1..=toks.len() {
                let phrase: String = toks[st..en].concat();
                let res = search(&phrase, &root).expect("contiguous run must be found");
                assert!(res.iter().any(|l| l == line));
            }
        }
    }
}

#[test]
fn trailing_newline_adds_no_line() {
    let root = index("a\nb\n");
    assert_eq!(found("a", &root), strings(&["a"]));
    assert_eq!(found("b", &root), strings(&["b"]));
}
