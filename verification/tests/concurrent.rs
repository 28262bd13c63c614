use phrase_index::output::search_with_result;
use phrase_index::trie::{index, search};

#[test]
fn fifty_concurrent_callers_agree_with_sequential() {
    let root = index("a\na b\na b c");
    let mut expected: Vec<String> = search("a b", &root).expect("phrase occurs").clone();
    expected.sort();
    assert_eq!(expected, vec!["a b".to_string(), "a b c".to_string()]);
    crossbeam_utils::thread::scope(|s| {
        for _ in 0..50 {
            let root_ref = &root;
            let exp = expected.clone();
            s.spawn(move |_| {
                let mut got: Vec<String> = search("a b", root_ref).expect("phrase occurs").clone();
                got.sort();
                assert_eq!(got, exp);
            });
        }
    })
    .expect("no reader panicked");
}

#[test]
fn differing_queries_run_concurrently() {
    let root = index("Ned Land\nCaptain Nemo\nned land and captain nemo");
    let phrases = ["ned land", "captain", "and", "absent phrase"];
    let sequential: Vec<Result<String, String>> = phrases
        .iter()
        .map(|p| search_with_result(p, &root).map_err(|e| e.0))
        .collect();
    crossbeam_utils::thread::scope(|s| {
        for round in 0..12 {
            let root_ref = &root;
            let seq = sequential.clone();
            s.spawn(move |_| {
                let p = phrases[round % phrases.len()];
                let got = search_with_result(p, root_ref).map_err(|e| e.0);
                assert_eq!(got, seq[round % phrases.len()]);
            });
        }
    })
    .expect("no reader panicked");
}
