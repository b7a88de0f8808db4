use urban_dictionary::client::{DictionaryApiResponse, FetchError};
use urban_dictionary::facade::{search_outcome, LogLevel};
use urban_dictionary::rank::{rank, Meaning, SearchResult};

fn meaning(definition: &str, example: &str, up: i32, down: i32) -> Meaning {
    Meaning {
        definition: definition.to_string(),
        example: example.to_string(),
        thumbs_up: up,
        thumbs_down: down,
    }
}

fn titles(rs: &[SearchResult]) -> Vec<String> {
    rs.iter().map(|r| r.title.clone()).collect()
}

#[test]
fn empty_lookup_gives_empty_results() {
    assert!(rank(Vec::new()).is_empty());
    let out = search_outcome(Ok(DictionaryApiResponse { list: Vec::new() }));
    assert!(out.results.is_empty());
    assert!(out.log.is_empty());
}

#[test]
fn results_ordered_by_ascending_score() {
    let ms = vec![
        meaning("a", "", 3, 0),
        meaning("b", "", 0, 1),
        meaning("c", "", 4, 1),
        meaning("d", "", 5, 0),
    ];
    let out = rank(ms);
    assert_eq!(titles(&out), vec!["b", "a", "c", "d"]);
}

#[test]
fn equal_scores_keep_title_order() {
    let ms = vec![meaning("z", "", 1, 0), meaning("m", "", 1, 0), meaning("a", "", 1, 0)];
    assert_eq!(titles(&rank(ms)), vec!["a", "m", "z"]);
}

#[test]
fn duplicate_title_keeps_first_in_title_order() {
    let ms = vec![meaning("x", "high", 10, 0), meaning("x", "low", 0, 5)];
    let out = rank(ms);
    assert_eq!(out.len(), 1);
    assert_eq!(out[0].context, "high");
}

#[test]
fn duplicate_title_kept_even_when_lower_scored() {
    let ms = vec![meaning("x", "low", 0, 5), meaning("y", "", 0, 0), meaning("x", "high", 10, 0)];
    let out = rank(ms);
    assert_eq!(titles(&out), vec!["x", "y"]);
    assert_eq!(out[0].context, "low");
}

#[test]
fn titles_are_unique() {
    let ms = vec![
        meaning("b", "1", 1, 0),
        meaning("a", "2", 2, 0),
        meaning("b", "3", 3, 0),
        meaning("a", "4", 4, 0),
        meaning("c", "5", 0, 0),
    ];
    let out = rank(ms);
    let mut t = titles(&out);
    t.sort();
    t.dedup();
    assert_eq!(t.len(), out.len());
    assert_eq!(out.len(), 3);
}

#[test]
fn result_fields_come_from_the_record() {
    let out = rank(vec![meaning("word", "use it", 7, 2)]);
    assert_eq!(out[0].title, "word");
    assert_eq!(out[0].context, "use it");
    assert_eq!(out[0].extra, "word\nuse it");
}

#[test]
fn prefix_sorts_first_among_titles() {
    let ms = vec![meaning("ab", "second", 0, 0), meaning("a", "first", 0, 0)];
    assert_eq!(titles(&rank(ms)), vec!["a", "ab"]);
}

#[test]
fn extreme_votes_do_not_overflow() {
    let ms = vec![meaning("a", "", i32::MAX, i32::MIN), meaning("b", "", i32::MIN, i32::MAX)];
    assert_eq!(titles(&rank(ms)), vec!["b", "a"]);
}

#[test]
fn sanitized_scenario_ranks_by_score() {
    let resp = DictionaryApiResponse {
        list: vec![meaning("A[x]\n", "e1\r", 2, 0), meaning("A", "e2", 10, 1)],
    }
    .sanitized();
    assert_eq!(resp.list[0].definition, "Ax");
    assert_eq!(resp.list[0].example, "e1");
    let out = search_outcome(Ok(resp));
    assert_eq!(titles(&out.results), vec!["Ax", "A"]);
    assert_eq!(out.results[0].extra, "Ax\ne1");
    assert!(out.log.is_empty());
}

#[test]
fn failed_lookup_gives_empty_results_and_one_error() {
    let out = search_outcome(Err(FetchError { cause: "connection refused".to_string() }));
    assert!(out.results.is_empty());
    assert_eq!(out.log.len(), 1);
    assert_eq!(out.log[0].level, LogLevel::Error);
    assert_eq!(out.log[0].message, "failed to get word: connection refused");
}
