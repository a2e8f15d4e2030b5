use kb::eval::{
    ask_question_lines, ask_result, contains_any, parse_ask_questions, parse_questions, question_lines, score, score_ask,
    summarize, AskQuestion, Question, QuestionResult, Tally,
};
use kb::error::KbError;
use serde_json::Value;

fn q(expect: Vec<i64>, forbid: Vec<i64>) -> Question {
    Question { id: "q".into(), category: "c".into(), query: "why".into(), expect, forbid, project: None }
}

fn ask(unanswerable: bool) -> AskQuestion {
    AskQuestion {
        id: "a1".into(),
        category: "transcript".into(),
        query: "what did we decide".into(),
        expect_any: vec!["Alpha-5".into()],
        unanswerable,
    }
}

fn text(v: &Value, key: &str) -> Result<String, String> {
    v.get(key).and_then(|x| x.as_str()).map(|s| s.to_string()).ok_or(format!("missing field `{}`", key))
}

fn numbers(v: &Value, key: &str) -> Vec<i64> {
    v.get(key).and_then(|x| x.as_array()).map(|a| a.iter().filter_map(|n| n.as_i64()).collect()).unwrap_or_default()
}

fn to_question(line: &str) -> Result<Question, String> {
    let v: Value = serde_json::from_str(line).map_err(|e| e.to_string())?;
    Ok(Question {
        id: text(&v, "id")?,
        category: text(&v, "category")?,
        query: text(&v, "query")?,
        expect: numbers(&v, "expect"),
        forbid: numbers(&v, "forbid"),
        project: text(&v, "project").ok(),
    })
}

fn to_ask_question(line: &str) -> Result<AskQuestion, String> {
    let v: Value = serde_json::from_str(line).map_err(|e| e.to_string())?;
    let expect_any = v.get("expect_any").and_then(|x| x.as_array()).ok_or("missing field `expect_any`".to_string())?;
    Ok(AskQuestion {
        id: text(&v, "id")?,
        category: text(&v, "category")?,
        query: text(&v, "query")?,
        expect_any: expect_any.iter().filter_map(|x| x.as_str()).map(|s| s.to_string()).collect(),
        unanswerable: v.get("unanswerable").and_then(|x| x.as_bool()).unwrap_or(false),
    })
}

fn questions_of(content: &str) -> Result<Vec<Question>, KbError> {
    parse_questions(question_lines(content).into_iter().map(|(n, l)| (n, to_question(&l))).collect())
}

fn ask_questions_of(content: &str) -> Result<Vec<AskQuestion>, KbError> {
    parse_ask_questions(ask_question_lines(content).into_iter().map(|(n, l)| (n, to_ask_question(&l))).collect())
}

#[test]
fn scoring_counts_any_expected_id_as_a_hit() {
    let question = q(vec![7, 8], vec![]);
    assert!(score(&question, &[3, 8], 100).passed);
    assert!(!score(&question, &[3, 4], 100).passed);
}

#[test]
fn a_served_stale_fact_fails_the_question_and_is_counted_separately() {
    let question = q(vec![7], vec![6]);
    let r = score(&question, &[7, 6], 100);
    assert!(!r.passed, "serving the superseded fact alongside the fresh one is a failure");
    assert!(r.served_stale);
    let clean = score(&question, &[7], 100);
    assert!(clean.passed && !clean.served_stale);
}

#[test]
fn abstention_passes_only_on_an_empty_injection() {
    let question = q(vec![], vec![]);
    assert!(question.is_abstention());
    assert!(score(&question, &[], 0).passed);
    assert!(!score(&question, &[42], 80).passed);
}

#[test]
fn retrieval_and_answering_are_scored_separately() {
    let r = score_ask(&ask(false), "passage mentioning alpha-5 support", "the answer avoids it", 2, true);
    assert!(r.retrieved, "the pool held the material");
    assert!(!r.answered, "the synthesis did not use it");
    assert!(!r.passed, "finding it and then ignoring it is not a pass");
}

#[test]
fn a_question_passes_when_the_answer_carries_the_material() {
    let r = score_ask(&ask(false), "pool with Alpha-5", "we chose Alpha-5 TLE support", 1, false);
    assert!(r.retrieved && r.answered && r.passed);
}

#[test]
fn an_unanswerable_question_passes_only_by_not_claiming_it() {
    let honest = score_ask(&ask(true), "unrelated pool", "the bank does not hold that", 3, true);
    assert!(honest.passed);
    let confabulated = score_ask(&ask(true), "unrelated pool", "we decided on Alpha-5", 3, true);
    assert!(!confabulated.passed, "inventing the material is the failure this catches");
}

#[test]
fn matching_ignores_case() {
    let r = score_ask(&ask(false), "POOL WITH ALPHA-5", "ALPHA-5 it is", 1, false);
    assert!(r.retrieved && r.answered);
}

#[test]
fn summarize_splits_by_category_and_tracks_cost() {
    let results = vec![
        QuestionResult { id: "a".into(), category: "extraction".into(), query: "x".into(), passed: true, served_stale: false, injected: vec![1], chars: 100 },
        QuestionResult { id: "b".into(), category: "extraction".into(), query: "y".into(), passed: false, served_stale: true, injected: vec![2], chars: 300 },
        QuestionResult { id: "c".into(), category: "abstention".into(), query: "z".into(), passed: true, served_stale: false, injected: vec![], chars: 0 },
    ];
    let (by_cat, overall) = summarize(&results);
    assert_eq!(*by_cat.get("extraction").unwrap(), Tally { total: 2, passed: 1, served_stale: 1, chars: 400 });
    assert_eq!(overall, Tally { total: 3, passed: 2, served_stale: 1, chars: 400 });
}

#[test]
fn parse_questions_reads_jsonl_and_rejects_a_malformed_line() {
    let content = "# a comment\n\n{\"id\":\"q1\",\"category\":\"extraction\",\"query\":\"where\",\"expect\":[85]}\n{\"id\":\"q2\",\"category\":\"abstention\",\"query\":\"huh\"}\n";
    let qs = questions_of(content).unwrap();
    assert_eq!(qs.len(), 2);
    assert_eq!(qs[0].expect, vec![85]);
    assert!(qs[1].is_abstention(), "a missing expect list means abstention");
    assert!(questions_of("{not json}").is_err());
    assert!(questions_of("").is_err(), "an empty set would score a meaningless 0/0");
    assert!(questions_of("{\"id\":\"q\",\"category\":\"c\",\"query\":\"  \"}").is_err());
}

#[test]
fn parse_questions_round_trips_an_optional_project_field() {
    let content = "{\"id\":\"q1\",\"category\":\"extraction\",\"query\":\"where\",\"expect\":[85],\"project\":\"umoja\"}\n{\"id\":\"q2\",\"category\":\"abstention\",\"query\":\"huh\"}\n";
    let qs = questions_of(content).unwrap();
    assert_eq!(qs.len(), 2);
    assert_eq!(qs[0].project, Some("umoja".to_string()), "a present project field must round-trip to Some");
    assert_eq!(qs[1].project, None, "an absent project field must stay None, exactly as before this field existed");
}

#[test]
fn parse_ask_questions_skips_blanks_and_comments_and_rejects_bad_lines() {
    let good = r#"{"id":"a1","category":"transcript","query":"q","expect_any":["x"]}"#;
    let parsed = ask_questions_of(&format!("// note\n\n{}\n", good)).unwrap();
    assert_eq!(parsed.len(), 1);
    assert!(!parsed[0].unanswerable, "defaults to answerable");
    assert!(ask_questions_of("{not json}").is_err());
}


#[test]
fn summarize_keeps_the_categories_sorted_and_apart() {
    let r = |c: &str, passed: bool| QuestionResult {
        id: "x".into(),
        category: c.into(),
        query: "q".into(),
        passed,
        served_stale: false,
        injected: vec![],
        chars: 7,
    };
    let (by_cat, overall) = summarize(&[r("b", true), r("a", false), r("b", false)]);
    assert_eq!(by_cat.len(), 2);
    assert_eq!((by_cat.key_at(0), by_cat.key_at(1)), ("a", "b"));
    assert_eq!(*by_cat.value_at(1), Tally { total: 2, passed: 1, served_stale: 0, chars: 14 });
    assert_eq!(overall, Tally { total: 3, passed: 1, served_stale: 0, chars: 21 });
}

#[test]
fn the_first_refused_line_is_named_by_its_number() {
    let content = "# c\n{\"id\":\"a\",\"category\":\"c\",\"query\":\" \"}\n{bad\n";
    assert_eq!(questions_of(content).unwrap_err().message(), "questions line 2: empty query");
    assert!(questions_of("\n\n{bad").unwrap_err().message().starts_with("questions line 3: "));
    assert_eq!(questions_of("# only\n").unwrap_err().message(), "no questions found");
    assert!(ask_questions_of("// x\n{bad").unwrap_err().message().starts_with("ask question set line 2: "));
    assert_eq!(ask_questions_of("").unwrap().len(), 0);
}

#[test]
fn a_question_with_a_forbidden_memory_never_passes() {
    for injected in [vec![6], vec![6, 7], vec![7, 6, 8]] {
        assert!(!score(&q(vec![7], vec![6]), &injected, 1).passed);
        assert!(!score(&q(vec![], vec![6]), &injected, 1).passed);
    }
}

#[test]
fn matching_ignores_the_case_of_letters_outside_ascii() {
    assert!(contains_any("PR\u{dc}FUNG", &["pr\u{fc}fung".to_string()]));
    assert!(!contains_any("abc", &["x".to_string(), "ABCD".to_string()]));
    assert!(contains_any("abc", &["x".to_string(), "".to_string()]));
}

#[test]
fn an_ask_result_passes_by_answering_or_by_abstaining() {
    assert!(ask_result(&ask(true), true, false, 1, false).passed);
    assert!(!ask_result(&ask(false), true, false, 1, false).passed);
}
