use swot_analyzer::questions::{parse_questions, question_on_line};
use swot_analyzer::record::{
    describe_record, put_field, find_in_table, find_record, matches_folded, truncate_chars, CompanyRecord,
    LookupError,
};

fn pairs(rec: &CompanyRecord) -> Vec<(&str, &str)> {
    rec.fields.iter().map(|(k, v)| (k.as_str(), v.as_str())).collect()
}

#[test]
fn find_record_acme() {
    let csv = b"Name,Revenue\nAcme Corp,500000\n";
    let rec = find_record(csv, "acme").unwrap();
    assert_eq!(rec.business_name, "acme");
    assert_eq!(pairs(&rec), vec![("Name", "Acme Corp"), ("Revenue", "500000")]);
}

#[test]
fn find_record_globex_not_found() {
    let csv = b"Name,Revenue\nAcme Corp,500000\n";
    match find_record(csv, "globex") {
        Err(LookupError::NotFound(n)) => assert_eq!(n, "globex"),
        other => panic!("unexpected {:?}", other),
    }
}

#[test]
fn find_record_ignores_case_of_the_name() {
    let csv = b"Name,City\nGlobex,Paris\nACME Industries,Lyon\n";
    let rec = find_record(csv, "AcMe").unwrap();
    assert_eq!(pairs(&rec), vec![("Name", "ACME Industries"), ("City", "Lyon")]);
}

#[test]
fn find_record_first_matching_row_wins_any_field() {
    let csv = b"Name,Note\nFoo,partner of acme\nAcme,self\n";
    let rec = find_record(csv, "acme").unwrap();
    assert_eq!(pairs(&rec), vec![("Name", "Foo"), ("Note", "partner of acme")]);
}

#[test]
fn find_record_bad_record_before_match() {
    let csv = b"a,b\n1,2,3\n4,5\n";
    assert!(matches!(find_record(csv, "4"), Err(LookupError::CsvRecord(_))));
}

#[test]
fn find_record_bad_record_after_match() {
    let csv = b"Name,Revenue\nAcme,5\nBad,1,2\n";
    let rec = find_record(csv, "acme").unwrap();
    assert_eq!(pairs(&rec), vec![("Name", "Acme"), ("Revenue", "5")]);
    assert!(matches!(find_record(csv, "globex"), Err(LookupError::CsvRecord(_))));
}

#[test]
fn find_record_bad_header() {
    let csv = b"\xff,b\n1,2\n";
    assert!(matches!(find_record(csv, "1"), Err(LookupError::CsvHeaders(_))));
}

#[test]
fn find_record_later_duplicate_column_wins() {
    let csv = b"Name,Note,Name\nAcme,x,Acme Corp\n";
    let rec = find_record(csv, "acme").unwrap();
    assert_eq!(pairs(&rec), vec![("Name", "Acme Corp"), ("Note", "x")]);
}

#[test]
fn find_in_table_pairs_as_far_as_both_go() {
    let headers = vec!["A".to_string(), "B".to_string(), "C".to_string()];
    let rows = vec![vec!["x".to_string(), "y".to_string()]];
    let rec = find_in_table(&headers, &rows, "Y").unwrap();
    assert_eq!(pairs(&rec), vec![("A", "x"), ("B", "y")]);
    assert!(find_in_table(&headers, &rows, "z").is_none());
    assert!(find_in_table(&headers, &vec![], "x").is_none());
}

#[test]
fn matches_folded_is_substring() {
    assert!(matches_folded("acme corp", "acme"));
    assert!(matches_folded("acme corp", ""));
    assert!(!matches_folded("acme", "acme corp"));
}

#[test]
fn describe_skips_blank_values() {
    let rec = CompanyRecord {
        business_name: "Acme".to_string(),
        fields: vec![
            ("Name".to_string(), "Acme Corp".to_string()),
            ("Empty".to_string(), "   ".to_string()),
            ("Revenue".to_string(), "500000".to_string()),
        ],
    };
    assert_eq!(describe_record(&rec), "Name: Acme Corp\nRevenue: 500000");
}

#[test]
fn truncate_counts_characters() {
    assert_eq!(truncate_chars("héllo", 2), "hé");
    assert_eq!(truncate_chars("abc", 1000), "abc");
}

#[test]
fn question_on_line_strips_numbering() {
    assert_eq!(question_on_line("  12. What is the margin?  ").as_deref(), Some("What is the margin?"));
    assert_eq!(question_on_line("Not a question."), None);
    assert_eq!(question_on_line("   "), None);
    assert_eq!(question_on_line("3. ?"), Some("?".to_string()));
    assert_eq!(question_on_line("2020 revenue grew?").as_deref(), Some("revenue grew?"));
}

#[test]
fn parse_questions_keeps_questions_in_order() {
    let response = "Voici les questions:\n1. Quel est le CA?\r\n\n2. Combien d'employés?\nMerci.";
    assert_eq!(parse_questions(response), vec!["Quel est le CA?", "Combien d'employés?"]);
}

#[test]
fn parse_questions_keeps_at_most_ninety() {
    let response: String = (1..=100).map(|i| format!("{}. Question {}?\n", i, i)).collect();
    let qs = parse_questions(&response);
    assert_eq!(qs.len(), 90);
    assert_eq!(qs[0], "Question 1?");
    assert_eq!(qs[89], "Question 90?");
}

#[test]
fn put_field_replaces_or_appends() {
    let mut fs = vec![("a".to_string(), "1".to_string())];
    put_field(&mut fs, "b".to_string(), "2".to_string());
    put_field(&mut fs, "a".to_string(), "3".to_string());
    assert_eq!(fs, vec![("a".to_string(), "3".to_string()), ("b".to_string(), "2".to_string())]);
}
