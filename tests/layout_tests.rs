use swot_analyzer::document::{
    build_analysis_document, build_questions_document, decimal_string, numbered_item,
    split_paragraphs, Document,
};
use swot_analyzer::layout::{Geometry, PageFlow};
use swot_analyzer::wrap::{split_words, wrap};

fn estimated_fits(line: &str, w: u32) -> bool {
    (line.chars().count() as f64) * 2.2 <= w as f64
}

fn runs_of(d: &Document) -> Vec<(usize, String, u32, u32, i64)> {
    let mut out = Vec::new();
    for (p, page) in d.pages.iter().enumerate() {
        for r in page {
            out.push((p, r.text.clone(), r.font_size, r.x, r.y));
        }
    }
    out
}

#[test]
fn wrap_french_question_fits_one_line() {
    let text = "Quelle est la part de marché actuelle de l'entreprise?";
    let lines = wrap(text, 240);
    assert_eq!(lines.join(" "), text);
    for l in &lines {
        assert!(estimated_fits(l, 240));
    }
    assert_eq!(lines.len(), 1);
}

#[test]
fn wrap_breaks_greedily() {
    // 9 characters estimate to 19.8 units and fit in 20; 14 do not.
    assert_eq!(wrap("aaaa bbbb cccc", 20), vec!["aaaa bbbb", "cccc"]);
}

#[test]
fn wrap_empty_and_blank() {
    assert!(wrap("", 240).is_empty());
    assert!(wrap("  \t\n ", 240).is_empty());
}

#[test]
fn wrap_keeps_over_wide_word_alone() {
    let long = "x".repeat(50);
    let text = format!("ab {} cd", long);
    let lines = wrap(&text, 20);
    assert_eq!(lines, vec!["ab".to_string(), long.clone(), "cd".to_string()]);
}

#[test]
fn wrap_long_text_keeps_words_and_widths() {
    let text = "Lorem ipsum dolor sit amet,  consectetur\tadipiscing elit, sed do eiusmod tempor \
                incididunt ut labore et dolore magna aliqua. Ut enim ad minim veniam, quis nostrud \
                exercitation ullamco laboris nisi ut aliquip ex ea commodo consequat.";
    let lines = wrap(text, 60);
    assert!(lines.len() > 1);
    let words: Vec<&str> = text.split_whitespace().collect();
    assert_eq!(lines.join(" "), words.join(" "));
    for l in &lines {
        assert!(estimated_fits(l, 60) || !l.contains(' '));
    }
}

#[test]
fn split_words_on_unicode_whitespace() {
    assert_eq!(split_words("  a\tb\n c\u{3000}d  "), vec!["a", "b", "c", "d"]);
    assert!(split_words("").is_empty());
}

#[test]
fn numerals_and_item_prefix() {
    assert_eq!(decimal_string(0), "0");
    assert_eq!(decimal_string(7), "7");
    assert_eq!(decimal_string(10), "10");
    assert_eq!(decimal_string(123), "123");
    assert_eq!(numbered_item(3, "Why?"), "3. Why?");
    assert_eq!(numbered_item(12, ""), "12. ");
}

#[test]
fn split_paragraphs_like_split_newline() {
    assert_eq!(split_paragraphs("Para one.\n\nPara two."), vec!["Para one.", "", "Para two."]);
    assert_eq!(split_paragraphs(""), vec![""]);
    assert_eq!(split_paragraphs("a\n"), vec!["a", ""]);
}

#[test]
fn questions_document_first_page() {
    let g = Geometry::questions();
    let qs = vec!["What is the revenue?".to_string(), "Who are the clients?".to_string()];
    let d = build_questions_document(g, &qs, "Acme");
    assert_eq!(d.title, "Acme - Follow-up Questions");
    assert_eq!(d.page_count(), 1);
    let runs = runs_of(&d);
    assert_eq!(runs[0], (0, "Acme - Follow-up Questions".to_string(), 16, 10, 270));
    assert_eq!(runs[1], (0, "1. What is the revenue?".to_string(), 12, 10, 240));
    // One line of 8 and a gap of 4 after the first item.
    assert_eq!(runs[2], (0, "2. Who are the clients?".to_string(), 12, 10, 228));
}

#[test]
fn questions_document_numbers_in_order() {
    let g = Geometry::questions();
    let qs: Vec<String> = (0..12).map(|i| format!("Question {}?", i)).collect();
    let d = build_questions_document(g, &qs, "Acme");
    let runs = runs_of(&d);
    for i in 0..12 {
        assert!(runs[i + 1].1.starts_with(&format!("{}. ", i + 1)));
    }
}

#[test]
fn questions_document_overflows_onto_new_pages() {
    let g = Geometry::questions();
    let qs: Vec<String> = (0..95).map(|i| format!("Question number {} about the business?", i)).collect();
    let d = build_questions_document(g, &qs, "Acme");
    assert!(d.page_count() > 1);
    for (p, page) in d.pages.iter().enumerate() {
        assert!(!page.is_empty());
        let last = page.last().unwrap();
        assert!(last.y >= 40);
        for (k, r) in page.iter().enumerate() {
            if (p, k) != (0, 0) {
                assert!(r.y >= 40 && r.y <= 260);
                assert_eq!(r.x, 10);
            }
        }
        if p > 0 {
            assert_eq!(page[0].y, 260);
        }
    }
    let body: usize = d.pages.iter().map(|p| p.len()).sum::<usize>() - 1;
    assert_eq!(body, 95);
}

#[test]
fn building_twice_gives_the_same_document() {
    let g = Geometry::questions();
    let qs: Vec<String> = (0..40).map(|i| format!("Q {} with some words to wrap around?", i)).collect();
    let a = build_questions_document(g, &qs, "Acme");
    let b = build_questions_document(g, &qs, "Acme");
    assert_eq!(runs_of(&a), runs_of(&b));
    let text = "Intro line\n\nSecond paragraph with words.\n".repeat(30);
    let ga = Geometry::analysis();
    let c = build_analysis_document(ga, &text, "Acme");
    let e = build_analysis_document(ga, &text, "Acme");
    assert_eq!(runs_of(&c), runs_of(&e));
}

#[test]
fn analysis_document_blank_paragraph() {
    let g = Geometry::analysis();
    let d = build_analysis_document(g, "Para one.\n\nPara two.", "Acme");
    assert_eq!(d.title, "Acme - SWOT Analysis");
    let runs = runs_of(&d);
    assert_eq!(runs.len(), 3);
    assert_eq!(runs[1], (0, "Para one.".to_string(), 10, 10, 240));
    // 240 - 7 (line) - 3 (gap) - 7 (blank paragraph)
    assert_eq!(runs[2], (0, "Para two.".to_string(), 10, 10, 223));
}

#[test]
fn analysis_document_trims_paragraphs() {
    let g = Geometry::analysis();
    let d = build_analysis_document(g, "   indented   text  \r\n", "B");
    let runs = runs_of(&d);
    assert_eq!(runs.len(), 2);
    assert_eq!(runs[1].1, "indented text");
}

#[test]
fn analysis_document_many_blank_lines_open_a_page() {
    let g = Geometry::analysis();
    let text = format!("start{}end", "\n".repeat(500));
    let d = build_analysis_document(g, &text, "B");
    assert_eq!(d.page_count(), 2);
    assert_eq!(d.pages[1][0].text, "end");
    assert_eq!(d.pages[1][0].y, 260);
}

#[test]
fn page_flow_opens_page_below_bottom_margin() {
    let g = Geometry::questions();
    let mut f = PageFlow::new(g, "T".to_string());
    assert_eq!(f.cursor, 240);
    f.advance(200);
    assert_eq!(f.cursor, 40);
    f.place_line("a".to_string(), 12);
    assert_eq!(f.pages.len(), 1);
    assert_eq!(f.pages[0][1].y, 40);
    assert_eq!(f.cursor, 32);
    f.advance(4);
    assert_eq!(f.cursor, 32);
    f.place_line("b".to_string(), 12);
    assert_eq!(f.pages.len(), 2);
    assert_eq!(f.pages[1][0].y, 260);
    assert_eq!(f.cursor, 252);
}

#[test]
fn geometry_constants() {
    let q = Geometry::questions();
    assert_eq!((q.page_width, q.page_height, q.left_margin), (210, 297, 10));
    assert_eq!((q.top_margin, q.bottom_margin, q.content_width), (260, 40, 240));
    assert_eq!((q.line_height, q.block_gap, q.font_size), (8, 4, 12));
    let a = Geometry::analysis();
    assert_eq!((a.line_height, a.block_gap, a.font_size), (7, 3, 10));
}
