use rag_core::build_overlap;
use rag_core::chunk_by_paragraph;
use rag_core::chunk_by_paragraph_with_overlap;
use rag_core::clean_pdf_text;
use rag_core::estimate_tokens;
use rag_core::split_paragraphs;
use rag_core::split_pdf_chapters;
use rag_core::segment::hard_split_paragraph;

#[test]
fn token_estimate_formula() {
    // ceil(words / 0.75)
    assert_eq!(estimate_tokens(""), 0);
    assert_eq!(estimate_tokens("hello"), 2);
    assert_eq!(estimate_tokens("one two"), 3);
    assert_eq!(estimate_tokens("one two three"), 4);
    assert_eq!(estimate_tokens("a b c d e f"), 8);
    assert_eq!(estimate_tokens("  spaced   out  words  "), 4);
}

#[test]
fn unicode_whitespace_separates_words() {
    // No-break space and thin space are word separators, as split_whitespace
    // has it.
    assert_eq!(estimate_tokens("a\u{00A0}b"), 3);
    assert_eq!(estimate_tokens("x\u{2009}y z"), 4);
}

#[test]
fn chunk_minimum_counts_bytes() {
    // 101 two-byte characters: 202 bytes of paragraph, over the 200-byte
    // minimum although only 101 characters.
    let p = "\u{00E9}".repeat(101);
    let chunks = chunk_by_paragraph(&p, 300);
    assert_eq!(chunks, vec![format!("{}\n", p)]);
}

#[test]
fn line_filter_counts_bytes() {
    // 16 two-byte characters: 32 bytes, over the 30-byte noise threshold.
    let long = "\u{00E9}".repeat(16);
    let text = format!("{}\nab", long);
    assert_eq!(clean_pdf_text(&text), long);
}

#[test]
fn paragraph_splitting() {
    let parts = split_paragraphs("A\n\n B \n\n\nC");
    let views: Vec<&str> = parts.iter().map(|s| s.as_str()).collect();
    assert_eq!(views, vec!["A", "B", "C"]);
}

#[test]
fn paragraph_splitting_drops_empty() {
    let parts = split_paragraphs("\n\n  \n\nfirst\n\n\n\nsecond\n\n");
    let views: Vec<&str> = parts.iter().map(|s| s.as_str()).collect();
    assert_eq!(views, vec!["first", "second"]);
}

#[test]
fn overlap_shared_paragraph() {
    // Three paragraphs of three words each (4 tokens each). max_tokens = 8
    // fits exactly two; overlap_tokens = 4 carries the last paragraph over.
    let text = "a b c\n\nd e f\n\ng h i";
    let chunks = chunk_by_paragraph_with_overlap(text, 8, 4);
    assert_eq!(chunks.len(), 2);
    assert_eq!(chunks[0], "a b c\n\nd e f");
    assert_eq!(chunks[1], "d e f\n\ng h i");
    // The shared paragraph appears at the tail of the first chunk and the
    // head of the second.
    assert!(chunks[0].ends_with("d e f"));
    assert!(chunks[1].starts_with("d e f"));
}

#[test]
fn chunks_respect_token_bound() {
    let text = "a b c\n\nd e f\n\ng h i\n\nj k l\n\nm n o";
    let max = 8;
    let chunks = chunk_by_paragraph_with_overlap(text, max, 4);
    assert!(chunks.len() >= 2);
    for c in &chunks {
        assert!(estimate_tokens(c) <= max);
    }
}

#[test]
fn no_overlap_when_budget_zero() {
    let text = "a b c\n\nd e f\n\ng h i";
    let chunks = chunk_by_paragraph_with_overlap(text, 8, 0);
    assert_eq!(chunks.len(), 2);
    assert_eq!(chunks[0], "a b c\n\nd e f");
    assert_eq!(chunks[1], "g h i");
}

#[test]
fn trailing_chunk_emitted_even_if_small() {
    let chunks = chunk_by_paragraph_with_overlap("lonely", 100, 0);
    assert_eq!(chunks, vec!["lonely".to_string()]);
}

#[test]
fn hard_split_windows_with_overlap() {
    // Five words, estimate 7 > max 2: hard split into windows of two words,
    // the start advancing by max - overlap = 1.
    let wins = hard_split_paragraph("a b c d e", 2, 1);
    assert_eq!(wins, vec!["a b", "b c", "c d", "d e", "e"]);
}

#[test]
fn hard_split_windows_disjoint() {
    let wins = hard_split_paragraph("a b c d e", 2, 0);
    assert_eq!(wins, vec!["a b", "c d", "e"]);
}

#[test]
fn hard_split_inside_segmentation() {
    let text = "a b c d e";
    let chunks = chunk_by_paragraph_with_overlap(text, 2, 0);
    assert_eq!(chunks, vec!["a b", "c d", "e"]);
}

#[test]
fn hard_split_full_window_advance() {
    // With the overlap at least the window size, the start advances by the
    // full window instead, so the windows are disjoint.
    let wins = hard_split_paragraph("a b c d e f", 2, 5);
    assert_eq!(wins, vec!["a b", "c d", "e f"]);
}

#[test]
fn truncation_cap() {
    assert_eq!(rag_core::truncate_chars("hello world", 5), "hello");
    assert_eq!(rag_core::truncate_chars("hi", 5), "hi");
    assert_eq!(rag_core::truncate_chars("", 5), "");
}

#[test]
fn build_overlap_takes_suffix_within_budget() {
    let paras = vec!["a b c".to_string(), "d e f".to_string()];
    let ov = build_overlap(&paras, 4);
    assert_eq!(ov, vec!["d e f".to_string()]);
    let ov8 = build_overlap(&paras, 8);
    assert_eq!(ov8, vec!["a b c".to_string(), "d e f".to_string()]);
    let ov3 = build_overlap(&paras, 3);
    assert!(ov3.is_empty());
}

#[test]
fn plain_chunking_by_length() {
    let p1 = "a".repeat(250);
    let p2 = "b".repeat(250);
    let text = format!("{}\n\n{}", p1, p2);
    let chunks = chunk_by_paragraph(&text, 300);
    assert_eq!(chunks.len(), 2);
    assert_eq!(chunks[0], format!("{}\n", p1));
    assert_eq!(chunks[1], format!("{}\n", p2));
}

#[test]
fn plain_chunking_drops_short() {
    let chunks = chunk_by_paragraph("short one\n\nshort two", 12);
    assert!(chunks.is_empty());
}

#[test]
fn pdf_text_cleanup() {
    let long1 = "This line is long enough to be kept around-";
    let long2 = "and this continuation line is also long enough.";
    let noise = "page 3";
    let text = format!("{}\n{}\n{}", long1, noise, long2);
    let cleaned = clean_pdf_text(&text);
    // The short line is dropped, the hyphenated break is fused.
    assert_eq!(
        cleaned,
        "This line is long enough to be kept aroundand this continuation line is also long enough."
    );
}

#[test]
fn chapter_splitting() {
    let text = "Chapter 1 The Start\nbody line\nCHAPTER 2\nmore body";
    let chapters = split_pdf_chapters(text);
    assert_eq!(chapters.len(), 2);
    assert_eq!(chapters[0].title, "Chapter 1 The Start");
    assert_eq!(chapters[0].content, "body line\n");
    assert_eq!(chapters[1].title, "CHAPTER 2");
    assert_eq!(chapters[1].content, "more body\n");
}

#[test]
fn chapter_splitting_default_title() {
    let chapters = split_pdf_chapters("no headers here\nat all");
    assert_eq!(chapters.len(), 1);
    assert_eq!(chapters[0].title, "Chapter");
    assert_eq!(chapters[0].content, "no headers here\nat all\n");
}
