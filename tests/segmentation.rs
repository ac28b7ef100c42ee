use pdf_text::{chunk_text, clean_text, split_text_into_pages, ChunkConfigError, Page, TextChunk};

fn pages_as_pairs(pages: &[Page]) -> Vec<(u32, String)> {
    pages.iter().map(|p| (p.page, p.text.clone())).collect()
}

fn chunk_texts(chunks: &[TextChunk]) -> Vec<String> {
    chunks.iter().map(|c| c.text.clone()).collect()
}

fn chunk_ids(chunks: &[TextChunk]) -> Vec<u32> {
    chunks.iter().map(|c| c.id).collect()
}

#[test]
fn filter_removes_number_lines_and_keeps_blank_lines() {
    assert_eq!(clean_text("abc\n42\n\n7\ndef"), "abc\n\ndef");
}

#[test]
fn filter_is_idempotent_on_mixed_text() {
    let once = clean_text("Title\n 12 \nbody\r\nmore\n3");
    assert_eq!(once, "Title\nbody\nmore");
    assert_eq!(clean_text(&once), once);
}

#[test]
fn filter_empty_input() {
    assert_eq!(clean_text(""), "");
}

#[test]
fn filter_normalises_line_endings() {
    assert_eq!(clean_text("a\r\nb\r\n"), "a\nb");
}

#[test]
fn filter_keeps_lines_with_other_text() {
    assert_eq!(clean_text("x 12\n12 x\n-3\n 7\t"), "x 12\n12 x\n-3");
}

#[test]
fn filter_only_numbers_gives_empty() {
    assert_eq!(clean_text("1\n2\n3\n"), "");
}

#[test]
fn segmenter_basic_case() {
    let pages = split_text_into_pages("1\nHello\nworld\n2\nFoo\nbar");
    assert_eq!(
        pages_as_pairs(&pages),
        vec![(1, "Helloworld".to_string()), (2, "Foobar".to_string())]
    );
}

#[test]
fn segmenter_drops_marker_with_no_body() {
    let pages = split_text_into_pages("1\n2\nBody");
    assert_eq!(pages_as_pairs(&pages), vec![(2, "Body".to_string())]);
}

#[test]
fn segmenter_no_markers() {
    assert!(split_text_into_pages("no numbers here\nPage 3\n").is_empty());
    assert!(split_text_into_pages("").is_empty());
}

#[test]
fn segmenter_trailing_marker_without_body_is_dropped() {
    let pages = split_text_into_pages("4\nfour\n5\n   \n");
    assert_eq!(pages_as_pairs(&pages), vec![(4, "four".to_string())]);
}

#[test]
fn segmenter_text_before_first_marker_joins_first_page() {
    let pages = split_text_into_pages("Intro\n1\nA");
    assert_eq!(pages_as_pairs(&pages), vec![(1, "IntroA".to_string())]);
}

#[test]
fn segmenter_signed_and_oversized_numbers_are_body() {
    let pages = split_text_into_pages("99999999999\n1\n+5\nx");
    assert_eq!(pages_as_pairs(&pages), vec![(1, "99999999999+5x".to_string())]);
}

#[test]
fn segmenter_trims_page_text_and_allows_any_order() {
    let pages = split_text_into_pages(" 7 \n  a  \n b \n3\nc");
    assert_eq!(
        pages_as_pairs(&pages),
        vec![(7, "a   b".to_string()), (3, "c".to_string())]
    );
}

#[test]
fn chunker_overlap_and_advance() {
    let chunks = chunk_text("abcdefghij", 4, 1).unwrap();
    assert_eq!(chunk_ids(&chunks), vec![0, 1, 2]);
    assert_eq!(chunk_texts(&chunks), vec!["abcd", "defg", "ghij"]);
}

#[test]
fn chunker_rejects_bad_config() {
    assert_eq!(
        chunk_text("abcdef", 3, 3).unwrap_err(),
        ChunkConfigError { chunk_size: 3, overlap: 3 }
    );
    assert_eq!(
        chunk_text("abcdef", 0, 0).unwrap_err(),
        ChunkConfigError { chunk_size: 0, overlap: 0 }
    );
    assert_eq!(
        chunk_text("", 2, 5).unwrap_err(),
        ChunkConfigError { chunk_size: 2, overlap: 5 }
    );
}

#[test]
fn chunker_reassembles_text() {
    let text = "abcdefghijk";
    let overlap = 2;
    let chunks = chunk_text(text, 5, overlap).unwrap();
    assert_eq!(chunk_texts(&chunks), vec!["abcde", "defgh", "ghijk"]);
    let mut rebuilt = chunks[0].text.clone();
    for c in &chunks[1..] {
        rebuilt.extend(c.text.chars().skip(overlap as usize));
    }
    assert_eq!(rebuilt, text);
}

#[test]
fn chunker_empty_text_gives_no_chunks() {
    assert!(chunk_text("", 4, 1).unwrap().is_empty());
}

#[test]
fn chunker_short_text_is_one_chunk() {
    let chunks = chunk_text("abc", 10, 0).unwrap();
    assert_eq!(chunk_ids(&chunks), vec![0]);
    assert_eq!(chunk_texts(&chunks), vec!["abc"]);
}

#[test]
fn chunker_counts_characters_not_bytes() {
    let chunks = chunk_text("héllo wörld", 3, 0).unwrap();
    assert_eq!(chunk_texts(&chunks), vec!["hél", "lo ", "wör", "ld"]);
}

#[test]
fn chunker_exact_fit_has_no_trailing_chunk() {
    let chunks = chunk_text("abcdef", 3, 0).unwrap();
    assert_eq!(chunk_texts(&chunks), vec!["abc", "def"]);
}
