use mdrag::markdown::{embedded_tokens, MarkdownParser};

#[test]
fn test_parse_with_headers() {
    let content = "# Header 1\nContent 1\n# Header 2\nContent 2";
    let chunks = MarkdownParser::parse(content, "test_file");
    assert_eq!(chunks.len(), 2);
    assert_eq!(chunks[0].section, "# Header 1");
    assert_eq!(chunks[0].chunk_index, 1);
    assert_eq!(chunks[0].total_chunks, 1);
}

#[test]
fn test_parse_without_headers() {
    let content = "Just some content without headers";
    let chunks = MarkdownParser::parse(content, "test_file");
    assert_eq!(chunks.len(), 1);
    assert_eq!(chunks[0].section, "test_file");
}

#[test]
fn test_large_chunk_splitting() {
    let content = format!("# Header\n{}", "a".repeat(10000));
    let chunks = MarkdownParser::parse(&content, "test_file");
    assert!(chunks.len() > 1);
    assert_eq!(chunks[0].section, "# Header");
    assert_eq!(chunks[1].section, "# Header"); // Same section
    assert_eq!(chunks[0].chunk_index, 1);
    assert_eq!(chunks[1].chunk_index, 2);
    assert_eq!(chunks[0].total_chunks, chunks[1].total_chunks);
}

#[test]
fn text_before_the_first_header_is_filed_under_the_file_name() {
    let chunks = MarkdownParser::parse("intro line\n\n# One\nbody\n", "notes.md");
    assert_eq!(chunks.len(), 2);
    assert_eq!(chunks[0].section, "notes.md");
    assert_eq!(chunks[0].content, "# notes.md\nintro line");
    assert_eq!(chunks[1].section, "# One");
    assert_eq!(chunks[1].content, "# notes.md\n# One\nbody");
}

#[test]
fn blank_text_before_the_first_header_is_dropped() {
    let chunks = MarkdownParser::parse("  \n\t\n## A\nx", "f");
    assert_eq!(chunks.len(), 1);
    assert_eq!(chunks[0].section, "## A");
}

#[test]
fn sections_follow_the_level_of_the_first_header() {
    let doc = "## Two\na\n# One\nb\n### Three\nc\n## Again\nd";
    let chunks = MarkdownParser::parse(doc, "f");
    let sections: Vec<&str> = chunks.iter().map(|c| c.section.as_str()).collect();
    assert_eq!(sections, vec!["## Two", "## Again"]);
    assert_eq!(chunks[0].content, "# f\n## Two\na\n# One\nb\n### Three\nc");
}

#[test]
fn lines_that_are_not_headers() {
    // Seven hashes, no space after the hashes, and a bare hash are not headers.
    let chunks = MarkdownParser::parse("####### seven\n#tag\n#\ntext", "f");
    assert_eq!(chunks.len(), 1);
    assert_eq!(chunks[0].section, "f");
    assert_eq!(chunks[0].content, "# f\n####### seven\n#tag\n#\ntext");
}

#[test]
fn windows_line_endings() {
    let chunks = MarkdownParser::parse("# A\r\nx\r\n# B\r\ny\r\n", "f");
    assert_eq!(chunks.len(), 2);
    assert_eq!(chunks[0].section, "# A");
    assert_eq!(chunks[0].content, "# f\n# A\nx");
    assert_eq!(chunks[1].content, "# f\n# B\ny");
}

#[test]
fn document_without_headers_is_kept_verbatim() {
    let doc = "  leading spaces\nand a trailing newline\n";
    let chunks = MarkdownParser::parse(doc, "f");
    assert_eq!(chunks.len(), 1);
    assert_eq!(chunks[0].content, format!("# f\n{}", doc));
    assert_eq!((chunks[0].chunk_index, chunks[0].total_chunks), (1, 1));
}

#[test]
fn empty_document() {
    let chunks = MarkdownParser::parse("", "f");
    assert_eq!(chunks.len(), 1);
    assert_eq!(chunks[0].content, "# f\n");
}

#[test]
fn inline_images_are_removed() {
    let img = format!("data:image/png;base64,{}", "iVBORw0KGgo=".repeat(10));
    let doc = format!("# A\nsee ![pic]({}) here", img);
    let chunks = MarkdownParser::parse(&doc, "f");
    assert_eq!(chunks[0].content, "# f\n# A\nsee ![pic]([image removed]) here");
}

#[test]
fn short_base64_runs_stay() {
    let img = format!("data:image/png;base64,{}", "A".repeat(99));
    let pieces = MarkdownParser::split_large_chunk(&img);
    assert_eq!(pieces, vec![img.clone()]);
    let img = format!("data:image/png;base64,{}", "A".repeat(100));
    assert_eq!(MarkdownParser::split_large_chunk(&img), vec!["[image removed]".to_string()]);
}

#[test]
fn large_text_is_cut_after_the_last_newline_in_each_window() {
    let line = format!("{}\n", "b".repeat(999));
    let text = line.repeat(10); // 10000 bytes
    let pieces = MarkdownParser::split_large_chunk(&text);
    assert_eq!(pieces.len(), 3);
    assert_eq!(pieces[0], line.repeat(4));
    assert_eq!(pieces[1], line.repeat(4));
    assert_eq!(pieces[2], line.repeat(2));
}

#[test]
fn cuts_fall_on_character_boundaries() {
    let text = "語".repeat(3000); // 9000 bytes, no newline
    let pieces = MarkdownParser::split_large_chunk(&text);
    assert_eq!(pieces.len(), 3);
    assert_eq!(pieces[0].len(), 3999);
    assert_eq!(pieces[1].len(), 3999);
    assert_eq!(pieces[2].len(), 1002);
    assert_eq!(pieces.concat(), text);
}

#[test]
fn whitespace_pieces_are_dropped_but_counted() {
    let text = format!("{}\n{}\n{}", "a".repeat(3000), " ".repeat(3999), "c".repeat(3000));
    let pieces = MarkdownParser::split_large_chunk(&text);
    assert_eq!(pieces, vec![format!("{}\n", "a".repeat(3000)), "c".repeat(3000)]);
    let chunks = MarkdownParser::parse(&format!("# H\n{}", text), "f");
    let numbers: Vec<(usize, usize)> =
        chunks.iter().map(|c| (c.chunk_index, c.total_chunks)).collect();
    assert_eq!(numbers, vec![(1, 2), (2, 2)]);
}

#[test]
fn section_at_the_size_limit_stays_whole() {
    let body = "z".repeat(8192 - "# f\n# H\n".len());
    let chunks = MarkdownParser::parse(&format!("# H\n{}", body), "f");
    assert_eq!(chunks.len(), 1);
    assert_eq!(chunks[0].content.len(), 8192);
    assert!(!chunks[0].fits_embedding_limit());
}

#[test]
fn every_chunk_is_numbered_non_blank_and_named_after_a_header() {
    let doc = format!("pre\n# A\n{}\n# B\n\n# C\n{}", "x".repeat(9000), "é".repeat(5000));
    let chunks = MarkdownParser::parse(&doc, "f");
    for c in &chunks {
        assert!(1 <= c.chunk_index && c.chunk_index <= c.total_chunks);
        assert!(!c.content.trim().is_empty());
        assert!(["f", "# A", "# B", "# C"].contains(&c.section.as_str()));
        assert!(c.content.len() <= 8192);
    }
}

#[test]
fn embedding_limit_and_token_estimate() {
    let chunks = MarkdownParser::parse(&format!("# H\n{}", "é".repeat(2000)), "f");
    assert_eq!(chunks.len(), 1);
    assert_eq!(chunks[0].estimated_tokens(), chunks[0].content.chars().count());
    assert_eq!(chunks[0].fits_embedding_limit(), chunks[0].content.len() <= 4000);
    assert!(!chunks[0].fits_embedding_limit());
    let small = MarkdownParser::parse("# H\nsmall", "f");
    assert!(small[0].fits_embedding_limit());
    assert_eq!(small[0].estimated_tokens(), "# f\n# H\nsmall".chars().count());
}

#[test]
fn split_by_header_at_a_chosen_level() {
    let got = MarkdownParser::split_by_header("x\n## a\n1\n# b\n## c\n2", 2, "f");
    assert_eq!(
        got,
        vec![
            ("f".to_string(), "# f\nx".to_string()),
            ("## a".to_string(), "# f\n## a\n1\n# b".to_string()),
            ("## c".to_string(), "# f\n## c\n2".to_string()),
        ]
    );
}

#[test]
fn law_pieces_are_small_and_keep_the_text() {
    let text = format!(
        "{}\n\n{}\n{}",
        "word ".repeat(1500),
        "語 ".repeat(1200),
        "tail".repeat(600)
    );
    assert!(text.len() > 8192);
    let pieces = MarkdownParser::split_large_chunk(&text);
    assert!(pieces.len() >= 3);
    for p in &pieces {
        assert!(p.len() <= 4000);
        assert!(!p.trim().is_empty());
    }
    let strip = |s: &str| s.chars().filter(|c| !c.is_whitespace()).collect::<String>();
    assert_eq!(strip(&pieces.concat()), strip(&text));
}

#[test]
fn embedded_tokens_count_only_embedded_chunks_within_the_limit() {
    let doc = format!("# A\nabc\n# B\n{}\n# C\nxyz", "é".repeat(3000));
    let chunks = MarkdownParser::parse(&doc, "f");
    assert_eq!(chunks.len(), 3);
    assert!(!chunks[1].fits_embedding_limit());
    let a = chunks[0].content.chars().count();
    let c = chunks[2].content.chars().count();
    assert_eq!(embedded_tokens(&chunks, &vec![true, true, true]), Some(a + c));
    assert_eq!(embedded_tokens(&chunks, &vec![true, true, false]), Some(a));
    assert_eq!(embedded_tokens(&chunks, &vec![false, false, false]), Some(0));
}
