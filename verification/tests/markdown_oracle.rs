//! Differential tests: the parser against a straightforward implementation of
//! the same chunking rules written with the `regex` crate and `str` methods.
use mdrag::markdown::MarkdownParser;
use regex::Regex;

fn oracle_pieces(text: &str) -> Vec<String> {
    let images = Regex::new(r"data:image/[^;]+;base64,[A-Za-z0-9+/=]{100,}").unwrap();
    let cleaned = images.replace_all(text, "[image removed]").to_string();
    if cleaned.len() <= 8192 {
        return vec![cleaned];
    }
    let mut out = Vec::new();
    let mut start = 0usize;
    while start < cleaned.len() {
        let mut end = std::cmp::min(start + 4000, cleaned.len());
        while end < cleaned.len() && !cleaned.is_char_boundary(end) {
            end -= 1;
        }
        let cut = if end < cleaned.len() {
            match cleaned[start..end].rfind('\n') {
                Some(p) => start + p + 1,
                None => end,
            }
        } else {
            end
        };
        let piece = &cleaned[start..cut];
        if !piece.trim().is_empty() {
            out.push(piece.to_string());
        }
        start = cut;
    }
    out
}

fn oracle_sections(doc: &str, file: &str) -> Vec<(String, String)> {
    let first = Regex::new(r"^(#{1,6})\s").unwrap();
    let level = doc.lines().find_map(|l| first.captures(l).map(|c| c[1].len()));
    let Some(k) = level else {
        return vec![(file.to_string(), format!("# {}\n{}", file, doc))];
    };
    let at_level = Regex::new(&format!(r"^{}\s", "#".repeat(k))).unwrap();
    let mut pre = String::new();
    let mut sections: Vec<(String, String)> = Vec::new();
    for line in doc.lines() {
        if at_level.is_match(line) {
            sections.push((line.to_string(), format!("{}\n", line)));
        } else if let Some(last) = sections.last_mut() {
            last.1.push_str(line);
            last.1.push('\n');
        } else {
            pre.push_str(line);
            pre.push('\n');
        }
    }
    let mut out = Vec::new();
    if !sections.is_empty() && !pre.trim().is_empty() {
        out.push((file.to_string(), format!("# {}\n{}", file, pre.trim())));
    }
    for (h, t) in sections {
        out.push((h, format!("# {}\n{}", file, t.trim())));
    }
    out
}

fn oracle_parse(doc: &str, file: &str) -> Vec<(String, String, usize, usize)> {
    let mut out = Vec::new();
    for (section, text) in oracle_sections(doc, file) {
        let pieces = oracle_pieces(&text);
        let total = pieces.len();
        for (i, p) in pieces.into_iter().enumerate() {
            if !p.trim().is_empty() {
                out.push((p, section.clone(), i + 1, total));
            }
        }
    }
    out
}

fn ours(doc: &str, file: &str) -> Vec<(String, String, usize, usize)> {
    MarkdownParser::parse(doc, file)
        .into_iter()
        .map(|c| (c.content, c.section, c.chunk_index, c.total_chunks))
        .collect()
}

struct Lcg(u64);

impl Lcg {
    fn next(&mut self) -> usize {
        self.0 = self.0.wrapping_mul(6364136223846793005).wrapping_add(1442695040888963407);
        (self.0 >> 33) as usize
    }
}

fn random_doc(rng: &mut Lcg) -> String {
    let long_b64 = format!("![x](data:image/png;base64,{})", "QUJD".repeat(40));
    let short_b64 = format!("data:image/gif;base64,{}", "A".repeat(99));
    let parts: Vec<String> = vec![
        "# Title".into(),
        "## Sub".into(),
        "### Deep".into(),
        "####### seven".into(),
        "#nospace".into(),
        "#\ttab header".into(),
        "#\u{3000}ideographic space".into(),
        "plain text".into(),
        "".into(),
        "   ".into(),
        "日本語のテキスト".into(),
        long_b64,
        short_b64,
        "a".repeat(3000),
        "é".repeat(2500),
        "x\r".into(),
    ];
    let n = rng.next() % 30;
    let mut doc = String::new();
    for _ in 0..n {
        doc.push_str(&parts[rng.next() % parts.len()]);
        doc.push_str(if rng.next() % 5 == 0 { "\r\n" } else { "\n" });
    }
    if rng.next() % 3 == 0 {
        doc.pop();
    }
    doc
}

#[test]
fn parse_agrees_with_oracle_on_generated_documents() {
    let mut rng = Lcg(42);
    for _ in 0..400 {
        let doc = random_doc(&mut rng);
        assert_eq!(ours(&doc, "notes/f.md"), oracle_parse(&doc, "notes/f.md"), "doc {:?}", doc);
    }
}

#[test]
fn pieces_agree_with_oracle() {
    let mut rng = Lcg(7);
    for _ in 0..200 {
        let doc = random_doc(&mut rng);
        assert_eq!(MarkdownParser::split_large_chunk(&doc), oracle_pieces(&doc));
    }
}

#[test]
fn sections_agree_with_oracle_at_each_level() {
    let mut rng = Lcg(99);
    for _ in 0..200 {
        let doc = random_doc(&mut rng);
        let first = Regex::new(r"^(#{1,6})\s").unwrap();
        if let Some(k) = doc.lines().find_map(|l| first.captures(l).map(|c| c[1].len())) {
            assert_eq!(MarkdownParser::split_by_header(&doc, k, "f"), oracle_sections(&doc, "f"));
        }
    }
}

#[test]
fn image_pattern_edge_cases_agree_with_regex() {
    let run = "Zm9v".repeat(30);
    let cases = vec![
        format!("data:image/\npng;base64,{}", run),
        format!("data:image/;base64,{}", run),
        format!("data:image/png;;base64,{}", run),
        format!("data:image/png;base64,{}!tail", run),
        format!("xdata:image/png;base64,{}data:image/gif;base64,{}", run, run),
        format!("data:image/a;b;base64,{}", run),
        format!("data:image/png;base64,{}", &run[..99]),
        format!("DATA:image/png;base64,{}", run),
        format!("data:image/png;base64,{}-{}", run, run),
    ];
    for c in cases {
        assert_eq!(MarkdownParser::split_large_chunk(&c), oracle_pieces(&c), "case {:?}", c);
    }
}

#[test]
fn law_no_image_survives_and_cleaning_twice_changes_nothing() {
    let images = Regex::new(r"data:image/[^;]+;base64,[A-Za-z0-9+/=]{100,}").unwrap();
    let run = "QUJD".repeat(30);
    let cases = vec![
        format!("data:image/x;base64,{}data:image/y;base64,{}", &run[..99], run),
        format!("data:image/png;base64,{}data:image/png;base64,{}", run, run),
        format!("a data:image/png;base64,{} b data:image/", run),
        format!("data:image/q data:image/r;base64,{}", run),
    ];
    for c in cases {
        let once = MarkdownParser::split_large_chunk(&c);
        assert_eq!(once.len(), 1);
        assert!(!images.is_match(&once[0]), "{:?}", once[0]);
        assert_eq!(MarkdownParser::split_large_chunk(&once[0]), once);
    }
}
