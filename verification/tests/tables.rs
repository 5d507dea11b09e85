use mdrag::tables::{
    already_embedded, assemble_table_name, count_rows_sql, create_table_sql, get_table_name,
    hash_model_name, insert_sql, list_tables_sql, missing_model_message, search_sql, table_exists,
    table_exists_sql, table_name_from_hash,
};
use std::collections::hash_map::DefaultHasher;
use std::hash::{Hash, Hasher};

fn std_hash(s: &str) -> u64 {
    let mut h = DefaultHasher::new();
    s.hash(&mut h);
    h.finish()
}

fn hex4(s: &str) -> String {
    format!("{:04x}", std_hash(s))[..4].to_string()
}

#[test]
fn hash_is_the_std_hash_of_the_name() {
    for m in ["", "a", "nomic-embed-text:v1.5", "qwen3-embedding:4b", "日本語", "embeddinggemma:latest"] {
        assert_eq!(hash_model_name(m), std_hash(m));
    }
}

#[test]
fn table_names_of_the_supported_models() {
    assert_eq!(
        get_table_name("nomic-embed-text:v1.5"),
        format!("emb_nomic_v15_{}", hex4("nomic-embed-text:v1.5"))
    );
    assert_eq!(
        get_table_name("qwen3-embedding:4b"),
        format!("emb_qwen3_4b_{}", hex4("qwen3-embedding:4b"))
    );
    assert_eq!(
        get_table_name("qwen3-embedding:8b"),
        format!("emb_qwen3_8b_{}", hex4("qwen3-embedding:8b"))
    );
    assert_eq!(
        get_table_name("embeddinggemma:latest"),
        format!("emb_gemma_latest_{}", hex4("embeddinggemma:latest"))
    );
}

#[test]
fn name_without_version_leaves_the_version_out() {
    assert_eq!(get_table_name("mxbai"), format!("emb_mxbai_{}", hex4("mxbai")));
}

#[test]
fn name_is_cut_to_six_characters_and_lower_cased() {
    assert_eq!(
        table_name_from_hash("Snowflake-Arctic-Embed:L-V2.0", 0xabcdef0123456789),
        "emb_snowfl_lv20_abcd"
    );
}

#[test]
fn only_the_first_two_colon_parts_count() {
    assert_eq!(table_name_from_hash("a:b:c", 0x12345), "emb_a_b_1234");
    assert_eq!(table_name_from_hash("::", 0x12345), "emb_1234");
    assert_eq!(table_name_from_hash(":v2", 0x12345), "emb_v2_1234");
}

#[test]
fn removal_order_matters() {
    // "embedding" goes first, then "embed", then "text", then "-".
    assert_eq!(table_name_from_hash("xembeddingtextembed-y", 0x9999), "emb_xy_9999");
    assert_eq!(table_name_from_hash("emtextbed", 0x9999), "emb_embed_9999");
}

#[test]
fn unicode_names_go_through_std_case_mapping() {
    assert_eq!(table_name_from_hash("ÀÉÎ:Ö", 0x1000), "emb_àéî_ö_1000");
}

#[test]
fn short_hashes_are_zero_padded() {
    assert_eq!(table_name_from_hash("model", 0xfff), "emb_model_0fff");
    assert_eq!(table_name_from_hash("model", 0x2a), "emb_model_002a");
    assert_eq!(table_name_from_hash("model", 0), "emb_model_0000");
    assert_eq!(table_name_from_hash("model", 0x1000), "emb_model_1000");
}

#[test]
fn statements() {
    assert_eq!(
        create_table_sql("emb_t", 768),
        "CREATE VIRTUAL TABLE IF NOT EXISTS emb_t USING vec0(\n                path TEXT,\n                section TEXT,\n                chunk_index INTEGER,\n                total_chunks INTEGER,\n                contents TEXT,\n                embedding FLOAT[768]\n            )"
    );
    assert_eq!(count_rows_sql("emb_t"), "SELECT COUNT(*) FROM emb_t WHERE path = ?");
    assert_eq!(
        insert_sql("emb_t"),
        "INSERT INTO emb_t (path, section, chunk_index, total_chunks, contents, embedding) VALUES (?, ?, ?, ?, ?, ?)"
    );
    assert_eq!(
        search_sql("emb_t"),
        "SELECT contents, section, chunk_index, total_chunks\n            FROM emb_t\n            WHERE embedding MATCH ?1\n            AND k = ?2\n            ORDER BY distance"
    );
}

#[test]
fn missing_model_messages() {
    assert_eq!(
        missing_model_message("m", &vec![]),
        "No embeddings found in database. Run 'embed' command first."
    );
    assert_eq!(
        missing_model_message("gemma:2b", &vec!["emb_qwen3_4b_1a2b".to_string(), "other".to_string()]),
        "No embeddings found for model 'gemma:2b'. Available: qwen3_4b_1a2b, other\nEither re-embed with this model or use --rag-model with an available model."
    );
}

#[test]
fn law_table_names_have_single_underscores() {
    for m in ["nomic-embed-text:v1.5", "qwen3-embedding:4b", "embeddinggemma:latest", "bge-m3:567m", "mxbai", "::", "-:-", "embed:"] {
        let t = get_table_name(m);
        assert!(t.starts_with("emb_"));
        assert!(!t.contains("__"), "{}", t);
        let suffix = &t[t.len() - 4..];
        assert!(suffix.chars().all(|c| c.is_ascii_hexdigit()));
    }
}

#[test]
fn assembling_names_from_parts() {
    assert_eq!(assemble_table_name("nomic", "v15", 0xa3f2_0000_0000_0000), "emb_nomic_v15_a3f2");
    assert_eq!(assemble_table_name("gemma", "", 0x1234), "emb_gemma_1234");
    assert_eq!(assemble_table_name("", "latest", 0x1234), "emb_latest_1234");
    assert_eq!(assemble_table_name("", "", 0xffff), "emb_ffff");
    assert_eq!(assemble_table_name("a", "b", 0xfff), "emb_a_b_0fff");
}

#[test]
fn table_queries() {
    assert_eq!(table_exists_sql(), "SELECT COUNT(*) FROM sqlite_master WHERE type='table' AND name=?");
    assert_eq!(
        list_tables_sql(),
        "SELECT name FROM sqlite_master WHERE type='table' AND name LIKE 'emb_%' \n                 AND name NOT LIKE '%_info' AND name NOT LIKE '%_chunks' \n                 AND name NOT LIKE '%_rowids' AND name NOT LIKE '%_vector_%' \n                 AND name NOT LIKE '%_metadata%'"
    );
}

#[test]
fn counts_decide_skipping_and_existence() {
    assert!(already_embedded(Some(3)));
    assert!(!already_embedded(Some(0)));
    assert!(!already_embedded(Some(-1)));
    assert!(!already_embedded(None));
    assert!(table_exists(Some(1)));
    assert!(table_exists(Some(-1)));
    assert!(!table_exists(Some(0)));
    assert!(!table_exists(None));
}
