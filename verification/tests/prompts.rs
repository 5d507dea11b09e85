use mdrag::prompts::{
    chat_prompt, model_available, model_choice, model_selection_report, model_unavailable_message,
    relevance_prompt,
};

#[test]
fn relevance_prompt_text() {
    assert_eq!(
        relevance_prompt("what is rust", "Rust is a language."),
        "Query: what is rust\nDocument: Rust is a language.\nScore (0-10):"
    );
}

#[test]
fn chat_prompt_with_and_without_chunk_numbers() {
    let results = vec![
        ("body one".to_string(), "# Intro".to_string(), 1usize, 1usize),
        ("body two".to_string(), "## Setup".to_string(), 2usize, 3usize),
    ];
    assert_eq!(
        chat_prompt("How?", &results),
        "Answer the following user question: How?\n\nUsing the following information for context:\n\n\n\n[Section: # Intro]\nbody one\n\n[Section: ## Setup (chunk 2/3)]\nbody two"
    );
    assert_eq!(
        chat_prompt("q", &vec![]),
        "Answer the following user question: q\n\nUsing the following information for context:\n\n"
    );
}

#[test]
fn models_are_found_by_exact_name() {
    let models = vec!["qwen3:14b".to_string(), "gemma3:1b".to_string()];
    assert!(model_available(&models, "gemma3:1b"));
    assert!(!model_available(&models, "gemma3"));
    assert!(!model_available(&vec![], "gemma3:1b"));
}

#[test]
fn selection_report_with_an_installed_alternative() {
    let models = vec!["qwen3:14b".to_string(), "qwen3:8b".to_string(), "gemma3:1b".to_string()];
    let lines = model_selection_report("LLM", &models, &vec![false, false, true]);
    assert_eq!(
        lines,
        vec![
            "\nLLM model 'qwen3:14b' not found.",
            "\nSupported LLM models:",
            "  ⬇ qwen3:14b (needs download)",
            "  ⬇ qwen3:8b (needs download)",
            "  ✓ gemma3:1b (available)",
            "\nTo download a model, run:",
            "  ollama pull <model-name>",
            "\nOr specify an available model with --model flag",
        ]
    );
}

#[test]
fn selection_report_with_nothing_installed() {
    let models = vec!["nomic-embed-text:v1.5".to_string()];
    let lines = model_selection_report("Embedding", &models, &vec![false]);
    assert_eq!(
        lines,
        vec![
            "\nEmbedding model 'nomic-embed-text:v1.5' not found.",
            "\nSupported Embedding models:",
            "  ⬇ nomic-embed-text:v1.5 (needs download)",
            "\nTo download a model, run:",
            "  ollama pull <model-name>",
        ]
    );
}

#[test]
fn unavailable_model_reason() {
    assert_eq!(
        model_unavailable_message(),
        "Model not available. Please download or specify an existing model."
    );
}

#[test]
fn given_model_wins_over_default() {
    assert_eq!(model_choice(Some("mine:1b".to_string()), "qwen3:14b", false), Some("mine:1b".to_string()));
    assert_eq!(model_choice(None, "qwen3:14b", true), Some("qwen3:14b".to_string()));
    assert_eq!(model_choice(None, "qwen3:14b", false), None);
}
