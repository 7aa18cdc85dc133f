//! The supporting pieces: text helpers, content hashing, categories,
//! embedder selection, the file-memory manager, and the sandbox tool.

use hybrid_memory::embed::{create_provider, EmbedderKind, NoopEmbedding};
use hybrid_memory::engine::{category_to_str, str_to_category, MemoryCategory};
use hybrid_memory::hash::content_hash;
use hybrid_memory::manager::{create_memory, dec_i64_string, MemoryManager};
use hybrid_memory::sandbox::{SandboxTool, WorkingDirIsolation};
use hybrid_memory::text::{contains_substring, hex16_string, is_blank, str_eq, tokenize};

#[test]
fn test_sandbox_tool_name() {
    let tool = SandboxTool::new("/tmp", WorkingDirIsolation::Chat);
    assert_eq!(tool.name(), "sandbox_run");
}

#[test]
fn sandbox_config_and_timeout() {
    let tool = SandboxTool::with_config("/tmp", WorkingDirIsolation::Chat, false);
    assert!(!tool.enabled);
    let tool = SandboxTool::new_with_config("/work", WorkingDirIsolation::Shared, true);
    assert!(tool.enabled);
    assert_eq!(tool.working_dir, "/work");
    assert_eq!(SandboxTool::effective_timeout(None), 30);
    assert_eq!(SandboxTool::effective_timeout(Some(10)), 10);
    assert_eq!(SandboxTool::effective_timeout(Some(900)), 300);
}

#[test]
fn content_hash_matches_sha256_prefix() {
    // The lower 8 bytes of SHA-256("hello world"), as 16 hex characters.
    assert_eq!(content_hash("hello world"), "b94d27b9934d3e08");
    assert_eq!(content_hash("hello world").len(), 16);
    // Deterministic, and distinct inputs give distinct hashes here.
    assert_eq!(content_hash("T1"), "1f93603db53bfad5");
    assert_ne!(content_hash("T1"), content_hash("T2"));
}

#[test]
fn category_names_round_trip() {
    let cases = vec![
        MemoryCategory::Core,
        MemoryCategory::Daily,
        MemoryCategory::Conversation,
        MemoryCategory::Custom("projects".to_string()),
    ];
    let expected = vec!["core", "daily", "conversation", "projects"];
    for (c, e) in cases.iter().zip(expected.iter()) {
        assert_eq!(category_to_str(c), *e);
    }
    assert!(matches!(str_to_category("core"), MemoryCategory::Core));
    assert!(matches!(str_to_category("daily"), MemoryCategory::Daily));
    assert!(matches!(str_to_category("conversation"), MemoryCategory::Conversation));
    match str_to_category("projects") {
        MemoryCategory::Custom(n) => assert_eq!(n, "projects"),
        _ => panic!("expected a custom category"),
    }
}

#[test]
fn provider_selection() {
    match create_provider("openai", Some("k"), "m", 1536) {
        EmbedderKind::OpenAi { base_url, api_key, model, dims } => {
            assert_eq!(base_url, "https://api.openai.com/v1");
            assert_eq!(api_key, "k");
            assert_eq!(model, "m");
            assert_eq!(dims, 1536);
        }
        EmbedderKind::Null => panic!("expected the hosted endpoint"),
    }
    match create_provider("custom:http://localhost:8080/v1", None, "m", 4) {
        EmbedderKind::OpenAi { base_url, api_key, .. } => {
            assert_eq!(base_url, "http://localhost:8080/v1");
            assert_eq!(api_key, "");
        }
        EmbedderKind::Null => panic!("expected the custom endpoint"),
    }
    assert!(matches!(create_provider("none", None, "m", 4), EmbedderKind::Null));
    assert!(matches!(create_provider("", None, "m", 4), EmbedderKind::Null));
}

#[test]
fn noop_embedding_is_empty() {
    let e = NoopEmbedding;
    assert_eq!(e.name(), "none");
    assert_eq!(e.dimensions(), 0);
    assert!(e.embed(&vec!["a".to_string(), "b".to_string()]).is_empty());
}

#[test]
fn factory_wires_dimension_from_provider() {
    let (kind, store) = create_memory(Some("custom:http://x"), None, "m", 8);
    assert!(matches!(kind, EmbedderKind::OpenAi { .. }));
    assert_eq!(store.dims, 8);
    let (kind, store) = create_memory(None, None, "m", 8);
    assert!(matches!(kind, EmbedderKind::Null));
    assert_eq!(store.dims, 0);
    assert_eq!(store.cache_max, 10_000);
}

#[test]
fn manager_paths() {
    let m = MemoryManager::new("/data");
    assert_eq!(m.groups_dir(), "/data/groups");
    assert_eq!(m.global_memory_path(), "/data/groups/AGENTS.md");
    assert_eq!(m.chat_memory_path(42), "/data/groups/42/AGENTS.md");
    assert_eq!(m.chat_memory_path(-7), "/data/groups/-7/AGENTS.md");
}

#[test]
fn manager_context_composition() {
    let m = MemoryManager::new("/data");
    let ctx = m.build_memory_context(Some("global notes"), Some("chat notes"));
    assert_eq!(
        ctx,
        "<global_memory>\nglobal notes\n</global_memory>\n\n<chat_memory>\nchat notes\n</chat_memory>\n\n"
    );
    // Blank or missing sides contribute nothing.
    assert_eq!(m.build_memory_context(Some("  \n"), None), "");
    assert_eq!(
        m.build_memory_context(None, Some("c")),
        "<chat_memory>\nc\n</chat_memory>\n\n"
    );
}

#[test]
fn text_helpers() {
    assert!(str_eq("abc", "abc"));
    assert!(!str_eq("abc", "abd"));
    assert!(is_blank(" \t\r\n"));
    assert!(!is_blank(" x "));
    let toks = tokenize("  hello   world \n again");
    assert_eq!(toks, vec!["hello", "world", "again"]);
    assert!(tokenize("   ").is_empty());
    assert!(contains_substring("hello world", "lo wo"));
    assert!(!contains_substring("hello", "world"));
    assert!(contains_substring("anything", ""));
    assert_eq!(hex16_string(0xdead_beef), "00000000deadbeef");
    assert_eq!(dec_i64_string(0), "0");
    assert_eq!(dec_i64_string(12345), "12345");
    assert_eq!(dec_i64_string(-42), "-42");
}
