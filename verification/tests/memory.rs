use koru_delta::memory::agent::{AgentMemory, Memory, MemoryType, RecallOptions};
use koru_delta::memory::workspace::{
    generate_id, AgentContext, MemoryPattern, SearchOptions, StoredEntry, Workspace,
    WorkspaceItem,
};
use sha2::{Digest, Sha256};

fn bits(x: f32) -> u32 {
    x.to_bits()
}

const DAY: i64 = 86_400_000_000_000;

#[test]
fn test_memory_creation() {
    let memory = Memory::new("Test content".to_string(), MemoryType::Episodic, 0)
        .with_importance(bits(0.8))
        .with_tags(vec!["test".to_string()]);
    assert_eq!(memory.content, "Test content");
    assert_eq!(memory.memory_type, MemoryType::Episodic);
    assert!((f32::from_bits(memory.importance) - 0.8).abs() < 1e-6);
    assert_eq!(memory.tags, vec!["test"]);
}

#[test]
fn importance_is_clamped() {
    let m = Memory::new("x".to_string(), MemoryType::Semantic, 0);
    assert_eq!(m.clone().with_importance(bits(1.7)).importance, bits(1.0));
    assert_eq!(m.clone().with_importance(bits(-0.3)).importance, bits(0.0));
    assert_eq!(m.with_importance(bits(0.25)).importance, bits(0.25));
}

#[test]
fn test_memory_mark_accessed() {
    let mut memory = Memory::new("Test".to_string(), MemoryType::Episodic, 5);
    memory.mark_accessed(9);
    assert_eq!(memory.access_count, 1);
    assert!(memory.last_accessed >= memory.created_at);
}

#[test]
fn test_memory_should_consolidate() {
    let old = Memory::new("Old memory".to_string(), MemoryType::Episodic, 0).with_importance(bits(0.3));
    assert!(old.should_consolidate(60, 30));
    let important = Memory::new("Important".to_string(), MemoryType::Semantic, 0).with_importance(bits(0.9));
    assert!(!important.should_consolidate(60, 30));
    assert!(!old.should_consolidate(29, 30));
}

#[test]
fn test_recall_options() {
    let opts = RecallOptions::new().limit(5).memory_type(MemoryType::Semantic).min_relevance(bits(0.5));
    assert_eq!(opts.limit, 5);
    assert_eq!(opts.memory_type, Some(MemoryType::Semantic));
    assert!((f32::from_bits(opts.min_relevance) - 0.5).abs() < 1e-6);
}

#[test]
fn test_agent_memory_new() {
    let agent = AgentMemory::new("agent-1".to_string());
    assert_eq!(agent.agent_id, "agent-1");
    assert_eq!(agent.memory_namespace(), "agent_memory:agent-1");
    assert_eq!(agent.embedding_namespace(), "agent_embeddings:agent-1");
}

#[test]
fn memory_ids_hash_agent_and_content() {
    let agent = AgentMemory::new("agent-1".to_string());
    let expected = hex::encode(Sha256::digest(b"agent:agent-1/hello"));
    assert_eq!(agent.generate_memory_id("hello"), expected);
    let m = agent.remember_episode("hello".to_string(), bits(0.8), 3);
    assert_eq!(m.id, expected);
    assert_eq!(m.source.as_deref(), Some("agent_experience"));
}

#[test]
fn remember_fact_and_procedure() {
    let agent = AgentMemory::new("a".to_string());
    let f = agent.remember_fact("k".to_string(), "fact".to_string(), vec!["t".to_string()], 0);
    assert_eq!(f.id, "k");
    assert_eq!(f.importance, bits(0.9));
    let p = agent.remember_procedure("deploy".to_string(), "step 1".to_string(), None, 0);
    assert_eq!(p.importance, bits(0.5));
    assert_eq!(p.tags, vec!["procedure"]);
    assert_eq!(p.causal_context.as_deref(), Some("deploy"));
}

fn mem(content: &str, t: MemoryType, created: i64, tags: &[&str]) -> Memory {
    Memory::new(content.to_string(), t, created).with_tags(tags.iter().map(|s| s.to_string()).collect())
}

#[test]
fn recall_filters_and_ranks() {
    let ms = vec![
        mem("a", MemoryType::Episodic, 10, &["x"]),
        mem("b", MemoryType::Semantic, 20, &["x", "y"]),
        mem("c", MemoryType::Semantic, 30, &["y"]),
        mem("d", MemoryType::Semantic, 40, &["x", "y"]),
    ];
    let rel = vec![bits(0.9), bits(0.2), bits(0.7), bits(0.6)];
    let agent = AgentMemory::new("a".to_string());
    let all = RecallOptions::new();
    assert_eq!(agent.recall(&ms, &rel, &all), vec![0, 2, 3, 1]);
    let sem = RecallOptions::new().memory_type(MemoryType::Semantic).with_tags(vec!["x".to_string()]);
    assert_eq!(agent.recall(&ms, &rel, &sem), vec![3, 1]);
    let timed = RecallOptions::new().time_range(20, 30).limit(1);
    assert_eq!(agent.recall(&ms, &rel, &timed), vec![2]);
    let strict = RecallOptions::new().min_relevance(bits(0.65));
    assert_eq!(agent.recall(&ms, &rel, &strict), vec![0, 2]);
}

#[test]
fn recall_matching_keeps_only_keyword_hits() {
    let ms = vec![
        mem("Python notes", MemoryType::Episodic, 10, &[]),
        mem("rust notes", MemoryType::Semantic, 20, &[]),
        mem("more PYTHON", MemoryType::Semantic, 30, &[]),
        mem("python again", MemoryType::Semantic, 40, &[]),
    ];
    let rel = vec![bits(0.3), bits(0.99), bits(0.8), bits(0.5)];
    let agent = AgentMemory::new("a".to_string());
    // Memory 1 is the most relevant but does not mention the query.
    assert_eq!(agent.recall_matching(&ms, &rel, "python", &RecallOptions::new()), vec![2, 3, 0]);
    let sem = RecallOptions::new().memory_type(MemoryType::Semantic).limit(1);
    assert_eq!(agent.recall_matching(&ms, &rel, "Python", &sem), vec![2]);
    assert!(agent.recall_matching(&ms, &rel, "golang", &RecallOptions::new()).is_empty());
}

#[test]
fn keyword_scan_ignores_case() {
    let contents = vec!["User asked about Python bindings".to_string(), "nothing".to_string()];
    assert_eq!(koru_delta::memory::agent::scan_memories(&contents, "PYTHON bindings"), vec![0]);
}

#[test]
fn memory_stats_count_types_and_tags() {
    let agent = AgentMemory::new("a".to_string());
    let ms = vec![
        mem("a", MemoryType::Episodic, 0, &["x"]),
        mem("b", MemoryType::Semantic, 0, &["x", "y"]),
        mem("c", MemoryType::Procedural, 0, &[]),
    ];
    let s = agent.stats(4, &ms);
    assert_eq!((s.total_memories, s.episodic_count, s.semantic_count, s.procedural_count), (4, 1, 1, 1));
    let mut by_tag = s.by_tag.clone();
    by_tag.sort();
    assert_eq!(by_tag, vec![("x".to_string(), 2), ("y".to_string(), 1)]);
}

#[test]
fn test_consolidation_summary() {
    let agent = AgentMemory::new("a".to_string());
    let ms = vec![
        mem("a", MemoryType::Episodic, 0, &[]),
        mem("b", MemoryType::Episodic, 0, &[]).with_importance(bits(0.95)),
        mem("c", MemoryType::Episodic, 0, &[]),
    ];
    let s = agent.consolidate(3, &ms, &vec![45, 45, 3]);
    assert_eq!(s.total_memories, 3);
    assert_eq!(s.consolidated_count, 1);
    assert_eq!(s.summaries_created, 0);
}

#[test]
fn test_workspace_item_creation() {
    let item = WorkspaceItem::new("Test content".to_string(), MemoryPattern::Event, 0)
        .with_importance(bits(0.8))
        .with_tags(vec!["test".to_string()]);
    assert_eq!(item.content, "Test content");
    assert_eq!(item.pattern, MemoryPattern::Event);
    assert!((f32::from_bits(item.importance) - 0.8).abs() < 1e-6);
}

#[test]
fn test_workspace_item_should_consolidate() {
    let old = WorkspaceItem::new("Old item".to_string(), MemoryPattern::Event, -60 * DAY).with_importance(bits(0.3));
    assert!(old.should_consolidate(60, 30));
}

#[test]
fn test_search_options() {
    let opts = SearchOptions::new().limit(5).pattern(MemoryPattern::Reference).min_relevance(bits(0.7));
    assert_eq!(opts.limit, 5);
    assert_eq!(opts.pattern, Some(MemoryPattern::Reference));
    assert!((f32::from_bits(opts.min_relevance) - 0.7).abs() < 1e-6);
}

#[test]
fn test_memory_pattern_display() {
    assert_eq!(MemoryPattern::Event.as_str(), "event");
    assert_eq!(MemoryPattern::Reference.as_str(), "reference");
    assert_eq!(MemoryPattern::Procedure.as_str(), "procedure");
}

#[test]
fn memory_type_names() {
    assert_eq!(MemoryType::Episodic.as_str(), "episodic");
    assert_eq!(MemoryType::Semantic.as_str(), "semantic");
    assert_eq!(MemoryType::Procedural.as_str(), "procedural");
}

#[test]
fn workspace_search_matches_content_or_key() {
    let ws = Workspace::new("w".to_string());
    let entries = vec![
        StoredEntry { key: "python:1".to_string(), content: "\"x\"".to_string(), timestamp: 1 },
        StoredEntry { key: "k2".to_string(), content: "\"about Python\"".to_string(), timestamp: 2 },
        StoredEntry { key: "k3".to_string(), content: "\"rust\"".to_string(), timestamp: 3 },
    ];
    let r = ws.search(&entries, "PYTHON", &SearchOptions::new(), 99);
    let ids: Vec<&str> = r.iter().map(|x| x.item.id.as_str()).collect();
    assert_eq!(ids, vec!["python:1", "k2"]);
    assert_eq!(r[1].item.created_at, 2);
    assert_eq!(r[1].match_type, "keyword");
    let r = ws.search(&entries, "python", &SearchOptions::new().limit(1), 99);
    assert_eq!(r.len(), 1);
    assert_eq!(ws.stats(3).workspace_name, "w");
}

#[test]
fn agent_context_keys() {
    let ctx = AgentContext::new(Workspace::new("w".to_string()));
    let short = hex::encode(&Sha256::digest(b"hello")[..8]);
    assert_eq!(generate_id("hello"), short);
    assert_eq!(ctx.episode_key("hello"), format!("episode:{}", short));
    assert_eq!(ctx.fact_key("k"), "fact:k");
    assert_eq!(ctx.procedure_key("p"), "procedure:p");
    assert_eq!(ctx.recall_options(3).limit, 3);
}
