use second_brain::ids::{format_record_id, parse_record_id, Table};
use second_brain::model::{ActionStatus, Entity, LinkOrigin, Relationship};
use second_brain::rank::top_k;
use second_brain::store::{KbError, KnowledgeBase, SourceExtraction, SourcePlan};
use second_brain::temporal::{parse_temporal_context, DAY_MS, WEEK_MS};

fn entity(text: &str, label: &str) -> Entity {
    Entity { text: text.to_string(), label: label.to_string(), sequence: 0, confidence: 900_000 }
}

fn rel(source: &str, target: &str, target_type: &str, confidence: u32) -> Relationship {
    Relationship {
        source: source.to_string(),
        source_type: "person".to_string(),
        relation: "discussed".to_string(),
        target: target.to_string(),
        target_type: target_type.to_string(),
        confidence,
    }
}

fn segment(kb: &mut KnowledgeBase, meeting: u64, text: &str, es: Vec<Entity>, rs: Vec<Relationship>, now: u64) -> Result<u64, KbError> {
    let embs: Vec<Vec<u32>> = es.iter().map(|_| vec![1u32, 2]).collect();
    kb.add_segment(meeting, "Guest".to_string(), text.to_string(), 0, 1000, vec![7, 8, 9], &es, &embs, &rs, now)
}

#[test]
fn decision_in_segment_is_stored_for_its_meeting() {
    let mut kb = KnowledgeBase::new();
    let m = kb.create_meeting("Planning".to_string(), vec![], 1_000).unwrap();
    let es = vec![entity("Alice", "person"), entity("launch in March", "decision"), entity("write the brief", "action_item")];
    let seg = segment(&mut kb, m, "Alice: We decided to launch in March", es, vec![], 2_000).unwrap();
    assert_eq!(kb.segments().len(), 1);
    assert_eq!(kb.segments()[0].id, seg);
    assert_eq!(kb.decisions().len(), 1);
    assert_eq!(kb.decisions()[0].meeting_id, m);
    assert_eq!(kb.decisions()[0].text, "launch in March");
    assert_eq!(kb.action_items().len(), 1);
    assert_eq!(kb.action_items()[0].status, ActionStatus::Open);
    assert_eq!(kb.people()[0].name, "Alice");
    assert_eq!(kb.mentioned_in().len(), 1);
    assert_eq!(kb.mentioned_in()[0].to, m);
}

#[test]
fn person_sightings_keep_earliest_and_latest() {
    let mut kb = KnowledgeBase::new();
    let m = kb.create_meeting("Sync".to_string(), vec![], 0).unwrap();
    for t in [300u64, 100, 200] {
        segment(&mut kb, m, "Bob spoke", vec![entity("Bob", "person")], vec![], t).unwrap();
    }
    assert_eq!(kb.people().len(), 1);
    assert_eq!(kb.people()[0].first_seen, 100);
    assert_eq!(kb.people()[0].last_seen, 300);
}

#[test]
fn topic_mentions_count_and_latest_embedding_wins() {
    let mut kb = KnowledgeBase::new();
    let m = kb.create_meeting("Sync".to_string(), vec![], 0).unwrap();
    let es = vec![entity("Apollo", "project")];
    kb.add_segment(m, "A".to_string(), "x".to_string(), 0, 1, vec![], &es, &vec![vec![1]], &vec![], 5).unwrap();
    kb.add_segment(m, "A".to_string(), "y".to_string(), 1, 2, vec![], &es, &vec![vec![2]], &vec![], 9).unwrap();
    assert_eq!(kb.topics().len(), 1);
    assert_eq!(kb.topics()[0].mention_count, 2);
    assert_eq!(kb.topics()[0].last_mentioned, 9);
    assert_eq!(kb.topics()[0].embedding, vec![2]);
    assert_eq!(kb.discussed_in().len(), 2);
}

#[test]
fn relationship_threshold_is_inclusive() {
    let mut kb = KnowledgeBase::new();
    let m = kb.create_meeting("Sync".to_string(), vec![], 0).unwrap();
    let rs = vec![rel("Ann", "Apollo", "project", 499_999), rel("Ann", "Zeus", "project", 500_000), rel("Ann", "Hera", "topic", 1_000_000)];
    segment(&mut kb, m, "t", vec![], rs, 1).unwrap();
    let kept: Vec<&str> = kb.relations().iter().map(|r| r.target_entity.as_str()).collect();
    assert_eq!(kept, vec!["Zeus", "Hera"]);
    assert!(kb.relations().iter().all(|r| r.confidence >= 500_000 && r.meeting_id == Some(m)));
}

#[test]
fn segment_for_missing_meeting_is_not_found() {
    let mut kb = KnowledgeBase::new();
    assert_eq!(segment(&mut kb, 42, "t", vec![], vec![], 1), Err(KbError::NotFound));
    assert!(kb.segments().is_empty());
}

#[test]
fn deleting_a_source_removes_its_chunks_in_either_id_form() {
    let mut kb = KnowledgeBase::new();
    let a = kb.add_knowledge_source("https://a".to_string(), "A".to_string(), "aa".to_string(), "url".to_string(), vec![], 1).unwrap();
    let b = kb.add_knowledge_source("https://b".to_string(), "B".to_string(), "bb".to_string(), "url".to_string(), vec![], 1).unwrap();
    kb.add_chunk(a, "a1".to_string(), 0, vec![]).unwrap();
    kb.add_chunk(a, "a2".to_string(), 1, vec![]).unwrap();
    kb.add_chunk(b, "b1".to_string(), 0, vec![]).unwrap();
    let m = kb.create_meeting("M".to_string(), vec![], 1).unwrap();
    kb.link_knowledge_to_meeting(m, a, LinkOrigin::User).unwrap();
    assert_eq!(kb.get_source_chunk_count(a), 2);
    kb.delete_knowledge_source(&format_record_id(Table::KnowledgeSource, a)).unwrap();
    assert_eq!(kb.get_source_chunk_count(a), 0);
    assert!(kb.meeting_links().is_empty());
    assert_eq!(kb.cleanup_orphaned_chunks(), 0);
    kb.delete_knowledge_source(&b.to_string()).unwrap();
    assert!(kb.chunks().is_empty());
    assert!(kb.knowledge_sources().is_empty());
    assert_eq!(kb.delete_knowledge_source("knowledge_source:x"), Err(KbError::ValidationFailure));
}

#[test]
fn source_urls_are_unique_and_required() {
    let mut kb = KnowledgeBase::new();
    kb.add_knowledge_source("u".to_string(), "T".to_string(), "".to_string(), "url".to_string(), vec![], 1).unwrap();
    let dup = kb.add_knowledge_source("u".to_string(), "T2".to_string(), "".to_string(), "url".to_string(), vec![], 2);
    assert_eq!(dup, Err(KbError::ValidationFailure));
    let empty = kb.add_knowledge_source("".to_string(), "T3".to_string(), "".to_string(), "url".to_string(), vec![], 2);
    assert_eq!(empty, Err(KbError::ValidationFailure));
    assert_eq!(kb.add_chunk(999, "c".to_string(), 0, vec![]), Err(KbError::NotFound));
}

#[test]
fn ending_a_meeting_is_idempotent_and_never_before_start() {
    let mut kb = KnowledgeBase::new();
    let m = kb.create_meeting("M".to_string(), vec!["Ann".to_string()], 5_000).unwrap();
    kb.end_meeting(m, Some("done".to_string()), 4_000).unwrap();
    assert_eq!(kb.meetings()[0].end_time, Some(5_000));
    kb.end_meeting(m, Some("again".to_string()), 9_000).unwrap();
    assert_eq!(kb.meetings()[0].end_time, Some(5_000));
    assert_eq!(kb.meetings()[0].summary.as_deref(), Some("done"));
    assert_eq!(kb.end_meeting(77, None, 1), Err(KbError::NotFound));
}

#[test]
fn deleting_a_meeting_cascades() {
    let mut kb = KnowledgeBase::new();
    let m1 = kb.create_meeting("One".to_string(), vec![], 0).unwrap();
    let m2 = kb.create_meeting("Two".to_string(), vec![], 0).unwrap();
    let es = vec![entity("Ann", "person"), entity("ship it", "decision")];
    segment(&mut kb, m1, "a", es.clone_entities(), vec![rel("Ann", "X", "topic", 900_000)], 1).unwrap();
    segment(&mut kb, m2, "b", es.clone_entities(), vec![], 1).unwrap();
    kb.delete_meeting(m1);
    assert_eq!(kb.meetings().len(), 1);
    assert!(kb.segments().iter().all(|s| s.meeting_id == m2));
    assert!(kb.decisions().iter().all(|d| d.meeting_id == m2));
    assert!(kb.relations().is_empty());
    assert!(kb.mentioned_in().iter().all(|e| e.to == m2));
    assert_eq!(kb.people().len(), 1);
}

trait CloneEntities {
    fn clone_entities(&self) -> Vec<Entity>;
}

impl CloneEntities for Vec<Entity> {
    fn clone_entities(&self) -> Vec<Entity> {
        self.iter().map(|e| Entity { text: e.text.clone(), label: e.label.clone(), sequence: e.sequence, confidence: e.confidence }).collect()
    }
}

#[test]
fn two_meetings_do_not_share_segments_or_edges() {
    let mut kb = KnowledgeBase::new();
    let a = kb.create_meeting("A".to_string(), vec![], 0).unwrap();
    let b = kb.create_meeting("B".to_string(), vec![], 0).unwrap();
    for i in 0..3u64 {
        segment(&mut kb, a, "x", vec![entity("Ann", "person")], vec![], i).unwrap();
    }
    segment(&mut kb, b, "y", vec![entity("Ben", "person"), entity("Zed", "topic")], vec![], 9).unwrap();
    assert_eq!(kb.segments().iter().filter(|s| s.meeting_id == a).count(), 3);
    assert_eq!(kb.segments().iter().filter(|s| s.meeting_id == b).count(), 1);
    assert_eq!(kb.mentioned_in().iter().filter(|e| e.to == a).count(), 3);
    assert_eq!(kb.mentioned_in().iter().filter(|e| e.to == b).count(), 1);
    assert_eq!(kb.discussed_in().iter().filter(|e| e.to == a).count(), 0);
}

#[test]
fn empty_store_query_is_empty() {
    let kb = KnowledgeBase::new();
    let ctx = kb.graph_rag_query("what happened yesterday?", vec![entity("Ann", "person")], &Some(vec![]), 5, 10 * DAY_MS);
    assert!(ctx.related_meetings.is_empty());
    assert!(ctx.related_people.is_empty());
    assert!(ctx.related_topics.is_empty());
    assert!(ctx.open_actions.is_empty());
    assert!(ctx.recent_decisions.is_empty());
    assert!(ctx.similar_chunks.is_empty());
    let t = ctx.temporal_context.unwrap();
    assert_eq!(t.time_reference, "yesterday");
    assert_eq!(t.start_timestamp, Some(8 * DAY_MS));
    assert_eq!(t.end_timestamp, Some(9 * DAY_MS));
}

#[test]
fn query_gathers_people_topics_actions_and_chunks() {
    let mut kb = KnowledgeBase::new();
    let now = 100 * DAY_MS;
    let m = kb.create_meeting("Roadmap".to_string(), vec![], now - 3 * DAY_MS).unwrap();
    let es = vec![entity("Ann", "person"), entity("Apollo", "project"), entity("fix bug", "action_item"), entity("go", "decision")];
    segment(&mut kb, m, "s", es, vec![rel("Ann", "Apollo", "project", 800_000)], now - 2 * DAY_MS).unwrap();
    let src = kb.add_knowledge_source("u".to_string(), "Doc".to_string(), "c".to_string(), "url".to_string(), vec!["t".to_string()], now).unwrap();
    kb.add_chunk(src, "first".to_string(), 0, vec![]).unwrap();
    kb.add_chunk(src, "second".to_string(), 1, vec![]).unwrap();
    let ctx = kb.graph_rag_query("Ann and Apollo", vec![entity("Ann", "person"), entity("Apollo", "project")], &Some(vec![3, 9]), 1, now);
    assert!(ctx.temporal_context.is_none());
    assert_eq!(ctx.related_meetings.len(), 1);
    assert_eq!(ctx.related_meetings[0].days_ago, 3);
    assert_eq!(ctx.related_meetings[0].relevant_segments.len(), 1);
    assert_eq!(ctx.related_people.len(), 1);
    assert_eq!(ctx.related_people[0].last_seen_days_ago, 2);
    assert_eq!(ctx.related_people[0].meeting_count, 1);
    assert_eq!(ctx.related_people[0].recent_topics, vec!["Apollo".to_string()]);
    assert_eq!(ctx.related_topics.len(), 1);
    assert_eq!(ctx.related_topics[0].mention_count, 1);
    assert_eq!(ctx.related_topics[0].related_people, vec!["Ann".to_string()]);
    assert_eq!(ctx.open_actions.len(), 1);
    assert_eq!(ctx.recent_decisions.len(), 1);
    assert_eq!(ctx.similar_chunks.len(), 1);
    assert_eq!(ctx.similar_chunks[0].chunk.text, "second");
    assert_eq!(ctx.similar_chunks[0].source_title, "Doc");
    let tagged = kb.search_knowledge(&vec![3, 9], 5, &Some(vec!["other".to_string()]));
    assert!(tagged.is_empty());
    let tagged = kb.search_knowledge(&vec![3, 9], 5, &Some(vec!["t".to_string()]));
    assert_eq!(tagged.len(), 2);
}

#[test]
fn temporal_phrases() {
    let now = 100 * WEEK_MS;
    let t = parse_temporal_context("What did we say 3 weeks ago?", now).unwrap();
    assert_eq!(t.time_reference, "3 weeks ago");
    assert_eq!(t.start_timestamp, Some(now - 4 * WEEK_MS));
    assert_eq!(t.end_timestamp, Some(now - 2 * WEEK_MS));
    let y = parse_temporal_context("Yesterday's standup", now).unwrap();
    assert_eq!(y.start_timestamp, Some(now - 2 * DAY_MS));
    assert_eq!(y.end_timestamp, Some(now - DAY_MS));
    let d = parse_temporal_context("about 2days ago", now).unwrap();
    assert_eq!(d.time_reference, "2 days ago");
    assert_eq!(d.start_timestamp, Some(now - 3 * DAY_MS));
    let lw = parse_temporal_context("last week", now).unwrap();
    assert_eq!(lw.start_timestamp, Some(now - 2 * WEEK_MS));
    let lm = parse_temporal_context("LAST MONTH", now).unwrap();
    assert_eq!(lm.start_timestamp, Some(now - 30 * DAY_MS));
    assert_eq!(lm.end_timestamp, Some(now));
    assert!(parse_temporal_context("the roadmap", now).is_none());
    let early = parse_temporal_context("1 week ago", 0).unwrap();
    assert_eq!(early.start_timestamp, Some(0));
}

#[test]
fn top_k_orders_by_key_then_position() {
    assert_eq!(top_k(&vec![5, 9, 5, 1], 3), vec![1, 0, 2]);
    assert_eq!(top_k(&vec![2, 2], 5), vec![0, 1]);
    assert!(top_k(&vec![], 3).is_empty());
    assert!(top_k(&vec![4], 0).is_empty());
}

#[test]
fn record_ids_in_both_forms() {
    assert_eq!(format_record_id(Table::Meeting, 17), "meeting:17");
    assert_eq!(parse_record_id(Table::Meeting, "meeting:17"), Some(17));
    assert_eq!(parse_record_id(Table::Meeting, "17"), Some(17));
    assert_eq!(parse_record_id(Table::Meeting, "decision:17"), None);
    assert_eq!(parse_record_id(Table::Meeting, ""), None);
    assert_eq!(parse_record_id(Table::Meeting, "99999999999999999999"), None);
}

#[test]
fn query_without_scores_returns_no_chunks() {
    let mut kb = KnowledgeBase::new();
    let src = kb.add_knowledge_source("u".to_string(), "Doc".to_string(), "c".to_string(), "url".to_string(), vec![], 1).unwrap();
    kb.add_chunk(src, "only".to_string(), 0, vec![]).unwrap();
    let ctx = kb.graph_rag_query("anything", vec![], &None, 5, 10);
    assert!(ctx.similar_chunks.is_empty());
    let ctx = kb.graph_rag_query("anything", vec![], &Some(vec![1]), 5, 10);
    assert_eq!(ctx.similar_chunks.len(), 1);
}

#[test]
fn source_ingestion_isolates_failed_items() {
    let mut kb = KnowledgeBase::new();
    let para = "Alice works on the Apollo project with the whole platform team.";
    let content = format!("# Notes\n\n{}\n\nshort\n\n{}", para, para);
    let plan = SourcePlan::new(content.clone());
    assert_eq!(plan.paragraphs().len(), 2);
    let n = plan.chunks().len();
    assert!(n >= 1);
    let mut embeddings: Vec<Option<Vec<u32>>> = (0..n).map(|i| Some(vec![i as u32])).collect();
    embeddings[0] = None;
    let extractions = vec![
        None,
        Some(SourceExtraction { entities: vec![entity("Alice", "person"), entity("Acme", "organization")], topic_embeddings: vec![vec![], vec![5]], relationships: vec![rel("Alice", "Apollo", "project", 700_000)] }),
    ];
    let id = kb.ingest_knowledge_source("https://notes".to_string(), "Notes".to_string(), "file".to_string(), vec![], plan, embeddings, extractions, 42).unwrap();
    assert_eq!(kb.knowledge_sources()[0].raw_content, content);
    let stored: Vec<u64> = kb.chunks().iter().map(|c| c.chunk_index).collect();
    assert_eq!(stored, (1..n as u64).collect::<Vec<u64>>());
    assert!(kb.chunks().iter().all(|c| c.source_id == id && c.embedding == vec![c.chunk_index as u32]));
    assert_eq!(kb.people().len(), 1);
    assert_eq!(kb.topics()[0].name, "Acme");
    assert_eq!(kb.relations()[0].knowledge_source_id, Some(id));
    let dup = kb.ingest_knowledge_source("https://notes".to_string(), "Again".to_string(), "file".to_string(), vec![], SourcePlan::new(String::new()), vec![], vec![], 43);
    assert_eq!(dup, Err(KbError::ValidationFailure));
}
