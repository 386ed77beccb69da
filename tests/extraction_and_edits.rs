use second_brain::diarization::DiarizedSegment;
use second_brain::extraction::{filter_by_confidence, group_by_label};
use second_brain::model::{ActionStatus, Entity};
use second_brain::store::{KbError, KnowledgeBase};

fn ent(text: &str, label: &str, confidence: u32) -> Entity {
    Entity { text: text.to_string(), label: label.to_string(), sequence: 0, confidence }
}

#[test]
fn test_group_by_label() {
    let entities = vec![ent("Alice", "person", 900_000), ent("Bob", "person", 850_000), ent("Acme Corp", "organization", 800_000)];
    let groups = group_by_label(entities);
    let person = groups.iter().find(|g| g.0 == "person").unwrap();
    let org = groups.iter().find(|g| g.0 == "organization").unwrap();
    assert_eq!(person.1.len(), 2);
    assert_eq!(org.1.len(), 1);
    assert_eq!(groups.len(), 2);
    assert_eq!(groups[0].0, "person");
}

#[test]
fn test_filter_by_confidence() {
    let entities = vec![ent("High", "test", 900_000), ent("Low", "test", 300_000)];
    let filtered = filter_by_confidence(entities, 500_000);
    assert_eq!(filtered.len(), 1);
    assert_eq!(filtered[0].text, "High");
}

#[test]
fn filter_by_confidence_keeps_the_boundary() {
    let filtered = filter_by_confidence(vec![ent("a", "x", 500_000), ent("b", "x", 499_999)], 500_000);
    assert_eq!(filtered.len(), 1);
    assert_eq!(filtered[0].text, "a");
}

fn diar(start: u64, end: u64, label: &str) -> DiarizedSegment {
    DiarizedSegment { start_ms: start, end_ms: end, speaker_id: 0, speaker_label: label.to_string() }
}

#[test]
fn store_speaker_relabelling() {
    let mut kb = KnowledgeBase::new();
    let m = kb.create_meeting("M".to_string(), vec![], 0).unwrap();
    let other = kb.create_meeting("O".to_string(), vec![], 0).unwrap();
    let none: Vec<Entity> = vec![];
    kb.add_segment(m, "Guest".to_string(), "a".to_string(), 0, 1000, vec![], &none, &vec![], &vec![], 1).unwrap();
    kb.add_segment(m, "You".to_string(), "b".to_string(), 3000, 4000, vec![], &none, &vec![], &vec![], 1).unwrap();
    kb.add_segment(other, "Guest".to_string(), "c".to_string(), 0, 1000, vec![], &none, &vec![], &vec![], 1).unwrap();
    let d = vec![diar(0, 2000, "Speaker 1"), diar(2500, 5000, "Speaker 2")];
    assert_eq!(kb.relabel_speakers(m, &d), 1);
    assert_eq!(kb.segments()[0].speaker, "Speaker 1");
    assert_eq!(kb.segments()[1].speaker, "You");
    assert_eq!(kb.segments()[2].speaker, "Guest");
    assert_eq!(kb.relabel_all_speakers(m, &d), 1);
    assert_eq!(kb.segments()[1].speaker, "Speaker 2");
    assert_eq!(kb.relabel_all_speakers(m, &d), 0);
    assert_eq!(kb.relabel_all_speakers(m, &vec![]), 0);
}

#[test]
fn stale_meetings_are_closed_an_hour_after_start() {
    let mut kb = KnowledgeBase::new();
    let hour = 3_600_000u64;
    let old = kb.create_meeting("old".to_string(), vec![], 0).unwrap();
    let fresh = kb.create_meeting("fresh".to_string(), vec![], 10 * hour).unwrap();
    let closed = kb.create_meeting("closed".to_string(), vec![], 0).unwrap();
    kb.end_meeting(closed, None, 5).unwrap();
    assert_eq!(kb.auto_end_stale_meetings(2, 11 * hour), 1);
    assert_eq!(kb.meetings()[0].id, old);
    assert_eq!(kb.meetings()[0].end_time, Some(hour));
    assert_eq!(kb.meetings()[1].id, fresh);
    assert_eq!(kb.meetings()[1].end_time, None);
    assert_eq!(kb.meetings()[2].end_time, Some(5));
    assert_eq!(kb.auto_end_stale_meetings(u64::MAX, 5), 0);
}

#[test]
fn action_items_and_decisions_by_hand() {
    let mut kb = KnowledgeBase::new();
    let m = kb.create_meeting("M".to_string(), vec![], 0).unwrap();
    let a = kb.add_action_item(m, "send notes".to_string(), Some("Ann".to_string()), None, 7).unwrap();
    assert_eq!(kb.action_items()[0].status, ActionStatus::Open);
    kb.update_action_item_status(a, ActionStatus::Done).unwrap();
    assert_eq!(kb.action_items()[0].status, ActionStatus::Done);
    kb.update_action_item_status(a, ActionStatus::Open).unwrap();
    assert_eq!(kb.update_action_item_status(999, ActionStatus::Done), Err(KbError::NotFound));
    assert_eq!(kb.add_action_item(999, "x".to_string(), None, None, 1), Err(KbError::NotFound));
    kb.add_decision(m, "ship".to_string(), 8).unwrap();
    kb.add_decision(m, "wait".to_string(), 9).unwrap();
    let recent = kb.get_recent_decisions(1);
    assert_eq!(recent.len(), 1);
    assert_eq!(recent[0].text, "wait");
    kb.update_meeting_summary(m, "sum".to_string()).unwrap();
    let got = kb.get_meeting(&format!("meeting:{}", m)).unwrap();
    assert_eq!(got.summary.as_deref(), Some("sum"));
    assert!(kb.get_meeting("meeting:999").is_none());
}

#[test]
fn open_actions_newest_first() {
    let mut kb = KnowledgeBase::new();
    let m = kb.create_meeting("M".to_string(), vec![], 0).unwrap();
    let first = kb.add_action_item(m, "first".to_string(), None, None, 5).unwrap();
    kb.add_action_item(m, "second".to_string(), None, None, 9).unwrap();
    kb.add_action_item(m, "third".to_string(), None, None, 9).unwrap();
    kb.update_action_item_status(first, ActionStatus::InProgress).unwrap();
    let open: Vec<String> = kb.get_open_actions().into_iter().map(|a| a.text).collect();
    assert_eq!(open, vec!["second".to_string(), "third".to_string()]);
}

#[test]
fn knowledge_source_lookup_in_both_forms() {
    let mut kb = KnowledgeBase::new();
    let id = kb.add_knowledge_source("https://x".to_string(), "X".to_string(), "body".to_string(), "url".to_string(), vec![], 3).unwrap();
    assert_eq!(kb.get_knowledge_source(&id.to_string()).unwrap().title, "X");
    assert_eq!(kb.get_knowledge_source(&format!("knowledge_source:{}", id)).unwrap().url, "https://x");
    assert!(kb.get_knowledge_source("knowledge_source:").is_none());
    kb.update_source_tags(id, vec!["a".to_string()], 4).unwrap();
    assert_eq!(kb.knowledge_sources()[0].tags, vec!["a".to_string()]);
    assert_eq!(kb.knowledge_sources()[0].last_updated, 4);
    assert_eq!(kb.update_source_tags(id + 100, vec![], 4), Err(KbError::NotFound));
}

#[test]
fn meeting_lists_and_per_meeting_items() {
    let mut kb = KnowledgeBase::new();
    let a = kb.create_meeting("A".to_string(), vec![], 10).unwrap();
    let b = kb.create_meeting("B".to_string(), vec![], 30).unwrap();
    let c = kb.create_meeting("C".to_string(), vec![], 20).unwrap();
    let order: Vec<u64> = kb.get_meetings(None).iter().map(|m| m.id).collect();
    assert_eq!(order, vec![b, c, a]);
    assert_eq!(kb.get_meetings(Some(1)).len(), 1);
    let none: Vec<Entity> = vec![];
    kb.add_segment(a, "S".to_string(), "late".to_string(), 500, 600, vec![], &none, &vec![], &vec![], 1).unwrap();
    kb.add_segment(a, "S".to_string(), "early".to_string(), 100, 200, vec![], &none, &vec![], &vec![], 1).unwrap();
    kb.add_segment(b, "S".to_string(), "other".to_string(), 0, 50, vec![], &none, &vec![], &vec![], 1).unwrap();
    let texts: Vec<String> = kb.get_meeting_segments(a).into_iter().map(|s| s.text).collect();
    assert_eq!(texts, vec!["early".to_string(), "late".to_string()]);
    kb.add_action_item(a, "old".to_string(), None, None, 1).unwrap();
    kb.add_action_item(a, "new".to_string(), None, None, 2).unwrap();
    kb.add_action_item(b, "elsewhere".to_string(), None, None, 3).unwrap();
    let acts: Vec<String> = kb.get_meeting_action_items(a).into_iter().map(|x| x.text).collect();
    assert_eq!(acts, vec!["new".to_string(), "old".to_string()]);
    kb.add_decision(b, "d1".to_string(), 4).unwrap();
    assert!(kb.get_meeting_decisions(a).is_empty());
    assert_eq!(kb.get_meeting_decisions(b).len(), 1);
}

#[test]
fn sources_by_tag_latest_first() {
    let mut kb = KnowledgeBase::new();
    let s1 = kb.add_knowledge_source("u1".to_string(), "one".to_string(), "".to_string(), "url".to_string(), vec!["rust".to_string()], 5).unwrap();
    kb.add_knowledge_source("u2".to_string(), "two".to_string(), "".to_string(), "file".to_string(), vec!["go".to_string()], 7).unwrap();
    kb.add_knowledge_source("u3".to_string(), "three".to_string(), "".to_string(), "url".to_string(), vec!["rust".to_string(), "go".to_string()], 6).unwrap();
    let all: Vec<String> = kb.get_knowledge_sources(&None).into_iter().map(|s| s.title).collect();
    assert_eq!(all, vec!["two".to_string(), "three".to_string(), "one".to_string()]);
    let rust: Vec<String> = kb.get_knowledge_sources(&Some(vec!["rust".to_string()])).into_iter().map(|s| s.title).collect();
    assert_eq!(rust, vec!["three".to_string(), "one".to_string()]);
    kb.update_source_tags(s1, vec![], 9).unwrap();
    assert_eq!(kb.get_knowledge_sources(&Some(vec!["rust".to_string()])).len(), 1);
    assert!(kb.get_knowledge_sources(&Some(vec![])).is_empty());
}

#[test]
fn per_meeting_graph_queries_and_text_search() {
    let mut kb = KnowledgeBase::new();
    let a = kb.create_meeting("A".to_string(), vec![], 0).unwrap();
    let b = kb.create_meeting("B".to_string(), vec![], 0).unwrap();
    let es_a = vec![ent("Ann", "person", 900_000), ent("Apollo", "project", 900_000)];
    let es_b = vec![ent("Ben", "person", 900_000), ent("Ann", "person", 900_000)];
    let rel = |s: &str, t: &str, c: u32| second_brain::model::Relationship {
        source: s.to_string(),
        source_type: "person".to_string(),
        relation: "discussed".to_string(),
        target: t.to_string(),
        target_type: "project".to_string(),
        confidence: c,
    };
    kb.add_segment(a, "S".to_string(), "Apollo launch plan".to_string(), 0, 1, vec![], &es_a, &vec![vec![], vec![]], &vec![rel("Ann", "Apollo", 600_000)], 1).unwrap();
    kb.add_segment(b, "S".to_string(), "budget talk".to_string(), 0, 1, vec![], &es_b, &vec![vec![], vec![]], &vec![rel("Ben", "Apollo", 900_000)], 2).unwrap();
    let people_b: Vec<String> = kb.get_meeting_people(b).into_iter().map(|p| p.name).collect();
    assert_eq!(people_b, vec!["Ann".to_string(), "Ben".to_string()]);
    assert_eq!(kb.get_meeting_topics(a).len(), 1);
    assert!(kb.get_meeting_topics(b).is_empty());
    let src = kb.add_knowledge_source("u".to_string(), "Doc".to_string(), "".to_string(), "url".to_string(), vec![], 3).unwrap();
    kb.link_knowledge_to_meeting(b, src, second_brain::model::LinkOrigin::Auto).unwrap();
    assert_eq!(kb.get_meeting_knowledge(b).len(), 1);
    assert!(kb.get_meeting_knowledge(a).is_empty());
    let hits = kb.search_text("launch", 10);
    assert_eq!(hits.len(), 1);
    assert_eq!(hits[0].meeting_id, a);
    assert!(kb.search_text("launch", 0).is_empty());
    let rels = kb.get_entity_relationships("Apollo", 5);
    let sources: Vec<String> = rels.into_iter().map(|r| r.source_entity).collect();
    assert_eq!(sources, vec!["Ben".to_string(), "Ann".to_string()]);
    assert_eq!(kb.get_entity_relationships("Apollo", 1).len(), 1);
}

#[test]
fn meeting_statistics() {
    let mut kb = KnowledgeBase::new();
    let m = kb.create_meeting("M".to_string(), vec![], 0).unwrap();
    let es = vec![ent("Ann", "person", 900_000), ent("Apollo", "topic", 900_000), ent("do it", "action_item", 900_000)];
    kb.add_segment(m, "S".to_string(), "  two words ".to_string(), 4000, 9000, vec![], &es, &vec![vec![], vec![], vec![]], &vec![], 1).unwrap();
    kb.add_segment(m, "S".to_string(), "one\tmore\nline here".to_string(), 1000, 3000, vec![], &vec![], &vec![], &vec![], 2).unwrap();
    let stats = kb.get_meeting_stats(m);
    assert_eq!(stats.segment_count, 2);
    assert_eq!(stats.action_count, 1);
    assert_eq!(stats.decision_count, 0);
    assert_eq!(stats.topic_count, 1);
    assert_eq!(stats.people_count, 1);
    assert_eq!(stats.duration_ms, 8000);
    assert_eq!(stats.total_words, 6);
    let empty = kb.get_meeting_stats(999);
    assert_eq!(empty.segment_count, 0);
    assert_eq!(empty.duration_ms, 0);
}

#[test]
fn all_items_carry_their_meeting_title() {
    let mut kb = KnowledgeBase::new();
    let a = kb.create_meeting("Alpha".to_string(), vec![], 0).unwrap();
    let b = kb.create_meeting("Beta".to_string(), vec![], 0).unwrap();
    kb.add_action_item(a, "a1".to_string(), None, None, 1).unwrap();
    kb.add_action_item(b, "b1".to_string(), None, None, 3).unwrap();
    kb.add_decision(a, "d1".to_string(), 2).unwrap();
    let all = kb.get_all_action_items(10);
    assert_eq!(all.len(), 2);
    assert_eq!(all[0].item.text, "b1");
    assert_eq!(all[0].meeting_title.as_deref(), Some("Beta"));
    assert_eq!(all[1].meeting_title.as_deref(), Some("Alpha"));
    kb.delete_meeting(b);
    let ds = kb.get_all_decisions(1);
    assert_eq!(ds.len(), 1);
    assert_eq!(ds[0].meeting_title.as_deref(), Some("Alpha"));
    assert!(kb.get_all_action_items(0).is_empty());
}

#[test]
fn related_people_share_a_meeting() {
    let mut kb = KnowledgeBase::new();
    let a = kb.create_meeting("A".to_string(), vec![], 0).unwrap();
    let b = kb.create_meeting("B".to_string(), vec![], 0).unwrap();
    let seg = |kb: &mut KnowledgeBase, m: u64, names: &[&str]| {
        let es: Vec<Entity> = names.iter().map(|n| ent(n, "person", 900_000)).collect();
        let embs: Vec<Vec<u32>> = es.iter().map(|_| vec![]).collect();
        kb.add_segment(m, "S".to_string(), "t".to_string(), 0, 1, vec![], &es, &embs, &vec![], 1).unwrap();
    };
    seg(&mut kb, a, &["Ann", "Bob"]);
    seg(&mut kb, b, &["Cid", "Dee"]);
    seg(&mut kb, b, &["Bob"]);
    assert_eq!(kb.get_related_people("Ann"), vec!["Bob".to_string()]);
    assert_eq!(kb.get_related_people("Bob"), vec!["Ann".to_string(), "Cid".to_string(), "Dee".to_string()]);
    assert!(kb.get_related_people("Nobody").is_empty());
}

#[test]
fn segment_similarity_search() {
    let mut kb = KnowledgeBase::new();
    let a = kb.create_meeting("Alpha".to_string(), vec![], 0).unwrap();
    let none: Vec<Entity> = vec![];
    kb.add_segment(a, "S".to_string(), "x".to_string(), 0, 1, vec![], &none, &vec![], &vec![], 1).unwrap();
    kb.add_segment(a, "S".to_string(), "y".to_string(), 0, 1, vec![], &none, &vec![], &vec![], 1).unwrap();
    let hits = kb.search_similar(&vec![4, 8], 5);
    assert_eq!(hits.len(), 2);
    assert_eq!(hits[0].segment.text, "y");
    assert_eq!(hits[0].meeting_title, "Alpha");
    assert_eq!(hits[0].score, 8);
    kb.delete_meeting(a);
    assert!(kb.search_similar(&vec![], 5).is_empty());
}
