//! The graph-relational store: meetings, transcript segments, the people and
//! topics found in them, action items, decisions, knowledge sources with
//! their chunks, relationships between entities, and graph edges.
//!
//! Every operation is a function of its arguments and of the store: the
//! caller hands in the current time, the embeddings and what the extractor
//! found.
use vstd::prelude::*;
use crate::model::{
    ActionItem, ActionRow, ActionStatus, ChunkRow, Decision, DecisionRow, Entity, EntityRelation,
    GraphEdge, KnowledgeChunk, LinkOrigin, opt_text, KnowledgeSource, Meeting, MeetingKnowledge, MeetingRow, Person,
    PersonRow, RelationRow, Relationship, SegmentRow, SourceRow, Topic, TopicRow,
    TranscriptSegment,
};
use crate::ids::{format_id, format_record_id, parse_id, parse_record_id, Table};
use crate::rank::is_top_k;
use crate::temporal::{parse_temporal_context, temporal_matches, TemporalContext, DAY_MS};
use crate::diarization::{midpoint, DiarizedSegment};
use crate::chunker::{chunks_of, extraction_paragraphs, paragraphs_for_extraction, Chunk, DocumentChunker};
use crate::text::{chars_of, contains, contains_exec, str_eq, string_of};

verus! {

/// Confidences are written in millionths.
pub const CONFIDENCE_SCALE: u32 = 1000000;

/// Relationships below this confidence are never stored.
pub const MIN_RELATION_CONFIDENCE: u32 = 500000;

/// Why a store operation did not take place.
#[derive(Debug, Clone, Copy, PartialEq, Eq, Structural)]
pub enum KbError {
    /// The referenced meeting or source is absent.
    NotFound,
    /// A required input is malformed, or a unique key is taken.
    ValidationFailure,
    /// The store has given out every identifier it can.
    IdsExhausted,
}

/// The kind of graph node that an extracted entity label stands for.
#[derive(Debug, Clone, Copy, PartialEq, Eq, Structural)]
pub enum EntityKind {
    Person,
    Topic,
    Organization,
    ActionItem,
    Decision,
    Other,
}

/// Where extracted entities came from.
#[derive(Debug, Clone, Copy, PartialEq, Eq, Structural)]
pub enum Origin {
    Meeting(u64),
    Source(u64),
}

/// The kind of an entity label.
pub open spec fn kind_of(label: Seq<char>) -> EntityKind {
    if label == "person"@ {
        EntityKind::Person
    } else if label == "topic"@ || label == "project"@ || label == "product"@ {
        EntityKind::Topic
    } else if label == "organization"@ {
        EntityKind::Organization
    } else if label == "action_item"@ {
        EntityKind::ActionItem
    } else if label == "decision"@ {
        EntityKind::Decision
    } else {
        EntityKind::Other
    }
}

/// The kind of an entity label.
pub fn kind_of_label(label: &str) -> (k: EntityKind)
    ensures
        k == kind_of(label@),
{
    if str_eq(label, "person") {
        EntityKind::Person
    } else if str_eq(label, "topic") || str_eq(label, "project") || str_eq(label, "product") {
        EntityKind::Topic
    } else if str_eq(label, "organization") {
        EntityKind::Organization
    } else if str_eq(label, "action_item") {
        EntityKind::ActionItem
    } else if str_eq(label, "decision") {
        EntityKind::Decision
    } else {
        EntityKind::Other
    }
}

/// The whole content of the store.
pub struct KbView {
    pub meetings: Seq<MeetingRow>,
    pub segments: Seq<SegmentRow>,
    pub people: Seq<PersonRow>,
    pub topics: Seq<TopicRow>,
    pub actions: Seq<ActionRow>,
    pub decisions: Seq<DecisionRow>,
    pub sources: Seq<SourceRow>,
    pub chunks: Seq<ChunkRow>,
    pub relations: Seq<RelationRow>,
    pub links: Seq<MeetingKnowledge>,
    pub mentioned_in: Seq<GraphEdge>,
    pub discussed_in: Seq<GraphEdge>,
    pub next_id: u64,
}

/// The first person with this name.
pub open spec fn find_person(people: Seq<PersonRow>, name: Seq<char>) -> Option<int>
    decreases people.len(),
{
    if people.len() == 0 {
        None
    } else if people[0].name == name {
        Some(0)
    } else {
        match find_person(people.drop_first(), name) {
            Some(i) => Some(i + 1),
            None => None,
        }
    }
}

/// The first topic with this name.
pub open spec fn find_topic(topics: Seq<TopicRow>, name: Seq<char>) -> Option<int>
    decreases topics.len(),
{
    if topics.len() == 0 {
        None
    } else if topics[0].name == name {
        Some(0)
    } else {
        match find_topic(topics.drop_first(), name) {
            Some(i) => Some(i + 1),
            None => None,
        }
    }
}

/// The position of the meeting with this identifier.
pub open spec fn find_meeting(meetings: Seq<MeetingRow>, id: u64) -> Option<int>
    decreases meetings.len(),
{
    if meetings.len() == 0 {
        None
    } else if meetings[0].id == id {
        Some(0)
    } else {
        match find_meeting(meetings.drop_first(), id) {
            Some(i) => Some(i + 1),
            None => None,
        }
    }
}

/// The position of the source with this identifier.
pub open spec fn find_source(sources: Seq<SourceRow>, id: u64) -> Option<int>
    decreases sources.len(),
{
    if sources.len() == 0 {
        None
    } else if sources[0].id == id {
        Some(0)
    } else {
        match find_source(sources.drop_first(), id) {
            Some(i) => Some(i + 1),
            None => None,
        }
    }
}

pub open spec fn min_u64(a: u64, b: u64) -> u64 {
    if a <= b {
        a
    } else {
        b
    }
}

pub open spec fn max_u64(a: u64, b: u64) -> u64 {
    if a >= b {
        a
    } else {
        b
    }
}

/// A person seen at `now`: first and last sightings widen to include it, or
/// a new person is added.
pub open spec fn upsert_person(s: KbView, name: Seq<char>, now: u64) -> KbView {
    match find_person(s.people, name) {
        Some(i) => {
            let p = s.people[i];
            KbView {
                people: s.people.update(
                    i,
                    PersonRow {
                        first_seen: min_u64(p.first_seen, now),
                        last_seen: max_u64(p.last_seen, now),
                        ..p
                    },
                ),
                ..s
            }
        },
        None => if s.next_id == u64::MAX {
            s
        } else {
            KbView {
                people: s.people.push(
                    PersonRow {
                        id: s.next_id,
                        name,
                        aliases: Seq::empty(),
                        first_seen: now,
                        last_seen: now,
                    },
                ),
                next_id: (s.next_id + 1) as u64,
                ..s
            }
        },
    }
}

/// A topic mentioned at `now`: one more mention, the latest embedding wins.
pub open spec fn upsert_topic(s: KbView, name: Seq<char>, embedding: Seq<u32>, now: u64) -> KbView {
    match find_topic(s.topics, name) {
        Some(i) => {
            let t = s.topics[i];
            KbView {
                topics: s.topics.update(
                    i,
                    TopicRow {
                        embedding,
                        mention_count: if t.mention_count < u32::MAX {
                            (t.mention_count + 1) as u32
                        } else {
                            t.mention_count
                        },
                        last_mentioned: now,
                        ..t
                    },
                ),
                ..s
            }
        },
        None => if s.next_id == u64::MAX {
            s
        } else {
            KbView {
                topics: s.topics.push(
                    TopicRow { id: s.next_id, name, embedding, mention_count: 1, last_mentioned: now },
                ),
                next_id: (s.next_id + 1) as u64,
                ..s
            }
        },
    }
}

/// The store after one extracted entity.
pub open spec fn entity_step(
    s: KbView,
    text: Seq<char>,
    label: Seq<char>,
    embedding: Seq<u32>,
    origin: Origin,
    now: u64,
) -> KbView {
    match (kind_of(label), origin) {
        (EntityKind::Person, Origin::Meeting(m)) => {
            let t = upsert_person(s, text, now);
            match find_person(t.people, text) {
                Some(i) => KbView {
                    mentioned_in: t.mentioned_in.push(GraphEdge { from: t.people[i].id, to: m }),
                    ..t
                },
                None => t,
            }
        },
        (EntityKind::Person, Origin::Source(_)) => upsert_person(s, text, now),
        (EntityKind::Topic, Origin::Meeting(m)) => {
            let t = upsert_topic(s, text, embedding, now);
            match find_topic(t.topics, text) {
                Some(i) => KbView {
                    discussed_in: t.discussed_in.push(GraphEdge { from: t.topics[i].id, to: m }),
                    ..t
                },
                None => t,
            }
        },
        (EntityKind::Topic, Origin::Source(_)) => upsert_topic(s, text, embedding, now),
        (EntityKind::Organization, Origin::Source(_)) => upsert_topic(s, text, embedding, now),
        (EntityKind::ActionItem, Origin::Meeting(m)) => if s.next_id == u64::MAX {
            s
        } else {
            KbView {
                actions: s.actions.push(
                    ActionRow {
                        id: s.next_id,
                        meeting_id: m,
                        text,
                        assignee: None,
                        deadline: None,
                        status: ActionStatus::Open,
                        created_at: now,
                    },
                ),
                next_id: (s.next_id + 1) as u64,
                ..s
            }
        },
        (EntityKind::Decision, Origin::Meeting(m)) => if s.next_id == u64::MAX {
            s
        } else {
            KbView {
                decisions: s.decisions.push(
                    DecisionRow {
                        id: s.next_id,
                        meeting_id: m,
                        text,
                        participants: Seq::empty(),
                        created_at: now,
                    },
                ),
                next_id: (s.next_id + 1) as u64,
                ..s
            }
        },
        _ => s,
    }
}

/// The store after the entities `es`, in order; `embs[i]` is the embedding of `es[i]`.
pub open spec fn apply_entities(
    s: KbView,
    es: Seq<Entity>,
    embs: Seq<Vec<u32>>,
    origin: Origin,
    now: u64,
) -> KbView
    decreases es.len(),
{
    if es.len() == 0 || embs.len() < es.len() {
        s
    } else {
        let k = (es.len() - 1) as int;
        entity_step(
            apply_entities(s, es.drop_last(), embs.subrange(0, k), origin, now),
            es[k].text@,
            es[k].label@,
            embs[k]@,
            origin,
            now,
        )
    }
}

/// The store after one extracted relationship: kept only from the threshold up.
pub open spec fn relation_step(s: KbView, r: Relationship, origin: Origin, now: u64) -> KbView {
    if r.confidence < MIN_RELATION_CONFIDENCE || s.next_id == u64::MAX {
        s
    } else {
        KbView {
            relations: s.relations.push(
                RelationRow {
                    id: s.next_id,
                    source_entity: r.source@,
                    source_type: r.source_type@,
                    relation: r.relation@,
                    target_entity: r.target@,
                    target_type: r.target_type@,
                    confidence: r.confidence,
                    meeting_id: match origin {
                        Origin::Meeting(m) => Some(m),
                        Origin::Source(_) => None,
                    },
                    knowledge_source_id: match origin {
                        Origin::Meeting(_) => None,
                        Origin::Source(k) => Some(k),
                    },
                    created_at: now,
                },
            ),
            next_id: (s.next_id + 1) as u64,
            ..s
        }
    }
}

/// The store after the relationships `rs`, in order.
pub open spec fn apply_relations(s: KbView, rs: Seq<Relationship>, origin: Origin, now: u64) -> KbView
    decreases rs.len(),
{
    if rs.len() == 0 {
        s
    } else {
        relation_step(apply_relations(s, rs.drop_last(), origin, now), rs.last(), origin, now)
    }
}

/// The invariant of the store.
pub open spec fn wf(s: KbView) -> bool {
    &&& forall|i: int, j: int|
        0 <= i < j < s.people.len() ==> s.people[i].name != s.people[j].name
    &&& forall|i: int, j: int|
        0 <= i < j < s.topics.len() ==> s.topics[i].name != s.topics[j].name
    &&& forall|i: int, j: int|
        0 <= i < j < s.sources.len() ==> s.sources[i].url != s.sources[j].url
    &&& forall|i: int|
        0 <= i < s.relations.len() ==> MIN_RELATION_CONFIDENCE <= #[trigger] s.relations[i].confidence
            <= CONFIDENCE_SCALE
    &&& forall|i: int|
        0 <= i < s.meetings.len() && (#[trigger] s.meetings[i]).end_time is Some
            ==> s.meetings[i].end_time->0 >= s.meetings[i].start_time
}

/// The knowledge graph store.
pub struct KnowledgeBase {
    meetings: Vec<Meeting>,
    segments: Vec<TranscriptSegment>,
    people: Vec<Person>,
    topics: Vec<Topic>,
    actions: Vec<ActionItem>,
    decisions: Vec<Decision>,
    sources: Vec<KnowledgeSource>,
    chunks: Vec<KnowledgeChunk>,
    relations: Vec<EntityRelation>,
    links: Vec<MeetingKnowledge>,
    mentioned_in: Vec<GraphEdge>,
    discussed_in: Vec<GraphEdge>,
    next_id: u64,
}

impl View for KnowledgeBase {
    type V = KbView;

    closed spec fn view(&self) -> KbView {
        KbView {
            meetings: self.meetings@.map_values(|m: Meeting| m@),
            segments: self.segments@.map_values(|m: TranscriptSegment| m@),
            people: self.people@.map_values(|m: Person| m@),
            topics: self.topics@.map_values(|m: Topic| m@),
            actions: self.actions@.map_values(|m: ActionItem| m@),
            decisions: self.decisions@.map_values(|m: Decision| m@),
            sources: self.sources@.map_values(|m: KnowledgeSource| m@),
            chunks: self.chunks@.map_values(|m: KnowledgeChunk| m@),
            relations: self.relations@.map_values(|m: EntityRelation| m@),
            links: self.links@,
            mentioned_in: self.mentioned_in@,
            discussed_in: self.discussed_in@,
            next_id: self.next_id,
        }
    }
}

impl KnowledgeBase {
    /// The invariant of the store.
    pub open spec fn wf(&self) -> bool {
        wf(self@)
    }

    /// An empty store.
    pub fn new() -> (r: KnowledgeBase)
        ensures
            r.wf(),
            r@.meetings.len() == 0,
            r@.segments.len() == 0,
            r@.people.len() == 0,
            r@.topics.len() == 0,
            r@.actions.len() == 0,
            r@.decisions.len() == 0,
            r@.sources.len() == 0,
            r@.chunks.len() == 0,
            r@.relations.len() == 0,
            r@.links.len() == 0,
            r@.mentioned_in.len() == 0,
            r@.discussed_in.len() == 0,
            r@.next_id == 1,
    {
        KnowledgeBase {
            meetings: Vec::new(),
            segments: Vec::new(),
            people: Vec::new(),
            topics: Vec::new(),
            actions: Vec::new(),
            decisions: Vec::new(),
            sources: Vec::new(),
            chunks: Vec::new(),
            relations: Vec::new(),
            links: Vec::new(),
            mentioned_in: Vec::new(),
            discussed_in: Vec::new(),
            next_id: 1,
        }
    }

    fn find_person_index(&self, name: &str) -> (r: Option<usize>)
        ensures
            match r {
                Some(i) => find_person(self@.people, name@) == Some(i as int),
                None => find_person(self@.people, name@) is None,
            },
    {
        let mut i: usize = 0;
        assert(self@.people.subrange(0, self@.people.len() as int) =~= self@.people);
        while i < self.people.len()
            invariant
                i <= self.people.len(),
                self@.people.len() == self.people@.len(),
                find_person(self@.people, name@) == match find_person(
                    self@.people.subrange(i as int, self@.people.len() as int),
                    name@,
                ) {
                    Some(k) => Some(k + i),
                    None => None,
                },
            decreases self.people.len() - i,
        {
            let ghost rest = self@.people.subrange(i as int, self@.people.len() as int);
            assert(rest.drop_first() =~= self@.people.subrange(i + 1, self@.people.len() as int));
            if str_eq(self.people[i].name.as_str(), name) {
                return Some(i);
            }
            i += 1;
        }
        None
    }

    fn find_topic_index(&self, name: &str) -> (r: Option<usize>)
        ensures
            match r {
                Some(i) => find_topic(self@.topics, name@) == Some(i as int),
                None => find_topic(self@.topics, name@) is None,
            },
    {
        let mut i: usize = 0;
        assert(self@.topics.subrange(0, self@.topics.len() as int) =~= self@.topics);
        while i < self.topics.len()
            invariant
                i <= self.topics.len(),
                self@.topics.len() == self.topics@.len(),
                find_topic(self@.topics, name@) == match find_topic(
                    self@.topics.subrange(i as int, self@.topics.len() as int),
                    name@,
                ) {
                    Some(k) => Some(k + i),
                    None => None,
                },
            decreases self.topics.len() - i,
        {
            let ghost rest = self@.topics.subrange(i as int, self@.topics.len() as int);
            assert(rest.drop_first() =~= self@.topics.subrange(i + 1, self@.topics.len() as int));
            if str_eq(self.topics[i].name.as_str(), name) {
                return Some(i);
            }
            i += 1;
        }
        None
    }
}


proof fn lemma_find_person(people: Seq<PersonRow>, name: Seq<char>)
    ensures
        match find_person(people, name) {
            Some(i) => 0 <= i < people.len() && people[i].name == name && forall|j: int|
                0 <= j < i ==> people[j].name != name,
            None => forall|j: int| 0 <= j < people.len() ==> people[j].name != name,
        },
    decreases people.len(),
{
    if people.len() > 0 {
        lemma_find_person(people.drop_first(), name);
        assert forall|j: int| 1 <= j < people.len() implies people[j] == people.drop_first()[j - 1] by {}
    }
}

proof fn lemma_find_topic(topics: Seq<TopicRow>, name: Seq<char>)
    ensures
        match find_topic(topics, name) {
            Some(i) => 0 <= i < topics.len() && topics[i].name == name && forall|j: int|
                0 <= j < i ==> topics[j].name != name,
            None => forall|j: int| 0 <= j < topics.len() ==> topics[j].name != name,
        },
    decreases topics.len(),
{
    if topics.len() > 0 {
        lemma_find_topic(topics.drop_first(), name);
        assert forall|j: int| 1 <= j < topics.len() implies topics[j] == topics.drop_first()[j - 1] by {}
    }
}

impl KnowledgeBase {
    fn upsert_person_exec(&mut self, name: &String, now: u64)
        requires
            old(self).wf(),
        ensures
            final(self)@ == upsert_person(old(self)@, name@, now),
            final(self).wf(),
    {
        proof {
            lemma_find_person(self@.people, name@);
        }
        match self.find_person_index(name.as_str()) {
            Some(i) => {
                let ghost before = self@;
                let f = if self.people[i].first_seen <= now {
                    self.people[i].first_seen
                } else {
                    now
                };
                let l = if self.people[i].last_seen >= now {
                    self.people[i].last_seen
                } else {
                    now
                };
                let ghost old_people = self.people@;
                self.people[i].first_seen = f;
                self.people[i].last_seen = l;
                assert(self.people@.len() == old_people.len());
                assert(forall|j: int| 0 <= j < old_people.len() && j != i ==> self.people@[j] == old_people[j]);
                assert(self.people@[i as int]@ == upsert_person(before, name@, now).people[i as int]);
                assert forall|j: int| 0 <= j < old_people.len() && j != i implies self@.people[j]
                    == before.people[j] by {
                    assert(self@.people[j] == self.people@[j]@);
                    assert(before.people[j] == old_people[j]@);
                }
                assert(self@.people[i as int] == self.people@[i as int]@);
                assert(self@.people.len() == upsert_person(before, name@, now).people.len());
                assert(self@.people =~= upsert_person(before, name@, now).people);
            },
            None => {
                if self.next_id < u64::MAX {
                    let ghost before = self@;
                    let p = Person {
                        id: self.next_id,
                        name: name.clone(),
                        aliases: Vec::new(),
                        first_seen: now,
                        last_seen: now,
                    };
                    assert(p.aliases.deep_view() =~= Seq::<Seq<char>>::empty());
                    self.people.push(p);
                    self.next_id = self.next_id + 1;
                    assert(self@.people =~= upsert_person(before, name@, now).people);
                }
            },
        }
    }

    fn upsert_topic_exec(&mut self, name: &String, embedding: Vec<u32>, now: u64)
        requires
            old(self).wf(),
        ensures
            final(self)@ == upsert_topic(old(self)@, name@, embedding@, now),
            final(self).wf(),
    {
        proof {
            lemma_find_topic(self@.topics, name@);
        }
        match self.find_topic_index(name.as_str()) {
            Some(i) => {
                let ghost before = self@;
                let c = self.topics[i].mention_count;
                let c2 = if c < u32::MAX {
                    c + 1
                } else {
                    c
                };
                let ghost old_topics = self.topics@;
                let ghost e = embedding@;
                self.topics[i].mention_count = c2;
                self.topics[i].last_mentioned = now;
                self.topics[i].embedding = embedding;
                assert(self.topics@.len() == old_topics.len());
                assert(forall|j: int| 0 <= j < old_topics.len() && j != i ==> self.topics@[j] == old_topics[j]);
                assert(before.topics[i as int] == old_topics[i as int]@);
                assert(self.topics@[i as int].embedding@ == e);
                assert(self.topics@[i as int]@ == upsert_topic(before, name@, e, now).topics[i as int]);
                assert forall|j: int| 0 <= j < old_topics.len() && j != i implies self@.topics[j]
                    == before.topics[j] by {
                    assert(self@.topics[j] == self.topics@[j]@);
                    assert(before.topics[j] == old_topics[j]@);
                }
                assert(self@.topics =~= upsert_topic(before, name@, e, now).topics);
            },
            None => {
                if self.next_id < u64::MAX {
                    let ghost before = self@;
                    let ghost e = embedding@;
                    let t = Topic {
                        id: self.next_id,
                        name: name.clone(),
                        embedding,
                        mention_count: 1,
                        last_mentioned: now,
                    };
                    self.topics.push(t);
                    self.next_id = self.next_id + 1;
                    assert(self@.topics =~= upsert_topic(before, name@, e, now).topics);
                }
            },
        }
    }
}


/// The store with one more segment, which takes the next identifier.
pub open spec fn store_segment(s: KbView, seg: SegmentRow) -> KbView {
    KbView { segments: s.segments.push(seg), next_id: (s.next_id + 1) as u64, ..s }
}

/// The store after a segment and what the extractor found in it.
pub open spec fn ingest_segment(
    s: KbView,
    seg: SegmentRow,
    es: Seq<Entity>,
    embs: Seq<Vec<u32>>,
    rs: Seq<Relationship>,
    now: u64,
) -> KbView {
    let origin = Origin::Meeting(seg.meeting_id);
    apply_relations(apply_entities(store_segment(s, seg), es, embs, origin, now), rs, origin, now)
}

/// Every relationship in `rs` has a confidence within the scale.
pub open spec fn confidences_in_scale(rs: Seq<Relationship>) -> bool {
    forall|i: int| 0 <= i < rs.len() ==> #[trigger] rs[i].confidence <= CONFIDENCE_SCALE
}

impl KnowledgeBase {
    fn find_meeting_index(&self, id: u64) -> (r: Option<usize>)
        ensures
            match r {
                Some(i) => find_meeting(self@.meetings, id) == Some(i as int) && i < self@.meetings.len(),
                None => find_meeting(self@.meetings, id) is None,
            },
    {
        let mut i: usize = 0;
        assert(self@.meetings.subrange(0, self@.meetings.len() as int) =~= self@.meetings);
        while i < self.meetings.len()
            invariant
                i <= self.meetings.len(),
                self@.meetings.len() == self.meetings@.len(),
                find_meeting(self@.meetings, id) == match find_meeting(
                    self@.meetings.subrange(i as int, self@.meetings.len() as int),
                    id,
                ) {
                    Some(k) => Some(k + i),
                    None => None,
                },
            decreases self.meetings.len() - i,
        {
            let ghost rest = self@.meetings.subrange(i as int, self@.meetings.len() as int);
            assert(rest.drop_first() =~= self@.meetings.subrange(i + 1, self@.meetings.len() as int));
            if self.meetings[i].id == id {
                return Some(i);
            }
            i += 1;
        }
        None
    }

    fn find_source_index(&self, id: u64) -> (r: Option<usize>)
        ensures
            match r {
                Some(i) => find_source(self@.sources, id) == Some(i as int) && i < self@.sources.len(),
                None => find_source(self@.sources, id) is None,
            },
    {
        let mut i: usize = 0;
        assert(self@.sources.subrange(0, self@.sources.len() as int) =~= self@.sources);
        while i < self.sources.len()
            invariant
                i <= self.sources.len(),
                self@.sources.len() == self.sources@.len(),
                find_source(self@.sources, id) == match find_source(
                    self@.sources.subrange(i as int, self@.sources.len() as int),
                    id,
                ) {
                    Some(k) => Some(k + i),
                    None => None,
                },
            decreases self.sources.len() - i,
        {
            let ghost rest = self@.sources.subrange(i as int, self@.sources.len() as int);
            assert(rest.drop_first() =~= self@.sources.subrange(i + 1, self@.sources.len() as int));
            if self.sources[i].id == id {
                return Some(i);
            }
            i += 1;
        }
        None
    }

    fn apply_entity(&mut self, e: &Entity, embedding: Vec<u32>, origin: Origin, now: u64)
        requires
            old(self).wf(),
        ensures
            final(self)@ == entity_step(old(self)@, e.text@, e.label@, embedding@, origin, now),
            final(self).wf(),
    {
        let ghost s0 = self@;
        let ghost emb = embedding@;
        let kind = kind_of_label(e.label.as_str());
        match (kind, origin) {
            (EntityKind::Person, Origin::Meeting(m)) => {
                self.upsert_person_exec(&e.text, now);
                let ghost t = self@;
                match self.find_person_index(e.text.as_str()) {
                    Some(i) => {
                        proof {
                            lemma_find_person(t.people, e.text@);
                        }
                        let pid = self.people[i].id;
                        self.mentioned_in.push(GraphEdge { from: pid, to: m });
                        assert(self@ == entity_step(s0, e.text@, e.label@, emb, origin, now));
                    },
                    None => {},
                }
            },
            (EntityKind::Person, Origin::Source(_)) => {
                self.upsert_person_exec(&e.text, now);
            },
            (EntityKind::Topic, Origin::Meeting(m)) => {
                self.upsert_topic_exec(&e.text, embedding, now);
                let ghost t = self@;
                match self.find_topic_index(e.text.as_str()) {
                    Some(i) => {
                        proof {
                            lemma_find_topic(t.topics, e.text@);
                        }
                        let tid = self.topics[i].id;
                        self.discussed_in.push(GraphEdge { from: tid, to: m });
                        assert(self@ == entity_step(s0, e.text@, e.label@, emb, origin, now));
                    },
                    None => {},
                }
            },
            (EntityKind::Topic, Origin::Source(_)) => {
                self.upsert_topic_exec(&e.text, embedding, now);
            },
            (EntityKind::Organization, Origin::Source(_)) => {
                self.upsert_topic_exec(&e.text, embedding, now);
            },
            (EntityKind::ActionItem, Origin::Meeting(m)) => {
                if self.next_id < u64::MAX {
                    let a = ActionItem {
                        id: self.next_id,
                        meeting_id: m,
                        text: e.text.clone(),
                        assignee: None,
                        deadline: None,
                        status: ActionStatus::Open,
                        created_at: now,
                    };
                    self.actions.push(a);
                    self.next_id = self.next_id + 1;
                    assert(self@.actions =~= entity_step(s0, e.text@, e.label@, emb, origin, now).actions);
                }
            },
            (EntityKind::Decision, Origin::Meeting(m)) => {
                if self.next_id < u64::MAX {
                    let d = Decision {
                        id: self.next_id,
                        meeting_id: m,
                        text: e.text.clone(),
                        participants: Vec::new(),
                        created_at: now,
                    };
                    assert(d.participants.deep_view() =~= Seq::<Seq<char>>::empty());
                    self.decisions.push(d);
                    self.next_id = self.next_id + 1;
                    assert(self@.decisions =~= entity_step(s0, e.text@, e.label@, emb, origin, now).decisions);
                }
            },
            _ => {},
        }
    }

    fn apply_relationship(&mut self, r: &Relationship, origin: Origin, now: u64)
        requires
            old(self).wf(),
            r.confidence <= CONFIDENCE_SCALE,
        ensures
            final(self)@ == relation_step(old(self)@, *r, origin, now),
            final(self).wf(),
    {
        if r.confidence >= MIN_RELATION_CONFIDENCE && self.next_id < u64::MAX {
            let ghost s0 = self@;
            let rel = EntityRelation {
                id: self.next_id,
                source_entity: r.source.clone(),
                source_type: r.source_type.clone(),
                relation: r.relation.clone(),
                target_entity: r.target.clone(),
                target_type: r.target_type.clone(),
                confidence: r.confidence,
                meeting_id: match origin {
                    Origin::Meeting(m) => Some(m),
                    Origin::Source(_) => None,
                },
                knowledge_source_id: match origin {
                    Origin::Meeting(_) => None,
                    Origin::Source(k) => Some(k),
                },
                created_at: now,
            };
            self.relations.push(rel);
            self.next_id = self.next_id + 1;
            assert(self@.relations =~= relation_step(s0, *r, origin, now).relations);
        }
    }

    /// Applies what the extractor found, entity by entity, then relationship
    /// by relationship.
    fn apply_extraction(
        &mut self,
        entities: &Vec<Entity>,
        embeddings: &Vec<Vec<u32>>,
        relationships: &Vec<Relationship>,
        origin: Origin,
        now: u64,
    )
        requires
            old(self).wf(),
            embeddings@.len() == entities@.len(),
            confidences_in_scale(relationships@),
        ensures
            final(self)@ == apply_relations(
                apply_entities(old(self)@, entities@, embeddings@, origin, now),
                relationships@,
                origin,
                now,
            ),
            final(self).wf(),
    {
        let ghost s0 = self@;
        let mut i: usize = 0;
        while i < entities.len()
            invariant
                i <= entities.len(),
                embeddings@.len() == entities@.len(),
                self.wf(),
                self@ == apply_entities(
                    s0,
                    entities@.subrange(0, i as int),
                    embeddings@.subrange(0, i as int),
                    origin,
                    now,
                ),
            decreases entities.len() - i,
        {
            let emb = crate::model::copy_bits(&embeddings[i]);
            self.apply_entity(&entities[i], emb, origin, now);
            proof {
                let es = entities@.subrange(0, i + 1);
                assert(es.drop_last() =~= entities@.subrange(0, i as int));
                assert(embeddings@.subrange(0, i + 1).subrange(0, i as int) =~= embeddings@.subrange(0, i as int));
            }
            i += 1;
        }
        assert(entities@.subrange(0, entities.len() as int) =~= entities@);
        assert(embeddings@.subrange(0, entities.len() as int) =~= embeddings@);
        let ghost s1 = self@;
        let mut j: usize = 0;
        while j < relationships.len()
            invariant
                j <= relationships.len(),
                confidences_in_scale(relationships@),
                self.wf(),
                self@ == apply_relations(s1, relationships@.subrange(0, j as int), origin, now),
            decreases relationships.len() - j,
        {
            self.apply_relationship(&relationships[j], origin, now);
            proof {
                let rs = relationships@.subrange(0, j + 1);
                assert(rs.drop_last() =~= relationships@.subrange(0, j as int));
            }
            j += 1;
        }
        assert(relationships@.subrange(0, relationships.len() as int) =~= relationships@);
    }

    /// Stores a transcript segment of a meeting, then the people, topics,
    /// action items, decisions and relationships that the extractor found in
    /// it. `topic_embeddings[i]` is the embedding of `entities[i]`'s text
    /// (empty where none was made). Relationships below the confidence
    /// threshold are dropped.
    pub fn add_segment(
        &mut self,
        meeting_id: u64,
        speaker: String,
        text: String,
        start_ms: u64,
        end_ms: u64,
        embedding: Vec<u32>,
        entities: &Vec<Entity>,
        topic_embeddings: &Vec<Vec<u32>>,
        relationships: &Vec<Relationship>,
        now: u64,
    ) -> (r: Result<u64, KbError>)
        requires
            old(self).wf(),
            topic_embeddings@.len() == entities@.len(),
            confidences_in_scale(relationships@),
        ensures
            final(self).wf(),
            find_meeting(old(self)@.meetings, meeting_id) is None ==> r == Err::<u64, KbError>(
                KbError::NotFound,
            ) && final(self)@ == old(self)@,
            find_meeting(old(self)@.meetings, meeting_id) is Some && old(self)@.next_id == u64::MAX
                ==> r == Err::<u64, KbError>(KbError::IdsExhausted) && final(self)@ == old(self)@,
            find_meeting(old(self)@.meetings, meeting_id) is Some && old(self)@.next_id < u64::MAX
                ==> r == Ok::<u64, KbError>(old(self)@.next_id) && final(self)@ == ingest_segment(
                old(self)@,
                (SegmentRow {
                    id: old(self)@.next_id,
                    meeting_id,
                    speaker: speaker@,
                    text: text@,
                    start_ms,
                    end_ms,
                    embedding: embedding@,
                }),
                entities@,
                topic_embeddings@,
                relationships@,
                now,
            ),
    {
        if self.find_meeting_index(meeting_id).is_none() {
            return Err(KbError::NotFound);
        }
        if self.next_id == u64::MAX {
            return Err(KbError::IdsExhausted);
        }
        let id = self.next_id;
        let ghost s0 = self@;
        let seg = TranscriptSegment { id, meeting_id, speaker, text, start_ms, end_ms, embedding };
        let ghost row = seg@;
        self.segments.push(seg);
        self.next_id = id + 1;
        assert(self@.segments =~= store_segment(s0, row).segments);
        self.apply_extraction(entities, topic_embeddings, relationships, Origin::Meeting(meeting_id), now);
        Ok(id)
    }
}


/// Drops the rows for which `meeting_id == key`, keeping the order of the others.
fn drop_segments_of_meeting(v: &mut Vec<TranscriptSegment>, key: u64)
    ensures
        final(v)@.map_values(|x: TranscriptSegment| x@) == old(v)@.map_values(|x: TranscriptSegment| x@).filter(|r: SegmentRow| r.meeting_id != key),
{
    let ghost orig = old(v)@;
    let mut rest: Vec<TranscriptSegment> = Vec::new();
    std::mem::swap(v, &mut rest);
    let mut kept: Vec<TranscriptSegment> = Vec::new();
    assert(kept@.map_values(|x: TranscriptSegment| x@) + rest@.map_values(|x: TranscriptSegment| x@).filter(|r: SegmentRow| r.meeting_id != key) =~= orig.map_values(|x: TranscriptSegment| x@).filter(|r: SegmentRow| r.meeting_id != key));
    while rest.len() > 0
        invariant
            kept@.map_values(|x: TranscriptSegment| x@) + rest@.map_values(|x: TranscriptSegment| x@).filter(|r: SegmentRow| r.meeting_id != key) == orig.map_values(|x: TranscriptSegment| x@).filter(|r: SegmentRow| r.meeting_id != key),
        decreases rest.len(),
    {
        let ghost before = rest@.map_values(|x: TranscriptSegment| x@);
        let x = rest.remove(0);
        proof {
            assert(before =~= seq![x@] + rest@.map_values(|x: TranscriptSegment| x@));
            rest@.map_values(|x: TranscriptSegment| x@).lemma_filter_prepend(x@, |r: SegmentRow| r.meeting_id != key);
        }
        if x.meeting_id != key {
            kept.push(x);
            assert(kept@.map_values(|x: TranscriptSegment| x@) + rest@.map_values(|x: TranscriptSegment| x@).filter(|r: SegmentRow| r.meeting_id != key) =~= orig.map_values(|x: TranscriptSegment| x@).filter(|r: SegmentRow| r.meeting_id != key));
        } else {
            assert(kept@.map_values(|x: TranscriptSegment| x@) + rest@.map_values(|x: TranscriptSegment| x@).filter(|r: SegmentRow| r.meeting_id != key) =~= orig.map_values(|x: TranscriptSegment| x@).filter(|r: SegmentRow| r.meeting_id != key));
        }
    }
    assert(kept@.map_values(|x: TranscriptSegment| x@) =~= orig.map_values(|x: TranscriptSegment| x@).filter(|r: SegmentRow| r.meeting_id != key));
    *v = kept;
}

/// Drops the rows for which `meeting_id == key`, keeping the order of the others.
fn drop_actions_of_meeting(v: &mut Vec<ActionItem>, key: u64)
    ensures
        final(v)@.map_values(|x: ActionItem| x@) == old(v)@.map_values(|x: ActionItem| x@).filter(|r: ActionRow| r.meeting_id != key),
{
    let ghost orig = old(v)@;
    let mut rest: Vec<ActionItem> = Vec::new();
    std::mem::swap(v, &mut rest);
    let mut kept: Vec<ActionItem> = Vec::new();
    assert(kept@.map_values(|x: ActionItem| x@) + rest@.map_values(|x: ActionItem| x@).filter(|r: ActionRow| r.meeting_id != key) =~= orig.map_values(|x: ActionItem| x@).filter(|r: ActionRow| r.meeting_id != key));
    while rest.len() > 0
        invariant
            kept@.map_values(|x: ActionItem| x@) + rest@.map_values(|x: ActionItem| x@).filter(|r: ActionRow| r.meeting_id != key) == orig.map_values(|x: ActionItem| x@).filter(|r: ActionRow| r.meeting_id != key),
        decreases rest.len(),
    {
        let ghost before = rest@.map_values(|x: ActionItem| x@);
        let x = rest.remove(0);
        proof {
            assert(before =~= seq![x@] + rest@.map_values(|x: ActionItem| x@));
            rest@.map_values(|x: ActionItem| x@).lemma_filter_prepend(x@, |r: ActionRow| r.meeting_id != key);
        }
        if x.meeting_id != key {
            kept.push(x);
            assert(kept@.map_values(|x: ActionItem| x@) + rest@.map_values(|x: ActionItem| x@).filter(|r: ActionRow| r.meeting_id != key) =~= orig.map_values(|x: ActionItem| x@).filter(|r: ActionRow| r.meeting_id != key));
        } else {
            assert(kept@.map_values(|x: ActionItem| x@) + rest@.map_values(|x: ActionItem| x@).filter(|r: ActionRow| r.meeting_id != key) =~= orig.map_values(|x: ActionItem| x@).filter(|r: ActionRow| r.meeting_id != key));
        }
    }
    assert(kept@.map_values(|x: ActionItem| x@) =~= orig.map_values(|x: ActionItem| x@).filter(|r: ActionRow| r.meeting_id != key));
    *v = kept;
}

/// Drops the rows for which `meeting_id == key`, keeping the order of the others.
fn drop_decisions_of_meeting(v: &mut Vec<Decision>, key: u64)
    ensures
        final(v)@.map_values(|x: Decision| x@) == old(v)@.map_values(|x: Decision| x@).filter(|r: DecisionRow| r.meeting_id != key),
{
    let ghost orig = old(v)@;
    let mut rest: Vec<Decision> = Vec::new();
    std::mem::swap(v, &mut rest);
    let mut kept: Vec<Decision> = Vec::new();
    assert(kept@.map_values(|x: Decision| x@) + rest@.map_values(|x: Decision| x@).filter(|r: DecisionRow| r.meeting_id != key) =~= orig.map_values(|x: Decision| x@).filter(|r: DecisionRow| r.meeting_id != key));
    while rest.len() > 0
        invariant
            kept@.map_values(|x: Decision| x@) + rest@.map_values(|x: Decision| x@).filter(|r: DecisionRow| r.meeting_id != key) == orig.map_values(|x: Decision| x@).filter(|r: DecisionRow| r.meeting_id != key),
        decreases rest.len(),
    {
        let ghost before = rest@.map_values(|x: Decision| x@);
        let x = rest.remove(0);
        proof {
            assert(before =~= seq![x@] + rest@.map_values(|x: Decision| x@));
            rest@.map_values(|x: Decision| x@).lemma_filter_prepend(x@, |r: DecisionRow| r.meeting_id != key);
        }
        if x.meeting_id != key {
            kept.push(x);
            assert(kept@.map_values(|x: Decision| x@) + rest@.map_values(|x: Decision| x@).filter(|r: DecisionRow| r.meeting_id != key) =~= orig.map_values(|x: Decision| x@).filter(|r: DecisionRow| r.meeting_id != key));
        } else {
            assert(kept@.map_values(|x: Decision| x@) + rest@.map_values(|x: Decision| x@).filter(|r: DecisionRow| r.meeting_id != key) =~= orig.map_values(|x: Decision| x@).filter(|r: DecisionRow| r.meeting_id != key));
        }
    }
    assert(kept@.map_values(|x: Decision| x@) =~= orig.map_values(|x: Decision| x@).filter(|r: DecisionRow| r.meeting_id != key));
    *v = kept;
}

/// Drops the rows for which `meeting_id != Some(key)`, keeping the order of the others.
fn drop_relations_of_meeting(v: &mut Vec<EntityRelation>, key: u64)
    ensures
        final(v)@.map_values(|x: EntityRelation| x@) == old(v)@.map_values(|x: EntityRelation| x@).filter(|r: RelationRow| r.meeting_id != Some(key)),
{
    let ghost orig = old(v)@;
    let mut rest: Vec<EntityRelation> = Vec::new();
    std::mem::swap(v, &mut rest);
    let mut kept: Vec<EntityRelation> = Vec::new();
    assert(kept@.map_values(|x: EntityRelation| x@) + rest@.map_values(|x: EntityRelation| x@).filter(|r: RelationRow| r.meeting_id != Some(key)) =~= orig.map_values(|x: EntityRelation| x@).filter(|r: RelationRow| r.meeting_id != Some(key)));
    while rest.len() > 0
        invariant
            kept@.map_values(|x: EntityRelation| x@) + rest@.map_values(|x: EntityRelation| x@).filter(|r: RelationRow| r.meeting_id != Some(key)) == orig.map_values(|x: EntityRelation| x@).filter(|r: RelationRow| r.meeting_id != Some(key)),
        decreases rest.len(),
    {
        let ghost before = rest@.map_values(|x: EntityRelation| x@);
        let x = rest.remove(0);
        proof {
            assert(before =~= seq![x@] + rest@.map_values(|x: EntityRelation| x@));
            rest@.map_values(|x: EntityRelation| x@).lemma_filter_prepend(x@, |r: RelationRow| r.meeting_id != Some(key));
        }
        if x.meeting_id != Some(key) {
            kept.push(x);
            assert(kept@.map_values(|x: EntityRelation| x@) + rest@.map_values(|x: EntityRelation| x@).filter(|r: RelationRow| r.meeting_id != Some(key)) =~= orig.map_values(|x: EntityRelation| x@).filter(|r: RelationRow| r.meeting_id != Some(key)));
        } else {
            assert(kept@.map_values(|x: EntityRelation| x@) + rest@.map_values(|x: EntityRelation| x@).filter(|r: RelationRow| r.meeting_id != Some(key)) =~= orig.map_values(|x: EntityRelation| x@).filter(|r: RelationRow| r.meeting_id != Some(key)));
        }
    }
    assert(kept@.map_values(|x: EntityRelation| x@) =~= orig.map_values(|x: EntityRelation| x@).filter(|r: RelationRow| r.meeting_id != Some(key)));
    *v = kept;
}

/// Drops the rows for which `id == key`, keeping the order of the others.
fn drop_meeting_row(v: &mut Vec<Meeting>, key: u64)
    ensures
        final(v)@.map_values(|x: Meeting| x@) == old(v)@.map_values(|x: Meeting| x@).filter(|r: MeetingRow| r.id != key),
{
    let ghost orig = old(v)@;
    let mut rest: Vec<Meeting> = Vec::new();
    std::mem::swap(v, &mut rest);
    let mut kept: Vec<Meeting> = Vec::new();
    assert(kept@.map_values(|x: Meeting| x@) + rest@.map_values(|x: Meeting| x@).filter(|r: MeetingRow| r.id != key) =~= orig.map_values(|x: Meeting| x@).filter(|r: MeetingRow| r.id != key));
    while rest.len() > 0
        invariant
            kept@.map_values(|x: Meeting| x@) + rest@.map_values(|x: Meeting| x@).filter(|r: MeetingRow| r.id != key) == orig.map_values(|x: Meeting| x@).filter(|r: MeetingRow| r.id != key),
        decreases rest.len(),
    {
        let ghost before = rest@.map_values(|x: Meeting| x@);
        let x = rest.remove(0);
        proof {
            assert(before =~= seq![x@] + rest@.map_values(|x: Meeting| x@));
            rest@.map_values(|x: Meeting| x@).lemma_filter_prepend(x@, |r: MeetingRow| r.id != key);
        }
        if x.id != key {
            kept.push(x);
            assert(kept@.map_values(|x: Meeting| x@) + rest@.map_values(|x: Meeting| x@).filter(|r: MeetingRow| r.id != key) =~= orig.map_values(|x: Meeting| x@).filter(|r: MeetingRow| r.id != key));
        } else {
            assert(kept@.map_values(|x: Meeting| x@) + rest@.map_values(|x: Meeting| x@).filter(|r: MeetingRow| r.id != key) =~= orig.map_values(|x: Meeting| x@).filter(|r: MeetingRow| r.id != key));
        }
    }
    assert(kept@.map_values(|x: Meeting| x@) =~= orig.map_values(|x: Meeting| x@).filter(|r: MeetingRow| r.id != key));
    *v = kept;
}

/// Drops the rows for which `source_id == key`, keeping the order of the others.
fn drop_chunks_of_source(v: &mut Vec<KnowledgeChunk>, key: u64)
    ensures
        final(v)@.map_values(|x: KnowledgeChunk| x@) == old(v)@.map_values(|x: KnowledgeChunk| x@).filter(|r: ChunkRow| r.source_id != key),
{
    let ghost orig = old(v)@;
    let mut rest: Vec<KnowledgeChunk> = Vec::new();
    std::mem::swap(v, &mut rest);
    let mut kept: Vec<KnowledgeChunk> = Vec::new();
    assert(kept@.map_values(|x: KnowledgeChunk| x@) + rest@.map_values(|x: KnowledgeChunk| x@).filter(|r: ChunkRow| r.source_id != key) =~= orig.map_values(|x: KnowledgeChunk| x@).filter(|r: ChunkRow| r.source_id != key));
    while rest.len() > 0
        invariant
            kept@.map_values(|x: KnowledgeChunk| x@) + rest@.map_values(|x: KnowledgeChunk| x@).filter(|r: ChunkRow| r.source_id != key) == orig.map_values(|x: KnowledgeChunk| x@).filter(|r: ChunkRow| r.source_id != key),
        decreases rest.len(),
    {
        let ghost before = rest@.map_values(|x: KnowledgeChunk| x@);
        let x = rest.remove(0);
        proof {
            assert(before =~= seq![x@] + rest@.map_values(|x: KnowledgeChunk| x@));
            rest@.map_values(|x: KnowledgeChunk| x@).lemma_filter_prepend(x@, |r: ChunkRow| r.source_id != key);
        }
        if x.source_id != key {
            kept.push(x);
            assert(kept@.map_values(|x: KnowledgeChunk| x@) + rest@.map_values(|x: KnowledgeChunk| x@).filter(|r: ChunkRow| r.source_id != key) =~= orig.map_values(|x: KnowledgeChunk| x@).filter(|r: ChunkRow| r.source_id != key));
        } else {
            assert(kept@.map_values(|x: KnowledgeChunk| x@) + rest@.map_values(|x: KnowledgeChunk| x@).filter(|r: ChunkRow| r.source_id != key) =~= orig.map_values(|x: KnowledgeChunk| x@).filter(|r: ChunkRow| r.source_id != key));
        }
    }
    assert(kept@.map_values(|x: KnowledgeChunk| x@) =~= orig.map_values(|x: KnowledgeChunk| x@).filter(|r: ChunkRow| r.source_id != key));
    *v = kept;
}

/// Drops the rows for which `id == key`, keeping the order of the others.
fn drop_source_row(v: &mut Vec<KnowledgeSource>, key: u64)
    ensures
        final(v)@.map_values(|x: KnowledgeSource| x@) == old(v)@.map_values(|x: KnowledgeSource| x@).filter(|r: SourceRow| r.id != key),
{
    let ghost orig = old(v)@;
    let mut rest: Vec<KnowledgeSource> = Vec::new();
    std::mem::swap(v, &mut rest);
    let mut kept: Vec<KnowledgeSource> = Vec::new();
    assert(kept@.map_values(|x: KnowledgeSource| x@) + rest@.map_values(|x: KnowledgeSource| x@).filter(|r: SourceRow| r.id != key) =~= orig.map_values(|x: KnowledgeSource| x@).filter(|r: SourceRow| r.id != key));
    while rest.len() > 0
        invariant
            kept@.map_values(|x: KnowledgeSource| x@) + rest@.map_values(|x: KnowledgeSource| x@).filter(|r: SourceRow| r.id != key) == orig.map_values(|x: KnowledgeSource| x@).filter(|r: SourceRow| r.id != key),
        decreases rest.len(),
    {
        let ghost before = rest@.map_values(|x: KnowledgeSource| x@);
        let x = rest.remove(0);
        proof {
            assert(before =~= seq![x@] + rest@.map_values(|x: KnowledgeSource| x@));
            rest@.map_values(|x: KnowledgeSource| x@).lemma_filter_prepend(x@, |r: SourceRow| r.id != key);
        }
        if x.id != key {
            kept.push(x);
            assert(kept@.map_values(|x: KnowledgeSource| x@) + rest@.map_values(|x: KnowledgeSource| x@).filter(|r: SourceRow| r.id != key) =~= orig.map_values(|x: KnowledgeSource| x@).filter(|r: SourceRow| r.id != key));
        } else {
            assert(kept@.map_values(|x: KnowledgeSource| x@) + rest@.map_values(|x: KnowledgeSource| x@).filter(|r: SourceRow| r.id != key) =~= orig.map_values(|x: KnowledgeSource| x@).filter(|r: SourceRow| r.id != key));
        }
    }
    assert(kept@.map_values(|x: KnowledgeSource| x@) =~= orig.map_values(|x: KnowledgeSource| x@).filter(|r: SourceRow| r.id != key));
    *v = kept;
}

/// Drops the rows for which `meeting_id == key`, keeping the order of the others.
fn drop_links_of_meeting(v: &mut Vec<MeetingKnowledge>, key: u64)
    ensures
        final(v)@ == old(v)@.filter(|r: MeetingKnowledge| r.meeting_id != key),
{
    let ghost orig = old(v)@;
    let mut rest: Vec<MeetingKnowledge> = Vec::new();
    std::mem::swap(v, &mut rest);
    let mut kept: Vec<MeetingKnowledge> = Vec::new();
    assert(kept@ + rest@.filter(|r: MeetingKnowledge| r.meeting_id != key) =~= orig.filter(|r: MeetingKnowledge| r.meeting_id != key));
    while rest.len() > 0
        invariant
            kept@ + rest@.filter(|r: MeetingKnowledge| r.meeting_id != key) == orig.filter(|r: MeetingKnowledge| r.meeting_id != key),
        decreases rest.len(),
    {
        let ghost before = rest@;
        let x = rest.remove(0);
        proof {
            assert(before =~= seq![x] + rest@);
            rest@.lemma_filter_prepend(x, |r: MeetingKnowledge| r.meeting_id != key);
        }
        if x.meeting_id != key {
            kept.push(x);
            assert(kept@ + rest@.filter(|r: MeetingKnowledge| r.meeting_id != key) =~= orig.filter(|r: MeetingKnowledge| r.meeting_id != key));
        } else {
            assert(kept@ + rest@.filter(|r: MeetingKnowledge| r.meeting_id != key) =~= orig.filter(|r: MeetingKnowledge| r.meeting_id != key));
        }
    }
    assert(kept@ =~= orig.filter(|r: MeetingKnowledge| r.meeting_id != key));
    *v = kept;
}

/// Drops the rows for which `source_id == key`, keeping the order of the others.
fn drop_links_of_source(v: &mut Vec<MeetingKnowledge>, key: u64)
    ensures
        final(v)@ == old(v)@.filter(|r: MeetingKnowledge| r.source_id != key),
{
    let ghost orig = old(v)@;
    let mut rest: Vec<MeetingKnowledge> = Vec::new();
    std::mem::swap(v, &mut rest);
    let mut kept: Vec<MeetingKnowledge> = Vec::new();
    assert(kept@ + rest@.filter(|r: MeetingKnowledge| r.source_id != key) =~= orig.filter(|r: MeetingKnowledge| r.source_id != key));
    while rest.len() > 0
        invariant
            kept@ + rest@.filter(|r: MeetingKnowledge| r.source_id != key) == orig.filter(|r: MeetingKnowledge| r.source_id != key),
        decreases rest.len(),
    {
        let ghost before = rest@;
        let x = rest.remove(0);
        proof {
            assert(before =~= seq![x] + rest@);
            rest@.lemma_filter_prepend(x, |r: MeetingKnowledge| r.source_id != key);
        }
        if x.source_id != key {
            kept.push(x);
            assert(kept@ + rest@.filter(|r: MeetingKnowledge| r.source_id != key) =~= orig.filter(|r: MeetingKnowledge| r.source_id != key));
        } else {
            assert(kept@ + rest@.filter(|r: MeetingKnowledge| r.source_id != key) =~= orig.filter(|r: MeetingKnowledge| r.source_id != key));
        }
    }
    assert(kept@ =~= orig.filter(|r: MeetingKnowledge| r.source_id != key));
    *v = kept;
}

/// Drops the rows for which `to == key`, keeping the order of the others.
fn drop_edges_to(v: &mut Vec<GraphEdge>, key: u64)
    ensures
        final(v)@ == old(v)@.filter(|r: GraphEdge| r.to != key),
{
    let ghost orig = old(v)@;
    let mut rest: Vec<GraphEdge> = Vec::new();
    std::mem::swap(v, &mut rest);
    let mut kept: Vec<GraphEdge> = Vec::new();
    assert(kept@ + rest@.filter(|r: GraphEdge| r.to != key) =~= orig.filter(|r: GraphEdge| r.to != key));
    while rest.len() > 0
        invariant
            kept@ + rest@.filter(|r: GraphEdge| r.to != key) == orig.filter(|r: GraphEdge| r.to != key),
        decreases rest.len(),
    {
        let ghost before = rest@;
        let x = rest.remove(0);
        proof {
            assert(before =~= seq![x] + rest@);
            rest@.lemma_filter_prepend(x, |r: GraphEdge| r.to != key);
        }
        if x.to != key {
            kept.push(x);
            assert(kept@ + rest@.filter(|r: GraphEdge| r.to != key) =~= orig.filter(|r: GraphEdge| r.to != key));
        } else {
            assert(kept@ + rest@.filter(|r: GraphEdge| r.to != key) =~= orig.filter(|r: GraphEdge| r.to != key));
        }
    }
    assert(kept@ =~= orig.filter(|r: GraphEdge| r.to != key));
    *v = kept;
}


/// The store without a meeting and everything keyed by it: its segments,
/// action items, decisions, relationships, source links and graph edges.
pub open spec fn without_meeting(s: KbView, m: u64) -> KbView {
    KbView {
        meetings: s.meetings.filter(|r: MeetingRow| r.id != m),
        segments: s.segments.filter(|r: SegmentRow| r.meeting_id != m),
        actions: s.actions.filter(|r: ActionRow| r.meeting_id != m),
        decisions: s.decisions.filter(|r: DecisionRow| r.meeting_id != m),
        relations: s.relations.filter(|r: RelationRow| r.meeting_id != Some(m)),
        links: s.links.filter(|r: MeetingKnowledge| r.meeting_id != m),
        mentioned_in: s.mentioned_in.filter(|r: GraphEdge| r.to != m),
        discussed_in: s.discussed_in.filter(|r: GraphEdge| r.to != m),
        ..s
    }
}

/// The store without a knowledge source, its chunks and its meeting links.
pub open spec fn without_source(s: KbView, k: u64) -> KbView {
    KbView {
        sources: s.sources.filter(|r: SourceRow| r.id != k),
        chunks: s.chunks.filter(|r: ChunkRow| r.source_id != k),
        links: s.links.filter(|r: MeetingKnowledge| r.source_id != k),
        ..s
    }
}

/// A source with this identifier is stored.
pub open spec fn has_source(s: KbView, k: u64) -> bool {
    find_source(s.sources, k) is Some
}

/// The sources that chunks refer to and that are not stored.
pub open spec fn orphan_sources(s: KbView) -> Set<u64> {
    Set::new(
        |k: u64|
            exists|i: int| 0 <= i < s.chunks.len() && #[trigger] s.chunks[i].source_id == k
                && !has_source(s, k),
    )
}

/// Some stored source has this url.
pub open spec fn url_taken(sources: Seq<SourceRow>, url: Seq<char>) -> bool {
    exists|i: int| 0 <= i < sources.len() && #[trigger] sources[i].url == url
}

proof fn lemma_find_source(sources: Seq<SourceRow>, id: u64)
    ensures
        match find_source(sources, id) {
            Some(i) => 0 <= i < sources.len() && sources[i].id == id,
            None => forall|j: int| 0 <= j < sources.len() ==> sources[j].id != id,
        },
    decreases sources.len(),
{
    if sources.len() > 0 {
        lemma_find_source(sources.drop_first(), id);
        assert forall|j: int| 1 <= j < sources.len() implies sources[j] == sources.drop_first()[j - 1] by {}
    }
}

proof fn lemma_find_meeting(meetings: Seq<MeetingRow>, id: u64)
    ensures
        match find_meeting(meetings, id) {
            Some(i) => 0 <= i < meetings.len() && meetings[i].id == id,
            None => forall|j: int| 0 <= j < meetings.len() ==> meetings[j].id != id,
        },
    decreases meetings.len(),
{
    if meetings.len() > 0 {
        lemma_find_meeting(meetings.drop_first(), id);
        assert forall|j: int| 1 <= j < meetings.len() implies meetings[j] == meetings.drop_first()[j - 1] by {}
    }
}

proof fn lemma_filter_keeps_urls_distinct(s: Seq<SourceRow>, p: spec_fn(SourceRow) -> bool)
    requires
        forall|i: int, j: int| 0 <= i < j < s.len() ==> s[i].url != s[j].url,
    ensures
        forall|i: int, j: int|
            0 <= i < j < s.filter(p).len() ==> s.filter(p)[i].url != s.filter(p)[j].url,
    decreases s.len(),
{
    reveal(Seq::filter);
    if s.len() > 0 {
        let d = s.drop_last();
        lemma_filter_keeps_urls_distinct(d, p);
        if p(s.last()) {
            assert forall|i: int, j: int|
                0 <= i < j < s.filter(p).len() implies s.filter(p)[i].url != s.filter(p)[j].url by {
                if j == s.filter(p).len() - 1 {
                    assert(d.filter(p).contains(s.filter(p)[i])) by {
                        assert(s.filter(p)[i] == d.filter(p)[i]);
                    }
                    d.lemma_filter_contains_rev(p, s.filter(p)[i]);
                    let w = choose|w: int| 0 <= w < d.len() && d[w] == s.filter(p)[i];
                    assert(s[w] == d[w]);
                }
            }
        }
    }
}

proof fn lemma_without_meeting_wf(s: KbView, m: u64)
    requires
        wf(s),
    ensures
        wf(without_meeting(s, m)),
{
    let t = without_meeting(s, m);
    assert forall|i: int| 0 <= i < t.relations.len() implies MIN_RELATION_CONFIDENCE
        <= #[trigger] t.relations[i].confidence <= CONFIDENCE_SCALE by {
        assert(t.relations.contains(t.relations[i]));
        s.relations.lemma_filter_contains_rev(|r: RelationRow| r.meeting_id != Some(m), t.relations[i]);
    }
    assert forall|i: int|
        0 <= i < t.meetings.len() && (#[trigger] t.meetings[i]).end_time is Some implies t.meetings[i].end_time->0
        >= t.meetings[i].start_time by {
        assert(t.meetings.contains(t.meetings[i]));
        s.meetings.lemma_filter_contains_rev(|r: MeetingRow| r.id != m, t.meetings[i]);
    }
}

proof fn lemma_without_source_wf(s: KbView, k: u64)
    requires
        wf(s),
    ensures
        wf(without_source(s, k)),
{
    lemma_filter_keeps_urls_distinct(s.sources, |r: SourceRow| r.id != k);
}

impl KnowledgeBase {
    /// Opens a meeting at `now`.
    pub fn create_meeting(&mut self, title: String, participants: Vec<String>, now: u64) -> (r: Result<
        u64,
        KbError,
    >)
        requires
            old(self).wf(),
        ensures
            final(self).wf(),
            old(self)@.next_id == u64::MAX ==> r == Err::<u64, KbError>(KbError::IdsExhausted)
                && final(self)@ == old(self)@,
            old(self)@.next_id < u64::MAX ==> r == Ok::<u64, KbError>(old(self)@.next_id)
                && final(self)@ == (KbView {
                meetings: old(self)@.meetings.push(
                    (MeetingRow {
                        id: old(self)@.next_id,
                        title: title@,
                        start_time: now,
                        end_time: None,
                        participants: participants.deep_view(),
                        summary: None,
                    }),
                ),
                next_id: (old(self)@.next_id + 1) as u64,
                ..old(self)@
            }),
    {
        if self.next_id == u64::MAX {
            return Err(KbError::IdsExhausted);
        }
        let id = self.next_id;
        let ghost s0 = self@;
        let m = Meeting { id, title, start_time: now, end_time: None, participants, summary: None };
        self.meetings.push(m);
        self.next_id = id + 1;
        assert(self@.meetings =~= s0.meetings.push(self.meetings@[self.meetings@.len() - 1]@));
        Ok(id)
    }

    /// Ends a meeting: sets its end time, never before its start, and its
    /// summary. A meeting that has already ended is left as it is.
    pub fn end_meeting(&mut self, meeting_id: u64, summary: Option<String>, now: u64) -> (r: Result<
        (),
        KbError,
    >)
        requires
            old(self).wf(),
        ensures
            final(self).wf(),
            match find_meeting(old(self)@.meetings, meeting_id) {
                None => r == Err::<(), KbError>(KbError::NotFound) && final(self)@ == old(self)@,
                Some(i) => r is Ok && if old(self)@.meetings[i].end_time is Some {
                    final(self)@ == old(self)@
                } else {
                    final(self)@ == (KbView {
                        meetings: old(self)@.meetings.update(
                            i,
                            (MeetingRow {
                                end_time: Some(max_u64(now, old(self)@.meetings[i].start_time)),
                                summary: opt_text(summary),
                                ..old(self)@.meetings[i]
                            }),
                        ),
                        ..old(self)@
                    })
                },
            },
    {
        match self.find_meeting_index(meeting_id) {
            None => Err(KbError::NotFound),
            Some(i) => {
                if self.meetings[i].end_time.is_some() {
                    return Ok(());
                }
                let ghost s0 = self@;
                let ghost old_meetings = self.meetings@;
                let start = self.meetings[i].start_time;
                let end = if now >= start {
                    now
                } else {
                    start
                };
                self.meetings[i].end_time = Some(end);
                self.meetings[i].summary = summary;
                assert forall|j: int| 0 <= j < old_meetings.len() && j != i implies self@.meetings[j]
                    == s0.meetings[j] by {
                    assert(self@.meetings[j] == self.meetings@[j]@);
                    assert(s0.meetings[j] == old_meetings[j]@);
                }
                assert(s0.meetings[i as int] == old_meetings[i as int]@);
                assert(self@.meetings[i as int] == self.meetings@[i as int]@);
                assert(self@.meetings =~= s0.meetings.update(
                    i as int,
                    MeetingRow {
                        end_time: Some(max_u64(now, s0.meetings[i as int].start_time)),
                        summary: opt_text(summary),
                        ..s0.meetings[i as int]
                    },
                ));
                Ok(())
            },
        }
    }

    /// Deletes a meeting and everything keyed by it.
    pub fn delete_meeting(&mut self, meeting_id: u64)
        requires
            old(self).wf(),
        ensures
            final(self).wf(),
            final(self)@ == without_meeting(old(self)@, meeting_id),
    {
        let ghost s0 = self@;
        drop_segments_of_meeting(&mut self.segments, meeting_id);
        drop_actions_of_meeting(&mut self.actions, meeting_id);
        drop_decisions_of_meeting(&mut self.decisions, meeting_id);
        drop_relations_of_meeting(&mut self.relations, meeting_id);
        drop_links_of_meeting(&mut self.links, meeting_id);
        drop_edges_to(&mut self.mentioned_in, meeting_id);
        drop_edges_to(&mut self.discussed_in, meeting_id);
        drop_meeting_row(&mut self.meetings, meeting_id);
        assert(self@ == without_meeting(s0, meeting_id));
        proof {
            lemma_without_meeting_wf(s0, meeting_id);
        }
    }

    /// Deletes a knowledge source with all its chunks and meeting links. The
    /// source may be named in the long form or by its bare number; chunks
    /// and links go in either case.
    pub fn delete_knowledge_source(&mut self, source_id: &str) -> (r: Result<(), KbError>)
        requires
            old(self).wf(),
        ensures
            final(self).wf(),
            match parse_id(Table::KnowledgeSource, source_id@) {
                None => r == Err::<(), KbError>(KbError::ValidationFailure) && final(self)@ == old(
                    self,
                )@,
                Some(k) => r == Ok::<(), KbError>(()) && final(self)@ == without_source(
                    old(self)@,
                    k,
                ),
            },
    {
        match parse_record_id(Table::KnowledgeSource, source_id) {
            None => Err(KbError::ValidationFailure),
            Some(k) => {
                let ghost s0 = self@;
                drop_chunks_of_source(&mut self.chunks, k);
                drop_links_of_source(&mut self.links, k);
                drop_source_row(&mut self.sources, k);
                assert(self@ == without_source(s0, k));
                proof {
                    lemma_without_source_wf(s0, k);
                }
                Ok(())
            },
        }
    }
}


impl KnowledgeBase {
    fn url_taken_exec(&self, url: &str) -> (r: bool)
        ensures
            r == url_taken(self@.sources, url@),
    {
        let mut i: usize = 0;
        while i < self.sources.len()
            invariant
                i <= self.sources.len(),
                self@.sources.len() == self.sources@.len(),
                forall|j: int| 0 <= j < i ==> self@.sources[j].url != url@,
            decreases self.sources.len() - i,
        {
            assert(self@.sources[i as int] == self.sources@[i as int]@);
            if str_eq(self.sources[i].url.as_str(), url) {
                assert(self@.sources[i as int].url == url@);
                return true;
            }
            i += 1;
        }
        false
    }

    /// Stores a knowledge source. Its url must be non-empty and not taken.
    /// Chunks and extraction results are added afterwards.
    pub fn add_knowledge_source(
        &mut self,
        url: String,
        title: String,
        content: String,
        source_type: String,
        tags: Vec<String>,
        now: u64,
    ) -> (r: Result<u64, KbError>)
        requires
            old(self).wf(),
        ensures
            final(self).wf(),
            url@.len() == 0 || url_taken(old(self)@.sources, url@) ==> r == Err::<u64, KbError>(
                KbError::ValidationFailure,
            ) && final(self)@ == old(self)@,
            url@.len() > 0 && !url_taken(old(self)@.sources, url@) && old(self)@.next_id == u64::MAX
                ==> r == Err::<u64, KbError>(KbError::IdsExhausted) && final(self)@ == old(self)@,
            url@.len() > 0 && !url_taken(old(self)@.sources, url@) && old(self)@.next_id < u64::MAX
                ==> r == Ok::<u64, KbError>(old(self)@.next_id) && final(self)@ == (KbView {
                sources: old(self)@.sources.push(
                    (SourceRow {
                        id: old(self)@.next_id,
                        url: url@,
                        title: title@,
                        source_type: source_type@,
                        raw_content: content@,
                        tags: tags.deep_view(),
                        created_at: now,
                        last_updated: now,
                    }),
                ),
                next_id: (old(self)@.next_id + 1) as u64,
                ..old(self)@
            }),
    {
        if url.as_str().is_empty() {
            return Err(KbError::ValidationFailure);
        }
        if self.url_taken_exec(url.as_str()) {
            return Err(KbError::ValidationFailure);
        }
        if self.next_id == u64::MAX {
            return Err(KbError::IdsExhausted);
        }
        let id = self.next_id;
        let ghost s0 = self@;
        let src = KnowledgeSource {
            id,
            url,
            title,
            source_type,
            raw_content: content,
            tags,
            created_at: now,
            last_updated: now,
        };
        self.sources.push(src);
        self.next_id = id + 1;
        assert(self@.sources =~= s0.sources.push(self.sources@[self.sources@.len() - 1]@));
        Ok(id)
    }

    /// Stores one chunk of an existing knowledge source.
    pub fn add_chunk(&mut self, source_id: u64, text: String, chunk_index: u64, embedding: Vec<
        u32,
    >) -> (r: Result<u64, KbError>)
        requires
            old(self).wf(),
        ensures
            final(self).wf(),
            !has_source(old(self)@, source_id) ==> r == Err::<u64, KbError>(KbError::NotFound)
                && final(self)@ == old(self)@,
            has_source(old(self)@, source_id) && old(self)@.next_id == u64::MAX ==> r == Err::<
                u64,
                KbError,
            >(KbError::IdsExhausted) && final(self)@ == old(self)@,
            has_source(old(self)@, source_id) && old(self)@.next_id < u64::MAX ==> r == Ok::<
                u64,
                KbError,
            >(old(self)@.next_id) && final(self)@ == (KbView {
                chunks: old(self)@.chunks.push(
                    (ChunkRow {
                        id: old(self)@.next_id,
                        source_id,
                        text: text@,
                        chunk_index,
                        embedding: embedding@,
                    }),
                ),
                next_id: (old(self)@.next_id + 1) as u64,
                ..old(self)@
            }),
    {
        if self.find_source_index(source_id).is_none() {
            return Err(KbError::NotFound);
        }
        if self.next_id == u64::MAX {
            return Err(KbError::IdsExhausted);
        }
        let id = self.next_id;
        let ghost s0 = self@;
        let c = KnowledgeChunk { id, source_id, text, chunk_index, embedding };
        self.chunks.push(c);
        self.next_id = id + 1;
        assert(self@.chunks =~= s0.chunks.push(self.chunks@[self.chunks@.len() - 1]@));
        Ok(id)
    }

    /// Stores what the extractor found in a paragraph of a knowledge source:
    /// people and topics (organizations count as topics here), and the
    /// relationships from the confidence threshold up.
    pub fn add_source_extraction(
        &mut self,
        source_id: u64,
        entities: &Vec<Entity>,
        topic_embeddings: &Vec<Vec<u32>>,
        relationships: &Vec<Relationship>,
        now: u64,
    ) -> (r: Result<(), KbError>)
        requires
            old(self).wf(),
            topic_embeddings@.len() == entities@.len(),
            confidences_in_scale(relationships@),
        ensures
            final(self).wf(),
            !has_source(old(self)@, source_id) ==> r == Err::<(), KbError>(KbError::NotFound)
                && final(self)@ == old(self)@,
            has_source(old(self)@, source_id) ==> r == Ok::<(), KbError>(()) && final(self)@
                == apply_relations(
                apply_entities(
                    old(self)@,
                    entities@,
                    topic_embeddings@,
                    Origin::Source(source_id),
                    now,
                ),
                relationships@,
                Origin::Source(source_id),
                now,
            ),
    {
        if self.find_source_index(source_id).is_none() {
            return Err(KbError::NotFound);
        }
        self.apply_extraction(entities, topic_embeddings, relationships, Origin::Source(source_id), now);
        Ok(())
    }

    /// Replaces the tags of a knowledge source.
    pub fn update_source_tags(&mut self, source_id: u64, tags: Vec<String>, now: u64) -> (r: Result<
        (),
        KbError,
    >)
        requires
            old(self).wf(),
        ensures
            final(self).wf(),
            match find_source(old(self)@.sources, source_id) {
                None => r == Err::<(), KbError>(KbError::NotFound) && final(self)@ == old(self)@,
                Some(i) => r == Ok::<(), KbError>(()) && final(self)@ == (KbView {
                    sources: old(self)@.sources.update(
                        i,
                        (SourceRow {
                            tags: tags.deep_view(),
                            last_updated: now,
                            ..old(self)@.sources[i]
                        }),
                    ),
                    ..old(self)@
                }),
            },
    {
        match self.find_source_index(source_id) {
            None => Err(KbError::NotFound),
            Some(i) => {
                let ghost s0 = self@;
                let ghost old_sources = self.sources@;
                let ghost tv = tags.deep_view();
                self.sources[i].tags = tags;
                self.sources[i].last_updated = now;
                assert forall|j: int| 0 <= j < old_sources.len() && j != i implies self@.sources[j]
                    == s0.sources[j] by {
                    assert(self@.sources[j] == self.sources@[j]@);
                    assert(s0.sources[j] == old_sources[j]@);
                }
                assert(s0.sources[i as int] == old_sources[i as int]@);
                assert(self@.sources[i as int] == self.sources@[i as int]@);
                let ghost target = s0.sources.update(
                    i as int,
                    SourceRow { tags: tv, last_updated: now, ..s0.sources[i as int] },
                );
                assert(self@.sources =~= target);
                assert forall|a: int, b: int|
                    0 <= a < b < self@.sources.len() implies self@.sources[a].url
                    != self@.sources[b].url by {
                    assert(self@.sources[a].url == s0.sources[a].url);
                    assert(self@.sources[b].url == s0.sources[b].url);
                }
                Ok(())
            },
        }
    }

    /// Links a knowledge source to a meeting, with full relevance.
    pub fn link_knowledge_to_meeting(
        &mut self,
        meeting_id: u64,
        source_id: u64,
        assigned_by: LinkOrigin,
    ) -> (r: Result<u64, KbError>)
        requires
            old(self).wf(),
        ensures
            final(self).wf(),
            find_meeting(old(self)@.meetings, meeting_id) is None || !has_source(old(self)@, source_id)
                ==> r == Err::<u64, KbError>(KbError::NotFound) && final(self)@ == old(self)@,
            find_meeting(old(self)@.meetings, meeting_id) is Some && has_source(old(self)@, source_id)
                && old(self)@.next_id == u64::MAX ==> r == Err::<u64, KbError>(
                KbError::IdsExhausted,
            ) && final(self)@ == old(self)@,
            find_meeting(old(self)@.meetings, meeting_id) is Some && has_source(old(self)@, source_id)
                && old(self)@.next_id < u64::MAX ==> r == Ok::<u64, KbError>(old(self)@.next_id)
                && final(self)@ == (KbView {
                links: old(self)@.links.push(
                    (MeetingKnowledge {
                        id: old(self)@.next_id,
                        meeting_id,
                        source_id,
                        relevance: CONFIDENCE_SCALE,
                        assigned_by,
                    }),
                ),
                next_id: (old(self)@.next_id + 1) as u64,
                ..old(self)@
            }),
    {
        if self.find_meeting_index(meeting_id).is_none() || self.find_source_index(source_id).is_none() {
            return Err(KbError::NotFound);
        }
        if self.next_id == u64::MAX {
            return Err(KbError::IdsExhausted);
        }
        let id = self.next_id;
        self.links.push(
            MeetingKnowledge {
                id,
                meeting_id,
                source_id,
                relevance: CONFIDENCE_SCALE,
                assigned_by,
            },
        );
        self.next_id = id + 1;
        Ok(id)
    }

    fn has_source_exec(&self, k: u64) -> (r: bool)
        ensures
            r == has_source(self@, k),
    {
        self.find_source_index(k).is_some()
    }

    /// Deletes every chunk whose source is no longer stored and returns how
    /// many such sources the chunks referred to.
    pub fn cleanup_orphaned_chunks(&mut self) -> (r: usize)
        requires
            old(self).wf(),
        ensures
            final(self).wf(),
            final(self)@ == (KbView {
                chunks: old(self)@.chunks.filter(|c: ChunkRow| has_source(old(self)@, c.source_id)),
                ..old(self)@
            }),
            r == orphan_sources(old(self)@).len(),
    {
        let ghost s0 = self@;
        let mut orphans: Vec<u64> = Vec::new();
        let mut i: usize = 0;
        while i < self.chunks.len()
            invariant
                self@ == s0,
                i <= self.chunks.len(),
                self@.chunks.len() == self.chunks@.len(),
                orphans@.no_duplicates(),
                orphans@.to_set() == Set::new(
                    |k: u64|
                        exists|j: int| 0 <= j < i && #[trigger] s0.chunks[j].source_id == k
                            && !has_source(s0, k),
                ),
            decreases self.chunks.len() - i,
        {
            assert(self@.chunks[i as int] == self.chunks@[i as int]@);
            let k = self.chunks[i].source_id;
            let ghost before = orphans@;
            if !self.has_source_exec(k) && !contains_u64(&orphans, k) {
                orphans.push(k);
                proof {
                    before.lemma_push_to_set_commute(k);
                    assert(orphans@ == before.push(k));
                    assert(orphans@.to_set() =~= before.to_set().insert(k));
                    assert(orphans@.no_duplicates()) by {
                        assert forall|a: int, b: int| 0 <= a < b < orphans@.len() implies orphans@[a] != orphans@[b] by {
                            if b == before.len() {
                                assert(before[a] == orphans@[a]);
                            }
                        }
                    }
                }
            }
            assert(orphans@.to_set() =~= Set::new(
                |q: u64|
                    exists|j: int| 0 <= j < i + 1 && #[trigger] s0.chunks[j].source_id == q
                        && !has_source(s0, q),
            )) by {
                assert forall|q: u64| orphans@.to_set().contains(q) implies exists|j: int|
                    0 <= j < i + 1 && #[trigger] s0.chunks[j].source_id == q && !has_source(
                        s0,
                        q,
                    ) by {
                    if q == k && !before.to_set().contains(q) {
                        assert(s0.chunks[i as int].source_id == q);
                    }
                }
                assert forall|q: u64|
                    (exists|j: int|
                        0 <= j < i + 1 && #[trigger] s0.chunks[j].source_id == q && !has_source(
                            s0,
                            q,
                        )) implies orphans@.to_set().contains(q) by {
                    let j = choose|j: int|
                        0 <= j < i + 1 && #[trigger] s0.chunks[j].source_id == q && !has_source(
                            s0,
                            q,
                        );
                    if j == i {
                        if contains_u64_spec(before, k) {
                            let w = choose|w: int| 0 <= w < before.len() && before[w] == k;
                            assert(before.to_set().contains(before[w]));
                        }
                        if !contains_u64_spec(before, k) {
                            assert(orphans@[before.len() as int] == k);
                        }
                        assert(orphans@.contains(k));
                    } else {
                        assert(before.to_set().contains(q));
                    }
                }
            }
            i += 1;
        }
        proof {
            assert(orphans@.to_set() =~= orphan_sources(s0));
            orphans@.unique_seq_to_set();
        }
        let mut rest: Vec<KnowledgeChunk> = Vec::new();
        std::mem::swap(&mut self.chunks, &mut rest);
        let ghost pred = |c: ChunkRow| has_source(s0, c.source_id);
        let mut kept: Vec<KnowledgeChunk> = Vec::new();
        assert(kept@.map_values(|x: KnowledgeChunk| x@) + rest@.map_values(|x: KnowledgeChunk| x@).filter(pred) =~= s0.chunks.filter(pred));
        while rest.len() > 0
            invariant
                self.sources == old(self).sources,
                s0.sources == self.sources@.map_values(|m: KnowledgeSource| m@),
                kept@.map_values(|x: KnowledgeChunk| x@) + rest@.map_values(|x: KnowledgeChunk| x@).filter(pred) == s0.chunks.filter(pred),
                pred == (|c: ChunkRow| has_source(s0, c.source_id)),
            decreases rest.len(),
        {
            let ghost before = rest@.map_values(|x: KnowledgeChunk| x@);
            let x = rest.remove(0);
            proof {
                assert(before =~= seq![x@] + rest@.map_values(|x: KnowledgeChunk| x@));
                rest@.map_values(|x: KnowledgeChunk| x@).lemma_filter_prepend(x@, pred);
            }
            if self.has_source_exec(x.source_id) {
                kept.push(x);
                assert(kept@.map_values(|x: KnowledgeChunk| x@) + rest@.map_values(|x: KnowledgeChunk| x@).filter(pred) =~= s0.chunks.filter(pred));
            } else {
                assert(kept@.map_values(|x: KnowledgeChunk| x@) + rest@.map_values(|x: KnowledgeChunk| x@).filter(pred) =~= s0.chunks.filter(pred));
            }
        }
        assert(kept@.map_values(|x: KnowledgeChunk| x@) =~= s0.chunks.filter(pred));
        self.chunks = kept;
        orphans.len()
    }
}

/// `k` is listed in `v`.
pub open spec fn contains_u64_spec(v: Seq<u64>, k: u64) -> bool {
    exists|i: int| 0 <= i < v.len() && v[i] == k
}

fn contains_u64(v: &Vec<u64>, k: u64) -> (r: bool)
    ensures
        r == contains_u64_spec(v@, k),
        r == v@.contains(k),
{
    let mut i: usize = 0;
    while i < v.len()
        invariant
            i <= v.len(),
            forall|j: int| 0 <= j < i ==> v@[j] != k,
        decreases v.len() - i,
    {
        if v[i] == k {
            return true;
        }
        i += 1;
    }
    false
}


/// The prefix of `s` of length `i`, filtered, grows by `s[i]` exactly when
/// `s[i]` passes.
pub proof fn lemma_filter_step<A>(s: Seq<A>, i: int, p: spec_fn(A) -> bool)
    requires
        0 <= i < s.len(),
    ensures
        s.subrange(0, i + 1).filter(p) == if p(s[i]) {
            s.subrange(0, i).filter(p).push(s[i])
        } else {
            s.subrange(0, i).filter(p)
        },
{
    reveal(Seq::filter);
    assert(s.subrange(0, i + 1).drop_last() =~= s.subrange(0, i));
}

/// The rows of `rows` at the positions `ix`, in that order.
pub open spec fn pick<A>(rows: Seq<A>, ix: Seq<usize>) -> Seq<A> {
    ix.map_values(|i: usize| rows[i as int])
}

/// The open action items.
pub open spec fn open_actions(s: KbView) -> Seq<ActionRow> {
    s.actions.filter(|r: ActionRow| r.status == ActionStatus::Open)
}

/// Creation times of action items.
pub open spec fn action_times(rows: Seq<ActionRow>) -> Seq<u64> {
    rows.map_values(|r: ActionRow| r.created_at)
}

/// Creation times of decisions.
pub open spec fn decision_times(rows: Seq<DecisionRow>) -> Seq<u64> {
    rows.map_values(|r: DecisionRow| r.created_at)
}

impl KnowledgeBase {
    /// All open action items, newest first; items created at the same time
    /// keep their order of creation.
    pub fn get_open_actions(&self) -> (r: Vec<ActionItem>)
        ensures
            open_actions_result(self@, r@),
    {
        let ghost pred = |r: ActionRow| r.status == ActionStatus::Open;
        let mut pos: Vec<usize> = Vec::new();
        let mut keys: Vec<u64> = Vec::new();
        let mut i: usize = 0;
        assert(self@.actions.subrange(0, 0).filter(pred) =~= Seq::<ActionRow>::empty()) by {
            reveal(Seq::filter);
        }
        while i < self.actions.len()
            invariant
                i <= self.actions.len(),
                self@.actions.len() == self.actions@.len(),
                pred == (|r: ActionRow| r.status == ActionStatus::Open),
                pos@.len() == keys@.len(),
                forall|j: int| 0 <= j < pos@.len() ==> pos@[j] < self.actions@.len(),
                pick(self@.actions, pos@) == self@.actions.subrange(0, i as int).filter(pred),
                keys@ == action_times(self@.actions.subrange(0, i as int).filter(pred)),
            decreases self.actions.len() - i,
        {
            proof {
                lemma_filter_step(self@.actions, i as int, pred);
            }
            assert(self@.actions[i as int] == self.actions@[i as int]@);
            if self.actions[i].status == ActionStatus::Open {
                pos.push(i);
                keys.push(self.actions[i].created_at);
            }
            assert(pick(self@.actions, pos@) =~= self@.actions.subrange(0, i + 1).filter(pred));
            assert(keys@ =~= action_times(self@.actions.subrange(0, i + 1).filter(pred)));
            i += 1;
        }
        assert(self@.actions.subrange(0, self.actions.len() as int) =~= self@.actions);
        let ghost opens = open_actions(self@);
        assert(pick(self@.actions, pos@) == opens);
        let ix = crate::rank::top_k(&keys, pos.len());
        let mut out: Vec<ActionItem> = Vec::new();
        let mut j: usize = 0;
        while j < ix.len()
            invariant
                j <= ix.len(),
                self@.actions.len() == self.actions@.len(),
                pos@.len() == keys@.len(),
                forall|q: int| 0 <= q < pos@.len() ==> pos@[q] < self.actions@.len(),
                forall|q: int| 0 <= q < ix@.len() ==> ix@[q] < keys@.len(),
                pick(self@.actions, pos@) == opens,
                out@.map_values(|a: ActionItem| a@) == pick(opens, ix@.subrange(0, j as int)),
            decreases ix.len() - j,
        {
            let p = pos[ix[j]];
            assert(self@.actions[p as int] == self.actions@[p as int]@);
            assert(opens[ix@[j as int] as int] == self@.actions[p as int]);
            let ghost prev = out@.map_values(|a: ActionItem| a@);
            let c = self.actions[p].copy();
            out.push(c);
            assert(out@.map_values(|a: ActionItem| a@) =~= prev.push(c@));
            assert(pick(opens, ix@.subrange(0, j + 1)) =~= pick(opens, ix@.subrange(0, j as int)).push(opens[ix@[j as int] as int]));
            assert(out@.map_values(|a: ActionItem| a@) =~= pick(opens, ix@.subrange(0, j + 1)));
            j += 1;
        }
        assert(ix@.subrange(0, ix.len() as int) =~= ix@);
        out
    }

    /// The `limit` most recent decisions, newest first.
    pub fn get_recent_decisions(&self, limit: usize) -> (r: Vec<Decision>)
        ensures
            recent_decisions_result(self@, limit as nat, r@),
    {
        let mut keys: Vec<u64> = Vec::new();
        let mut i: usize = 0;
        while i < self.decisions.len()
            invariant
                i <= self.decisions.len(),
                self@.decisions.len() == self.decisions@.len(),
                keys@ == decision_times(self@.decisions.subrange(0, i as int)),
            decreases self.decisions.len() - i,
        {
            assert(self@.decisions[i as int] == self.decisions@[i as int]@);
            keys.push(self.decisions[i].created_at);
            assert(keys@ =~= decision_times(self@.decisions.subrange(0, i + 1)));
            i += 1;
        }
        assert(self@.decisions.subrange(0, self.decisions.len() as int) =~= self@.decisions);
        let ix = crate::rank::top_k(&keys, limit);
        let mut out: Vec<Decision> = Vec::new();
        let mut j: usize = 0;
        while j < ix.len()
            invariant
                j <= ix.len(),
                self@.decisions.len() == self.decisions@.len(),
                keys@.len() == self.decisions@.len(),
                forall|q: int| 0 <= q < ix@.len() ==> ix@[q] < keys@.len(),
                out@.map_values(|a: Decision| a@) == pick(self@.decisions, ix@.subrange(0, j as int)),
            decreases ix.len() - j,
        {
            let p = ix[j];
            assert(self@.decisions[p as int] == self.decisions@[p as int]@);
            let ghost prev = out@.map_values(|a: Decision| a@);
            let c = self.decisions[p].copy();
            out.push(c);
            assert(out@.map_values(|a: Decision| a@) =~= prev.push(c@));
            assert(pick(self@.decisions, ix@.subrange(0, j + 1)) =~= pick(self@.decisions, ix@.subrange(0, j as int)).push(self@.decisions[ix@[j as int] as int]));
            assert(out@.map_values(|a: Decision| a@) =~= pick(self@.decisions, ix@.subrange(0, j + 1)));
            j += 1;
        }
        assert(ix@.subrange(0, ix.len() as int) =~= ix@);
        out
    }
}


/// Whole days from `t` to `now`, rounded toward zero; negative when `t` is later.
pub open spec fn days_between(now: u64, t: u64) -> int {
    if now >= t {
        ((now - t) / DAY_MS as int) as int
    } else {
        -(((t - now) / DAY_MS as int) as int)
    }
}

fn days_between_exec(now: u64, t: u64) -> (r: i64)
    ensures
        r as int == days_between(now, t),
{
    if now >= t {
        ((now - t) / DAY_MS) as i64
    } else {
        -(((t - now) / DAY_MS) as i64)
    }
}

/// `s` cut to its first `n` items.
pub open spec fn first_n<A>(s: Seq<A>, n: nat) -> Seq<A> {
    if s.len() <= n {
        s
    } else {
        s.subrange(0, n as int)
    }
}

/// Meetings shown for a query: those that started within the window, or all.
pub open spec fn in_window(m: MeetingRow, w: Option<(u64, u64)>) -> bool {
    match w {
        Some((a, b)) => a <= m.start_time <= b,
        None => true,
    }
}

pub open spec fn window_meetings(s: KbView, w: Option<(u64, u64)>) -> Seq<MeetingRow> {
    s.meetings.filter(|m: MeetingRow| in_window(m, w))
}

pub open spec fn start_times(rows: Seq<MeetingRow>) -> Seq<u64> {
    rows.map_values(|m: MeetingRow| m.start_time)
}

/// The segments of a meeting, in the order they were stored.
pub open spec fn meeting_segments(s: KbView, m: u64) -> Seq<SegmentRow> {
    s.segments.filter(|g: SegmentRow| g.meeting_id == m)
}

/// How many meetings a query surfaces at most.
pub const MEETINGS_PER_QUERY: usize = 20;

/// How many segments come with each surfaced meeting.
pub const SEGMENTS_PER_MEETING: usize = 5;

/// How many topics or people come with each person or topic context.
pub const NAMES_PER_CONTEXT: usize = 5;

/// How many decisions a query surfaces.
pub const DECISIONS_PER_QUERY: usize = 10;

/// A meeting surfaced by a query, with how long ago it started and its first segments.
#[derive(Debug)]
pub struct MeetingContext {
    pub meeting: Meeting,
    pub days_ago: i64,
    pub relevant_segments: Vec<TranscriptSegment>,
}

/// The context a query gives on one surfaced meeting.
pub open spec fn meeting_context_of(s: KbView, m: MeetingRow, now: u64, c: MeetingContext) -> bool {
    &&& c.meeting@ == m
    &&& c.days_ago as int == days_between(now, m.start_time)
    &&& c.relevant_segments@.map_values(|g: TranscriptSegment| g@) == first_n(
        meeting_segments(s, m.id),
        SEGMENTS_PER_MEETING as nat,
    )
}

impl KnowledgeBase {
    fn segments_of(&self, meeting_id: u64) -> (r: Vec<TranscriptSegment>)
        ensures
            r@.map_values(|g: TranscriptSegment| g@) == first_n(
                meeting_segments(self@, meeting_id),
                SEGMENTS_PER_MEETING as nat,
            ),
    {
        let ghost pred = |g: SegmentRow| g.meeting_id == meeting_id;
        let mut out: Vec<TranscriptSegment> = Vec::new();
        let mut i: usize = 0;
        assert(self@.segments.subrange(0, 0).filter(pred) =~= Seq::<SegmentRow>::empty()) by {
            reveal(Seq::filter);
        }
        while i < self.segments.len()
            invariant
                i <= self.segments.len(),
                self@.segments.len() == self.segments@.len(),
                pred == (|g: SegmentRow| g.meeting_id == meeting_id),
                out@.map_values(|g: TranscriptSegment| g@) == self@.segments.subrange(0, i as int).filter(pred),
            decreases self.segments.len() - i,
        {
            proof {
                lemma_filter_step(self@.segments, i as int, pred);
            }
            assert(self@.segments[i as int] == self.segments@[i as int]@);
            if self.segments[i].meeting_id == meeting_id {
                let ghost prev = out@.map_values(|g: TranscriptSegment| g@);
                let c = self.segments[i].copy();
                out.push(c);
                assert(out@.map_values(|g: TranscriptSegment| g@) =~= prev.push(c@));
            }
            i += 1;
        }
        assert(self@.segments.subrange(0, self.segments.len() as int) =~= self@.segments);
        let ghost all = out@.map_values(|g: TranscriptSegment| g@);
        out.truncate(SEGMENTS_PER_MEETING);
        assert(out@.map_values(|g: TranscriptSegment| g@) =~= first_n(all, SEGMENTS_PER_MEETING as nat));
        out
    }

    /// The meetings that started within the window (all meetings without
    /// one), latest first, at most twenty, each with its first five segments.
    pub fn get_meetings_for_window(&self, window: Option<(u64, u64)>, now: u64) -> (r: Vec<
        MeetingContext,
    >)
        ensures
            meetings_result(self@, window, now, r@),
    {
        let ghost pred = |m: MeetingRow| in_window(m, window);
        let mut pos: Vec<usize> = Vec::new();
        let mut keys: Vec<u64> = Vec::new();
        let mut i: usize = 0;
        assert(self@.meetings.subrange(0, 0).filter(pred) =~= Seq::<MeetingRow>::empty()) by {
            reveal(Seq::filter);
        }
        while i < self.meetings.len()
            invariant
                i <= self.meetings.len(),
                self@.meetings.len() == self.meetings@.len(),
                pred == (|m: MeetingRow| in_window(m, window)),
                pos@.len() == keys@.len(),
                forall|j: int| 0 <= j < pos@.len() ==> pos@[j] < self.meetings@.len(),
                pick(self@.meetings, pos@) == self@.meetings.subrange(0, i as int).filter(pred),
                keys@ == start_times(self@.meetings.subrange(0, i as int).filter(pred)),
            decreases self.meetings.len() - i,
        {
            proof {
                lemma_filter_step(self@.meetings, i as int, pred);
            }
            assert(self@.meetings[i as int] == self.meetings@[i as int]@);
            let st = self.meetings[i].start_time;
            let inside = match window {
                Some((a, b)) => a <= st && st <= b,
                None => true,
            };
            if inside {
                pos.push(i);
                keys.push(st);
            }
            assert(pick(self@.meetings, pos@) =~= self@.meetings.subrange(0, i + 1).filter(pred));
            assert(keys@ =~= start_times(self@.meetings.subrange(0, i + 1).filter(pred)));
            i += 1;
        }
        assert(self@.meetings.subrange(0, self.meetings.len() as int) =~= self@.meetings);
        let ghost wm = window_meetings(self@, window);
        assert(pick(self@.meetings, pos@) == wm);
        let ix = crate::rank::top_k(&keys, MEETINGS_PER_QUERY);
        let mut out: Vec<MeetingContext> = Vec::new();
        let mut j: usize = 0;
        while j < ix.len()
            invariant
                j <= ix.len(),
                self@.meetings.len() == self.meetings@.len(),
                pos@.len() == keys@.len(),
                forall|q: int| 0 <= q < pos@.len() ==> pos@[q] < self.meetings@.len(),
                forall|q: int| 0 <= q < ix@.len() ==> ix@[q] < keys@.len(),
                pick(self@.meetings, pos@) == wm,
                wm == window_meetings(self@, window),
                out@.len() == j,
                forall|q: int|
                    0 <= q < j ==> meeting_context_of(self@, #[trigger] wm[ix@[q] as int], now, out@[q]),
            decreases ix.len() - j,
        {
            let p = pos[ix[j]];
            assert(self@.meetings[p as int] == self.meetings@[p as int]@);
            assert(wm[ix@[j as int] as int] == self@.meetings[p as int]);
            let m = self.meetings[p].copy();
            let days = days_between_exec(now, m.start_time);
            let segs = self.segments_of(m.id);
            out.push(MeetingContext { meeting: m, days_ago: days, relevant_segments: segs });
            j += 1;
        }
        out
    }
}


/// A relationship saying that the named person discussed a topic or project.
pub open spec fn discussed_by(r: RelationRow, name: Seq<char>) -> bool {
    r.source_entity == name && r.source_type == "person"@ && (r.target_type == "topic"@
        || r.target_type == "project"@)
}

/// A relationship from a person to the named entity.
pub open spec fn discussed_with(r: RelationRow, name: Seq<char>) -> bool {
    r.target_entity == name && r.source_type == "person"@
}

/// The first topics a person discussed, by stored relationships.
pub open spec fn person_topics(s: KbView, name: Seq<char>) -> Seq<Seq<char>> {
    first_n(
        s.relations.filter(|r: RelationRow| discussed_by(r, name)).map_values(
            |r: RelationRow| r.target_entity,
        ),
        NAMES_PER_CONTEXT as nat,
    )
}

/// The first people who discussed a topic, by stored relationships.
pub open spec fn topic_people(s: KbView, name: Seq<char>) -> Seq<Seq<char>> {
    first_n(
        s.relations.filter(|r: RelationRow| discussed_with(r, name)).map_values(
            |r: RelationRow| r.source_entity,
        ),
        NAMES_PER_CONTEXT as nat,
    )
}

/// The meetings a person was mentioned in.
pub open spec fn meetings_of_person(s: KbView, pid: u64) -> Set<u64> {
    Set::new(
        |m: u64|
            exists|i: int|
                0 <= i < s.mentioned_in.len() && #[trigger] s.mentioned_in[i] == (GraphEdge {
                    from: pid,
                    to: m,
                }),
    )
}

/// Context on a person named in a query.
#[derive(Debug)]
pub struct PersonContext {
    pub name: String,
    pub last_seen_days_ago: i64,
    pub meeting_count: usize,
    pub recent_topics: Vec<String>,
}

/// Context on a topic named in a query.
#[derive(Debug)]
pub struct TopicContext {
    pub name: String,
    pub last_mentioned_days_ago: i64,
    pub mention_count: u32,
    pub related_people: Vec<String>,
}

pub open spec fn person_context_of(s: KbView, p: PersonRow, now: u64, c: PersonContext) -> bool {
    &&& c.name@ == p.name
    &&& c.last_seen_days_ago as int == days_between(now, p.last_seen)
    &&& c.meeting_count as nat == meetings_of_person(s, p.id).len()
    &&& c.recent_topics.deep_view() == person_topics(s, p.name)
}

pub open spec fn topic_context_of(s: KbView, t: TopicRow, now: u64, c: TopicContext) -> bool {
    &&& c.name@ == t.name
    &&& c.last_mentioned_days_ago as int == days_between(now, t.last_mentioned)
    &&& c.mention_count == t.mention_count
    &&& c.related_people.deep_view() == topic_people(s, t.name)
}

/// An entity of a query that names a stored person.
pub open spec fn names_person(s: KbView, e: Entity) -> bool {
    kind_of(e.label@) == EntityKind::Person && find_person(s.people, e.text@) is Some
}

/// An entity of a query that names a stored topic.
pub open spec fn names_topic(s: KbView, e: Entity) -> bool {
    kind_of(e.label@) == EntityKind::Topic && find_topic(s.topics, e.text@) is Some
}

/// The stored people that the entities of a query name, in query order.
pub open spec fn queried_people(s: KbView, es: Seq<Entity>) -> Seq<PersonRow> {
    es.filter(|e: Entity| names_person(s, e)).map_values(
        |e: Entity| s.people[find_person(s.people, e.text@)->0],
    )
}

/// The stored topics that the entities of a query name, in query order.
pub open spec fn queried_topics(s: KbView, es: Seq<Entity>) -> Seq<TopicRow> {
    es.filter(|e: Entity| names_topic(s, e)).map_values(
        |e: Entity| s.topics[find_topic(s.topics, e.text@)->0],
    )
}

impl KnowledgeBase {
    fn person_topics_exec(&self, name: &str) -> (r: Vec<String>)
        ensures
            r.deep_view() == person_topics(self@, name@),
    {
        let ghost pred = |r: RelationRow| discussed_by(r, name@);
        let ghost f = |r: RelationRow| r.target_entity;
        let mut out: Vec<String> = Vec::new();
        let mut i: usize = 0;
        assert(self@.relations.subrange(0, 0).filter(pred) =~= Seq::<RelationRow>::empty()) by {
            reveal(Seq::filter);
        }
        assert(out.deep_view() =~= self@.relations.subrange(0, 0).filter(pred).map_values(f));
        while i < self.relations.len()
            invariant
                i <= self.relations.len(),
                self@.relations.len() == self.relations@.len(),
                pred == (|r: RelationRow| discussed_by(r, name@)),
                f == (|r: RelationRow| r.target_entity),
                out.deep_view() == self@.relations.subrange(0, i as int).filter(pred).map_values(f),
            decreases self.relations.len() - i,
        {
            proof {
                lemma_filter_step(self@.relations, i as int, pred);
            }
            let ghost prev = out.deep_view();
            assert(self@.relations[i as int] == self.relations@[i as int]@);
            let rel = &self.relations[i];
            if str_eq(rel.source_entity.as_str(), name) && str_eq(rel.source_type.as_str(), "person")
                && (str_eq(rel.target_type.as_str(), "topic") || str_eq(
                rel.target_type.as_str(),
                "project",
            )) {
                out.push(rel.target_entity.clone());
                assert(out.deep_view() =~= prev.push(rel.target_entity@));
            }
            assert(out.deep_view() =~= self@.relations.subrange(0, i + 1).filter(pred).map_values(f));
            i += 1;
        }
        assert(self@.relations.subrange(0, self.relations.len() as int) =~= self@.relations);
        let ghost all = out.deep_view();
        out.truncate(NAMES_PER_CONTEXT);
        assert(out.deep_view() =~= first_n(all, NAMES_PER_CONTEXT as nat));
        out
    }

    fn topic_people_exec(&self, name: &str) -> (r: Vec<String>)
        ensures
            r.deep_view() == topic_people(self@, name@),
    {
        let ghost pred = |r: RelationRow| discussed_with(r, name@);
        let ghost f = |r: RelationRow| r.source_entity;
        let mut out: Vec<String> = Vec::new();
        let mut i: usize = 0;
        assert(self@.relations.subrange(0, 0).filter(pred) =~= Seq::<RelationRow>::empty()) by {
            reveal(Seq::filter);
        }
        assert(out.deep_view() =~= self@.relations.subrange(0, 0).filter(pred).map_values(f));
        while i < self.relations.len()
            invariant
                i <= self.relations.len(),
                self@.relations.len() == self.relations@.len(),
                pred == (|r: RelationRow| discussed_with(r, name@)),
                f == (|r: RelationRow| r.source_entity),
                out.deep_view() == self@.relations.subrange(0, i as int).filter(pred).map_values(f),
            decreases self.relations.len() - i,
        {
            proof {
                lemma_filter_step(self@.relations, i as int, pred);
            }
            let ghost prev = out.deep_view();
            assert(self@.relations[i as int] == self.relations@[i as int]@);
            let rel = &self.relations[i];
            if str_eq(rel.target_entity.as_str(), name) && str_eq(rel.source_type.as_str(), "person") {
                out.push(rel.source_entity.clone());
                assert(out.deep_view() =~= prev.push(rel.source_entity@));
            }
            assert(out.deep_view() =~= self@.relations.subrange(0, i + 1).filter(pred).map_values(f));
            i += 1;
        }
        assert(self@.relations.subrange(0, self.relations.len() as int) =~= self@.relations);
        let ghost all = out.deep_view();
        out.truncate(NAMES_PER_CONTEXT);
        assert(out.deep_view() =~= first_n(all, NAMES_PER_CONTEXT as nat));
        out
    }

    fn meeting_count_of(&self, pid: u64) -> (r: usize)
        ensures
            r as nat == meetings_of_person(self@, pid).len(),
    {
        let ghost s0 = self@;
        let mut seen: Vec<u64> = Vec::new();
        let mut i: usize = 0;
        while i < self.mentioned_in.len()
            invariant
                s0 == self@,
                i <= self.mentioned_in.len(),
                self@.mentioned_in == self.mentioned_in@,
                seen@.no_duplicates(),
                seen@.to_set() == Set::new(
                    |m: u64|
                        exists|j: int|
                            0 <= j < i && #[trigger] s0.mentioned_in[j] == (GraphEdge { from: pid, to: m }),
                ),
            decreases self.mentioned_in.len() - i,
        {
            let e = self.mentioned_in[i];
            let ghost before = seen@;
            if e.from == pid && !contains_u64(&seen, e.to) {
                seen.push(e.to);
                proof {
                    before.lemma_push_to_set_commute(e.to);
                    assert(seen@.no_duplicates()) by {
                        assert forall|a: int, b: int| 0 <= a < b < seen@.len() implies seen@[a] != seen@[b] by {
                            if b == before.len() {
                                assert(before[a] == seen@[a]);
                            }
                        }
                    }
                }
            }
            assert(seen@.to_set() =~= Set::new(
                |m: u64|
                    exists|j: int|
                        0 <= j < i + 1 && #[trigger] s0.mentioned_in[j] == (GraphEdge { from: pid, to: m }),
            )) by {
                assert forall|m: u64| seen@.to_set().contains(m) implies exists|j: int|
                    0 <= j < i + 1 && #[trigger] s0.mentioned_in[j] == (GraphEdge { from: pid, to: m }) by {
                    if m == e.to && !before.to_set().contains(m) {
                        assert(s0.mentioned_in[i as int] == (GraphEdge { from: pid, to: m }));
                    }
                }
                assert forall|m: u64|
                    (exists|j: int|
                        0 <= j < i + 1 && #[trigger] s0.mentioned_in[j] == (GraphEdge { from: pid, to: m }))
                        implies seen@.to_set().contains(m) by {
                    let j = choose|j: int|
                        0 <= j < i + 1 && #[trigger] s0.mentioned_in[j] == (GraphEdge { from: pid, to: m });
                    if j == i {
                        if contains_u64_spec(before, m) {
                            let w = choose|w: int| 0 <= w < before.len() && before[w] == m;
                            assert(before.to_set().contains(before[w]));
                        } else {
                            assert(seen@[before.len() as int] == m);
                        }
                        assert(seen@.contains(m));
                    } else {
                        assert(before.to_set().contains(m));
                    }
                }
            }
            i += 1;
        }
        proof {
            assert(seen@.to_set() =~= meetings_of_person(s0, pid));
            seen@.unique_seq_to_set();
        }
        seen.len()
    }

    /// Context on each stored person that a person entity of the query names:
    /// how long ago they were last seen, in how many meetings they were
    /// mentioned, and the first topics they discussed.
    pub fn get_people_context(&self, entities: &Vec<Entity>, now: u64) -> (r: Vec<PersonContext>)
        ensures
            people_result(self@, entities@, now, r@),
    {
        let ghost pred = |e: Entity| names_person(self@, e);
        let ghost f = |e: Entity| self@.people[find_person(self@.people, e.text@)->0];
        let mut out: Vec<PersonContext> = Vec::new();
        let mut i: usize = 0;
        assert(entities@.subrange(0, 0).filter(pred) =~= Seq::<Entity>::empty()) by {
            reveal(Seq::filter);
        }
        while i < entities.len()
            invariant
                i <= entities.len(),
                pred == (|e: Entity| names_person(self@, e)),
                f == (|e: Entity| self@.people[find_person(self@.people, e.text@)->0]),
                self@.people.len() == self.people@.len(),
                out@.len() == entities@.subrange(0, i as int).filter(pred).len(),
                forall|q: int|
                    0 <= q < out@.len() ==> person_context_of(
                        self@,
                        #[trigger] entities@.subrange(0, i as int).filter(pred).map_values(f)[q],
                        now,
                        out@[q],
                    ),
            decreases entities.len() - i,
        {
            proof {
                lemma_filter_step(entities@, i as int, pred);
                lemma_find_person(self@.people, entities@[i as int].text@);
            }
            let ghost prev_fm = entities@.subrange(0, i as int).filter(pred).map_values(f);
            let ghost next_fm = entities@.subrange(0, i + 1).filter(pred).map_values(f);
            proof {
                if pred(entities@[i as int]) {
                    assert(next_fm =~= prev_fm.push(f(entities@[i as int])));
                } else {
                    assert(next_fm =~= prev_fm);
                }
            }
            let e = &entities[i];
            if kind_of_label(e.label.as_str()) == EntityKind::Person {
                match self.find_person_index(e.text.as_str()) {
                    Some(k) => {
                        assert(self@.people[k as int] == self.people@[k as int]@);
                        let p = &self.people[k];
                        let c = PersonContext {
                            name: p.name.clone(),
                            last_seen_days_ago: days_between_exec(now, p.last_seen),
                            meeting_count: self.meeting_count_of(p.id),
                            recent_topics: self.person_topics_exec(p.name.as_str()),
                        };
                        out.push(c);
                    },
                    None => {},
                }
            }
            i += 1;
        }
        assert(entities@.subrange(0, entities.len() as int) =~= entities@);
        out
    }

    /// Context on each stored topic that a topic, project or product entity
    /// of the query names: how long ago it was last mentioned, how often, and
    /// the first people who discussed it.
    pub fn get_topic_context(&self, entities: &Vec<Entity>, now: u64) -> (r: Vec<TopicContext>)
        ensures
            topics_result(self@, entities@, now, r@),
    {
        let ghost pred = |e: Entity| names_topic(self@, e);
        let ghost f = |e: Entity| self@.topics[find_topic(self@.topics, e.text@)->0];
        let mut out: Vec<TopicContext> = Vec::new();
        let mut i: usize = 0;
        assert(entities@.subrange(0, 0).filter(pred) =~= Seq::<Entity>::empty()) by {
            reveal(Seq::filter);
        }
        while i < entities.len()
            invariant
                i <= entities.len(),
                pred == (|e: Entity| names_topic(self@, e)),
                f == (|e: Entity| self@.topics[find_topic(self@.topics, e.text@)->0]),
                self@.topics.len() == self.topics@.len(),
                out@.len() == entities@.subrange(0, i as int).filter(pred).len(),
                forall|q: int|
                    0 <= q < out@.len() ==> topic_context_of(
                        self@,
                        #[trigger] entities@.subrange(0, i as int).filter(pred).map_values(f)[q],
                        now,
                        out@[q],
                    ),
            decreases entities.len() - i,
        {
            proof {
                lemma_filter_step(entities@, i as int, pred);
                lemma_find_topic(self@.topics, entities@[i as int].text@);
            }
            let ghost prev_fm = entities@.subrange(0, i as int).filter(pred).map_values(f);
            let ghost next_fm = entities@.subrange(0, i + 1).filter(pred).map_values(f);
            proof {
                if pred(entities@[i as int]) {
                    assert(next_fm =~= prev_fm.push(f(entities@[i as int])));
                } else {
                    assert(next_fm =~= prev_fm);
                }
            }
            let e = &entities[i];
            if kind_of_label(e.label.as_str()) == EntityKind::Topic {
                match self.find_topic_index(e.text.as_str()) {
                    Some(k) => {
                        assert(self@.topics[k as int] == self.topics@[k as int]@);
                        let t = &self.topics[k];
                        let c = TopicContext {
                            name: t.name.clone(),
                            last_mentioned_days_ago: days_between_exec(now, t.last_mentioned),
                            mention_count: t.mention_count,
                            related_people: self.topic_people_exec(t.name.as_str()),
                        };
                        out.push(c);
                    },
                    None => {},
                }
            }
            i += 1;
        }
        assert(entities@.subrange(0, entities.len() as int) =~= entities@);
        out
    }
}


/// The open action items, newest first.
pub open spec fn open_actions_result(s: KbView, r: Seq<ActionItem>) -> bool {
    exists|ix: Seq<usize>|
        is_top_k(action_times(open_actions(s)), open_actions(s).len(), ix) && r.map_values(
            |a: ActionItem| a@,
        ) == pick(open_actions(s), ix)
}

/// The `limit` most recent decisions, newest first.
pub open spec fn recent_decisions_result(s: KbView, limit: nat, r: Seq<Decision>) -> bool {
    exists|ix: Seq<usize>|
        is_top_k(decision_times(s.decisions), limit, ix) && r.map_values(|d: Decision| d@) == pick(
            s.decisions,
            ix,
        )
}

/// The latest meetings within the window, each with its context.
pub open spec fn meetings_result(s: KbView, w: Option<(u64, u64)>, now: u64, r: Seq<MeetingContext>) -> bool {
    exists|ix: Seq<usize>|
        is_top_k(start_times(window_meetings(s, w)), MEETINGS_PER_QUERY as nat, ix) && r.len()
            == ix.len() && forall|i: int|
            0 <= i < ix.len() ==> meeting_context_of(
                s,
                #[trigger] window_meetings(s, w)[ix[i] as int],
                now,
                r[i],
            )
}

/// The context on each stored person that the query names.
pub open spec fn people_result(s: KbView, es: Seq<Entity>, now: u64, r: Seq<PersonContext>) -> bool {
    &&& r.len() == queried_people(s, es).len()
    &&& forall|i: int|
        0 <= i < r.len() ==> person_context_of(s, #[trigger] queried_people(s, es)[i], now, r[i])
}

/// The context on each stored topic that the query names.
pub open spec fn topics_result(s: KbView, es: Seq<Entity>, now: u64, r: Seq<TopicContext>) -> bool {
    &&& r.len() == queried_topics(s, es).len()
    &&& forall|i: int|
        0 <= i < r.len() ==> topic_context_of(s, #[trigger] queried_topics(s, es)[i], now, r[i])
}

/// The source of chunk source `k` carries one of `tags`.
pub open spec fn tagged(s: KbView, k: u64, tags: Seq<Seq<char>>) -> bool {
    match find_source(s.sources, k) {
        Some(i) => exists|t: Seq<char>| tags.contains(t) && s.sources[i].tags.contains(t),
        None => false,
    }
}

/// The optional tag filter, as text.
pub open spec fn tags_view(tags: Option<Vec<String>>) -> Option<Seq<Seq<char>>> {
    match tags {
        Some(v) => Some(v.deep_view()),
        None => None,
    }
}

/// A chunk is searched: without a tag filter always, with one when its
/// source carries one of the tags.
pub open spec fn chunk_searched(s: KbView, c: ChunkRow, tags: Option<Seq<Seq<char>>>) -> bool {
    match tags {
        None => true,
        Some(ts) => tagged(s, c.source_id, ts),
    }
}

/// Positions of the searched chunks.
pub open spec fn searched_positions(s: KbView, tags: Option<Seq<Seq<char>>>) -> Seq<int> {
    Seq::new(s.chunks.len(), |i: int| i).filter(|i: int| chunk_searched(s, s.chunks[i], tags))
}

/// A search hit on a chunk with its score, with the title and url of its
/// source, or a fallback title and no url when the source is gone.
pub open spec fn hit_of(s: KbView, c: ChunkRow, score: u64, r: KnowledgeSearchResult) -> bool {
    &&& r.chunk@ == c
    &&& r.score == score
    &&& match find_source(s.sources, c.source_id) {
        Some(i) => r.source_title@ == s.sources[i].title && r.source_url@ == s.sources[i].url,
        None => r.source_title@ == "Source "@ + format_id(Table::KnowledgeSource, c.source_id)
            && r.source_url@.len() == 0,
    }
}

/// The `limit` searched chunks with the highest scores, best first; equal
/// scores keep the order of storage.
pub open spec fn chunks_result(
    s: KbView,
    scores: Seq<u64>,
    limit: nat,
    tags: Option<Seq<Seq<char>>>,
    r: Seq<KnowledgeSearchResult>,
) -> bool {
    let pos = searched_positions(s, tags);
    exists|ix: Seq<usize>|
        is_top_k(pos.map_values(|p: int| scores[p]), limit, ix) && r.len() == ix.len() && forall|
            i: int,
        |
            0 <= i < ix.len() ==> hit_of(
                s,
                s.chunks[#[trigger] pos[ix[i] as int]],
                scores[pos[ix[i] as int]],
                r[i],
            )
}

/// A chunk found by similarity search. The score is an order key: a larger
/// key means a closer match.
#[derive(Debug)]
pub struct KnowledgeSearchResult {
    pub chunk: KnowledgeChunk,
    pub source_title: String,
    pub source_url: String,
    pub score: u64,
}

/// Everything a query retrieves, one field per kind of retrieval. The fields
/// are not ranked against each other.
#[derive(Debug)]
pub struct GraphRAGContext {
    pub query_entities: Vec<Entity>,
    pub related_meetings: Vec<MeetingContext>,
    pub related_people: Vec<PersonContext>,
    pub related_topics: Vec<TopicContext>,
    pub open_actions: Vec<ActionItem>,
    pub recent_decisions: Vec<Decision>,
    pub similar_chunks: Vec<KnowledgeSearchResult>,
    pub temporal_context: Option<TemporalContext>,
}

/// The window that a temporal context filters meetings by.
pub open spec fn window_of(t: Option<TemporalContext>) -> Option<(u64, u64)> {
    match t {
        Some(c) => match (c.start_timestamp, c.end_timestamp) {
            (Some(a), Some(b)) => Some((a, b)),
            _ => None,
        },
        None => None,
    }
}

/// What a query returns on a store, given the entities found in the query,
/// the chunk scores and the time.
pub open spec fn graph_rag_result(
    s: KbView,
    query: Seq<char>,
    entities: Seq<Entity>,
    scores: Option<Seq<u64>>,
    limit: nat,
    now: u64,
    r: GraphRAGContext,
) -> bool {
    &&& r.query_entities@ == entities
    &&& temporal_matches(query, now, r.temporal_context)
    &&& meetings_result(s, window_of(r.temporal_context), now, r.related_meetings@)
    &&& people_result(s, entities, now, r.related_people@)
    &&& topics_result(s, entities, now, r.related_topics@)
    &&& open_actions_result(s, r.open_actions@)
    &&& recent_decisions_result(s, DECISIONS_PER_QUERY as nat, r.recent_decisions@)
    &&& match scores {
        Some(sc) => chunks_result(s, sc, limit, None, r.similar_chunks@),
        None => r.similar_chunks@.len() == 0,
    }
}

/// The scores handed to a query, when the query could be embedded.
pub open spec fn scores_view(scores: Option<Vec<u64>>) -> Option<Seq<u64>> {
    match scores {
        Some(v) => Some(v@),
        None => None,
    }
}

impl KnowledgeBase {
    fn source_tagged(&self, k: u64, tags: &Vec<String>) -> (r: bool)
        ensures
            r == tagged(self@, k, tags.deep_view()),
    {
        match self.find_source_index(k) {
            None => false,
            Some(i) => {
                assert(self@.sources[i as int] == self.sources@[i as int]@);
                let st = &self.sources[i].tags;
                let mut a: usize = 0;
                while a < tags.len()
                    invariant
                        a <= tags.len(),
                        find_source(self@.sources, k) == Some(i as int),
                        st.deep_view() == self@.sources[i as int].tags,
                        forall|q: int| 0 <= q < a ==> !st.deep_view().contains(#[trigger] tags.deep_view()[q]),
                    decreases tags.len() - a,
                {
                    let mut b: usize = 0;
                    while b < st.len()
                        invariant
                            a < tags.len(),
                            b <= st.len(),
                            find_source(self@.sources, k) == Some(i as int),
                            st.deep_view() == self@.sources[i as int].tags,
                            forall|q: int| 0 <= q < b ==> st.deep_view()[q] != tags.deep_view()[a as int],
                        decreases st.len() - b,
                    {
                        if str_eq(st[b].as_str(), tags[a].as_str()) {
                            assert(st.deep_view()[b as int] == tags.deep_view()[a as int]);
                            assert(tags.deep_view().contains(tags.deep_view()[a as int]));
                            let ghost t = tags.deep_view()[a as int];
                            assert(self@.sources[i as int].tags.contains(t));
                            assert(tags.deep_view().contains(t) && self@.sources[i as int].tags.contains(t));
                            assert(find_source(self@.sources, k) == Some(i as int));
                            assert(tagged(self@, k, tags.deep_view()));
                            return true;
                        }
                        b += 1;
                    }
                    a += 1;
                }
                assert forall|t: Seq<char>| tags.deep_view().contains(t) implies !st.deep_view().contains(t) by {
                    let q = choose|q: int| 0 <= q < tags.deep_view().len() && tags.deep_view()[q] == t;
                    assert(!st.deep_view().contains(tags.deep_view()[q]));
                }
                false
            },
        }
    }

    fn chunk_searched_exec(&self, c: &KnowledgeChunk, tags: &Option<Vec<String>>) -> (r: bool)
        ensures
            r == chunk_searched(self@, c@, tags_view(*tags)),
    {
        match tags {
            None => true,
            Some(ts) => self.source_tagged(c.source_id, ts),
        }
    }

    fn hit(&self, c: &KnowledgeChunk, score: u64) -> (r: KnowledgeSearchResult)
        ensures
            hit_of(self@, c@, score, r),
    {
        match self.find_source_index(c.source_id) {
            Some(i) => {
                assert(self@.sources[i as int] == self.sources@[i as int]@);
                KnowledgeSearchResult {
                    chunk: c.copy(),
                    source_title: self.sources[i].title.clone(),
                    source_url: self.sources[i].url.clone(),
                    score,
                }
            },
            None => {
                let mut t = chars_of("Source ");
                let id = format_record_id(Table::KnowledgeSource, c.source_id);
                let mut tail = chars_of(id.as_str());
                t.append(&mut tail);
                KnowledgeSearchResult {
                    chunk: c.copy(),
                    source_title: string_of(&t),
                    source_url: String::new(),
                    score,
                }
            },
        }
    }

    /// Similarity search over the stored chunks. `scores[i]` is the order key
    /// of chunk `i` against the query: a larger key is a closer match. With
    /// tags, only chunks of sources carrying one of them are searched.
    pub fn search_knowledge(
        &self,
        scores: &Vec<u64>,
        limit: usize,
        tags: &Option<Vec<String>>,
    ) -> (r: Vec<KnowledgeSearchResult>)
        requires
            scores@.len() == self@.chunks.len(),
        ensures
            chunks_result(self@, scores@, limit as nat, tags_view(*tags), r@),
    {
        let ghost tv = tags_view(*tags);
        let ghost all = Seq::new(self@.chunks.len(), |i: int| i);
        let ghost pred = |i: int| chunk_searched(self@, self@.chunks[i], tv);
        let mut pos: Vec<usize> = Vec::new();
        let mut keys: Vec<u64> = Vec::new();
        let mut i: usize = 0;
        assert(all.subrange(0, 0).filter(pred) =~= Seq::<int>::empty()) by {
            reveal(Seq::filter);
        }
        while i < self.chunks.len()
            invariant
                i <= self.chunks.len(),
                self@.chunks.len() == self.chunks@.len(),
                scores@.len() == self@.chunks.len(),
                all == Seq::new(self@.chunks.len(), |i: int| i),
                pred == (|i: int| chunk_searched(self@, self@.chunks[i], tv)),
                tv == tags_view(*tags),
                pos@.len() == keys@.len(),
                forall|q: int| 0 <= q < pos@.len() ==> pos@[q] < self@.chunks.len(),
                pos@.map_values(|p: usize| p as int) == all.subrange(0, i as int).filter(pred),
                keys@ == all.subrange(0, i as int).filter(pred).map_values(|p: int| scores@[p]),
            decreases self.chunks.len() - i,
        {
            proof {
                lemma_filter_step(all, i as int, pred);
            }
            assert(self@.chunks[i as int] == self.chunks@[i as int]@);
            assert(all[i as int] == i as int);
            if self.chunk_searched_exec(&self.chunks[i], tags) {
                pos.push(i);
                keys.push(scores[i]);
            }
            assert(pos@.map_values(|p: usize| p as int) =~= all.subrange(0, i + 1).filter(pred));
            assert(keys@ =~= all.subrange(0, i + 1).filter(pred).map_values(|p: int| scores@[p]));
            i += 1;
        }
        assert(all.subrange(0, self.chunks.len() as int) =~= all);
        let ghost sp = searched_positions(self@, tv);
        assert(all.filter(pred) == sp);
        let ix = crate::rank::top_k(&keys, limit);
        let mut out: Vec<KnowledgeSearchResult> = Vec::new();
        let mut j: usize = 0;
        while j < ix.len()
            invariant
                j <= ix.len(),
                self@.chunks.len() == self.chunks@.len(),
                scores@.len() == self@.chunks.len(),
                pos@.len() == keys@.len(),
                forall|q: int| 0 <= q < pos@.len() ==> pos@[q] < self@.chunks.len(),
                pos@.map_values(|p: usize| p as int) == sp,
                keys@ == sp.map_values(|p: int| scores@[p]),
                forall|q: int| 0 <= q < ix@.len() ==> ix@[q] < keys@.len(),
                sp == searched_positions(self@, tv),
                out@.len() == j,
                forall|q: int|
                    0 <= q < j ==> hit_of(
                        self@,
                        self@.chunks[#[trigger] sp[ix@[q] as int]],
                        scores@[sp[ix@[q] as int]],
                        out@[q],
                    ),
            decreases ix.len() - j,
        {
            let p = pos[ix[j]];
            assert(sp[ix@[j as int] as int] == p as int);
            assert(self@.chunks[p as int] == self.chunks@[p as int]@);
            let h = self.hit(&self.chunks[p], scores[p]);
            out.push(h);
            j += 1;
        }
        assert(keys@ == sp.map_values(|p: int| scores@[p]));
        out
    }

    /// Answers a query from the store: the meetings within the query's time
    /// reference (or the latest ones), context on the people and topics it
    /// names, the open action items, the latest decisions and the chunks with
    /// the best scores. `query_entities` is what the extractor found in the
    /// query; `chunk_scores[i]` is the similarity key of chunk `i`. Without
    /// scores (the query could not be embedded) no chunk is returned.
    pub fn graph_rag_query(
        &self,
        query: &str,
        query_entities: Vec<Entity>,
        chunk_scores: &Option<Vec<u64>>,
        limit: usize,
        now: u64,
    ) -> (r: GraphRAGContext)
        requires
            match chunk_scores {
                Some(v) => v@.len() == self@.chunks.len(),
                None => true,
            },
        ensures
            graph_rag_result(
                self@,
                query@,
                query_entities@,
                scores_view(*chunk_scores),
                limit as nat,
                now,
                r,
            ),
    {
        let temporal = parse_temporal_context(query, now);
        let window = match &temporal {
            Some(c) => match (c.start_timestamp, c.end_timestamp) {
                (Some(a), Some(b)) => Some((a, b)),
                _ => None,
            },
            None => None,
        };
        let related_meetings = self.get_meetings_for_window(window, now);
        let related_people = self.get_people_context(&query_entities, now);
        let related_topics = self.get_topic_context(&query_entities, now);
        let open_actions = self.get_open_actions();
        let recent_decisions = self.get_recent_decisions(DECISIONS_PER_QUERY);
        let similar_chunks = match chunk_scores {
            Some(sc) => self.search_knowledge(sc, limit, &None),
            None => Vec::new(),
        };
        GraphRAGContext {
            query_entities,
            related_meetings,
            related_people,
            related_topics,
            open_actions,
            recent_decisions,
            similar_chunks,
            temporal_context: temporal,
        }
    }
}


impl KnowledgeBase {
    /// The stored meetings, in order of storage.
    pub fn meetings(&self) -> (r: &Vec<Meeting>)
        ensures
            r@.map_values(|x: Meeting| x@) == self@.meetings,
    {
        &self.meetings
    }

    /// The stored segments, in order of storage.
    pub fn segments(&self) -> (r: &Vec<TranscriptSegment>)
        ensures
            r@.map_values(|x: TranscriptSegment| x@) == self@.segments,
    {
        &self.segments
    }

    /// The stored people, in order of storage.
    pub fn people(&self) -> (r: &Vec<Person>)
        ensures
            r@.map_values(|x: Person| x@) == self@.people,
    {
        &self.people
    }

    /// The stored topics, in order of storage.
    pub fn topics(&self) -> (r: &Vec<Topic>)
        ensures
            r@.map_values(|x: Topic| x@) == self@.topics,
    {
        &self.topics
    }

    /// The stored action items, in order of storage.
    pub fn action_items(&self) -> (r: &Vec<ActionItem>)
        ensures
            r@.map_values(|x: ActionItem| x@) == self@.actions,
    {
        &self.actions
    }

    /// The stored decisions, in order of storage.
    pub fn decisions(&self) -> (r: &Vec<Decision>)
        ensures
            r@.map_values(|x: Decision| x@) == self@.decisions,
    {
        &self.decisions
    }

    /// The stored knowledge sources, in order of storage.
    pub fn knowledge_sources(&self) -> (r: &Vec<KnowledgeSource>)
        ensures
            r@.map_values(|x: KnowledgeSource| x@) == self@.sources,
    {
        &self.sources
    }

    /// The stored chunks, in order of storage.
    pub fn chunks(&self) -> (r: &Vec<KnowledgeChunk>)
        ensures
            r@.map_values(|x: KnowledgeChunk| x@) == self@.chunks,
    {
        &self.chunks
    }

    /// The stored relations, in order of storage.
    pub fn relations(&self) -> (r: &Vec<EntityRelation>)
        ensures
            r@.map_values(|x: EntityRelation| x@) == self@.relations,
    {
        &self.relations
    }

    /// The stored meeting links rows, in order of storage.
    pub fn meeting_links(&self) -> (r: &Vec<MeetingKnowledge>)
        ensures
            r@ == self@.links,
    {
        &self.links
    }

    /// The stored mentioned in rows, in order of storage.
    pub fn mentioned_in(&self) -> (r: &Vec<GraphEdge>)
        ensures
            r@ == self@.mentioned_in,
    {
        &self.mentioned_in
    }

    /// The stored discussed in rows, in order of storage.
    pub fn discussed_in(&self) -> (r: &Vec<GraphEdge>)
        ensures
            r@ == self@.discussed_in,
    {
        &self.discussed_in
    }

    /// How many chunks of a source are stored.
    pub fn get_source_chunk_count(&self, source_id: u64) -> (r: usize)
        ensures
            r == self@.chunks.filter(|c: ChunkRow| c.source_id == source_id).len(),
    {
        let ghost pred = |c: ChunkRow| c.source_id == source_id;
        let mut n: usize = 0;
        let mut i: usize = 0;
        assert(self@.chunks.subrange(0, 0).filter(pred) =~= Seq::<ChunkRow>::empty()) by {
            reveal(Seq::filter);
        }
        while i < self.chunks.len()
            invariant
                i <= self.chunks.len(),
                self@.chunks.len() == self.chunks@.len(),
                pred == (|c: ChunkRow| c.source_id == source_id),
                n == self@.chunks.subrange(0, i as int).filter(pred).len(),
                n <= i,
            decreases self.chunks.len() - i,
        {
            proof {
                lemma_filter_step(self@.chunks, i as int, pred);
            }
            assert(self@.chunks[i as int] == self.chunks@[i as int]@);
            if self.chunks[i].source_id == source_id {
                n += 1;
            }
            i += 1;
        }
        assert(self@.chunks.subrange(0, self.chunks.len() as int) =~= self@.chunks);
        n
    }
}


/// The first diarized stretch that holds instant `t`.
pub open spec fn stretch_holding(d: Seq<DiarizedSegment>, t: int) -> Option<int> {
    crate::diarization::stretch_at(d, t)
}

/// A diarized stretch and a segment overlap, or the stretch holds the
/// segment's midpoint.
pub open spec fn stretch_matches(d: DiarizedSegment, g: SegmentRow) -> bool {
    (g.start_ms <= d.end_ms && g.end_ms >= d.start_ms) || (d.start_ms <= midpoint(g.start_ms, g.end_ms)
        <= d.end_ms)
}

/// The first diarized stretch that matches a segment.
pub open spec fn first_match(d: Seq<DiarizedSegment>, g: SegmentRow) -> Option<int>
    decreases d.len(),
{
    if d.len() == 0 {
        None
    } else if stretch_matches(d[0], g) {
        Some(0)
    } else {
        match first_match(d.drop_first(), g) {
            Some(i) => Some(i + 1),
            None => None,
        }
    }
}

/// A segment of meeting `m` whose speaker the full diarization pass changes.
pub open spec fn relabels(g: SegmentRow, m: u64, d: Seq<DiarizedSegment>) -> bool {
    g.meeting_id == m && match first_match(d, g) {
        Some(i) => d[i].speaker_label@ != g.speaker,
        None => false,
    }
}

/// A segment after the full diarization pass of meeting `m`.
pub open spec fn relabelled_segment(g: SegmentRow, m: u64, d: Seq<DiarizedSegment>) -> SegmentRow {
    if relabels(g, m, d) {
        SegmentRow { speaker: d[first_match(d, g)->0].speaker_label@, ..g }
    } else {
        g
    }
}

/// A "Guest" segment of meeting `m` that the guest pass relabels.
pub open spec fn guest_relabels(g: SegmentRow, m: u64, d: Seq<DiarizedSegment>) -> bool {
    g.meeting_id == m && g.speaker == "Guest"@ && stretch_holding(
        d,
        midpoint(g.start_ms, g.end_ms),
    ) is Some
}

/// A segment after the guest pass of meeting `m`.
pub open spec fn guest_relabelled(g: SegmentRow, m: u64, d: Seq<DiarizedSegment>) -> SegmentRow {
    if guest_relabels(g, m, d) {
        SegmentRow {
            speaker: d[stretch_holding(d, midpoint(g.start_ms, g.end_ms))->0].speaker_label@,
            ..g
        }
    } else {
        g
    }
}

/// Milliseconds in one hour.
pub const HOUR_MS: u64 = 3600000;

/// A meeting left open that started before the cutoff.
pub open spec fn is_stale(m: MeetingRow, cutoff: u64) -> bool {
    m.end_time is None && m.start_time < cutoff
}

/// The cutoff before which open meetings count as stale.
pub open spec fn stale_cutoff(now: u64, max_age_hours: u64) -> u64 {
    clamp_u64(now - max_age_hours * HOUR_MS)
}

pub open spec fn clamp_u64(x: int) -> u64 {
    if x < 0 {
        0
    } else if x > u64::MAX {
        u64::MAX
    } else {
        x as u64
    }
}

/// A meeting after the stale pass: an open meeting that started before the
/// cutoff is closed an hour after its start.
pub open spec fn closed_if_stale(m: MeetingRow, cutoff: u64) -> MeetingRow {
    if is_stale(m, cutoff) {
        MeetingRow { end_time: Some(clamp_u64(m.start_time + HOUR_MS)), ..m }
    } else {
        m
    }
}

fn first_match_exec(d: &Vec<DiarizedSegment>, g: &TranscriptSegment) -> (r: Option<usize>)
    ensures
        match r {
            Some(i) => first_match(d@, g@) == Some(i as int) && i < d@.len(),
            None => first_match(d@, g@) is None,
        },
{
    let mid: u64 = ((g.start_ms as u128 + g.end_ms as u128) / 2) as u64;
    let mut i: usize = 0;
    assert(d@.subrange(0, d@.len() as int) =~= d@);
    while i < d.len()
        invariant
            i <= d.len(),
            mid == midpoint(g.start_ms, g.end_ms),
            first_match(d@, g@) == match first_match(d@.subrange(i as int, d@.len() as int), g@) {
                Some(k) => Some(k + i),
                None => None,
            },
        decreases d.len() - i,
    {
        let ghost rest = d@.subrange(i as int, d@.len() as int);
        assert(rest.drop_first() =~= d@.subrange(i + 1, d@.len() as int));
        let x = &d[i];
        if (g.start_ms <= x.end_ms && g.end_ms >= x.start_ms) || (x.start_ms <= mid && mid <= x.end_ms) {
            return Some(i);
        }
        i += 1;
    }
    None
}

fn stretch_holding_exec(d: &Vec<DiarizedSegment>, t: u64) -> (r: Option<usize>)
    ensures
        match r {
            Some(i) => stretch_holding(d@, t as int) == Some(i as int) && i < d@.len(),
            None => stretch_holding(d@, t as int) is None,
        },
{
    let mut i: usize = 0;
    assert(d@.subrange(0, d@.len() as int) =~= d@);
    while i < d.len()
        invariant
            i <= d.len(),
            stretch_holding(d@, t as int) == match crate::diarization::stretch_at(
                d@.subrange(i as int, d@.len() as int),
                t as int,
            ) {
                Some(k) => Some(k + i),
                None => None,
            },
        decreases d.len() - i,
    {
        let ghost rest = d@.subrange(i as int, d@.len() as int);
        assert(rest.drop_first() =~= d@.subrange(i + 1, d@.len() as int));
        if d[i].start_ms <= t && t <= d[i].end_ms {
            return Some(i);
        }
        i += 1;
    }
    None
}

impl KnowledgeBase {
    /// Applies a full diarization pass to a meeting: every segment takes the
    /// label of the first stretch that overlaps it or holds its midpoint.
    /// Returns how many segments changed speaker.
    pub fn relabel_all_speakers(&mut self, meeting_id: u64, diarization: &Vec<DiarizedSegment>) -> (r: usize)
        requires
            old(self).wf(),
        ensures
            final(self).wf(),
            final(self)@ == (KbView {
                segments: old(self)@.segments.map_values(
                    |g: SegmentRow| relabelled_segment(g, meeting_id, diarization@),
                ),
                ..old(self)@
            }),
            r == old(self)@.segments.filter(|g: SegmentRow| relabels(g, meeting_id, diarization@)).len(),
    {
        let ghost s0 = self@;
        let ghost pred = |g: SegmentRow| relabels(g, meeting_id, diarization@);
        let ghost f = |g: SegmentRow| relabelled_segment(g, meeting_id, diarization@);
        let mut count: usize = 0;
        let mut i: usize = 0;
        assert(s0.segments.subrange(0, 0).filter(pred) =~= Seq::<SegmentRow>::empty()) by {
            reveal(Seq::filter);
        }
        while i < self.segments.len()
            invariant
                i <= self.segments.len(),
                self.segments@.len() == s0.segments.len(),
                self@ == (KbView { segments: self@.segments, ..s0 }),
                pred == (|g: SegmentRow| relabels(g, meeting_id, diarization@)),
                f == (|g: SegmentRow| relabelled_segment(g, meeting_id, diarization@)),
                forall|k: int| 0 <= k < i ==> #[trigger] self@.segments[k] == f(s0.segments[k]),
                forall|k: int| i <= k < s0.segments.len() ==> #[trigger] self@.segments[k] == s0.segments[k],
                count == s0.segments.subrange(0, i as int).filter(pred).len(),
                count <= i,
            decreases self.segments.len() - i,
        {
            proof {
                lemma_filter_step(s0.segments, i as int, pred);
            }
            let ghost old_segs = self.segments@;
            let ghost prev_view = self@.segments;
            assert(self@.segments[i as int] == self.segments@[i as int]@);
            if self.segments[i].meeting_id == meeting_id {
                match first_match_exec(diarization, &self.segments[i]) {
                    Some(j) => {
                        let label = &diarization[j].speaker_label;
                        if !str_eq(self.segments[i].speaker.as_str(), label.as_str()) {
                            self.segments[i].speaker = label.clone();
                            count += 1;
                        }
                    },
                    None => {},
                }
            }
            assert(self@.segments[i as int] == self.segments@[i as int]@);
            assert(self@.segments[i as int] == f(s0.segments[i as int]));
            assert forall|k: int| 0 <= k < old_segs.len() && k != i implies #[trigger] self@.segments[k] == prev_view[k] by {
                assert(self.segments@[k] == old_segs[k]);
                assert(self@.segments[k] == self.segments@[k]@);
                assert(prev_view[k] == old_segs[k]@);
            }
            i += 1;
        }
        assert(s0.segments.subrange(0, self.segments.len() as int) =~= s0.segments);
        assert(self@.segments =~= s0.segments.map_values(f));
        count
    }

    /// Applies diarization to the "Guest" segments of a meeting: each takes the
    /// label of the first stretch that holds its midpoint. Returns how many
    /// segments were relabelled.
    pub fn relabel_speakers(&mut self, meeting_id: u64, diarization: &Vec<DiarizedSegment>) -> (r: usize)
        requires
            old(self).wf(),
        ensures
            final(self).wf(),
            final(self)@ == (KbView {
                segments: old(self)@.segments.map_values(
                    |g: SegmentRow| guest_relabelled(g, meeting_id, diarization@),
                ),
                ..old(self)@
            }),
            r == old(self)@.segments.filter(|g: SegmentRow| guest_relabels(g, meeting_id, diarization@)).len(),
    {
        let ghost s0 = self@;
        let ghost pred = |g: SegmentRow| guest_relabels(g, meeting_id, diarization@);
        let ghost f = |g: SegmentRow| guest_relabelled(g, meeting_id, diarization@);
        let mut count: usize = 0;
        let mut i: usize = 0;
        assert(s0.segments.subrange(0, 0).filter(pred) =~= Seq::<SegmentRow>::empty()) by {
            reveal(Seq::filter);
        }
        while i < self.segments.len()
            invariant
                i <= self.segments.len(),
                self.segments@.len() == s0.segments.len(),
                self@ == (KbView { segments: self@.segments, ..s0 }),
                pred == (|g: SegmentRow| guest_relabels(g, meeting_id, diarization@)),
                f == (|g: SegmentRow| guest_relabelled(g, meeting_id, diarization@)),
                forall|k: int| 0 <= k < i ==> #[trigger] self@.segments[k] == f(s0.segments[k]),
                forall|k: int| i <= k < s0.segments.len() ==> #[trigger] self@.segments[k] == s0.segments[k],
                count == s0.segments.subrange(0, i as int).filter(pred).len(),
                count <= i,
            decreases self.segments.len() - i,
        {
            proof {
                lemma_filter_step(s0.segments, i as int, pred);
            }
            let ghost old_segs = self.segments@;
            let ghost prev_view = self@.segments;
            assert(self@.segments[i as int] == self.segments@[i as int]@);
            if self.segments[i].meeting_id == meeting_id && str_eq(self.segments[i].speaker.as_str(), "Guest") {
                let mid: u64 = ((self.segments[i].start_ms as u128 + self.segments[i].end_ms as u128) / 2) as u64;
                match stretch_holding_exec(diarization, mid) {
                    Some(j) => {
                        self.segments[i].speaker = diarization[j].speaker_label.clone();
                        count += 1;
                    },
                    None => {},
                }
            }
            assert(self@.segments[i as int] == self.segments@[i as int]@);
            assert(self@.segments[i as int] == f(s0.segments[i as int]));
            assert forall|k: int| 0 <= k < old_segs.len() && k != i implies #[trigger] self@.segments[k] == prev_view[k] by {
                assert(self.segments@[k] == old_segs[k]);
                assert(self@.segments[k] == self.segments@[k]@);
                assert(prev_view[k] == old_segs[k]@);
            }
            i += 1;
        }
        assert(s0.segments.subrange(0, self.segments.len() as int) =~= s0.segments);
        assert(self@.segments =~= s0.segments.map_values(f));
        count
    }

    /// Closes every meeting left open that started more than `max_age_hours`
    /// before `now`, an hour after its start. Returns how many were closed.
    pub fn auto_end_stale_meetings(&mut self, max_age_hours: u64, now: u64) -> (r: usize)
        requires
            old(self).wf(),
        ensures
            final(self).wf(),
            final(self)@ == (KbView {
                meetings: old(self)@.meetings.map_values(
                    |m: MeetingRow| closed_if_stale(m, stale_cutoff(now, max_age_hours)),
                ),
                ..old(self)@
            }),
            r == old(self)@.meetings.filter(
                |m: MeetingRow| is_stale(m, stale_cutoff(now, max_age_hours)),
            ).len(),
    {
        let ghost s0 = self@;
        assert(max_age_hours as u128 * HOUR_MS as u128 <= 0x1_0000_0000_0000_0000 * 3600000) by (nonlinear_arith)
            requires
                max_age_hours <= u64::MAX,
        ;
        let age: u128 = max_age_hours as u128 * HOUR_MS as u128;
        let cutoff: u64 = if (now as u128) < age {
            0
        } else {
            (now as u128 - age) as u64
        };
        assert(cutoff == stale_cutoff(now, max_age_hours));
        let ghost pred = |m: MeetingRow| is_stale(m, cutoff);
        let ghost f = |m: MeetingRow| closed_if_stale(m, cutoff);
        let mut count: usize = 0;
        let mut i: usize = 0;
        assert(s0.meetings.subrange(0, 0).filter(pred) =~= Seq::<MeetingRow>::empty()) by {
            reveal(Seq::filter);
        }
        while i < self.meetings.len()
            invariant
                i <= self.meetings.len(),
                self.meetings@.len() == s0.meetings.len(),
                self@ == (KbView { meetings: self@.meetings, ..s0 }),
                pred == (|m: MeetingRow| is_stale(m, cutoff)),
                f == (|m: MeetingRow| closed_if_stale(m, cutoff)),
                forall|k: int| 0 <= k < i ==> #[trigger] self@.meetings[k] == f(s0.meetings[k]),
                forall|k: int| i <= k < s0.meetings.len() ==> #[trigger] self@.meetings[k] == s0.meetings[k],
                count == s0.meetings.subrange(0, i as int).filter(pred).len(),
                count <= i,
            decreases self.meetings.len() - i,
        {
            proof {
                lemma_filter_step(s0.meetings, i as int, pred);
            }
            let ghost old_m = self.meetings@;
            let ghost prev_view = self@.meetings;
            assert(self@.meetings[i as int] == self.meetings@[i as int]@);
            if self.meetings[i].end_time.is_none() && self.meetings[i].start_time < cutoff {
                let st = self.meetings[i].start_time;
                let end = if st <= u64::MAX - HOUR_MS {
                    st + HOUR_MS
                } else {
                    u64::MAX
                };
                self.meetings[i].end_time = Some(end);
                count += 1;
            }
            assert(self@.meetings[i as int] == self.meetings@[i as int]@);
            assert(self@.meetings[i as int] == f(s0.meetings[i as int]));
            assert forall|k: int| 0 <= k < old_m.len() && k != i implies #[trigger] self@.meetings[k] == prev_view[k] by {
                assert(self.meetings@[k] == old_m[k]);
                assert(self@.meetings[k] == self.meetings@[k]@);
                assert(prev_view[k] == old_m[k]@);
            }
            i += 1;
        }
        assert(s0.meetings.subrange(0, self.meetings.len() as int) =~= s0.meetings);
        assert(self@.meetings =~= s0.meetings.map_values(f));
        assert forall|k: int|
            0 <= k < self@.meetings.len() && (#[trigger] self@.meetings[k]).end_time is Some implies self@.meetings[k].end_time->0
            >= self@.meetings[k].start_time by {
            assert(self@.meetings[k] == f(s0.meetings[k]));
        }
        count
    }
}


/// The position of the action item with this identifier.
pub open spec fn find_action(actions: Seq<ActionRow>, id: u64) -> Option<int>
    decreases actions.len(),
{
    if actions.len() == 0 {
        None
    } else if actions[0].id == id {
        Some(0)
    } else {
        match find_action(actions.drop_first(), id) {
            Some(i) => Some(i + 1),
            None => None,
        }
    }
}

impl KnowledgeBase {
    fn find_action_index(&self, id: u64) -> (r: Option<usize>)
        ensures
            match r {
                Some(i) => find_action(self@.actions, id) == Some(i as int) && i < self@.actions.len(),
                None => find_action(self@.actions, id) is None,
            },
    {
        let mut i: usize = 0;
        assert(self@.actions.subrange(0, self@.actions.len() as int) =~= self@.actions);
        while i < self.actions.len()
            invariant
                i <= self.actions.len(),
                self@.actions.len() == self.actions@.len(),
                find_action(self@.actions, id) == match find_action(
                    self@.actions.subrange(i as int, self@.actions.len() as int),
                    id,
                ) {
                    Some(k) => Some(k + i),
                    None => None,
                },
            decreases self.actions.len() - i,
        {
            let ghost rest = self@.actions.subrange(i as int, self@.actions.len() as int);
            assert(rest.drop_first() =~= self@.actions.subrange(i + 1, self@.actions.len() as int));
            assert(self@.actions[i as int] == self.actions@[i as int]@);
            if self.actions[i].id == id {
                return Some(i);
            }
            i += 1;
        }
        None
    }

    /// Sets the status of an action item; any transition is allowed.
    pub fn update_action_item_status(&mut self, action_id: u64, status: ActionStatus) -> (r: Result<
        (),
        KbError,
    >)
        requires
            old(self).wf(),
        ensures
            final(self).wf(),
            match find_action(old(self)@.actions, action_id) {
                None => r == Err::<(), KbError>(KbError::NotFound) && final(self)@ == old(self)@,
                Some(i) => r == Ok::<(), KbError>(()) && final(self)@ == (KbView {
                    actions: old(self)@.actions.update(i, (ActionRow { status, ..old(self)@.actions[i] })),
                    ..old(self)@
                }),
            },
    {
        match self.find_action_index(action_id) {
            None => Err(KbError::NotFound),
            Some(i) => {
                let ghost s0 = self@;
                let ghost old_a = self.actions@;
                self.actions[i].status = status;
                assert forall|j: int| 0 <= j < old_a.len() && j != i implies self@.actions[j]
                    == s0.actions[j] by {
                    assert(self@.actions[j] == self.actions@[j]@);
                    assert(s0.actions[j] == old_a[j]@);
                }
                assert(s0.actions[i as int] == old_a[i as int]@);
                assert(self@.actions[i as int] == self.actions@[i as int]@);
                assert(self@.actions =~= s0.actions.update(i as int, ActionRow { status, ..s0.actions[i as int] }));
                Ok(())
            },
        }
    }

    /// Adds an open action item to a meeting.
    pub fn add_action_item(
        &mut self,
        meeting_id: u64,
        text: String,
        assignee: Option<String>,
        deadline: Option<String>,
        now: u64,
    ) -> (r: Result<u64, KbError>)
        requires
            old(self).wf(),
        ensures
            final(self).wf(),
            find_meeting(old(self)@.meetings, meeting_id) is None ==> r == Err::<u64, KbError>(
                KbError::NotFound,
            ) && final(self)@ == old(self)@,
            find_meeting(old(self)@.meetings, meeting_id) is Some && old(self)@.next_id == u64::MAX
                ==> r == Err::<u64, KbError>(KbError::IdsExhausted) && final(self)@ == old(self)@,
            find_meeting(old(self)@.meetings, meeting_id) is Some && old(self)@.next_id < u64::MAX
                ==> r == Ok::<u64, KbError>(old(self)@.next_id) && final(self)@ == (KbView {
                actions: old(self)@.actions.push(
                    (ActionRow {
                        id: old(self)@.next_id,
                        meeting_id,
                        text: text@,
                        assignee: opt_text(assignee),
                        deadline: opt_text(deadline),
                        status: ActionStatus::Open,
                        created_at: now,
                    }),
                ),
                next_id: (old(self)@.next_id + 1) as u64,
                ..old(self)@
            }),
    {
        if self.find_meeting_index(meeting_id).is_none() {
            return Err(KbError::NotFound);
        }
        if self.next_id == u64::MAX {
            return Err(KbError::IdsExhausted);
        }
        let id = self.next_id;
        let ghost s0 = self@;
        let a = ActionItem {
            id,
            meeting_id,
            text,
            assignee,
            deadline,
            status: ActionStatus::Open,
            created_at: now,
        };
        self.actions.push(a);
        self.next_id = id + 1;
        assert(self@.actions =~= s0.actions.push(self.actions@[self.actions@.len() - 1]@));
        Ok(id)
    }

    /// Adds a decision to a meeting.
    pub fn add_decision(&mut self, meeting_id: u64, text: String, now: u64) -> (r: Result<u64, KbError>)
        requires
            old(self).wf(),
        ensures
            final(self).wf(),
            find_meeting(old(self)@.meetings, meeting_id) is None ==> r == Err::<u64, KbError>(
                KbError::NotFound,
            ) && final(self)@ == old(self)@,
            find_meeting(old(self)@.meetings, meeting_id) is Some && old(self)@.next_id == u64::MAX
                ==> r == Err::<u64, KbError>(KbError::IdsExhausted) && final(self)@ == old(self)@,
            find_meeting(old(self)@.meetings, meeting_id) is Some && old(self)@.next_id < u64::MAX
                ==> r == Ok::<u64, KbError>(old(self)@.next_id) && final(self)@ == (KbView {
                decisions: old(self)@.decisions.push(
                    (DecisionRow {
                        id: old(self)@.next_id,
                        meeting_id,
                        text: text@,
                        participants: Seq::empty(),
                        created_at: now,
                    }),
                ),
                next_id: (old(self)@.next_id + 1) as u64,
                ..old(self)@
            }),
    {
        if self.find_meeting_index(meeting_id).is_none() {
            return Err(KbError::NotFound);
        }
        if self.next_id == u64::MAX {
            return Err(KbError::IdsExhausted);
        }
        let id = self.next_id;
        let ghost s0 = self@;
        let d = Decision { id, meeting_id, text, participants: Vec::new(), created_at: now };
        assert(d.participants.deep_view() =~= Seq::<Seq<char>>::empty());
        self.decisions.push(d);
        self.next_id = id + 1;
        assert(self@.decisions =~= s0.decisions.push(self.decisions@[self.decisions@.len() - 1]@));
        Ok(id)
    }

    /// Replaces the summary of a meeting.
    pub fn update_meeting_summary(&mut self, meeting_id: u64, summary: String) -> (r: Result<
        (),
        KbError,
    >)
        requires
            old(self).wf(),
        ensures
            final(self).wf(),
            match find_meeting(old(self)@.meetings, meeting_id) {
                None => r == Err::<(), KbError>(KbError::NotFound) && final(self)@ == old(self)@,
                Some(i) => r == Ok::<(), KbError>(()) && final(self)@ == (KbView {
                    meetings: old(self)@.meetings.update(
                        i,
                        (MeetingRow { summary: Some(summary@), ..old(self)@.meetings[i] }),
                    ),
                    ..old(self)@
                }),
            },
    {
        match self.find_meeting_index(meeting_id) {
            None => Err(KbError::NotFound),
            Some(i) => {
                let ghost s0 = self@;
                let ghost old_m = self.meetings@;
                let ghost sv = summary@;
                self.meetings[i].summary = Some(summary);
                assert forall|j: int| 0 <= j < old_m.len() && j != i implies self@.meetings[j]
                    == s0.meetings[j] by {
                    assert(self@.meetings[j] == self.meetings@[j]@);
                    assert(s0.meetings[j] == old_m[j]@);
                }
                assert(s0.meetings[i as int] == old_m[i as int]@);
                assert(self@.meetings[i as int] == self.meetings@[i as int]@);
                assert(self@.meetings =~= s0.meetings.update(
                    i as int,
                    MeetingRow { summary: Some(sv), ..s0.meetings[i as int] },
                ));
                Ok(())
            },
        }
    }

    /// A knowledge source, named in the long form or by its bare number.
    pub fn get_knowledge_source(&self, source_id: &str) -> (r: Option<KnowledgeSource>)
        ensures
            match parse_id(Table::KnowledgeSource, source_id@) {
                Some(k) => match find_source(self@.sources, k) {
                    Some(i) => r is Some && r->0@ == self@.sources[i],
                    None => r is None,
                },
                None => r is None,
            },
    {
        match parse_record_id(Table::KnowledgeSource, source_id) {
            None => None,
            Some(k) => match self.find_source_index(k) {
                None => None,
                Some(i) => {
                    assert(self@.sources[i as int] == self.sources@[i as int]@);
                    Some(self.sources[i].copy())
                },
            },
        }
    }

    /// A meeting, named in the long form or by its bare number.
    pub fn get_meeting(&self, meeting_id: &str) -> (r: Option<Meeting>)
        ensures
            match parse_id(Table::Meeting, meeting_id@) {
                Some(k) => match find_meeting(self@.meetings, k) {
                    Some(i) => r is Some && r->0@ == self@.meetings[i],
                    None => r is None,
                },
                None => r is None,
            },
    {
        match parse_record_id(Table::Meeting, meeting_id) {
            None => None,
            Some(k) => match self.find_meeting_index(k) {
                None => None,
                Some(i) => {
                    assert(self@.meetings[i as int] == self.meetings@[i as int]@);
                    Some(self.meetings[i].copy())
                },
            },
        }
    }
}


/// The meetings, latest start first, at most `limit` of them (fifty without a limit).
pub open spec fn get_meetings_rows(s: KbView) -> Seq<MeetingRow> {
    s.meetings.filter(|r: MeetingRow| true)
}

pub open spec fn get_meetings_keys(rows: Seq<MeetingRow>) -> Seq<u64> {
    rows.map_values(|r: MeetingRow| r.start_time)
}

impl KnowledgeBase {
    /// The meetings, latest start first, at most `limit` of them (fifty without a limit).
    pub fn get_meetings(&self, limit: Option<usize>) -> (r: Vec<Meeting>)
        ensures
            exists|ix: Seq<usize>|
                is_top_k(get_meetings_keys(get_meetings_rows(self@)), match limit { Some(l) => l as nat, None => 50 }, ix)
                    && r@.map_values(|x: Meeting| x@) == pick(get_meetings_rows(self@), ix),
    {
        let ghost rows = get_meetings_rows(self@);
        let ghost pred = |r: MeetingRow| true;
        let mut pos: Vec<usize> = Vec::new();
        let mut keys: Vec<u64> = Vec::new();
        let mut i: usize = 0;
        assert(self@.meetings.subrange(0, 0).filter(pred) =~= Seq::<MeetingRow>::empty()) by {
            reveal(Seq::filter);
        }
        while i < self.meetings.len()
            invariant
                i <= self.meetings.len(),
                self@.meetings.len() == self.meetings@.len(),
                pred == (|r: MeetingRow| true),
                rows == self@.meetings.filter(pred),
                pos@.len() == keys@.len(),
                forall|j: int| 0 <= j < pos@.len() ==> pos@[j] < self.meetings@.len(),
                pick(self@.meetings, pos@) == self@.meetings.subrange(0, i as int).filter(pred),
                keys@ == get_meetings_keys(self@.meetings.subrange(0, i as int).filter(pred)),
            decreases self.meetings.len() - i,
        {
            proof {
                lemma_filter_step(self@.meetings, i as int, pred);
            }
            assert(self@.meetings[i as int] == self.meetings@[i as int]@);
            let x = &self.meetings[i];
            if true {
                pos.push(i);
                keys.push(x.start_time);
            }
            assert(pick(self@.meetings, pos@) =~= self@.meetings.subrange(0, i + 1).filter(pred));
            assert(keys@ =~= get_meetings_keys(self@.meetings.subrange(0, i + 1).filter(pred)));
            i += 1;
        }
        assert(self@.meetings.subrange(0, self.meetings.len() as int) =~= self@.meetings);
        assert(pick(self@.meetings, pos@) == rows);
        let ix = crate::rank::top_k(&keys, match limit { Some(l) => l, None => 50 });
        let mut out: Vec<Meeting> = Vec::new();
        let mut j: usize = 0;
        while j < ix.len()
            invariant
                j <= ix.len(),
                self@.meetings.len() == self.meetings@.len(),
                pos@.len() == keys@.len(),
                forall|q: int| 0 <= q < pos@.len() ==> pos@[q] < self.meetings@.len(),
                forall|q: int| 0 <= q < ix@.len() ==> ix@[q] < keys@.len(),
                pick(self@.meetings, pos@) == rows,
                out@.map_values(|a: Meeting| a@) == pick(rows, ix@.subrange(0, j as int)),
            decreases ix.len() - j,
        {
            let p = pos[ix[j]];
            assert(self@.meetings[p as int] == self.meetings@[p as int]@);
            assert(rows[ix@[j as int] as int] == self@.meetings[p as int]);
            let ghost prev = out@.map_values(|a: Meeting| a@);
            let c = self.meetings[p].copy();
            out.push(c);
            assert(out@.map_values(|a: Meeting| a@) =~= prev.push(c@));
            assert(pick(rows, ix@.subrange(0, j + 1)) =~= pick(rows, ix@.subrange(0, j as int)).push(rows[ix@[j as int] as int]));
            j += 1;
        }
        assert(ix@.subrange(0, ix.len() as int) =~= ix@);
        out
    }
}

/// The segments of a meeting, earliest start first; equal starts keep their order of storage.
pub open spec fn get_meeting_segments_rows(s: KbView, meeting_id: u64) -> Seq<SegmentRow> {
    s.segments.filter(|r: SegmentRow| r.meeting_id == meeting_id)
}

pub open spec fn get_meeting_segments_keys(rows: Seq<SegmentRow>) -> Seq<u64> {
    rows.map_values(|r: SegmentRow| (u64::MAX - r.start_ms) as u64)
}

impl KnowledgeBase {
    /// The segments of a meeting, earliest start first; equal starts keep their order of storage.
    pub fn get_meeting_segments(&self, meeting_id: u64) -> (r: Vec<TranscriptSegment>)
        ensures
            exists|ix: Seq<usize>|
                is_top_k(get_meeting_segments_keys(get_meeting_segments_rows(self@, meeting_id)), get_meeting_segments_rows(self@, meeting_id).len(), ix)
                    && r@.map_values(|x: TranscriptSegment| x@) == pick(get_meeting_segments_rows(self@, meeting_id), ix),
    {
        let ghost rows = get_meeting_segments_rows(self@, meeting_id);
        let ghost pred = |r: SegmentRow| r.meeting_id == meeting_id;
        let mut pos: Vec<usize> = Vec::new();
        let mut keys: Vec<u64> = Vec::new();
        let mut i: usize = 0;
        assert(self@.segments.subrange(0, 0).filter(pred) =~= Seq::<SegmentRow>::empty()) by {
            reveal(Seq::filter);
        }
        while i < self.segments.len()
            invariant
                i <= self.segments.len(),
                self@.segments.len() == self.segments@.len(),
                pred == (|r: SegmentRow| r.meeting_id == meeting_id),
                rows == self@.segments.filter(pred),
                pos@.len() == keys@.len(),
                forall|j: int| 0 <= j < pos@.len() ==> pos@[j] < self.segments@.len(),
                pick(self@.segments, pos@) == self@.segments.subrange(0, i as int).filter(pred),
                keys@ == get_meeting_segments_keys(self@.segments.subrange(0, i as int).filter(pred)),
            decreases self.segments.len() - i,
        {
            proof {
                lemma_filter_step(self@.segments, i as int, pred);
            }
            assert(self@.segments[i as int] == self.segments@[i as int]@);
            let x = &self.segments[i];
            if x.meeting_id == meeting_id {
                pos.push(i);
                keys.push(u64::MAX - x.start_ms);
            }
            assert(pick(self@.segments, pos@) =~= self@.segments.subrange(0, i + 1).filter(pred));
            assert(keys@ =~= get_meeting_segments_keys(self@.segments.subrange(0, i + 1).filter(pred)));
            i += 1;
        }
        assert(self@.segments.subrange(0, self.segments.len() as int) =~= self@.segments);
        assert(pick(self@.segments, pos@) == rows);
        let ix = crate::rank::top_k(&keys, pos.len());
        let mut out: Vec<TranscriptSegment> = Vec::new();
        let mut j: usize = 0;
        while j < ix.len()
            invariant
                j <= ix.len(),
                self@.segments.len() == self.segments@.len(),
                pos@.len() == keys@.len(),
                forall|q: int| 0 <= q < pos@.len() ==> pos@[q] < self.segments@.len(),
                forall|q: int| 0 <= q < ix@.len() ==> ix@[q] < keys@.len(),
                pick(self@.segments, pos@) == rows,
                out@.map_values(|a: TranscriptSegment| a@) == pick(rows, ix@.subrange(0, j as int)),
            decreases ix.len() - j,
        {
            let p = pos[ix[j]];
            assert(self@.segments[p as int] == self.segments@[p as int]@);
            assert(rows[ix@[j as int] as int] == self@.segments[p as int]);
            let ghost prev = out@.map_values(|a: TranscriptSegment| a@);
            let c = self.segments[p].copy();
            out.push(c);
            assert(out@.map_values(|a: TranscriptSegment| a@) =~= prev.push(c@));
            assert(pick(rows, ix@.subrange(0, j + 1)) =~= pick(rows, ix@.subrange(0, j as int)).push(rows[ix@[j as int] as int]));
            j += 1;
        }
        assert(ix@.subrange(0, ix.len() as int) =~= ix@);
        out
    }
}

/// The action items of a meeting, newest first.
pub open spec fn get_meeting_action_items_rows(s: KbView, meeting_id: u64) -> Seq<ActionRow> {
    s.actions.filter(|r: ActionRow| r.meeting_id == meeting_id)
}

pub open spec fn get_meeting_action_items_keys(rows: Seq<ActionRow>) -> Seq<u64> {
    rows.map_values(|r: ActionRow| r.created_at)
}

impl KnowledgeBase {
    /// The action items of a meeting, newest first.
    pub fn get_meeting_action_items(&self, meeting_id: u64) -> (r: Vec<ActionItem>)
        ensures
            exists|ix: Seq<usize>|
                is_top_k(get_meeting_action_items_keys(get_meeting_action_items_rows(self@, meeting_id)), get_meeting_action_items_rows(self@, meeting_id).len(), ix)
                    && r@.map_values(|x: ActionItem| x@) == pick(get_meeting_action_items_rows(self@, meeting_id), ix),
    {
        let ghost rows = get_meeting_action_items_rows(self@, meeting_id);
        let ghost pred = |r: ActionRow| r.meeting_id == meeting_id;
        let mut pos: Vec<usize> = Vec::new();
        let mut keys: Vec<u64> = Vec::new();
        let mut i: usize = 0;
        assert(self@.actions.subrange(0, 0).filter(pred) =~= Seq::<ActionRow>::empty()) by {
            reveal(Seq::filter);
        }
        while i < self.actions.len()
            invariant
                i <= self.actions.len(),
                self@.actions.len() == self.actions@.len(),
                pred == (|r: ActionRow| r.meeting_id == meeting_id),
                rows == self@.actions.filter(pred),
                pos@.len() == keys@.len(),
                forall|j: int| 0 <= j < pos@.len() ==> pos@[j] < self.actions@.len(),
                pick(self@.actions, pos@) == self@.actions.subrange(0, i as int).filter(pred),
                keys@ == get_meeting_action_items_keys(self@.actions.subrange(0, i as int).filter(pred)),
            decreases self.actions.len() - i,
        {
            proof {
                lemma_filter_step(self@.actions, i as int, pred);
            }
            assert(self@.actions[i as int] == self.actions@[i as int]@);
            let x = &self.actions[i];
            if x.meeting_id == meeting_id {
                pos.push(i);
                keys.push(x.created_at);
            }
            assert(pick(self@.actions, pos@) =~= self@.actions.subrange(0, i + 1).filter(pred));
            assert(keys@ =~= get_meeting_action_items_keys(self@.actions.subrange(0, i + 1).filter(pred)));
            i += 1;
        }
        assert(self@.actions.subrange(0, self.actions.len() as int) =~= self@.actions);
        assert(pick(self@.actions, pos@) == rows);
        let ix = crate::rank::top_k(&keys, pos.len());
        let mut out: Vec<ActionItem> = Vec::new();
        let mut j: usize = 0;
        while j < ix.len()
            invariant
                j <= ix.len(),
                self@.actions.len() == self.actions@.len(),
                pos@.len() == keys@.len(),
                forall|q: int| 0 <= q < pos@.len() ==> pos@[q] < self.actions@.len(),
                forall|q: int| 0 <= q < ix@.len() ==> ix@[q] < keys@.len(),
                pick(self@.actions, pos@) == rows,
                out@.map_values(|a: ActionItem| a@) == pick(rows, ix@.subrange(0, j as int)),
            decreases ix.len() - j,
        {
            let p = pos[ix[j]];
            assert(self@.actions[p as int] == self.actions@[p as int]@);
            assert(rows[ix@[j as int] as int] == self@.actions[p as int]);
            let ghost prev = out@.map_values(|a: ActionItem| a@);
            let c = self.actions[p].copy();
            out.push(c);
            assert(out@.map_values(|a: ActionItem| a@) =~= prev.push(c@));
            assert(pick(rows, ix@.subrange(0, j + 1)) =~= pick(rows, ix@.subrange(0, j as int)).push(rows[ix@[j as int] as int]));
            j += 1;
        }
        assert(ix@.subrange(0, ix.len() as int) =~= ix@);
        out
    }
}

/// The decisions of a meeting, newest first.
pub open spec fn get_meeting_decisions_rows(s: KbView, meeting_id: u64) -> Seq<DecisionRow> {
    s.decisions.filter(|r: DecisionRow| r.meeting_id == meeting_id)
}

pub open spec fn get_meeting_decisions_keys(rows: Seq<DecisionRow>) -> Seq<u64> {
    rows.map_values(|r: DecisionRow| r.created_at)
}

impl KnowledgeBase {
    /// The decisions of a meeting, newest first.
    pub fn get_meeting_decisions(&self, meeting_id: u64) -> (r: Vec<Decision>)
        ensures
            exists|ix: Seq<usize>|
                is_top_k(get_meeting_decisions_keys(get_meeting_decisions_rows(self@, meeting_id)), get_meeting_decisions_rows(self@, meeting_id).len(), ix)
                    && r@.map_values(|x: Decision| x@) == pick(get_meeting_decisions_rows(self@, meeting_id), ix),
    {
        let ghost rows = get_meeting_decisions_rows(self@, meeting_id);
        let ghost pred = |r: DecisionRow| r.meeting_id == meeting_id;
        let mut pos: Vec<usize> = Vec::new();
        let mut keys: Vec<u64> = Vec::new();
        let mut i: usize = 0;
        assert(self@.decisions.subrange(0, 0).filter(pred) =~= Seq::<DecisionRow>::empty()) by {
            reveal(Seq::filter);
        }
        while i < self.decisions.len()
            invariant
                i <= self.decisions.len(),
                self@.decisions.len() == self.decisions@.len(),
                pred == (|r: DecisionRow| r.meeting_id == meeting_id),
                rows == self@.decisions.filter(pred),
                pos@.len() == keys@.len(),
                forall|j: int| 0 <= j < pos@.len() ==> pos@[j] < self.decisions@.len(),
                pick(self@.decisions, pos@) == self@.decisions.subrange(0, i as int).filter(pred),
                keys@ == get_meeting_decisions_keys(self@.decisions.subrange(0, i as int).filter(pred)),
            decreases self.decisions.len() - i,
        {
            proof {
                lemma_filter_step(self@.decisions, i as int, pred);
            }
            assert(self@.decisions[i as int] == self.decisions@[i as int]@);
            let x = &self.decisions[i];
            if x.meeting_id == meeting_id {
                pos.push(i);
                keys.push(x.created_at);
            }
            assert(pick(self@.decisions, pos@) =~= self@.decisions.subrange(0, i + 1).filter(pred));
            assert(keys@ =~= get_meeting_decisions_keys(self@.decisions.subrange(0, i + 1).filter(pred)));
            i += 1;
        }
        assert(self@.decisions.subrange(0, self.decisions.len() as int) =~= self@.decisions);
        assert(pick(self@.decisions, pos@) == rows);
        let ix = crate::rank::top_k(&keys, pos.len());
        let mut out: Vec<Decision> = Vec::new();
        let mut j: usize = 0;
        while j < ix.len()
            invariant
                j <= ix.len(),
                self@.decisions.len() == self.decisions@.len(),
                pos@.len() == keys@.len(),
                forall|q: int| 0 <= q < pos@.len() ==> pos@[q] < self.decisions@.len(),
                forall|q: int| 0 <= q < ix@.len() ==> ix@[q] < keys@.len(),
                pick(self@.decisions, pos@) == rows,
                out@.map_values(|a: Decision| a@) == pick(rows, ix@.subrange(0, j as int)),
            decreases ix.len() - j,
        {
            let p = pos[ix[j]];
            assert(self@.decisions[p as int] == self.decisions@[p as int]@);
            assert(rows[ix@[j as int] as int] == self@.decisions[p as int]);
            let ghost prev = out@.map_values(|a: Decision| a@);
            let c = self.decisions[p].copy();
            out.push(c);
            assert(out@.map_values(|a: Decision| a@) =~= prev.push(c@));
            assert(pick(rows, ix@.subrange(0, j + 1)) =~= pick(rows, ix@.subrange(0, j as int)).push(rows[ix@[j as int] as int]));
            j += 1;
        }
        assert(ix@.subrange(0, ix.len() as int) =~= ix@);
        out
    }
}


/// A source carries one of the tags; without tags every source passes.
pub open spec fn source_has_tag(r: SourceRow, tags: Option<Seq<Seq<char>>>) -> bool {
    match tags {
        None => true,
        Some(ts) => shares_tag(ts, r.tags),
    }
}

/// Some tag of `wanted` is among `held`.
pub open spec fn shares_tag(wanted: Seq<Seq<char>>, held: Seq<Seq<char>>) -> bool {
    exists|i: int| 0 <= i < wanted.len() && held.contains(#[trigger] wanted[i])
}

fn source_has_tag_exec(x: &KnowledgeSource, tags: &Option<Vec<String>>) -> (r: bool)
    ensures
        r == source_has_tag(x@, tags_view(*tags)),
{
    match tags {
        None => true,
        Some(ts) => {
            let st = &x.tags;
            let mut a: usize = 0;
            while a < ts.len()
                invariant
                    a <= ts.len(),
                    st.deep_view() == x@.tags,
                    tags_view(*tags) == Some(ts.deep_view()),
                    forall|q: int| 0 <= q < a ==> !st.deep_view().contains(#[trigger] ts.deep_view()[q]),
                decreases ts.len() - a,
            {
                let mut b: usize = 0;
                while b < st.len()
                    invariant
                        a < ts.len(),
                        b <= st.len(),
                        st.deep_view() == x@.tags,
                        tags_view(*tags) == Some(ts.deep_view()),
                        forall|q: int| 0 <= q < b ==> st.deep_view()[q] != ts.deep_view()[a as int],
                    decreases st.len() - b,
                {
                    if str_eq(st[b].as_str(), ts[a].as_str()) {
                        assert(x@.tags[b as int] == ts.deep_view()[a as int]);
                        return true;
                    }
                    b += 1;
                }
                a += 1;
            }
            assert forall|i: int| 0 <= i < ts.deep_view().len() implies !x@.tags.contains(#[trigger] ts.deep_view()[i]) by {
                assert(!st.deep_view().contains(ts.deep_view()[i]));
            }
            false
        },
    }
}

/// The knowledge sources, latest update first; with tags, only those that carry one of them.
pub open spec fn get_knowledge_sources_rows(s: KbView, tags: Option<Seq<Seq<char>>>) -> Seq<SourceRow> {
    s.sources.filter(|r: SourceRow| source_has_tag(r, tags))
}

pub open spec fn get_knowledge_sources_keys(rows: Seq<SourceRow>) -> Seq<u64> {
    rows.map_values(|r: SourceRow| r.last_updated)
}

impl KnowledgeBase {
    /// The knowledge sources, latest update first; with tags, only those that carry one of them.
    pub fn get_knowledge_sources(&self, tags: &Option<Vec<String>>) -> (r: Vec<KnowledgeSource>)
        ensures
            exists|ix: Seq<usize>|
                is_top_k(get_knowledge_sources_keys(get_knowledge_sources_rows(self@, tags_view(*tags))), get_knowledge_sources_rows(self@, tags_view(*tags)).len(), ix)
                    && r@.map_values(|x: KnowledgeSource| x@) == pick(get_knowledge_sources_rows(self@, tags_view(*tags)), ix),
    {
        let ghost rows = get_knowledge_sources_rows(self@, tags_view(*tags));
        let ghost pred = |r: SourceRow| source_has_tag(r, tags_view(*tags));
        let mut pos: Vec<usize> = Vec::new();
        let mut keys: Vec<u64> = Vec::new();
        let mut i: usize = 0;
        assert(self@.sources.subrange(0, 0).filter(pred) =~= Seq::<SourceRow>::empty()) by {
            reveal(Seq::filter);
        }
        while i < self.sources.len()
            invariant
                i <= self.sources.len(),
                self@.sources.len() == self.sources@.len(),
                pred == (|r: SourceRow| source_has_tag(r, tags_view(*tags))),
                rows == self@.sources.filter(pred),
                pos@.len() == keys@.len(),
                forall|j: int| 0 <= j < pos@.len() ==> pos@[j] < self.sources@.len(),
                pick(self@.sources, pos@) == self@.sources.subrange(0, i as int).filter(pred),
                keys@ == get_knowledge_sources_keys(self@.sources.subrange(0, i as int).filter(pred)),
            decreases self.sources.len() - i,
        {
            proof {
                lemma_filter_step(self@.sources, i as int, pred);
            }
            assert(self@.sources[i as int] == self.sources@[i as int]@);
            let x = &self.sources[i];
            if source_has_tag_exec(x, tags) {
                pos.push(i);
                keys.push(x.last_updated);
            }
            assert(pick(self@.sources, pos@) =~= self@.sources.subrange(0, i + 1).filter(pred));
            assert(keys@ =~= get_knowledge_sources_keys(self@.sources.subrange(0, i + 1).filter(pred)));
            i += 1;
        }
        assert(self@.sources.subrange(0, self.sources.len() as int) =~= self@.sources);
        assert(pick(self@.sources, pos@) == rows);
        let ix = crate::rank::top_k(&keys, pos.len());
        let mut out: Vec<KnowledgeSource> = Vec::new();
        let mut j: usize = 0;
        while j < ix.len()
            invariant
                j <= ix.len(),
                self@.sources.len() == self.sources@.len(),
                pos@.len() == keys@.len(),
                forall|q: int| 0 <= q < pos@.len() ==> pos@[q] < self.sources@.len(),
                forall|q: int| 0 <= q < ix@.len() ==> ix@[q] < keys@.len(),
                pick(self@.sources, pos@) == rows,
                out@.map_values(|a: KnowledgeSource| a@) == pick(rows, ix@.subrange(0, j as int)),
            decreases ix.len() - j,
        {
            let p = pos[ix[j]];
            assert(self@.sources[p as int] == self.sources@[p as int]@);
            assert(rows[ix@[j as int] as int] == self@.sources[p as int]);
            let ghost prev = out@.map_values(|a: KnowledgeSource| a@);
            let c = self.sources[p].copy();
            out.push(c);
            assert(out@.map_values(|a: KnowledgeSource| a@) =~= prev.push(c@));
            assert(pick(rows, ix@.subrange(0, j + 1)) =~= pick(rows, ix@.subrange(0, j as int)).push(rows[ix@[j as int] as int]));
            j += 1;
        }
        assert(ix@.subrange(0, ix.len() as int) =~= ix@);
        out
    }
}





/// A person was mentioned in a meeting.
pub open spec fn mentioned(s: KbView, pid: u64, m: u64) -> bool {
    s.mentioned_in.contains(GraphEdge { from: pid, to: m })
}

/// A topic was discussed in a meeting.
pub open spec fn discussed(s: KbView, tid: u64, m: u64) -> bool {
    s.discussed_in.contains(GraphEdge { from: tid, to: m })
}

/// A source is linked to a meeting.
pub open spec fn linked(s: KbView, k: u64, m: u64) -> bool {
    exists|i: int| 0 <= i < s.links.len() && #[trigger] s.links[i].meeting_id == m && s.links[i].source_id == k
}

fn edge_listed(v: &Vec<GraphEdge>, e: GraphEdge) -> (r: bool)
    ensures
        r == v@.contains(e),
{
    let mut i: usize = 0;
    while i < v.len()
        invariant
            i <= v.len(),
            forall|k: int| 0 <= k < i ==> v@[k] != e,
        decreases v.len() - i,
    {
        if v[i].from == e.from && v[i].to == e.to {
            assert(v@[i as int] == e);
            return true;
        }
        i += 1;
    }
    false
}

impl KnowledgeBase {
    fn linked_exec(&self, k: u64, m: u64) -> (r: bool)
        ensures
            r == linked(self@, k, m),
    {
        let mut i: usize = 0;
        while i < self.links.len()
            invariant
                i <= self.links.len(),
                self@.links == self.links@,
                forall|q: int| 0 <= q < i ==> !(self@.links[q].meeting_id == m && self@.links[q].source_id == k),
            decreases self.links.len() - i,
        {
            if self.links[i].meeting_id == m && self.links[i].source_id == k {
                return true;
            }
            i += 1;
        }
        false
    }
}

/// The people mentioned in a meeting, in order of storage.
pub open spec fn get_meeting_people_rows(s: KbView, meeting_id: u64) -> Seq<PersonRow> {
    s.people.filter(|r: PersonRow| mentioned(s, r.id, meeting_id))
}

impl KnowledgeBase {
    /// The people mentioned in a meeting, in order of storage.
    pub fn get_meeting_people(&self, meeting_id: u64) -> (r: Vec<Person>)
        ensures
            r@.map_values(|x: Person| x@) == get_meeting_people_rows(self@, meeting_id),
    {
        let ghost pred = |r: PersonRow| mentioned(self@, r.id, meeting_id);
        let mut out: Vec<Person> = Vec::new();
        let mut i: usize = 0;
        assert(self@.people.subrange(0, 0).filter(pred) =~= Seq::<PersonRow>::empty()) by {
            reveal(Seq::filter);
        }
        while i < self.people.len()
            invariant
                i <= self.people.len(),
                self@.people.len() == self.people@.len(),
                pred == (|r: PersonRow| mentioned(self@, r.id, meeting_id)),
                out@.map_values(|x: Person| x@) == self@.people.subrange(0, i as int).filter(pred),
            decreases self.people.len() - i,
        {
            proof {
                lemma_filter_step(self@.people, i as int, pred);
            }
            assert(self@.people[i as int] == self.people@[i as int]@);
            let x = &self.people[i];
            if edge_listed(&self.mentioned_in, GraphEdge { from: x.id, to: meeting_id }) {
                let ghost prev = out@.map_values(|x: Person| x@);
                let c = x.copy();
                out.push(c);
                assert(out@.map_values(|x: Person| x@) =~= prev.push(c@));
            }
            i += 1;
        }
        assert(self@.people.subrange(0, self.people.len() as int) =~= self@.people);
        out
    }
}

/// The topics discussed in a meeting, in order of storage.
pub open spec fn get_meeting_topics_rows(s: KbView, meeting_id: u64) -> Seq<TopicRow> {
    s.topics.filter(|r: TopicRow| discussed(s, r.id, meeting_id))
}

impl KnowledgeBase {
    /// The topics discussed in a meeting, in order of storage.
    pub fn get_meeting_topics(&self, meeting_id: u64) -> (r: Vec<Topic>)
        ensures
            r@.map_values(|x: Topic| x@) == get_meeting_topics_rows(self@, meeting_id),
    {
        let ghost pred = |r: TopicRow| discussed(self@, r.id, meeting_id);
        let mut out: Vec<Topic> = Vec::new();
        let mut i: usize = 0;
        assert(self@.topics.subrange(0, 0).filter(pred) =~= Seq::<TopicRow>::empty()) by {
            reveal(Seq::filter);
        }
        while i < self.topics.len()
            invariant
                i <= self.topics.len(),
                self@.topics.len() == self.topics@.len(),
                pred == (|r: TopicRow| discussed(self@, r.id, meeting_id)),
                out@.map_values(|x: Topic| x@) == self@.topics.subrange(0, i as int).filter(pred),
            decreases self.topics.len() - i,
        {
            proof {
                lemma_filter_step(self@.topics, i as int, pred);
            }
            assert(self@.topics[i as int] == self.topics@[i as int]@);
            let x = &self.topics[i];
            if edge_listed(&self.discussed_in, GraphEdge { from: x.id, to: meeting_id }) {
                let ghost prev = out@.map_values(|x: Topic| x@);
                let c = x.copy();
                out.push(c);
                assert(out@.map_values(|x: Topic| x@) =~= prev.push(c@));
            }
            i += 1;
        }
        assert(self@.topics.subrange(0, self.topics.len() as int) =~= self@.topics);
        out
    }
}

/// The knowledge sources linked to a meeting, in order of storage.
pub open spec fn get_meeting_knowledge_rows(s: KbView, meeting_id: u64) -> Seq<SourceRow> {
    s.sources.filter(|r: SourceRow| linked(s, r.id, meeting_id))
}

impl KnowledgeBase {
    /// The knowledge sources linked to a meeting, in order of storage.
    pub fn get_meeting_knowledge(&self, meeting_id: u64) -> (r: Vec<KnowledgeSource>)
        ensures
            r@.map_values(|x: KnowledgeSource| x@) == get_meeting_knowledge_rows(self@, meeting_id),
    {
        let ghost pred = |r: SourceRow| linked(self@, r.id, meeting_id);
        let mut out: Vec<KnowledgeSource> = Vec::new();
        let mut i: usize = 0;
        assert(self@.sources.subrange(0, 0).filter(pred) =~= Seq::<SourceRow>::empty()) by {
            reveal(Seq::filter);
        }
        while i < self.sources.len()
            invariant
                i <= self.sources.len(),
                self@.sources.len() == self.sources@.len(),
                pred == (|r: SourceRow| linked(self@, r.id, meeting_id)),
                out@.map_values(|x: KnowledgeSource| x@) == self@.sources.subrange(0, i as int).filter(pred),
            decreases self.sources.len() - i,
        {
            proof {
                lemma_filter_step(self@.sources, i as int, pred);
            }
            assert(self@.sources[i as int] == self.sources@[i as int]@);
            let x = &self.sources[i];
            if self.linked_exec(x.id, meeting_id) {
                let ghost prev = out@.map_values(|x: KnowledgeSource| x@);
                let c = x.copy();
                out.push(c);
                assert(out@.map_values(|x: KnowledgeSource| x@) =~= prev.push(c@));
            }
            i += 1;
        }
        assert(self@.sources.subrange(0, self.sources.len() as int) =~= self@.sources);
        out
    }
}

/// The segments whose text contains the query, in order of storage.
pub open spec fn segments_with_text_rows(s: KbView, query: Seq<char>) -> Seq<SegmentRow> {
    s.segments.filter(|r: SegmentRow| contains(r.text, query))
}

impl KnowledgeBase {
    /// The segments whose text contains the query, in order of storage.
    fn segments_with_text(&self, query: &str) -> (r: Vec<TranscriptSegment>)
        ensures
            r@.map_values(|x: TranscriptSegment| x@) == segments_with_text_rows(self@, query@),
    {
        let q = chars_of(query);
        let ghost pred = |r: SegmentRow| contains(r.text, query@);
        let mut out: Vec<TranscriptSegment> = Vec::new();
        let mut i: usize = 0;
        assert(self@.segments.subrange(0, 0).filter(pred) =~= Seq::<SegmentRow>::empty()) by {
            reveal(Seq::filter);
        }
        while i < self.segments.len()
            invariant
                i <= self.segments.len(),
                self@.segments.len() == self.segments@.len(),
                pred == (|r: SegmentRow| contains(r.text, query@)),
                q@ == query@,
                out@.map_values(|x: TranscriptSegment| x@) == self@.segments.subrange(0, i as int).filter(pred),
            decreases self.segments.len() - i,
        {
            proof {
                lemma_filter_step(self@.segments, i as int, pred);
            }
            assert(self@.segments[i as int] == self.segments@[i as int]@);
            let x = &self.segments[i];
            if contains_exec(&chars_of(x.text.as_str()), &q) {
                let ghost prev = out@.map_values(|x: TranscriptSegment| x@);
                let c = x.copy();
                out.push(c);
                assert(out@.map_values(|x: TranscriptSegment| x@) =~= prev.push(c@));
            }
            i += 1;
        }
        assert(self@.segments.subrange(0, self.segments.len() as int) =~= self@.segments);
        out
    }
}


impl KnowledgeBase {
    /// The first `limit` segments whose text contains the query, in order of storage.
    pub fn search_text(&self, query: &str, limit: usize) -> (r: Vec<TranscriptSegment>)
        ensures
            r@.map_values(|x: TranscriptSegment| x@) == first_n(
                segments_with_text_rows(self@, query@),
                limit as nat,
            ),
    {
        let mut all = self.segments_with_text(query);
        let ghost v = all@.map_values(|x: TranscriptSegment| x@);
        all.truncate(limit);
        assert(all@.map_values(|x: TranscriptSegment| x@) =~= first_n(v, limit as nat));
        all
    }
}

/// The stored relationships from or to a named entity, most confident first, at most `limit` of them.
pub open spec fn get_entity_relationships_rows(s: KbView, name: Seq<char>) -> Seq<RelationRow> {
    s.relations.filter(|r: RelationRow| r.source_entity == name || r.target_entity == name)
}

pub open spec fn get_entity_relationships_keys(rows: Seq<RelationRow>) -> Seq<u64> {
    rows.map_values(|r: RelationRow| r.confidence as u64)
}

impl KnowledgeBase {
    /// The stored relationships from or to a named entity, most confident first, at most `limit` of them.
    pub fn get_entity_relationships(&self, name: &str, limit: usize) -> (r: Vec<EntityRelation>)
        ensures
            exists|ix: Seq<usize>|
                is_top_k(get_entity_relationships_keys(get_entity_relationships_rows(self@, name@)), limit as nat, ix)
                    && r@.map_values(|x: EntityRelation| x@) == pick(get_entity_relationships_rows(self@, name@), ix),
    {
        let ghost rows = get_entity_relationships_rows(self@, name@);
        let ghost pred = |r: RelationRow| r.source_entity == name@ || r.target_entity == name@;
        let mut pos: Vec<usize> = Vec::new();
        let mut keys: Vec<u64> = Vec::new();
        let mut i: usize = 0;
        assert(self@.relations.subrange(0, 0).filter(pred) =~= Seq::<RelationRow>::empty()) by {
            reveal(Seq::filter);
        }
        while i < self.relations.len()
            invariant
                i <= self.relations.len(),
                self@.relations.len() == self.relations@.len(),
                pred == (|r: RelationRow| r.source_entity == name@ || r.target_entity == name@),
                rows == self@.relations.filter(pred),
                pos@.len() == keys@.len(),
                forall|j: int| 0 <= j < pos@.len() ==> pos@[j] < self.relations@.len(),
                pick(self@.relations, pos@) == self@.relations.subrange(0, i as int).filter(pred),
                keys@ == get_entity_relationships_keys(self@.relations.subrange(0, i as int).filter(pred)),
            decreases self.relations.len() - i,
        {
            proof {
                lemma_filter_step(self@.relations, i as int, pred);
            }
            assert(self@.relations[i as int] == self.relations@[i as int]@);
            let x = &self.relations[i];
            if str_eq(x.source_entity.as_str(), name) || str_eq(x.target_entity.as_str(), name) {
                pos.push(i);
                keys.push(x.confidence as u64);
            }
            assert(pick(self@.relations, pos@) =~= self@.relations.subrange(0, i + 1).filter(pred));
            assert(keys@ =~= get_entity_relationships_keys(self@.relations.subrange(0, i + 1).filter(pred)));
            i += 1;
        }
        assert(self@.relations.subrange(0, self.relations.len() as int) =~= self@.relations);
        assert(pick(self@.relations, pos@) == rows);
        let ix = crate::rank::top_k(&keys, limit);
        let mut out: Vec<EntityRelation> = Vec::new();
        let mut j: usize = 0;
        while j < ix.len()
            invariant
                j <= ix.len(),
                self@.relations.len() == self.relations@.len(),
                pos@.len() == keys@.len(),
                forall|q: int| 0 <= q < pos@.len() ==> pos@[q] < self.relations@.len(),
                forall|q: int| 0 <= q < ix@.len() ==> ix@[q] < keys@.len(),
                pick(self@.relations, pos@) == rows,
                out@.map_values(|a: EntityRelation| a@) == pick(rows, ix@.subrange(0, j as int)),
            decreases ix.len() - j,
        {
            let p = pos[ix[j]];
            assert(self@.relations[p as int] == self.relations@[p as int]@);
            assert(rows[ix@[j as int] as int] == self@.relations[p as int]);
            let ghost prev = out@.map_values(|a: EntityRelation| a@);
            let c = self.relations[p].copy();
            out.push(c);
            assert(out@.map_values(|a: EntityRelation| a@) =~= prev.push(c@));
            assert(pick(rows, ix@.subrange(0, j + 1)) =~= pick(rows, ix@.subrange(0, j as int)).push(rows[ix@[j as int] as int]));
            j += 1;
        }
        assert(ix@.subrange(0, ix.len() as int) =~= ix@);
        out
    }
}



/// Statistics of a meeting.
#[derive(Debug)]
pub struct MeetingStats {
    pub segment_count: usize,
    pub action_count: usize,
    pub decision_count: usize,
    pub topic_count: usize,
    pub people_count: usize,
    pub duration_ms: u64,
    pub total_words: usize,
}

/// Words in a run of segments.
pub open spec fn words_in(segs: Seq<SegmentRow>) -> nat
    decreases segs.len(),
{
    if segs.len() == 0 {
        0
    } else {
        words_in(segs.drop_last()) + crate::text::word_count(segs.last().text)
    }
}

/// From the start of the first segment to the end of the last, in start
/// order; zero without segments or when the last ends before the first starts.
pub open spec fn span_of(ordered: Seq<SegmentRow>) -> u64 {
    if ordered.len() == 0 || ordered.last().end_ms < ordered[0].start_ms {
        0
    } else {
        (ordered.last().end_ms - ordered[0].start_ms) as u64
    }
}

/// Capped at what a `usize` holds.
pub open spec fn capped(n: nat) -> nat {
    if n <= usize::MAX {
        n
    } else {
        usize::MAX as nat
    }
}

impl KnowledgeBase {
    fn count_meeting_segments(&self, meeting_id: u64) -> (r: usize)
        ensures
            r == get_meeting_segments_rows(self@, meeting_id).len(),
    {
        let ghost pred = |g: SegmentRow| g.meeting_id == meeting_id;
        let mut n: usize = 0;
        let mut i: usize = 0;
        assert(self@.segments.subrange(0, 0).filter(pred) =~= Seq::<SegmentRow>::empty()) by {
            reveal(Seq::filter);
        }
        while i < self.segments.len()
            invariant
                i <= self.segments.len(),
                self@.segments.len() == self.segments@.len(),
                pred == (|g: SegmentRow| g.meeting_id == meeting_id),
                n == self@.segments.subrange(0, i as int).filter(pred).len(),
                n <= i,
            decreases self.segments.len() - i,
        {
            proof {
                lemma_filter_step(self@.segments, i as int, pred);
            }
            assert(self@.segments[i as int] == self.segments@[i as int]@);
            if self.segments[i].meeting_id == meeting_id {
                n += 1;
            }
            i += 1;
        }
        assert(self@.segments.subrange(0, self.segments.len() as int) =~= self@.segments);
        n
    }

    fn count_meeting_actions(&self, meeting_id: u64) -> (r: usize)
        ensures
            r == get_meeting_action_items_rows(self@, meeting_id).len(),
    {
        let ghost pred = |g: ActionRow| g.meeting_id == meeting_id;
        let mut n: usize = 0;
        let mut i: usize = 0;
        assert(self@.actions.subrange(0, 0).filter(pred) =~= Seq::<ActionRow>::empty()) by {
            reveal(Seq::filter);
        }
        while i < self.actions.len()
            invariant
                i <= self.actions.len(),
                self@.actions.len() == self.actions@.len(),
                pred == (|g: ActionRow| g.meeting_id == meeting_id),
                n == self@.actions.subrange(0, i as int).filter(pred).len(),
                n <= i,
            decreases self.actions.len() - i,
        {
            proof {
                lemma_filter_step(self@.actions, i as int, pred);
            }
            assert(self@.actions[i as int] == self.actions@[i as int]@);
            if self.actions[i].meeting_id == meeting_id {
                n += 1;
            }
            i += 1;
        }
        assert(self@.actions.subrange(0, self.actions.len() as int) =~= self@.actions);
        n
    }

    fn count_meeting_decisions(&self, meeting_id: u64) -> (r: usize)
        ensures
            r == get_meeting_decisions_rows(self@, meeting_id).len(),
    {
        let ghost pred = |g: DecisionRow| g.meeting_id == meeting_id;
        let mut n: usize = 0;
        let mut i: usize = 0;
        assert(self@.decisions.subrange(0, 0).filter(pred) =~= Seq::<DecisionRow>::empty()) by {
            reveal(Seq::filter);
        }
        while i < self.decisions.len()
            invariant
                i <= self.decisions.len(),
                self@.decisions.len() == self.decisions@.len(),
                pred == (|g: DecisionRow| g.meeting_id == meeting_id),
                n == self@.decisions.subrange(0, i as int).filter(pred).len(),
                n <= i,
            decreases self.decisions.len() - i,
        {
            proof {
                lemma_filter_step(self@.decisions, i as int, pred);
            }
            assert(self@.decisions[i as int] == self.decisions@[i as int]@);
            if self.decisions[i].meeting_id == meeting_id {
                n += 1;
            }
            i += 1;
        }
        assert(self@.decisions.subrange(0, self.decisions.len() as int) =~= self@.decisions);
        n
    }

    /// Counts, duration and word count of a meeting. The duration runs from
    /// the start of the first segment to the end of the last, in start order.
    /// Words beyond what a `usize` holds are not counted.
    pub fn get_meeting_stats(&self, meeting_id: u64) -> (r: MeetingStats)
        ensures
            r.segment_count == get_meeting_segments_rows(self@, meeting_id).len(),
            r.action_count == get_meeting_action_items_rows(self@, meeting_id).len(),
            r.decision_count == get_meeting_decisions_rows(self@, meeting_id).len(),
            r.topic_count == get_meeting_topics_rows(self@, meeting_id).len(),
            r.people_count == get_meeting_people_rows(self@, meeting_id).len(),
            exists|ix: Seq<usize>|
                is_top_k(
                    get_meeting_segments_keys(get_meeting_segments_rows(self@, meeting_id)),
                    get_meeting_segments_rows(self@, meeting_id).len(),
                    ix,
                ) && r.duration_ms == span_of(pick(get_meeting_segments_rows(self@, meeting_id), ix))
                    && r.total_words as nat == capped(
                    words_in(pick(get_meeting_segments_rows(self@, meeting_id), ix)),
                ),
    {
        let segs = self.get_meeting_segments(meeting_id);
        let ghost sv = segs@.map_values(|g: TranscriptSegment| g@);
        let n = segs.len();
        let duration: u64 = if n == 0 {
            0
        } else if segs[n - 1].end_ms < segs[0].start_ms {
            0
        } else {
            segs[n - 1].end_ms - segs[0].start_ms
        };
        assert(n == 0 || (sv.last() == segs@[n - 1]@ && sv[0] == segs@[0]@));
        assert(duration == span_of(sv));
        let mut words: usize = 0;
        let mut i: usize = 0;
        assert(sv.subrange(0, 0) =~= Seq::<SegmentRow>::empty());
        while i < n
            invariant
                i <= n,
                n == segs@.len(),
                sv == segs@.map_values(|g: TranscriptSegment| g@),
                words as nat == capped(words_in(sv.subrange(0, i as int))),
            decreases n - i,
        {
            let w = crate::text::count_words(segs[i].text.as_str());
            proof {
                assert(sv.subrange(0, i + 1).drop_last() =~= sv.subrange(0, i as int));
                assert(sv[i as int] == segs@[i as int]@);
            }
            words = if words <= usize::MAX - w {
                words + w
            } else {
                usize::MAX
            };
            i += 1;
        }
        assert(sv.subrange(0, n as int) =~= sv);
        MeetingStats {
            segment_count: self.count_meeting_segments(meeting_id),
            action_count: self.count_meeting_actions(meeting_id),
            decision_count: self.count_meeting_decisions(meeting_id),
            topic_count: self.get_meeting_topics(meeting_id).len(),
            people_count: self.get_meeting_people(meeting_id).len(),
            duration_ms: duration,
            total_words: words,
        }
    }
}


/// An action item with the title of its meeting, when the meeting is stored.
#[derive(Debug)]
pub struct ActionItemWithMeeting {
    pub item: ActionItem,
    pub meeting_title: Option<String>,
}

/// The title of the meeting with this identifier, when it is stored.
pub open spec fn meeting_title_of(s: KbView, m: u64) -> Option<Seq<char>> {
    match find_meeting(s.meetings, m) {
        Some(i) => Some(s.meetings[i].title),
        None => None,
    }
}

impl KnowledgeBase {
    fn meeting_title(&self, m: u64) -> (r: Option<String>)
        ensures
            opt_text(r) == meeting_title_of(self@, m),
    {
        match self.find_meeting_index(m) {
            Some(i) => {
                assert(self@.meetings[i as int] == self.meetings@[i as int]@);
                Some(self.meetings[i].title.clone())
            },
            None => None,
        }
    }

    /// The `limit` most recent action items of all meetings, newest first,
    /// each with the title of its meeting.
    pub fn get_all_action_items(&self, limit: usize) -> (r: Vec<ActionItemWithMeeting>)
        ensures
            exists|ix: Seq<usize>|
                is_top_k(action_times(self@.actions), limit as nat, ix) && r@.len() == ix.len() && forall|i: int|
                    0 <= i < ix.len() ==> (#[trigger] r@[i]).item@ == self@.actions[ix[i] as int]
                        && opt_text(r@[i].meeting_title) == meeting_title_of(
                        self@,
                        self@.actions[ix[i] as int].meeting_id,
                    ),
    {
        let mut keys: Vec<u64> = Vec::new();
        let mut i: usize = 0;
        while i < self.actions.len()
            invariant
                i <= self.actions.len(),
                self@.actions.len() == self.actions@.len(),
                keys@ == action_times(self@.actions.subrange(0, i as int)),
            decreases self.actions.len() - i,
        {
            assert(self@.actions[i as int] == self.actions@[i as int]@);
            keys.push(self.actions[i].created_at);
            assert(keys@ =~= action_times(self@.actions.subrange(0, i + 1)));
            i += 1;
        }
        assert(self@.actions.subrange(0, self.actions.len() as int) =~= self@.actions);
        let ix = crate::rank::top_k(&keys, limit);
        let mut out: Vec<ActionItemWithMeeting> = Vec::new();
        let mut j: usize = 0;
        while j < ix.len()
            invariant
                j <= ix.len(),
                self@.actions.len() == self.actions@.len(),
                keys@.len() == self.actions@.len(),
                forall|q: int| 0 <= q < ix@.len() ==> ix@[q] < keys@.len(),
                out@.len() == j,
                forall|q: int|
                    0 <= q < j ==> (#[trigger] out@[q]).item@ == self@.actions[ix@[q] as int]
                        && opt_text(out@[q].meeting_title) == meeting_title_of(
                        self@,
                        self@.actions[ix@[q] as int].meeting_id,
                    ),
            decreases ix.len() - j,
        {
            let p = ix[j];
            assert(self@.actions[p as int] == self.actions@[p as int]@);
            let item = self.actions[p].copy();
            let title = self.meeting_title(item.meeting_id);
            out.push(ActionItemWithMeeting { item, meeting_title: title });
            j += 1;
        }
        out
    }
}

/// A decision with the title of its meeting, when the meeting is stored.
#[derive(Debug)]
pub struct DecisionWithMeeting {
    pub item: Decision,
    pub meeting_title: Option<String>,
}

impl KnowledgeBase {
    /// The `limit` most recent decisions of all meetings, newest first,
    /// each with the title of its meeting.
    pub fn get_all_decisions(&self, limit: usize) -> (r: Vec<DecisionWithMeeting>)
        ensures
            exists|ix: Seq<usize>|
                is_top_k(decision_times(self@.decisions), limit as nat, ix) && r@.len() == ix.len() && forall|i: int|
                    0 <= i < ix.len() ==> (#[trigger] r@[i]).item@ == self@.decisions[ix[i] as int]
                        && opt_text(r@[i].meeting_title) == meeting_title_of(
                        self@,
                        self@.decisions[ix[i] as int].meeting_id,
                    ),
    {
        let mut keys: Vec<u64> = Vec::new();
        let mut i: usize = 0;
        while i < self.decisions.len()
            invariant
                i <= self.decisions.len(),
                self@.decisions.len() == self.decisions@.len(),
                keys@ == decision_times(self@.decisions.subrange(0, i as int)),
            decreases self.decisions.len() - i,
        {
            assert(self@.decisions[i as int] == self.decisions@[i as int]@);
            keys.push(self.decisions[i].created_at);
            assert(keys@ =~= decision_times(self@.decisions.subrange(0, i + 1)));
            i += 1;
        }
        assert(self@.decisions.subrange(0, self.decisions.len() as int) =~= self@.decisions);
        let ix = crate::rank::top_k(&keys, limit);
        let mut out: Vec<DecisionWithMeeting> = Vec::new();
        let mut j: usize = 0;
        while j < ix.len()
            invariant
                j <= ix.len(),
                self@.decisions.len() == self.decisions@.len(),
                keys@.len() == self.decisions@.len(),
                forall|q: int| 0 <= q < ix@.len() ==> ix@[q] < keys@.len(),
                out@.len() == j,
                forall|q: int|
                    0 <= q < j ==> (#[trigger] out@[q]).item@ == self@.decisions[ix@[q] as int]
                        && opt_text(out@[q].meeting_title) == meeting_title_of(
                        self@,
                        self@.decisions[ix@[q] as int].meeting_id,
                    ),
            decreases ix.len() - j,
        {
            let p = ix[j];
            assert(self@.decisions[p as int] == self.decisions@[p as int]@);
            let item = self.decisions[p].copy();
            let title = self.meeting_title(item.meeting_id);
            out.push(DecisionWithMeeting { item, meeting_title: title });
            j += 1;
        }
        out
    }
}


/// Two people were mentioned in a common meeting.
pub open spec fn met(s: KbView, a: u64, b: u64) -> bool {
    exists|i: int| 0 <= i < s.mentioned_in.len() && (#[trigger] s.mentioned_in[i]).from == b
        && mentioned(s, a, s.mentioned_in[i].to)
}

/// The other people mentioned in a meeting where the named person was
/// mentioned, in order of storage.
pub open spec fn related_people_rows(s: KbView, name: Seq<char>) -> Seq<PersonRow> {
    match find_person(s.people, name) {
        Some(k) => s.people.filter(|p: PersonRow| p.name != name && met(s, s.people[k].id, p.id)),
        None => Seq::empty(),
    }
}

impl KnowledgeBase {
    fn met_exec(&self, a: u64, b: u64) -> (r: bool)
        ensures
            r == met(self@, a, b),
    {
        let mut i: usize = 0;
        while i < self.mentioned_in.len()
            invariant
                i <= self.mentioned_in.len(),
                self@.mentioned_in == self.mentioned_in@,
                forall|q: int|
                    0 <= q < i ==> !((#[trigger] self@.mentioned_in[q]).from == b && mentioned(
                        self@,
                        a,
                        self@.mentioned_in[q].to,
                    )),
            decreases self.mentioned_in.len() - i,
        {
            let e = self.mentioned_in[i];
            if e.from == b && edge_listed(&self.mentioned_in, GraphEdge { from: a, to: e.to }) {
                return true;
            }
            i += 1;
        }
        false
    }

    /// The names of the other people mentioned in a meeting where the named
    /// person was mentioned.
    pub fn get_related_people(&self, person_name: &str) -> (r: Vec<String>)
        ensures
            r.deep_view() == related_people_rows(self@, person_name@).map_values(|p: PersonRow| p.name),
    {
        let mut out: Vec<String> = Vec::new();
        match self.find_person_index(person_name) {
            None => {
                assert(out.deep_view() =~= Seq::<PersonRow>::empty().map_values(|p: PersonRow| p.name));
                out
            },
            Some(k) => {
                proof {
                    lemma_find_person(self@.people, person_name@);
                }
                assert(self@.people[k as int] == self.people@[k as int]@);
                let pid = self.people[k].id;
                let ghost pred = |p: PersonRow| p.name != person_name@ && met(self@, pid, p.id);
                let ghost f = |p: PersonRow| p.name;
                let mut i: usize = 0;
                assert(self@.people.subrange(0, 0).filter(pred) =~= Seq::<PersonRow>::empty()) by {
                    reveal(Seq::filter);
                }
                assert(out.deep_view() =~= self@.people.subrange(0, 0).filter(pred).map_values(f));
                while i < self.people.len()
                    invariant
                        i <= self.people.len(),
                        self@.people.len() == self.people@.len(),
                        pred == (|p: PersonRow| p.name != person_name@ && met(self@, pid, p.id)),
                        f == (|p: PersonRow| p.name),
                        out.deep_view() == self@.people.subrange(0, i as int).filter(pred).map_values(f),
                    decreases self.people.len() - i,
                {
                    proof {
                        lemma_filter_step(self@.people, i as int, pred);
                    }
                    assert(self@.people[i as int] == self.people@[i as int]@);
                    let ghost prev = out.deep_view();
                    let p = &self.people[i];
                    if !str_eq(p.name.as_str(), person_name) && self.met_exec(pid, p.id) {
                        out.push(p.name.clone());
                        assert(out.deep_view() =~= prev.push(p.name@));
                    }
                    assert(out.deep_view() =~= self@.people.subrange(0, i + 1).filter(pred).map_values(f));
                    i += 1;
                }
                assert(self@.people.subrange(0, self.people.len() as int) =~= self@.people);
                out
            },
        }
    }
}


/// A transcript segment found by similarity search, with its meeting's title.
/// The score is an order key: a larger key means a closer match.
#[derive(Debug)]
pub struct SearchResult {
    pub segment: TranscriptSegment,
    pub meeting_title: String,
    pub score: u64,
}

/// The title shown for a meeting: its own, or "Unknown" when it is gone.
pub open spec fn shown_title(s: KbView, m: u64) -> Seq<char> {
    match meeting_title_of(s, m) {
        Some(t) => t,
        None => "Unknown"@,
    }
}

impl KnowledgeBase {
    /// Similarity search over the stored segments. `scores[i]` is the order
    /// key of segment `i` against the query; the `limit` best come first,
    /// equal keys in order of storage.
    pub fn search_similar(&self, scores: &Vec<u64>, limit: usize) -> (r: Vec<SearchResult>)
        requires
            scores@.len() == self@.segments.len(),
        ensures
            exists|ix: Seq<usize>|
                is_top_k(scores@, limit as nat, ix) && r@.len() == ix.len() && forall|i: int|
                    0 <= i < ix.len() ==> (#[trigger] r@[i]).segment@ == self@.segments[ix[i] as int]
                        && r@[i].score == scores@[ix[i] as int] && r@[i].meeting_title@ == shown_title(
                        self@,
                        self@.segments[ix[i] as int].meeting_id,
                    ),
    {
        let ix = crate::rank::top_k(scores, limit);
        let mut out: Vec<SearchResult> = Vec::new();
        let mut j: usize = 0;
        while j < ix.len()
            invariant
                j <= ix.len(),
                self@.segments.len() == self.segments@.len(),
                scores@.len() == self.segments@.len(),
                forall|q: int| 0 <= q < ix@.len() ==> ix@[q] < scores@.len(),
                out@.len() == j,
                forall|q: int|
                    0 <= q < j ==> (#[trigger] out@[q]).segment@ == self@.segments[ix@[q] as int]
                        && out@[q].score == scores@[ix@[q] as int] && out@[q].meeting_title@
                        == shown_title(self@, self@.segments[ix@[q] as int].meeting_id),
            decreases ix.len() - j,
        {
            let p = ix[j];
            assert(self@.segments[p as int] == self.segments@[p as int]@);
            let segment = self.segments[p].copy();
            let title = match self.meeting_title(segment.meeting_id) {
                Some(t) => t,
                None => string_of(&chars_of("Unknown")),
            };
            out.push(SearchResult { segment, meeting_title: title, score: scores[p] });
            j += 1;
        }
        out
    }
}


/// Target chunk size, in characters, for knowledge sources.
pub const SOURCE_CHUNK_SIZE: usize = 1000;

/// A document prepared for ingestion: its chunks and the paragraphs that go
/// through entity extraction.
pub struct SourcePlan {
    content: String,
    chunks: Vec<Chunk>,
    paragraphs: Vec<String>,
}

impl SourcePlan {
    #[verifier::type_invariant]
    spec fn inv(&self) -> bool {
        &&& chunks_of(self.content@, SOURCE_CHUNK_SIZE as nat, self.chunks@)
        &&& self.paragraphs.deep_view() == paragraphs_for_extraction(self.content@)
    }

    /// The document.
    pub closed spec fn content_view(&self) -> Seq<char> {
        self.content@
    }

    /// Its chunks, in order.
    pub closed spec fn chunks_view(&self) -> Seq<Chunk> {
        self.chunks@
    }

    /// Its paragraphs for extraction, in order.
    pub closed spec fn paragraphs_view(&self) -> Seq<Seq<char>> {
        self.paragraphs.deep_view()
    }

    /// Splits a document into chunks of about a thousand characters and
    /// picks its paragraphs for extraction.
    pub fn new(content: String) -> (r: SourcePlan)
        ensures
            r.content_view() == content@,
            chunks_of(content@, SOURCE_CHUNK_SIZE as nat, r.chunks_view()),
            r.paragraphs_view() == paragraphs_for_extraction(content@),
    {
        let chunker = DocumentChunker::new();
        let chunks = chunker.chunk_markdown(content.as_str());
        let paragraphs = extraction_paragraphs(content.as_str());
        SourcePlan { content, chunks, paragraphs }
    }

    /// The chunks, in order; each is to be embedded.
    pub fn chunks(&self) -> (r: &Vec<Chunk>)
        ensures
            r@ == self.chunks_view(),
            chunks_of(self.content_view(), SOURCE_CHUNK_SIZE as nat, r@),
    {
        proof {
            use_type_invariant(self);
        }
        &self.chunks
    }

    /// The paragraphs, in order; each is to go through extraction.
    pub fn paragraphs(&self) -> (r: &Vec<String>)
        ensures
            r.deep_view() == self.paragraphs_view(),
            r.deep_view() == paragraphs_for_extraction(self.content_view()),
    {
        proof {
            use_type_invariant(self);
        }
        &self.paragraphs
    }
}

/// What the extractor found in one paragraph of a source; the embeddings are
/// those of the entity texts.
#[derive(Debug)]
pub struct SourceExtraction {
    pub entities: Vec<Entity>,
    pub topic_embeddings: Vec<Vec<u32>>,
    pub relationships: Vec<Relationship>,
}

/// An extraction the store can take.
pub open spec fn extraction_fits(x: SourceExtraction) -> bool {
    x.topic_embeddings@.len() == x.entities@.len() && confidences_in_scale(x.relationships@)
}

/// The store after one chunk of source `k`: stored with its position as
/// index when it was embedded; skipped when its embedding failed.
pub open spec fn chunk_step(s: KbView, k: u64, text: Seq<char>, index: int, e: Option<Vec<u32>>) -> KbView {
    match e {
        Some(v) => if s.next_id == u64::MAX {
            s
        } else {
            KbView {
                chunks: s.chunks.push(
                    ChunkRow {
                        id: s.next_id,
                        source_id: k,
                        text,
                        chunk_index: index as u64,
                        embedding: v@,
                    },
                ),
                next_id: (s.next_id + 1) as u64,
                ..s
            }
        },
        None => s,
    }
}

/// The store after the chunks `cs` of source `k`, in order; `es[i]` is the
/// embedding of `cs[i]`, or `None` when it failed.
pub open spec fn store_chunks(s: KbView, k: u64, cs: Seq<Chunk>, es: Seq<Option<Vec<u32>>>) -> KbView
    decreases cs.len(),
{
    if cs.len() == 0 || es.len() < cs.len() {
        s
    } else {
        let n = cs.len() - 1;
        chunk_step(store_chunks(s, k, cs.drop_last(), es.subrange(0, n)), k, cs[n].text@, n, es[n])
    }
}

/// The store after the extractions of a source's paragraphs, in order; a
/// failed extraction (`None`) is skipped.
pub open spec fn apply_source_extractions(
    s: KbView,
    k: u64,
    xs: Seq<Option<SourceExtraction>>,
    now: u64,
) -> KbView
    decreases xs.len(),
{
    if xs.len() == 0 {
        s
    } else {
        let p = apply_source_extractions(s, k, xs.drop_last(), now);
        match xs.last() {
            Some(x) => apply_relations(
                apply_entities(p, x.entities@, x.topic_embeddings@, Origin::Source(k), now),
                x.relationships@,
                Origin::Source(k),
                now,
            ),
            None => p,
        }
    }
}

/// The store with a new source row.
pub open spec fn with_source(
    s: KbView,
    url: Seq<char>,
    title: Seq<char>,
    source_type: Seq<char>,
    content: Seq<char>,
    tags: Seq<Seq<char>>,
    now: u64,
) -> KbView {
    KbView {
        sources: s.sources.push(
            SourceRow {
                id: s.next_id,
                url,
                title,
                source_type,
                raw_content: content,
                tags,
                created_at: now,
                last_updated: now,
            },
        ),
        next_id: (s.next_id + 1) as u64,
        ..s
    }
}

proof fn lemma_find_source_pushed(a: Seq<SourceRow>, x: SourceRow)
    ensures
        find_source(a.push(x), x.id) is Some,
    decreases a.len(),
{
    if a.len() > 0 {
        assert(a.push(x).drop_first() =~= a.drop_first().push(x));
        lemma_find_source_pushed(a.drop_first(), x);
    }
}

impl KnowledgeBase {
    /// Ingests a knowledge source: stores its row, then each chunk whose
    /// embedding succeeded with its position as index (a failed embedding
    /// skips that chunk only), then what extraction found in each paragraph
    /// (a failed extraction skips that paragraph only).
    /// `chunk_embeddings[i]` belongs to chunk `i` of the plan and
    /// `extractions[j]` to paragraph `j`.
    pub fn ingest_knowledge_source(
        &mut self,
        url: String,
        title: String,
        source_type: String,
        tags: Vec<String>,
        plan: SourcePlan,
        chunk_embeddings: Vec<Option<Vec<u32>>>,
        extractions: Vec<Option<SourceExtraction>>,
        now: u64,
    ) -> (r: Result<u64, KbError>)
        requires
            old(self).wf(),
            chunk_embeddings@.len() == plan.chunks_view().len(),
            extractions@.len() == plan.paragraphs_view().len(),
            forall|j: int|
                0 <= j < extractions@.len() && (#[trigger] extractions@[j]) is Some ==> extraction_fits(
                    extractions@[j]->0,
                ),
        ensures
            final(self).wf(),
            url@.len() == 0 || url_taken(old(self)@.sources, url@) ==> r == Err::<u64, KbError>(
                KbError::ValidationFailure,
            ) && final(self)@ == old(self)@,
            url@.len() > 0 && !url_taken(old(self)@.sources, url@) && old(self)@.next_id == u64::MAX
                ==> r == Err::<u64, KbError>(KbError::IdsExhausted) && final(self)@ == old(self)@,
            url@.len() > 0 && !url_taken(old(self)@.sources, url@) && old(self)@.next_id < u64::MAX
                ==> r == Ok::<u64, KbError>(old(self)@.next_id) && final(self)@
                == apply_source_extractions(
                store_chunks(
                    with_source(
                        old(self)@,
                        url@,
                        title@,
                        source_type@,
                        plan.content_view(),
                        tags.deep_view(),
                        now,
                    ),
                    old(self)@.next_id,
                    plan.chunks_view(),
                    chunk_embeddings@,
                ),
                old(self)@.next_id,
                extractions@,
                now,
            ),
    {
        proof {
            use_type_invariant(&plan);
        }
        let ghost s0 = self@;
        let ghost urlv = url@;
        let ghost tv = tags.deep_view();
        let ghost titlev = title@;
        let ghost typev = source_type@;
        let content = plan.content.clone();
        let id = match self.add_knowledge_source(url, title, content, source_type, tags, now) {
            Ok(id) => id,
            Err(e) => {
                return Err(e);
            },
        };
        let ghost s1 = self@;
        assert(s1 == with_source(s0, urlv, titlev, typev, plan.content_view(), tv, now));
        proof {
            lemma_find_source_pushed(s0.sources, s1.sources.last());
            assert(s1.sources == s0.sources.push(s1.sources.last()));
        }
        let chunks = &plan.chunks;
        let mut i: usize = 0;
        assert(chunks@.subrange(0, 0) =~= Seq::<Chunk>::empty());
        while i < chunks.len()
            invariant
                i <= chunks.len(),
                chunks@ == plan.chunks_view(),
                chunk_embeddings@.len() == chunks@.len(),
                self.wf(),
                has_source(self@, id),
                self@ == store_chunks(s1, id, chunks@.subrange(0, i as int), chunk_embeddings@.subrange(0, i as int)),
            decreases chunks.len() - i,
        {
            proof {
                assert(chunks@.subrange(0, i + 1).drop_last() =~= chunks@.subrange(0, i as int));
                assert(chunk_embeddings@.subrange(0, i + 1).subrange(0, i as int) =~= chunk_embeddings@.subrange(0, i as int));
            }
            match &chunk_embeddings[i] {
                Some(v) => {
                    let _ = self.add_chunk(id, chunks[i].text.clone(), i as u64, crate::model::copy_bits(v));
                },
                None => {},
            }
            i += 1;
        }
        assert(chunks@.subrange(0, chunks.len() as int) =~= chunks@);
        assert(chunk_embeddings@.subrange(0, chunks.len() as int) =~= chunk_embeddings@);
        let ghost s2 = self@;
        let mut j: usize = 0;
        assert(extractions@.subrange(0, 0) =~= Seq::<Option<SourceExtraction>>::empty());
        while j < extractions.len()
            invariant
                j <= extractions.len(),
                forall|q: int|
                    0 <= q < extractions@.len() && (#[trigger] extractions@[q]) is Some ==> extraction_fits(
                        extractions@[q]->0,
                    ),
                self.wf(),
                self@ == apply_source_extractions(s2, id, extractions@.subrange(0, j as int), now),
            decreases extractions.len() - j,
        {
            proof {
                assert(extractions@.subrange(0, j + 1).drop_last() =~= extractions@.subrange(0, j as int));
            }
            match &extractions[j] {
                Some(x) => {
                    self.apply_extraction(&x.entities, &x.topic_embeddings, &x.relationships, Origin::Source(id), now);
                },
                None => {},
            }
            j += 1;
        }
        assert(extractions@.subrange(0, extractions.len() as int) =~= extractions@);
        Ok(id)
    }
}

} // verus!
