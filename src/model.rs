//! The records of the knowledge graph and their mathematical views.
//!
//! Every record carries the identifier that the store gave it. Embedding
//! vectors are held as the raw bit patterns of their components: the store
//! keeps and returns them, and never computes with them.
use vstd::prelude::*;

verus! {

/// Progress of an action item. No backward transition is enforced.
#[derive(Debug, Clone, Copy, PartialEq, Eq, Structural)]
pub enum ActionStatus {
    Open,
    InProgress,
    Done,
}

/// Who linked a knowledge source to a meeting.
#[derive(Debug, Clone, Copy, PartialEq, Eq, Structural)]
pub enum LinkOrigin {
    User,
    Auto,
}

/// A directed graph edge between two records, by identifier.
#[derive(Debug, Clone, Copy, PartialEq, Eq, Structural)]
pub struct GraphEdge {
    pub from: u64,
    pub to: u64,
}

/// The view of an optional text.
pub open spec fn opt_text(o: Option<String>) -> Option<Seq<char>> {
    match o {
        Some(s) => Some(s@),
        None => None,
    }
}

/// A copy of a list of texts.
pub fn copy_texts(v: &Vec<String>) -> (r: Vec<String>)
    ensures
        r.deep_view() == v.deep_view(),
{
    let mut out: Vec<String> = Vec::new();
    let mut i: usize = 0;
    while i < v.len()
        invariant
            i <= v.len(),
            out@.len() == i,
            forall|j: int| 0 <= j < i ==> out@[j]@ == v@[j]@,
        decreases v.len() - i,
    {
        out.push(v[i].clone());
        i += 1;
    }
    assert(out.deep_view() =~= v.deep_view());
    out
}

/// A copy of an optional text.
pub fn copy_opt_text(o: &Option<String>) -> (r: Option<String>)
    ensures
        opt_text(r) == opt_text(*o),
{
    match o {
        Some(s) => Some(s.clone()),
        None => None,
    }
}

/// A copy of a vector of bit patterns.
pub fn copy_bits(v: &Vec<u32>) -> (r: Vec<u32>)
    ensures
        r@ == v@,
{
    let mut out: Vec<u32> = Vec::new();
    let mut i: usize = 0;
    while i < v.len()
        invariant
            i <= v.len(),
            out@ == v@.subrange(0, i as int),
        decreases v.len() - i,
    {
        out.push(v[i]);
        i += 1;
        assert(out@ =~= v@.subrange(0, i as int));
    }
    assert(v@.subrange(0, v.len() as int) =~= v@);
    out
}

/// A meeting.
#[derive(Debug)]
pub struct Meeting {
    pub id: u64,
    pub title: String,
    pub start_time: u64,
    pub end_time: Option<u64>,
    pub participants: Vec<String>,
    pub summary: Option<String>,
}

pub struct MeetingRow {
    pub id: u64,
    pub title: Seq<char>,
    pub start_time: u64,
    pub end_time: Option<u64>,
    pub participants: Seq<Seq<char>>,
    pub summary: Option<Seq<char>>,
}

impl View for Meeting {
    type V = MeetingRow;

    open spec fn view(&self) -> MeetingRow {
        MeetingRow {
            id: self.id,
            title: self.title@,
            start_time: self.start_time,
            end_time: self.end_time,
            participants: self.participants.deep_view(),
            summary: opt_text(self.summary),
        }
    }
}

impl Meeting {
    pub fn copy(&self) -> (r: Meeting)
        ensures
            r@ == self@,
    {
        Meeting {
            id: self.id,
            title: self.title.clone(),
            start_time: self.start_time,
            end_time: self.end_time,
            participants: copy_texts(&self.participants),
            summary: copy_opt_text(&self.summary),
        }
    }
}

/// A finalized piece of transcript.
#[derive(Debug)]
pub struct TranscriptSegment {
    pub id: u64,
    pub meeting_id: u64,
    pub speaker: String,
    pub text: String,
    pub start_ms: u64,
    pub end_ms: u64,
    pub embedding: Vec<u32>,
}

pub struct SegmentRow {
    pub id: u64,
    pub meeting_id: u64,
    pub speaker: Seq<char>,
    pub text: Seq<char>,
    pub start_ms: u64,
    pub end_ms: u64,
    pub embedding: Seq<u32>,
}

impl View for TranscriptSegment {
    type V = SegmentRow;

    open spec fn view(&self) -> SegmentRow {
        SegmentRow {
            id: self.id,
            meeting_id: self.meeting_id,
            speaker: self.speaker@,
            text: self.text@,
            start_ms: self.start_ms,
            end_ms: self.end_ms,
            embedding: self.embedding@,
        }
    }
}

impl TranscriptSegment {
    pub fn copy(&self) -> (r: TranscriptSegment)
        ensures
            r@ == self@,
    {
        TranscriptSegment {
            id: self.id,
            meeting_id: self.meeting_id,
            speaker: self.speaker.clone(),
            text: self.text.clone(),
            start_ms: self.start_ms,
            end_ms: self.end_ms,
            embedding: copy_bits(&self.embedding),
        }
    }
}

/// A person; the name is the natural key.
#[derive(Debug)]
pub struct Person {
    pub id: u64,
    pub name: String,
    pub aliases: Vec<String>,
    pub first_seen: u64,
    pub last_seen: u64,
}

pub struct PersonRow {
    pub id: u64,
    pub name: Seq<char>,
    pub aliases: Seq<Seq<char>>,
    pub first_seen: u64,
    pub last_seen: u64,
}

impl View for Person {
    type V = PersonRow;

    open spec fn view(&self) -> PersonRow {
        PersonRow {
            id: self.id,
            name: self.name@,
            aliases: self.aliases.deep_view(),
            first_seen: self.first_seen,
            last_seen: self.last_seen,
        }
    }
}

impl Person {
    pub fn copy(&self) -> (r: Person)
        ensures
            r@ == self@,
    {
        Person {
            id: self.id,
            name: self.name.clone(),
            aliases: copy_texts(&self.aliases),
            first_seen: self.first_seen,
            last_seen: self.last_seen,
        }
    }
}

/// A topic, project or product; the name is the natural key.
#[derive(Debug)]
pub struct Topic {
    pub id: u64,
    pub name: String,
    pub embedding: Vec<u32>,
    pub mention_count: u32,
    pub last_mentioned: u64,
}

pub struct TopicRow {
    pub id: u64,
    pub name: Seq<char>,
    pub embedding: Seq<u32>,
    pub mention_count: u32,
    pub last_mentioned: u64,
}

impl View for Topic {
    type V = TopicRow;

    open spec fn view(&self) -> TopicRow {
        TopicRow {
            id: self.id,
            name: self.name@,
            embedding: self.embedding@,
            mention_count: self.mention_count,
            last_mentioned: self.last_mentioned,
        }
    }
}

/// An action item of a meeting.
#[derive(Debug)]
pub struct ActionItem {
    pub id: u64,
    pub meeting_id: u64,
    pub text: String,
    pub assignee: Option<String>,
    pub deadline: Option<String>,
    pub status: ActionStatus,
    pub created_at: u64,
}

pub struct ActionRow {
    pub id: u64,
    pub meeting_id: u64,
    pub text: Seq<char>,
    pub assignee: Option<Seq<char>>,
    pub deadline: Option<Seq<char>>,
    pub status: ActionStatus,
    pub created_at: u64,
}

impl View for ActionItem {
    type V = ActionRow;

    open spec fn view(&self) -> ActionRow {
        ActionRow {
            id: self.id,
            meeting_id: self.meeting_id,
            text: self.text@,
            assignee: opt_text(self.assignee),
            deadline: opt_text(self.deadline),
            status: self.status,
            created_at: self.created_at,
        }
    }
}

impl ActionItem {
    pub fn copy(&self) -> (r: ActionItem)
        ensures
            r@ == self@,
    {
        ActionItem {
            id: self.id,
            meeting_id: self.meeting_id,
            text: self.text.clone(),
            assignee: copy_opt_text(&self.assignee),
            deadline: copy_opt_text(&self.deadline),
            status: self.status,
            created_at: self.created_at,
        }
    }
}

/// A decision taken in a meeting.
#[derive(Debug)]
pub struct Decision {
    pub id: u64,
    pub meeting_id: u64,
    pub text: String,
    pub participants: Vec<String>,
    pub created_at: u64,
}

pub struct DecisionRow {
    pub id: u64,
    pub meeting_id: u64,
    pub text: Seq<char>,
    pub participants: Seq<Seq<char>>,
    pub created_at: u64,
}

impl View for Decision {
    type V = DecisionRow;

    open spec fn view(&self) -> DecisionRow {
        DecisionRow {
            id: self.id,
            meeting_id: self.meeting_id,
            text: self.text@,
            participants: self.participants.deep_view(),
            created_at: self.created_at,
        }
    }
}

impl Decision {
    pub fn copy(&self) -> (r: Decision)
        ensures
            r@ == self@,
    {
        Decision {
            id: self.id,
            meeting_id: self.meeting_id,
            text: self.text.clone(),
            participants: copy_texts(&self.participants),
            created_at: self.created_at,
        }
    }
}

/// A knowledge source (a page, a file, a search result); the url is unique.
#[derive(Debug)]
pub struct KnowledgeSource {
    pub id: u64,
    pub url: String,
    pub title: String,
    pub source_type: String,
    pub raw_content: String,
    pub tags: Vec<String>,
    pub created_at: u64,
    pub last_updated: u64,
}

pub struct SourceRow {
    pub id: u64,
    pub url: Seq<char>,
    pub title: Seq<char>,
    pub source_type: Seq<char>,
    pub raw_content: Seq<char>,
    pub tags: Seq<Seq<char>>,
    pub created_at: u64,
    pub last_updated: u64,
}

impl View for KnowledgeSource {
    type V = SourceRow;

    open spec fn view(&self) -> SourceRow {
        SourceRow {
            id: self.id,
            url: self.url@,
            title: self.title@,
            source_type: self.source_type@,
            raw_content: self.raw_content@,
            tags: self.tags.deep_view(),
            created_at: self.created_at,
            last_updated: self.last_updated,
        }
    }
}

impl KnowledgeSource {
    pub fn copy(&self) -> (r: KnowledgeSource)
        ensures
            r@ == self@,
    {
        KnowledgeSource {
            id: self.id,
            url: self.url.clone(),
            title: self.title.clone(),
            source_type: self.source_type.clone(),
            raw_content: self.raw_content.clone(),
            tags: copy_texts(&self.tags),
            created_at: self.created_at,
            last_updated: self.last_updated,
        }
    }
}

/// A chunk of a knowledge source, with its embedding.
#[derive(Debug)]
pub struct KnowledgeChunk {
    pub id: u64,
    pub source_id: u64,
    pub text: String,
    pub chunk_index: u64,
    pub embedding: Vec<u32>,
}

pub struct ChunkRow {
    pub id: u64,
    pub source_id: u64,
    pub text: Seq<char>,
    pub chunk_index: u64,
    pub embedding: Seq<u32>,
}

impl View for KnowledgeChunk {
    type V = ChunkRow;

    open spec fn view(&self) -> ChunkRow {
        ChunkRow {
            id: self.id,
            source_id: self.source_id,
            text: self.text@,
            chunk_index: self.chunk_index,
            embedding: self.embedding@,
        }
    }
}

impl KnowledgeChunk {
    pub fn copy(&self) -> (r: KnowledgeChunk)
        ensures
            r@ == self@,
    {
        KnowledgeChunk {
            id: self.id,
            source_id: self.source_id,
            text: self.text.clone(),
            chunk_index: self.chunk_index,
            embedding: copy_bits(&self.embedding),
        }
    }
}

/// A link between a meeting and a knowledge source. The relevance is in
/// millionths.
#[derive(Debug, Clone, Copy, PartialEq, Eq, Structural)]
pub struct MeetingKnowledge {
    pub id: u64,
    pub meeting_id: u64,
    pub source_id: u64,
    pub relevance: u32,
    pub assigned_by: LinkOrigin,
}

/// A stored relationship between two named entities. The confidence is in
/// millionths.
#[derive(Debug)]
pub struct EntityRelation {
    pub id: u64,
    pub source_entity: String,
    pub source_type: String,
    pub relation: String,
    pub target_entity: String,
    pub target_type: String,
    pub confidence: u32,
    pub meeting_id: Option<u64>,
    pub knowledge_source_id: Option<u64>,
    pub created_at: u64,
}

pub struct RelationRow {
    pub id: u64,
    pub source_entity: Seq<char>,
    pub source_type: Seq<char>,
    pub relation: Seq<char>,
    pub target_entity: Seq<char>,
    pub target_type: Seq<char>,
    pub confidence: u32,
    pub meeting_id: Option<u64>,
    pub knowledge_source_id: Option<u64>,
    pub created_at: u64,
}

impl View for EntityRelation {
    type V = RelationRow;

    open spec fn view(&self) -> RelationRow {
        RelationRow {
            id: self.id,
            source_entity: self.source_entity@,
            source_type: self.source_type@,
            relation: self.relation@,
            target_entity: self.target_entity@,
            target_type: self.target_type@,
            confidence: self.confidence,
            meeting_id: self.meeting_id,
            knowledge_source_id: self.knowledge_source_id,
            created_at: self.created_at,
        }
    }
}

impl EntityRelation {
    pub fn copy(&self) -> (r: EntityRelation)
        ensures
            r@ == self@,
    {
        EntityRelation {
            id: self.id,
            source_entity: self.source_entity.clone(),
            source_type: self.source_type.clone(),
            relation: self.relation.clone(),
            target_entity: self.target_entity.clone(),
            target_type: self.target_type.clone(),
            confidence: self.confidence,
            meeting_id: self.meeting_id,
            knowledge_source_id: self.knowledge_source_id,
            created_at: self.created_at,
        }
    }
}

impl Topic {
    pub fn copy(&self) -> (r: Topic)
        ensures
            r@ == self@,
    {
        Topic {
            id: self.id,
            name: self.name.clone(),
            embedding: copy_bits(&self.embedding),
            mention_count: self.mention_count,
            last_mentioned: self.last_mentioned,
        }
    }
}

/// An entity found in a text by the extractor. The confidence is in millionths.
#[derive(Debug)]
pub struct Entity {
    pub text: String,
    pub label: String,
    pub sequence: usize,
    pub confidence: u32,
}

/// A relationship found in a text by the extractor. The confidence is in millionths.
#[derive(Debug)]
pub struct Relationship {
    pub source: String,
    pub source_type: String,
    pub relation: String,
    pub target: String,
    pub target_type: String,
    pub confidence: u32,
}

} // verus!
