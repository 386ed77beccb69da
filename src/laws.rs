//! Properties of the store that hold across operations.
use vstd::prelude::*;
use crate::model::{ActionRow, ActionStatus, ChunkRow, DecisionRow, Entity, GraphEdge, PersonRow, RelationRow, Relationship, SegmentRow};
use crate::rank::is_top_k;
use crate::temporal::{clamp, window_end, window_start, TimePhrase, WEEK_MS};
use crate::store::{
    apply_entities, apply_relations, entity_step, find_person, find_topic, graph_rag_result,
    has_source, ingest_segment, kind_of, max_u64, min_u64, orphan_sources,
    relation_step, store_chunks, chunk_step, store_segment, upsert_person, upsert_topic, without_source, EntityKind, KbView,
    Origin, MIN_RELATION_CONFIDENCE,
};

verus! {

/// The smallest of a non-empty run of timestamps.
pub open spec fn seq_min(ts: Seq<u64>) -> u64
    decreases ts.len(),
{
    if ts.len() <= 1 {
        ts[0]
    } else {
        min_u64(seq_min(ts.drop_last()), ts.last())
    }
}

/// The largest of a non-empty run of timestamps.
pub open spec fn seq_max(ts: Seq<u64>) -> u64
    decreases ts.len(),
{
    if ts.len() <= 1 {
        ts[0]
    } else {
        max_u64(seq_max(ts.drop_last()), ts.last())
    }
}

/// The store after the person `name` is seen at each of `ts`, in order.
pub open spec fn seen_at_all(s: KbView, name: Seq<char>, ts: Seq<u64>) -> KbView
    decreases ts.len(),
{
    if ts.len() == 0 {
        s
    } else {
        upsert_person(seen_at_all(s, name, ts.drop_last()), name, ts.last())
    }
}

proof fn lemma_find_person_same_names(a: Seq<PersonRow>, b: Seq<PersonRow>, name: Seq<char>)
    requires
        a.len() == b.len(),
        forall|j: int| 0 <= j < a.len() ==> a[j].name == b[j].name,
    ensures
        find_person(a, name) == find_person(b, name),
    decreases a.len(),
{
    if a.len() > 0 {
        lemma_find_person_same_names(a.drop_first(), b.drop_first(), name);
    }
}

proof fn lemma_find_person_pushed(a: Seq<PersonRow>, p: PersonRow)
    requires
        find_person(a, p.name) is None,
    ensures
        find_person(a.push(p), p.name) == Some(a.len() as int),
    decreases a.len(),
{
    if a.len() > 0 {
        assert(a.push(p).drop_first() =~= a.drop_first().push(p));
        lemma_find_person_pushed(a.drop_first(), p);
    }
}

proof fn lemma_find_person_found(a: Seq<PersonRow>, name: Seq<char>)
    ensures
        match find_person(a, name) {
            Some(i) => 0 <= i < a.len() && a[i].name == name,
            None => true,
        },
    decreases a.len(),
{
    if a.len() > 0 {
        lemma_find_person_found(a.drop_first(), name);
    }
}

/// A person seen at several times, in any order, ends with the earliest of
/// them as first sighting and the latest as last sighting.
pub proof fn lemma_person_sightings(s: KbView, name: Seq<char>, ts: Seq<u64>)
    requires
        ts.len() > 0,
        find_person(s.people, name) is None,
        s.next_id < u64::MAX,
    ensures
        find_person(seen_at_all(s, name, ts).people, name) is Some,
        seen_at_all(s, name, ts).people[find_person(seen_at_all(s, name, ts).people, name)->0].first_seen
            == seq_min(ts),
        seen_at_all(s, name, ts).people[find_person(seen_at_all(s, name, ts).people, name)->0].last_seen
            == seq_max(ts),
    decreases ts.len(),
{
    let t = seen_at_all(s, name, ts);
    if ts.len() == 1 {
        assert(ts.drop_last().len() == 0);
        let p = PersonRow {
            id: s.next_id,
            name,
            aliases: Seq::empty(),
            first_seen: ts[0],
            last_seen: ts[0],
        };
        lemma_find_person_pushed(s.people, p);
    } else {
        let prev = seen_at_all(s, name, ts.drop_last());
        lemma_person_sightings(s, name, ts.drop_last());
        let i = find_person(prev.people, name)->0;
        lemma_find_person_found(prev.people, name);
        let q = prev.people[i];
        let upd = prev.people.update(
            i,
            PersonRow {
                first_seen: min_u64(q.first_seen, ts.last()),
                last_seen: max_u64(q.last_seen, ts.last()),
                ..q
            },
        );
        assert(t.people == upd);
        lemma_find_person_same_names(upd, prev.people, name);
    }
}

/// Stored relationships gained from a run of extracted relationships.
pub open spec fn kept_relations(rs: Seq<Relationship>) -> nat {
    rs.filter(|r: Relationship| r.confidence >= MIN_RELATION_CONFIDENCE).len()
}

/// A relationship below the confidence threshold is never stored; one at or
/// above it always is (while identifiers last), with its confidence.
pub proof fn lemma_relation_threshold(s: KbView, rs: Seq<Relationship>, origin: Origin, now: u64)
    requires
        s.next_id as int + rs.len() < u64::MAX,
    ensures
        apply_relations(s, rs, origin, now).relations.len() == s.relations.len() + kept_relations(rs),
        apply_relations(s, rs, origin, now).relations.subrange(0, s.relations.len() as int)
            == s.relations,
        forall|i: int|
            s.relations.len() <= i < apply_relations(s, rs, origin, now).relations.len()
                ==> #[trigger] apply_relations(s, rs, origin, now).relations[i].confidence
                >= MIN_RELATION_CONFIDENCE,
        apply_relations(s, rs, origin, now).next_id <= s.next_id + rs.len(),
    decreases rs.len(),
{
    reveal(Seq::filter);
    if rs.len() > 0 {
        let d = rs.drop_last();
        lemma_relation_threshold(s, d, origin, now);
        let prev = apply_relations(s, d, origin, now);
        let t = apply_relations(s, rs, origin, now);
        assert(t == relation_step(prev, rs.last(), origin, now));
        if rs.last().confidence >= MIN_RELATION_CONFIDENCE {
            assert(t.relations == prev.relations.push(t.relations.last()));
            assert(t.relations.subrange(0, s.relations.len() as int) =~= prev.relations.subrange(
                0,
                s.relations.len() as int,
            ));
        }
    } else {
        assert(s.relations.subrange(0, s.relations.len() as int) =~= s.relations);
    }
}

/// After a knowledge source is deleted no chunk refers to it, so a later
/// orphan cleanup finds nothing left of it.
pub proof fn lemma_deleted_source_leaves_no_chunks(s: KbView, k: u64)
    ensures
        forall|i: int|
            0 <= i < without_source(s, k).chunks.len() ==> #[trigger] without_source(
                s,
                k,
            ).chunks[i].source_id != k,
        !orphan_sources(without_source(s, k)).contains(k),
{
    #[allow(deprecated)]
    s.chunks.filter_lemma(|c: crate::model::ChunkRow| c.source_id != k);
}

/// On a store with no rows, every retrieved collection of a query is empty;
/// the temporal field is the parser's reading of the query.
pub proof fn lemma_empty_store_query(
    s: KbView,
    query: Seq<char>,
    es: Seq<Entity>,
    scores: Option<Seq<u64>>,
    limit: nat,
    now: u64,
    r: crate::store::GraphRAGContext,
)
    requires
        s.meetings.len() == 0,
        s.people.len() == 0,
        s.topics.len() == 0,
        s.actions.len() == 0,
        s.decisions.len() == 0,
        s.chunks.len() == 0,
        graph_rag_result(s, query, es, scores, limit, now, r),
    ensures
        r.related_meetings@.len() == 0,
        r.related_people@.len() == 0,
        r.related_topics@.len() == 0,
        r.open_actions@.len() == 0,
        r.recent_decisions@.len() == 0,
        r.similar_chunks@.len() == 0,
        crate::temporal::temporal_matches(query, now, r.temporal_context),
{
    reveal(Seq::filter);
    assert(s.meetings.filter(|m: crate::model::MeetingRow| crate::store::in_window(m, crate::store::window_of(r.temporal_context))) =~= Seq::<crate::model::MeetingRow>::empty());
    assert(s.actions.filter(|r: ActionRow| r.status == crate::model::ActionStatus::Open) =~= Seq::<ActionRow>::empty());
    assert(Seq::new(0, |i: int| i).filter(|i: int| crate::store::chunk_searched(s, s.chunks[i], None)) =~= Seq::<int>::empty());
    assert(crate::store::searched_positions(s, None) =~= Seq::<int>::empty());
    assert forall|e: Entity| !crate::store::names_person(s, e) by {}
    assert forall|e: Entity| !crate::store::names_topic(s, e) by {}
    assert(es.filter(|e: Entity| crate::store::names_person(s, e)).len() == 0) by {
        lemma_filter_none(es, |e: Entity| crate::store::names_person(s, e));
    }
    assert(es.filter(|e: Entity| crate::store::names_topic(s, e)).len() == 0) by {
        lemma_filter_none(es, |e: Entity| crate::store::names_topic(s, e));
    }
    assert forall|keys: Seq<u64>, k: nat, ix: Seq<usize>|
        keys.len() == 0 && #[trigger] is_top_k(keys, k, ix) implies ix.len() == 0 by {
        if ix.len() > 0 {
            assert(ix[0] < keys.len());
        }
    }
    assert(r.open_actions@.map_values(|a: crate::model::ActionItem| a@).len() == r.open_actions@.len());
    assert(r.recent_decisions@.map_values(|d: crate::model::Decision| d@).len() == r.recent_decisions@.len());
}

proof fn lemma_filter_none<A>(s: Seq<A>, p: spec_fn(A) -> bool)
    requires
        forall|x: A| !#[trigger] p(x),
    ensures
        s.filter(p).len() == 0,
    decreases s.len(),
{
    reveal(Seq::filter);
    if s.len() > 0 {
        lemma_filter_none(s.drop_last(), p);
    }
}

/// What a store holds about one meeting: its segments, action items,
/// decisions, relationships and the graph edges that point to it.
pub open spec fn meeting_slice(s: KbView, b: u64) -> (
    Seq<SegmentRow>,
    Seq<ActionRow>,
    Seq<DecisionRow>,
    Seq<RelationRow>,
    Seq<GraphEdge>,
    Seq<GraphEdge>,
) {
    (
        s.segments.filter(|g: SegmentRow| g.meeting_id == b),
        s.actions.filter(|a: ActionRow| a.meeting_id == b),
        s.decisions.filter(|d: DecisionRow| d.meeting_id == b),
        s.relations.filter(|r: RelationRow| r.meeting_id == Some(b)),
        s.mentioned_in.filter(|e: GraphEdge| e.to == b),
        s.discussed_in.filter(|e: GraphEdge| e.to == b),
    )
}

proof fn lemma_push_other<A>(s: Seq<A>, x: A, p: spec_fn(A) -> bool)
    requires
        !p(x),
    ensures
        s.push(x).filter(p) == s.filter(p),
{
    reveal(Seq::filter);
    assert(s.push(x).drop_last() =~= s);
}

proof fn lemma_entity_step_isolated(
    s: KbView,
    text: Seq<char>,
    label: Seq<char>,
    emb: Seq<u32>,
    m: u64,
    now: u64,
    b: u64,
)
    requires
        m != b,
    ensures
        meeting_slice(entity_step(s, text, label, emb, Origin::Meeting(m), now), b)
            == meeting_slice(s, b),
{
    let t = entity_step(s, text, label, emb, Origin::Meeting(m), now);
    match kind_of(label) {
        EntityKind::Person => {
            let u = upsert_person(s, text, now);
            match find_person(u.people, text) {
                Some(i) => lemma_push_other(
                    u.mentioned_in,
                    GraphEdge { from: u.people[i].id, to: m },
                    |e: GraphEdge| e.to == b,
                ),
                None => {},
            }
        },
        EntityKind::Topic => {
            let u = upsert_topic(s, text, emb, now);
            match find_topic(u.topics, text) {
                Some(i) => lemma_push_other(
                    u.discussed_in,
                    GraphEdge { from: u.topics[i].id, to: m },
                    |e: GraphEdge| e.to == b,
                ),
                None => {},
            }
        },
        EntityKind::ActionItem => {
            if s.next_id < u64::MAX {
                lemma_push_other(s.actions, t.actions.last(), |a: ActionRow| a.meeting_id == b);
                assert(t.actions == s.actions.push(t.actions.last()));
            }
        },
        EntityKind::Decision => {
            if s.next_id < u64::MAX {
                lemma_push_other(s.decisions, t.decisions.last(), |d: DecisionRow| d.meeting_id == b);
                assert(t.decisions == s.decisions.push(t.decisions.last()));
            }
        },
        _ => {},
    }
}

proof fn lemma_entities_isolated(
    s: KbView,
    es: Seq<Entity>,
    embs: Seq<Vec<u32>>,
    m: u64,
    now: u64,
    b: u64,
)
    requires
        m != b,
    ensures
        meeting_slice(apply_entities(s, es, embs, Origin::Meeting(m), now), b) == meeting_slice(s, b),
    decreases es.len(),
{
    if es.len() > 0 && embs.len() >= es.len() {
        let k = (es.len() - 1) as int;
        lemma_entities_isolated(s, es.drop_last(), embs.subrange(0, k), m, now, b);
        lemma_entity_step_isolated(
            apply_entities(s, es.drop_last(), embs.subrange(0, k), Origin::Meeting(m), now),
            es[k].text@,
            es[k].label@,
            embs[k]@,
            m,
            now,
            b,
        );
    }
}

proof fn lemma_relations_isolated(s: KbView, rs: Seq<Relationship>, m: u64, now: u64, b: u64)
    requires
        m != b,
    ensures
        meeting_slice(apply_relations(s, rs, Origin::Meeting(m), now), b) == meeting_slice(s, b),
    decreases rs.len(),
{
    if rs.len() > 0 {
        lemma_relations_isolated(s, rs.drop_last(), m, now, b);
        let prev = apply_relations(s, rs.drop_last(), Origin::Meeting(m), now);
        let t = relation_step(prev, rs.last(), Origin::Meeting(m), now);
        if t.relations != prev.relations {
            lemma_push_other(prev.relations, t.relations.last(), |r: RelationRow| r.meeting_id == Some(b));
            assert(t.relations == prev.relations.push(t.relations.last()));
        }
    }
}

/// Adding a segment, with what was extracted from it, to one meeting leaves
/// what the store holds about any other meeting unchanged.
pub proof fn lemma_segment_isolation(
    s: KbView,
    seg: SegmentRow,
    es: Seq<Entity>,
    embs: Seq<Vec<u32>>,
    rs: Seq<Relationship>,
    now: u64,
    b: u64,
)
    requires
        seg.meeting_id != b,
    ensures
        meeting_slice(ingest_segment(s, seg, es, embs, rs, now), b) == meeting_slice(s, b),
{
    let m = seg.meeting_id;
    lemma_push_other(s.segments, seg, |g: SegmentRow| g.meeting_id == b);
    let s1 = store_segment(s, seg);
    assert(meeting_slice(s1, b) == meeting_slice(s, b));
    lemma_entities_isolated(s1, es, embs, m, now, b);
    lemma_relations_isolated(apply_entities(s1, es, embs, Origin::Meeting(m), now), rs, m, now, b);
}


/// After an orphan cleanup, no chunk refers to a source that is gone.
pub proof fn lemma_cleanup_leaves_no_orphans(s: KbView)
    ensures
        orphan_sources(
            KbView { chunks: s.chunks.filter(|c: ChunkRow| has_source(s, c.source_id)), ..s },
        ) =~= Set::<u64>::empty(),
{
    let t = KbView { chunks: s.chunks.filter(|c: ChunkRow| has_source(s, c.source_id)), ..s };
    #[allow(deprecated)]
    s.chunks.filter_lemma(|c: ChunkRow| has_source(s, c.source_id));
    assert forall|k: u64| !orphan_sources(t).contains(k) by {
        if orphan_sources(t).contains(k) {
            let i = choose|i: int| 0 <= i < t.chunks.len() && #[trigger] t.chunks[i].source_id == k
                && !has_source(t, k);
            assert(has_source(s, t.chunks[i].source_id));
        }
    }
}


/// "N weeks ago" gives a two-week window centred on N weeks before now,
/// wherever the window fits in the range of timestamps.
pub proof fn lemma_weeks_ago_window(n: u64, now: u64)
    requires
        (n + 1) * WEEK_MS <= now,
        now - (n - 1) * WEEK_MS <= u64::MAX,
    ensures
        clamp(window_start(TimePhrase::WeeksAgo(n), now as int)) + WEEK_MS == now - n * WEEK_MS,
        clamp(window_end(TimePhrase::WeeksAgo(n), now as int)) - WEEK_MS == now - n * WEEK_MS,
{
    assert((n + 1) * WEEK_MS == n * WEEK_MS + WEEK_MS) by (nonlinear_arith);
    assert((n - 1) * WEEK_MS == n * WEEK_MS - WEEK_MS) by (nonlinear_arith);
}

/// An action item made from an extracted entity is open and belongs to the
/// meeting it was found in; so does a decision's meeting.
pub proof fn lemma_extracted_items_belong_to_meeting(
    s: KbView,
    text: Seq<char>,
    label: Seq<char>,
    emb: Seq<u32>,
    m: u64,
    now: u64,
)
    ensures
        ({
            let t = entity_step(s, text, label, emb, Origin::Meeting(m), now);
            &&& t.actions.len() >= s.actions.len()
            &&& t.actions.subrange(0, s.actions.len() as int) == s.actions
            &&& forall|i: int|
                s.actions.len() <= i < t.actions.len() ==> (#[trigger] t.actions[i]).status
                    == ActionStatus::Open && t.actions[i].meeting_id == m && t.actions[i].text == text
            &&& t.decisions.subrange(0, s.decisions.len() as int) == s.decisions
            &&& forall|i: int|
                s.decisions.len() <= i < t.decisions.len() ==> (#[trigger] t.decisions[i]).meeting_id
                    == m && t.decisions[i].text == text
            &&& (kind_of(label) == EntityKind::Decision && s.next_id < u64::MAX ==> t.decisions.len()
                == s.decisions.len() + 1)
        }),
{
    assert(s.actions.subrange(0, s.actions.len() as int) =~= s.actions);
    assert(s.decisions.subrange(0, s.decisions.len() as int) =~= s.decisions);
    let t = entity_step(s, text, label, emb, Origin::Meeting(m), now);
    if t.actions.len() > s.actions.len() {
        assert(t.actions.subrange(0, s.actions.len() as int) =~= s.actions);
    }
    if t.decisions.len() > s.decisions.len() {
        assert(t.decisions.subrange(0, s.decisions.len() as int) =~= s.decisions);
    }
}


/// The (source, text, index, embedding) of each chunk that ingestion keeps:
/// those whose embedding succeeded, in order, indexed by position.
pub open spec fn kept_chunks(
    k: u64,
    cs: Seq<crate::chunker::Chunk>,
    es: Seq<Option<Vec<u32>>>,
) -> Seq<(u64, Seq<char>, u64, Seq<u32>)>
    decreases cs.len(),
{
    if cs.len() == 0 || es.len() < cs.len() {
        Seq::empty()
    } else {
        let n = cs.len() - 1;
        kept_chunks(k, cs.drop_last(), es.subrange(0, n)) + match es[n] {
            Some(v) => seq![(k, cs[n].text@, n as u64, v@)],
            None => Seq::empty(),
        }
    }
}

/// Ingesting a source's chunks appends exactly the chunks whose embedding
/// succeeded, each with its position as index and its embedding, and
/// changes nothing else but the identifier counter (while identifiers last).
pub proof fn lemma_source_chunks(
    s: KbView,
    k: u64,
    cs: Seq<crate::chunker::Chunk>,
    es: Seq<Option<Vec<u32>>>,
)
    requires
        es.len() == cs.len(),
        s.next_id as int + cs.len() < u64::MAX,
    ensures
        ({
            let t = store_chunks(s, k, cs, es);
            &&& t.chunks.len() >= s.chunks.len()
            &&& t.chunks.subrange(0, s.chunks.len() as int) == s.chunks
            &&& t.chunks.subrange(s.chunks.len() as int, t.chunks.len() as int).map_values(
                |c: ChunkRow| (c.source_id, c.text, c.chunk_index, c.embedding),
            ) == kept_chunks(k, cs, es)
            &&& t == (KbView { chunks: t.chunks, next_id: t.next_id, ..s })
            &&& t.next_id <= s.next_id + cs.len()
        }),
    decreases cs.len(),
{
    let t = store_chunks(s, k, cs, es);
    let f = |c: ChunkRow| (c.source_id, c.text, c.chunk_index, c.embedding);
    if cs.len() == 0 {
        assert(s.chunks.subrange(0, s.chunks.len() as int) =~= s.chunks);
        assert(t.chunks.subrange(s.chunks.len() as int, t.chunks.len() as int).map_values(f) =~= Seq::<
            (u64, Seq<char>, u64, Seq<u32>),
        >::empty());
    } else {
        let n = cs.len() - 1;
        let d = cs.drop_last();
        let de = es.subrange(0, n);
        lemma_source_chunks(s, k, d, de);
        let p = store_chunks(s, k, d, de);
        assert(t == chunk_step(p, k, cs[n].text@, n, es[n]));
        let ptail = p.chunks.subrange(s.chunks.len() as int, p.chunks.len() as int);
        match es[n] {
            Some(v) => {
                assert(p.next_id < u64::MAX);
                assert(t.chunks == p.chunks.push(t.chunks.last()));
                assert(t.chunks.subrange(0, s.chunks.len() as int) =~= p.chunks.subrange(
                    0,
                    s.chunks.len() as int,
                ));
                assert(t.chunks.subrange(s.chunks.len() as int, t.chunks.len() as int) =~= ptail.push(
                    t.chunks.last(),
                ));
                assert(t.chunks.subrange(s.chunks.len() as int, t.chunks.len() as int).map_values(f)
                    =~= ptail.map_values(f).push(f(t.chunks.last())));
                assert(kept_chunks(k, cs, es) =~= kept_chunks(k, d, de) + seq![(k, cs[n].text@, n as u64, v@)]);
            },
            None => {
                assert(kept_chunks(k, cs, es) =~= kept_chunks(k, d, de) + Seq::empty());
            },
        }
    }
}


proof fn lemma_entities_frame(
    s: KbView,
    es: Seq<Entity>,
    embs: Seq<Vec<u32>>,
    m: u64,
    now: u64,
)
    ensures
        ({
            let t = apply_entities(s, es, embs, Origin::Meeting(m), now);
            &&& t.relations == s.relations
            &&& s.next_id <= t.next_id <= s.next_id + es.len()
            &&& t.actions.len() >= s.actions.len()
            &&& t.actions.subrange(0, s.actions.len() as int) == s.actions
            &&& forall|i: int|
                s.actions.len() <= i < t.actions.len() ==> (#[trigger] t.actions[i]).status
                    == ActionStatus::Open && t.actions[i].meeting_id == m
            &&& t.decisions.len() >= s.decisions.len()
            &&& t.decisions.subrange(0, s.decisions.len() as int) == s.decisions
            &&& forall|i: int|
                s.decisions.len() <= i < t.decisions.len() ==> (#[trigger] t.decisions[i]).meeting_id == m
        }),
    decreases es.len(),
{
    let t = apply_entities(s, es, embs, Origin::Meeting(m), now);
    if es.len() == 0 || embs.len() < es.len() {
        assert(s.actions.subrange(0, s.actions.len() as int) =~= s.actions);
        assert(s.decisions.subrange(0, s.decisions.len() as int) =~= s.decisions);
    } else {
        let k = (es.len() - 1) as int;
        let p = apply_entities(s, es.drop_last(), embs.subrange(0, k), Origin::Meeting(m), now);
        lemma_entities_frame(s, es.drop_last(), embs.subrange(0, k), m, now);
        lemma_extracted_items_belong_to_meeting(p, es[k].text@, es[k].label@, embs[k]@, m, now);
        assert(t == entity_step(p, es[k].text@, es[k].label@, embs[k]@, Origin::Meeting(m), now));
        assert(t.actions.subrange(0, s.actions.len() as int) =~= t.actions.subrange(
            0,
            p.actions.len() as int,
        ).subrange(0, s.actions.len() as int));
        assert(t.decisions.subrange(0, s.decisions.len() as int) =~= t.decisions.subrange(
            0,
            p.decisions.len() as int,
        ).subrange(0, s.decisions.len() as int));
        assert forall|i: int|
            s.actions.len() <= i < t.actions.len() implies (#[trigger] t.actions[i]).status
            == ActionStatus::Open && t.actions[i].meeting_id == m by {
            if i < p.actions.len() {
                assert(t.actions.subrange(0, p.actions.len() as int)[i] == p.actions[i]);
            }
        }
        assert forall|i: int|
            s.decisions.len() <= i < t.decisions.len() implies (#[trigger] t.decisions[i]).meeting_id == m by {
            if i < p.decisions.len() {
                assert(t.decisions.subrange(0, p.decisions.len() as int)[i] == p.decisions[i]);
            }
        }
    }
}

proof fn lemma_relations_frame(s: KbView, rs: Seq<Relationship>, origin: Origin, now: u64)
    ensures
        ({
            let t = apply_relations(s, rs, origin, now);
            &&& t.actions == s.actions
            &&& t.decisions == s.decisions
            &&& t.people == s.people
            &&& t.segments == s.segments
        }),
    decreases rs.len(),
{
    if rs.len() > 0 {
        lemma_relations_frame(s, rs.drop_last(), origin, now);
    }
}

/// What one segment ingestion does to action items, decisions and
/// relationships: the old rows stay; every new action item is open and
/// belongs to the segment's meeting, every new decision belongs to it; and
/// (while identifiers last) exactly the relationships from the confidence
/// threshold up are appended, all for that meeting.
pub proof fn lemma_segment_ingestion(
    s: KbView,
    seg: SegmentRow,
    es: Seq<Entity>,
    embs: Seq<Vec<u32>>,
    rs: Seq<Relationship>,
    now: u64,
)
    requires
        s.next_id as int + 1 + es.len() + rs.len() < u64::MAX,
    ensures
        ({
            let t = ingest_segment(s, seg, es, embs, rs, now);
            let m = seg.meeting_id;
            &&& t.actions.subrange(0, s.actions.len() as int) == s.actions
            &&& forall|i: int|
                s.actions.len() <= i < t.actions.len() ==> (#[trigger] t.actions[i]).status
                    == ActionStatus::Open && t.actions[i].meeting_id == m
            &&& t.decisions.subrange(0, s.decisions.len() as int) == s.decisions
            &&& forall|i: int|
                s.decisions.len() <= i < t.decisions.len() ==> (#[trigger] t.decisions[i]).meeting_id == m
            &&& t.relations.len() == s.relations.len() + kept_relations(rs)
            &&& t.relations.subrange(0, s.relations.len() as int) == s.relations
            &&& forall|i: int|
                s.relations.len() <= i < t.relations.len() ==> (#[trigger] t.relations[i]).confidence
                    >= MIN_RELATION_CONFIDENCE && t.relations[i].meeting_id == Some(m)
        }),
{
    let m = seg.meeting_id;
    let s1 = store_segment(s, seg);
    let s2 = apply_entities(s1, es, embs, Origin::Meeting(m), now);
    lemma_entities_frame(s1, es, embs, m, now);
    lemma_relation_threshold(s2, rs, Origin::Meeting(m), now);
    lemma_relations_frame(s2, rs, Origin::Meeting(m), now);
    lemma_relation_origin(s2, rs, m, now);
}

proof fn lemma_relation_origin(s: KbView, rs: Seq<Relationship>, m: u64, now: u64)
    ensures
        forall|i: int|
            s.relations.len() <= i < apply_relations(s, rs, Origin::Meeting(m), now).relations.len()
                ==> (#[trigger] apply_relations(s, rs, Origin::Meeting(m), now).relations[i]).meeting_id
                == Some(m),
        apply_relations(s, rs, Origin::Meeting(m), now).relations.len() >= s.relations.len(),
        apply_relations(s, rs, Origin::Meeting(m), now).relations.subrange(0, s.relations.len() as int)
            == s.relations,
    decreases rs.len(),
{
    let t = apply_relations(s, rs, Origin::Meeting(m), now);
    if rs.len() == 0 {
        assert(s.relations.subrange(0, s.relations.len() as int) =~= s.relations);
    } else {
        let p = apply_relations(s, rs.drop_last(), Origin::Meeting(m), now);
        lemma_relation_origin(s, rs.drop_last(), m, now);
        assert(t == relation_step(p, rs.last(), Origin::Meeting(m), now));
        if t.relations.len() > p.relations.len() {
            assert(t.relations == p.relations.push(t.relations.last()));
            assert(t.relations.subrange(0, s.relations.len() as int) =~= p.relations.subrange(
                0,
                s.relations.len() as int,
            ));
            assert forall|i: int| s.relations.len() <= i < t.relations.len() implies (
            #[trigger] t.relations[i]).meeting_id == Some(m) by {
                if i < p.relations.len() {
                    assert(t.relations[i] == p.relations[i]);
                }
            }
        }
    }
}


proof fn lemma_find_person_push_keep(a: Seq<PersonRow>, x: PersonRow, n: Seq<char>)
    requires
        find_person(a, n) is Some,
    ensures
        find_person(a.push(x), n) == find_person(a, n),
    decreases a.len(),
{
    if a.len() > 0 && a[0].name != n {
        assert(a.push(x).drop_first() =~= a.drop_first().push(x));
        lemma_find_person_push_keep(a.drop_first(), x, n);
    }
}

/// An entity that names person `n`.
pub open spec fn names(e: Entity, n: Seq<char>) -> bool {
    kind_of(e.label@) == EntityKind::Person && e.text@ == n
}

proof fn lemma_person_step(
    p: KbView,
    text: Seq<char>,
    label: Seq<char>,
    emb: Seq<u32>,
    origin: Origin,
    now: u64,
    n: Seq<char>,
    i: int,
)
    requires
        find_person(p.people, n) == Some(i),
    ensures
        ({
            let t = entity_step(p, text, label, emb, origin, now);
            let hit = kind_of(label) == EntityKind::Person && text == n;
            &&& find_person(t.people, n) == Some(i)
            &&& t.people[i].first_seen == if hit {
                min_u64(p.people[i].first_seen, now)
            } else {
                p.people[i].first_seen
            }
            &&& t.people[i].last_seen == if hit {
                max_u64(p.people[i].last_seen, now)
            } else {
                p.people[i].last_seen
            }
        }),
{
    lemma_find_person_found(p.people, n);
    if kind_of(label) == EntityKind::Person {
        let u = upsert_person(p, text, now);
        lemma_find_person_found(p.people, text);
        match find_person(p.people, text) {
            Some(j) => {
                lemma_find_person_same_names(u.people, p.people, n);
            },
            None => {
                if p.next_id < u64::MAX {
                    lemma_find_person_push_keep(p.people, u.people.last(), n);
                    assert(u.people == p.people.push(u.people.last()));
                }
            },
        }
    }
}

proof fn lemma_person_entities(
    s: KbView,
    es: Seq<Entity>,
    embs: Seq<Vec<u32>>,
    origin: Origin,
    now: u64,
    n: Seq<char>,
    i: int,
)
    requires
        find_person(s.people, n) == Some(i),
        embs.len() == es.len(),
    ensures
        ({
            let t = apply_entities(s, es, embs, origin, now);
            let hit = exists|j: int| 0 <= j < es.len() && #[trigger] names(es[j], n);
            &&& find_person(t.people, n) == Some(i)
            &&& t.people[i].first_seen == if hit {
                min_u64(s.people[i].first_seen, now)
            } else {
                s.people[i].first_seen
            }
            &&& t.people[i].last_seen == if hit {
                max_u64(s.people[i].last_seen, now)
            } else {
                s.people[i].last_seen
            }
        }),
    decreases es.len(),
{
    if es.len() > 0 {
        let k = (es.len() - 1) as int;
        let d = es.drop_last();
        lemma_person_entities(s, d, embs.subrange(0, k), origin, now, n, i);
        let p = apply_entities(s, d, embs.subrange(0, k), origin, now);
        lemma_person_step(p, es[k].text@, es[k].label@, embs[k]@, origin, now, n, i);
        let t = apply_entities(s, es, embs, origin, now);
        assert(t == entity_step(p, es[k].text@, es[k].label@, embs[k]@, origin, now));
        assert(embs.subrange(0, k).len() == d.len());
        assert(names(es[k], n) == (kind_of(es[k].label@) == EntityKind::Person && es[k].text@ == n));
        assert forall|j: int| 0 <= j < d.len() implies d[j] == es[j] by {}
        if exists|j: int| 0 <= j < d.len() && #[trigger] names(d[j], n) {
            let j = choose|j: int| 0 <= j < d.len() && #[trigger] names(d[j], n);
            assert(names(es[j], n));
        }
        if exists|j: int| 0 <= j < es.len() && #[trigger] names(es[j], n) {
            let j = choose|j: int| 0 <= j < es.len() && #[trigger] names(es[j], n);
            if j < k {
                assert(names(d[j], n));
            }
        }
    }
}

/// A segment whose extraction names a known person widens that person's
/// sightings to include its time: first seen becomes the earlier of the two,
/// last seen the later. As min and max do not depend on order, a person
/// seen by several ingestions ends with the earliest and the latest of their
/// times, in whatever order they came.
pub proof fn lemma_segment_person_sighting(
    s: KbView,
    seg: SegmentRow,
    es: Seq<Entity>,
    embs: Seq<Vec<u32>>,
    rs: Seq<Relationship>,
    now: u64,
    n: Seq<char>,
)
    requires
        find_person(s.people, n) is Some,
        embs.len() == es.len(),
        exists|j: int| 0 <= j < es.len() && #[trigger] names(es[j], n),
    ensures
        ({
            let t = ingest_segment(s, seg, es, embs, rs, now);
            let i = find_person(s.people, n)->0;
            &&& find_person(t.people, n) == Some(i)
            &&& t.people[i].first_seen == min_u64(s.people[i].first_seen, now)
            &&& t.people[i].last_seen == max_u64(s.people[i].last_seen, now)
        }),
{
    let i = find_person(s.people, n)->0;
    let s1 = store_segment(s, seg);
    lemma_person_entities(s1, es, embs, Origin::Meeting(seg.meeting_id), now, n, i);
    lemma_relations_frame(
        apply_entities(s1, es, embs, Origin::Meeting(seg.meeting_id), now),
        rs,
        Origin::Meeting(seg.meeting_id),
        now,
    );
}

} // verus!
