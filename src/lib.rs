//! A knowledge graph and retrieval engine for meeting transcripts and
//! documents.
//!
//! The store (`store`) keeps meetings, transcript segments, the people and
//! topics named in them, action items, decisions, knowledge sources with
//! their chunks, and relationships between entities. Ingestion upserts
//! people and topics by name and keeps relationships from a confidence
//! threshold up; retrieval (`KnowledgeBase::graph_rag_query`) gathers the
//! meetings within a query's time reference (`temporal`), context on the
//! people and topics the query names, open action items, recent decisions
//! and the chunks with the best similarity scores (`rank`). Properties that
//! span several operations are proved in `laws`.
//!
//! Around the store: document chunking (`chunker`), record identifiers in
//! text form (`ids`), extractor output (`extraction`), speaker diarization
//! (`diarization`), speech recogniser output (`sensevoice`), web pages to
//! markdown (`web`), the model catalogue (`models`) and screenshots
//! (`screenshot`).
use vstd::prelude::*;

pub mod chunker;
pub mod diarization;
pub mod extraction;
pub mod ids;
pub mod laws;
pub mod model;
pub mod llm;
pub mod models;
pub mod number;
pub mod rank;
pub mod screenshot;
pub mod sensevoice;
pub mod store;
pub mod temporal;
pub mod text;
pub mod web;

verus! {

} // verus!
