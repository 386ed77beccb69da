//! Record identifiers in text form. A record of a table is written
//! `<table>:<number>`; the bare `<number>` is read as the same record.
use vstd::prelude::*;
use crate::number::{decimal, decimal_value, digit_char, is_digit, parse_decimal, to_decimal};
use crate::text::{chars_of, occurs_at, occurs_at_exec, string_of};

verus! {

/// The tables whose records are addressed by identifier.
#[derive(Debug, Clone, Copy, PartialEq, Eq, Structural)]
pub enum Table {
    Meeting,
    Segment,
    ActionItem,
    Decision,
    KnowledgeSource,
    KnowledgeChunk,
}

/// The name of a table.
pub open spec fn table_name(t: Table) -> Seq<char> {
    match t {
        Table::Meeting => "meeting"@,
        Table::Segment => "segment"@,
        Table::ActionItem => "action_item"@,
        Table::Decision => "decision"@,
        Table::KnowledgeSource => "knowledge_source"@,
        Table::KnowledgeChunk => "knowledge_chunk"@,
    }
}

/// The prefix `<table>:` of the long form.
pub open spec fn table_prefix(t: Table) -> Seq<char> {
    table_name(t) + ":"@
}

/// The number part of an identifier: after the prefix when it is there.
pub open spec fn id_body(t: Table, s: Seq<char>) -> Seq<char> {
    if occurs_at(s, 0, table_prefix(t)) {
        s.subrange(table_prefix(t).len() as int, s.len() as int)
    } else {
        s
    }
}

/// The record number that `s` stands for, in either form.
pub open spec fn parse_id(t: Table, s: Seq<char>) -> Option<u64> {
    let b = id_body(t, s);
    if b.len() > 0 && (forall|i: int| 0 <= i < b.len() ==> is_digit(#[trigger] b[i]))
        && decimal_value(b) <= u64::MAX {
        Some(decimal_value(b) as u64)
    } else {
        None
    }
}

/// The long form of an identifier.
pub open spec fn format_id(t: Table, id: u64) -> Seq<char> {
    table_prefix(t) + decimal(id as nat)
}

fn table_prefix_exec(t: Table) -> (r: Vec<char>)
    ensures
        r@ == table_prefix(t),
{
    let name = match t {
        Table::Meeting => chars_of("meeting:"),
        Table::Segment => chars_of("segment:"),
        Table::ActionItem => chars_of("action_item:"),
        Table::Decision => chars_of("decision:"),
        Table::KnowledgeSource => chars_of("knowledge_source:"),
        Table::KnowledgeChunk => chars_of("knowledge_chunk:"),
    };
    proof {
        reveal_strlit("meeting:");
        reveal_strlit("meeting");
        reveal_strlit("segment:");
        reveal_strlit("segment");
        reveal_strlit("action_item:");
        reveal_strlit("action_item");
        reveal_strlit("decision:");
        reveal_strlit("decision");
        reveal_strlit("knowledge_source:");
        reveal_strlit("knowledge_source");
        reveal_strlit("knowledge_chunk:");
        reveal_strlit("knowledge_chunk");
        reveal_strlit(":");
        assert(name@ =~= table_prefix(t));
    }
    name
}

/// Reads an identifier of table `t`, long or bare.
pub fn parse_record_id(t: Table, s: &str) -> (r: Option<u64>)
    ensures
        r == parse_id(t, s@),
{
    let c = chars_of(s);
    let p = table_prefix_exec(t);
    let start: usize = if occurs_at_exec(&c, 0, &p) {
        p.len()
    } else {
        0
    };
    let mut body: Vec<char> = Vec::new();
    let mut i: usize = start;
    while i < c.len()
        invariant
            start <= i <= c.len(),
            body@ == c@.subrange(start as int, i as int),
        decreases c.len() - i,
    {
        body.push(c[i]);
        i += 1;
        assert(body@ =~= c@.subrange(start as int, i as int));
    }
    assert(body@ =~= id_body(t, s@));
    if body.len() == 0 {
        return None;
    }
    let mut k: usize = 0;
    while k < body.len()
        invariant
            k <= body.len(),
            body@ == id_body(t, s@),
            forall|j: int| 0 <= j < k ==> is_digit(body@[j]),
        decreases body.len() - k,
    {
        if !('0' <= body[k] && body[k] <= '9') {
            assert(!is_digit(id_body(t, s@)[k as int]));
            return None;
        }
        k += 1;
    }
    parse_decimal(&body)
}

/// Writes the long form of an identifier.
pub fn format_record_id(t: Table, id: u64) -> (r: String)
    ensures
        r@ == format_id(t, id),
{
    let mut p = table_prefix_exec(t);
    let mut d = to_decimal(id);
    p.append(&mut d);
    string_of(&p)
}

proof fn lemma_decimal_digits(n: nat)
    ensures
        decimal(n).len() > 0,
        forall|i: int| 0 <= i < decimal(n).len() ==> is_digit(#[trigger] decimal(n)[i]),
        decimal_value(decimal(n)) == n,
    decreases n,
{
    if n < 10 {
        assert(decimal_value(seq![digit_char(n)].drop_last()) == 0);
    } else {
        lemma_decimal_digits(n / 10);
        let d = decimal(n);
        assert(d.drop_last() =~= decimal(n / 10));
    }
}

/// An identifier reads back as the record it was written for, in its long
/// form and in its bare number.
pub proof fn lemma_id_round_trip(t: Table, id: u64)
    ensures
        parse_id(t, format_id(t, id)) == Some(id),
        parse_id(t, decimal(id as nat)) == Some(id),
{
    lemma_decimal_digits(id as nat);
    let f = format_id(t, id);
    let p = table_prefix(t);
    assert(f.subrange(0, p.len() as int) =~= p);
    assert(f.subrange(p.len() as int, f.len() as int) =~= decimal(id as nat));
    let d = decimal(id as nat);
    if occurs_at(d, 0, p) {
        // a bare number never starts with a table name
        reveal_strlit("meeting");
        reveal_strlit("segment");
        reveal_strlit("action_item");
        reveal_strlit("decision");
        reveal_strlit("knowledge_source");
        reveal_strlit("knowledge_chunk");
        assert(table_name(t).len() > 0);
        assert(p[0] == table_name(t)[0]);
        assert(d.subrange(0, p.len() as int)[0] == d[0]);
        assert(is_digit(d[0]));
        assert(!is_digit(p[0]));
    }
}

} // verus!
