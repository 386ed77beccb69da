//! Working with what the entity extractor returns.
use vstd::prelude::*;
use crate::model::Entity;
use crate::text::str_eq;

verus! {

/// The entities at or above a confidence, in order. Confidences are in millionths.
pub fn filter_by_confidence(entities: Vec<Entity>, min_confidence: u32) -> (r: Vec<Entity>)
    ensures
        r@ == entities@.filter(|e: Entity| e.confidence >= min_confidence),
{
    let ghost pred = |e: Entity| e.confidence >= min_confidence;
    let ghost orig = entities@;
    let mut rest = entities;
    let mut kept: Vec<Entity> = Vec::new();
    assert(kept@ + rest@.filter(pred) =~= orig.filter(pred));
    while rest.len() > 0
        invariant
            pred == (|e: Entity| e.confidence >= min_confidence),
            kept@ + rest@.filter(pred) == orig.filter(pred),
        decreases rest.len(),
    {
        let ghost before = rest@;
        let x = rest.remove(0);
        proof {
            assert(before =~= seq![x] + rest@);
            rest@.lemma_filter_prepend(x, pred);
        }
        if x.confidence >= min_confidence {
            kept.push(x);
        }
        assert(kept@ + rest@.filter(pred) =~= orig.filter(pred));
    }
    assert(kept@ =~= orig.filter(pred));
    kept
}

/// The entities with a given label, in order.
pub open spec fn with_label(es: Seq<Entity>, label: Seq<char>) -> Seq<Entity> {
    es.filter(|e: Entity| e.label@ == label)
}

/// `groups` holds one group per distinct label of `es`, in order of first
/// appearance, each with the entities of that label in order.
pub open spec fn grouped(es: Seq<Entity>, groups: Seq<(String, Vec<Entity>)>) -> bool {
    &&& forall|i: int, j: int| 0 <= i < j < groups.len() ==> groups[i].0@ != groups[j].0@
    &&& forall|i: int| 0 <= i < groups.len() ==> #[trigger] groups[i].1@ == with_label(es, groups[i].0@)
    &&& forall|k: int| 0 <= k < es.len() ==> has_group(groups, (#[trigger] es[k]).label@)
}

/// Some group has this label.
pub open spec fn has_group(groups: Seq<(String, Vec<Entity>)>, label: Seq<char>) -> bool {
    exists|i: int| 0 <= i < groups.len() && #[trigger] groups[i].0@ == label
}

fn find_group(groups: &Vec<(String, Vec<Entity>)>, label: &str) -> (r: Option<usize>)
    ensures
        match r {
            Some(i) => i < groups@.len() && groups@[i as int].0@ == label@,
            None => forall|i: int| 0 <= i < groups@.len() ==> groups@[i].0@ != label@,
        },
{
    let mut i: usize = 0;
    while i < groups.len()
        invariant
            i <= groups.len(),
            forall|k: int| 0 <= k < i ==> groups@[k].0@ != label@,
        decreases groups.len() - i,
    {
        if str_eq(groups[i].0.as_str(), label) {
            return Some(i);
        }
        i += 1;
    }
    None
}

/// Groups entities by label, in order of each label's first appearance.
pub fn group_by_label(entities: Vec<Entity>) -> (r: Vec<(String, Vec<Entity>)>)
    ensures
        grouped(entities@, r@),
{
    let ghost orig = entities@;
    let mut rest = entities;
    let mut groups: Vec<(String, Vec<Entity>)> = Vec::new();
    let ghost mut done: Seq<Entity> = Seq::empty();
    while rest.len() > 0
        invariant
            done + rest@ == orig,
            grouped(done, groups@),
        decreases rest.len(),
    {
        let ghost before = rest@;
        let x = rest.remove(0);
        let ghost nd = done.push(x);
        proof {
            assert(before =~= seq![x] + rest@);
            assert(nd + rest@ =~= orig);
        }
        let label = x.label.clone();
        let ghost lv = label@;
        let ghost old_groups = groups@;
        match find_group(&groups, label.as_str()) {
            Some(i) => {
                let mut g = groups.remove(i);
                assert(g == old_groups[i as int]);
                g.1.push(x);
                let ghost gv = g;
                groups.insert(i, g);
                proof {
                    assert(groups@ =~= old_groups.update(i as int, gv));
                    assert(gv.0@ == lv);
                    assert(gv.1@ == old_groups[i as int].1@.push(x));
                    assert forall|k: int| 0 <= k < groups@.len() implies #[trigger] groups@[k].1@ == with_label(nd, groups@[k].0@) by {
                        reveal(Seq::filter);
                        assert(nd.drop_last() =~= done);
                        if k != i {
                            assert(groups@[k] == old_groups[k]);
                            assert(old_groups[k].0@ != lv);
                        } else {
                            assert(with_label(nd, lv) == with_label(done, lv).push(x));
                        }
                    }
                    assert forall|a: int, b: int| 0 <= a < b < groups@.len() implies groups@[a].0@ != groups@[b].0@ by {
                        assert(groups@[a].0@ == old_groups[a].0@);
                        assert(groups@[b].0@ == old_groups[b].0@);
                    }
                    assert forall|k: int| 0 <= k < nd.len() implies has_group(groups@, (#[trigger] nd[k]).label@) by {
                        if k < done.len() {
                            assert(nd[k] == done[k]);
                            assert(has_group(old_groups, done[k].label@));
                            let j = choose|j: int| 0 <= j < old_groups.len() && #[trigger] old_groups[j].0@ == done[k].label@;
                            assert(groups@[j].0@ == old_groups[j].0@);
                        } else {
                            assert(groups@[i as int].0@ == lv);
                        }
                    }
                }
                proof {
                    done = nd;
                }
            },
            None => {
                let mut v: Vec<Entity> = Vec::new();
                v.push(x);
                groups.push((label, v));
                proof {
                    assert forall|a: int, b: int| 0 <= a < b < groups@.len() implies groups@[a].0@ != groups@[b].0@ by {
                        assert(groups@[a] == old_groups[a]);
                        if b < old_groups.len() {
                            assert(groups@[b] == old_groups[b]);
                        }
                    }
                    assert forall|k: int| 0 <= k < groups@.len() implies #[trigger] groups@[k].1@ == with_label(nd, groups@[k].0@) by {
                        reveal(Seq::filter);
                        assert(nd.drop_last() =~= done);
                        if k == old_groups.len() {
                            assert forall|q: int| 0 <= q < done.len() implies done[q].label@ != lv by {
                                assert(has_group(old_groups, done[q].label@));
                            }
                            lemma_none_with_label(done, lv);
                            assert(groups@[k].1@ =~= with_label(done, lv).push(x));
                        } else {
                            assert(groups@[k] == old_groups[k]);
                        }
                    }
                    assert forall|k: int| 0 <= k < nd.len() implies has_group(groups@, (#[trigger] nd[k]).label@) by {
                        if k < done.len() {
                            assert(nd[k] == done[k]);
                            assert(has_group(old_groups, done[k].label@));
                            let j = choose|j: int| 0 <= j < old_groups.len() && #[trigger] old_groups[j].0@ == done[k].label@;
                            assert(groups@[j] == old_groups[j]);
                        } else {
                            assert(groups@[old_groups.len() as int].0@ == lv);
                        }
                    }
                }
                proof {
                    done = nd;
                }
            },
        }
    }
    assert(done =~= orig);
    groups
}

proof fn lemma_none_with_label(es: Seq<Entity>, label: Seq<char>)
    requires
        forall|q: int| 0 <= q < es.len() ==> es[q].label@ != label,
    ensures
        with_label(es, label) == Seq::<Entity>::empty(),
    decreases es.len(),
{
    reveal(Seq::filter);
    if es.len() > 0 {
        lemma_none_with_label(es.drop_last(), label);
    }
}

} // verus!
