//! Mapping speaker diarization back onto transcript segments.
use vstd::prelude::*;
use crate::text::str_eq;

verus! {

/// A stretch of audio attributed to one speaker.
#[derive(Debug)]
pub struct DiarizedSegment {
    pub start_ms: u64,
    pub end_ms: u64,
    pub speaker_id: i32,
    pub speaker_label: String,
}

/// The middle of a segment, rounded down.
pub open spec fn midpoint(start: u64, end: u64) -> int {
    (start + end) / 2
}

/// The first diarized stretch that contains the instant `t`.
pub open spec fn stretch_at(d: Seq<DiarizedSegment>, t: int) -> Option<int>
    decreases d.len(),
{
    if d.len() == 0 {
        None
    } else if d[0].start_ms <= t <= d[0].end_ms {
        Some(0)
    } else {
        match stretch_at(d.drop_first(), t) {
            Some(i) => Some(i + 1),
            None => None,
        }
    }
}

/// The speaker of a transcript segment after relabelling: a "Guest" takes the
/// label of the first diarized stretch that holds the segment's midpoint.
pub open spec fn relabelled(seg: (u64, u64, String, String), d: Seq<DiarizedSegment>) -> Seq<char> {
    if seg.2@ == "Guest"@ {
        match stretch_at(d, midpoint(seg.0, seg.1)) {
            Some(i) => d[i].speaker_label@,
            None => seg.2@,
        }
    } else {
        seg.2@
    }
}

fn stretch_at_exec(d: &Vec<DiarizedSegment>, t: u64) -> (r: Option<usize>)
    ensures
        match r {
            Some(i) => stretch_at(d@, t as int) == Some(i as int) && i < d@.len(),
            None => stretch_at(d@, t as int) is None,
        },
{
    let mut i: usize = 0;
    assert(d@.subrange(0, d@.len() as int) =~= d@);
    while i < d.len()
        invariant
            i <= d.len(),
            stretch_at(d@, t as int) == match stretch_at(d@.subrange(i as int, d@.len() as int), t as int) {
                Some(k) => Some(k + i),
                None => None,
            },
        decreases d.len() - i,
    {
        let ghost rest = d@.subrange(i as int, d@.len() as int);
        assert(rest.drop_first() =~= d@.subrange(i + 1, d@.len() as int));
        if d[i].start_ms <= t && t <= d[i].end_ms {
            return Some(i);
        }
        i += 1;
    }
    None
}

/// Relabels the "Guest" segments, given as (start, end, speaker, text), with
/// the speaker of the diarized stretch that holds each segment's midpoint.
/// Other speakers, times and texts stay as they are.
pub fn relabel_speakers(segments: &mut Vec<(u64, u64, String, String)>, diarization: &Vec<DiarizedSegment>)
    ensures
        final(segments)@.len() == old(segments)@.len(),
        forall|i: int|
            0 <= i < old(segments)@.len() ==> {
                &&& (#[trigger] final(segments)@[i]).0 == old(segments)@[i].0
                &&& final(segments)@[i].1 == old(segments)@[i].1
                &&& final(segments)@[i].3@ == old(segments)@[i].3@
                &&& final(segments)@[i].2@ == relabelled(old(segments)@[i], diarization@)
            },
{
    let ghost orig = segments@;
    let mut i: usize = 0;
    while i < segments.len()
        invariant
            i <= segments.len(),
            segments@.len() == orig.len(),
            forall|k: int|
                i <= k < orig.len() ==> #[trigger] segments@[k] == orig[k],
            forall|k: int|
                0 <= k < i ==> {
                    &&& (#[trigger] segments@[k]).0 == orig[k].0
                    &&& segments@[k].1 == orig[k].1
                    &&& segments@[k].3@ == orig[k].3@
                    &&& segments@[k].2@ == relabelled(orig[k], diarization@)
                },
        decreases segments.len() - i,
    {
        if str_eq(segments[i].2.as_str(), "Guest") {
            let mid: u64 = ((segments[i].0 as u128 + segments[i].1 as u128) / 2) as u64;
            match stretch_at_exec(diarization, mid) {
                Some(j) => {
                    segments[i].2 = diarization[j].speaker_label.clone();
                },
                None => {},
            }
        }
        i += 1;
    }
}

} // verus!
