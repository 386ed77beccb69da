//! Reading the raw output of the SenseVoice recogniser: special tokens such
//! as `<|en|><|HAPPY|><|Speech|>` carry the emotion and the audio events, and
//! are removed from the text.
use vstd::prelude::*;
use crate::text::{
    chars_of, contains, contains_exec, replace_all, replace_exec, string_of, trim, trim_exec,
};

verus! {

/// Emotion detected in an utterance.
#[derive(Debug, Clone, Copy, PartialEq, Eq, Structural)]
pub enum Emotion {
    Neutral,
    Happy,
    Sad,
    Angry,
    Fearful,
    Disgusted,
    Surprised,
    Unknown,
}

/// An audio event detected in an utterance.
#[derive(Debug, Clone, PartialEq)]
pub enum AudioEvent {
    Speech,
    Laughter,
    Applause,
    Music,
    Noise,
    Other(String),
}

/// The recogniser's output, read.
#[derive(Debug)]
pub struct ParsedSenseVoiceOutput {
    pub text: String,
    pub emotion: Emotion,
    pub events: Vec<AudioEvent>,
}

/// Number of special tokens removed from the text.
pub const TOKEN_COUNT: usize = 49;

/// The special tokens removed from the text, in the order they are removed.
pub open spec fn token_at(i: int) -> Seq<char> {
    if i == 0 { "<|zh|>"@ } else if i == 1 { "<|en|>"@ } else if i == 2 { "<|ja|>"@ }
    else if i == 3 { "<|ko|>"@ } else if i == 4 { "<|yue|>"@ } else if i == 5 { "<|HAPPY|>"@ }
    else if i == 6 { "<|SAD|>"@ } else if i == 7 { "<|ANGRY|>"@ } else if i == 8 { "<|NEUTRAL|>"@ }
    else if i == 9 { "<|FEARFUL|>"@ } else if i == 10 { "<|DISGUSTED|>"@ }
    else if i == 11 { "<|SURPRISED|>"@ } else if i == 12 { "<|happy|>"@ }
    else if i == 13 { "<|sad|>"@ } else if i == 14 { "<|angry|>"@ } else if i == 15 { "<|neutral|>"@ }
    else if i == 16 { "<|fearful|>"@ } else if i == 17 { "<|disgusted|>"@ }
    else if i == 18 { "<|surprised|>"@ } else if i == 19 { "<|Speech|>"@ }
    else if i == 20 { "<|/Speech|>"@ } else if i == 21 { "<|speech|>"@ }
    else if i == 22 { "<|/speech|>"@ } else if i == 23 { "<|Laughter|>"@ }
    else if i == 24 { "<|/Laughter|>"@ } else if i == 25 { "<|laughter|>"@ }
    else if i == 26 { "<|/laughter|>"@ } else if i == 27 { "<|Applause|>"@ }
    else if i == 28 { "<|/Applause|>"@ } else if i == 29 { "<|applause|>"@ }
    else if i == 30 { "<|/applause|>"@ } else if i == 31 { "<|Music|>"@ }
    else if i == 32 { "<|/Music|>"@ } else if i == 33 { "<|music|>"@ }
    else if i == 34 { "<|/music|>"@ } else if i == 35 { "<|BGM|>"@ } else if i == 36 { "<|/BGM|>"@ }
    else if i == 37 { "<|bgm|>"@ } else if i == 38 { "<|/bgm|>"@ } else if i == 39 { "<|Noise|>"@ }
    else if i == 40 { "<|/Noise|>"@ } else if i == 41 { "<|noise|>"@ }
    else if i == 42 { "<|/noise|>"@ } else if i == 43 { "<|startoftranscript|>"@ }
    else if i == 44 { "<|endoftext|>"@ } else if i == 45 { "<|nospeech|>"@ }
    else if i == 46 { "<|NOISE|>"@ } else if i == 47 { "<|EMO_UNKNOWN|>"@ }
    else { "<|Event_UNK|>"@ }
}

fn token(i: usize) -> (r: &'static str)
    ensures
        r@ == token_at(i as int),
{
    if i == 0 { "<|zh|>" } else if i == 1 { "<|en|>" } else if i == 2 { "<|ja|>" }
    else if i == 3 { "<|ko|>" } else if i == 4 { "<|yue|>" } else if i == 5 { "<|HAPPY|>" }
    else if i == 6 { "<|SAD|>" } else if i == 7 { "<|ANGRY|>" } else if i == 8 { "<|NEUTRAL|>" }
    else if i == 9 { "<|FEARFUL|>" } else if i == 10 { "<|DISGUSTED|>" }
    else if i == 11 { "<|SURPRISED|>" } else if i == 12 { "<|happy|>" }
    else if i == 13 { "<|sad|>" } else if i == 14 { "<|angry|>" } else if i == 15 { "<|neutral|>" }
    else if i == 16 { "<|fearful|>" } else if i == 17 { "<|disgusted|>" }
    else if i == 18 { "<|surprised|>" } else if i == 19 { "<|Speech|>" }
    else if i == 20 { "<|/Speech|>" } else if i == 21 { "<|speech|>" }
    else if i == 22 { "<|/speech|>" } else if i == 23 { "<|Laughter|>" }
    else if i == 24 { "<|/Laughter|>" } else if i == 25 { "<|laughter|>" }
    else if i == 26 { "<|/laughter|>" } else if i == 27 { "<|Applause|>" }
    else if i == 28 { "<|/Applause|>" } else if i == 29 { "<|applause|>" }
    else if i == 30 { "<|/applause|>" } else if i == 31 { "<|Music|>" }
    else if i == 32 { "<|/Music|>" } else if i == 33 { "<|music|>" }
    else if i == 34 { "<|/music|>" } else if i == 35 { "<|BGM|>" } else if i == 36 { "<|/BGM|>" }
    else if i == 37 { "<|bgm|>" } else if i == 38 { "<|/bgm|>" } else if i == 39 { "<|Noise|>" }
    else if i == 40 { "<|/Noise|>" } else if i == 41 { "<|noise|>" }
    else if i == 42 { "<|/noise|>" } else if i == 43 { "<|startoftranscript|>" }
    else if i == 44 { "<|endoftext|>" } else if i == 45 { "<|nospeech|>" }
    else if i == 46 { "<|NOISE|>" } else if i == 47 { "<|EMO_UNKNOWN|>" }
    else { "<|Event_UNK|>" }
}

/// `s` with the first `n` special tokens removed, one after the other.
pub open spec fn strip_tokens(s: Seq<char>, n: nat) -> Seq<char>
    decreases n,
{
    if n == 0 {
        s
    } else {
        replace_all(strip_tokens(s, (n - 1) as nat), token_at(n - 1), Seq::empty())
    }
}

/// The text of an utterance without its special tokens and surrounding whitespace.
pub open spec fn clean_text(raw: Seq<char>) -> Seq<char> {
    trim(strip_tokens(raw, TOKEN_COUNT as nat))
}

/// The tag occurs in either spelling.
pub open spec fn tagged(raw: Seq<char>, a: Seq<char>, b: Seq<char>) -> bool {
    contains(raw, a) || contains(raw, b)
}

/// The emotion of an utterance: the first emotion tag found, in a fixed order.
pub open spec fn emotion_of(raw: Seq<char>) -> Emotion {
    if tagged(raw, "<|HAPPY|>"@, "<|happy|>"@) {
        Emotion::Happy
    } else if tagged(raw, "<|SAD|>"@, "<|sad|>"@) {
        Emotion::Sad
    } else if tagged(raw, "<|ANGRY|>"@, "<|angry|>"@) {
        Emotion::Angry
    } else if tagged(raw, "<|FEARFUL|>"@, "<|fearful|>"@) {
        Emotion::Fearful
    } else if tagged(raw, "<|DISGUSTED|>"@, "<|disgusted|>"@) {
        Emotion::Disgusted
    } else if tagged(raw, "<|SURPRISED|>"@, "<|surprised|>"@) {
        Emotion::Surprised
    } else {
        Emotion::Neutral
    }
}

pub open spec fn opt_event(present: bool, e: AudioEvent) -> Seq<AudioEvent> {
    if present {
        seq![e]
    } else {
        Seq::empty()
    }
}

/// The events tagged in an utterance, in a fixed order.
pub open spec fn tagged_events(raw: Seq<char>) -> Seq<AudioEvent> {
    opt_event(tagged(raw, "<|Speech|>"@, "<|speech|>"@), AudioEvent::Speech) + opt_event(
        tagged(raw, "<|Laughter|>"@, "<|laughter|>"@),
        AudioEvent::Laughter,
    ) + opt_event(tagged(raw, "<|Applause|>"@, "<|applause|>"@), AudioEvent::Applause)
        + opt_event(
        tagged(raw, "<|Music|>"@, "<|music|>"@) || tagged(raw, "<|BGM|>"@, "<|bgm|>"@),
        AudioEvent::Music,
    ) + opt_event(tagged(raw, "<|Noise|>"@, "<|noise|>"@), AudioEvent::Noise)
}

/// The events of an utterance: those tagged, or speech alone when none is
/// tagged and some text remains.
pub open spec fn events_of(raw: Seq<char>) -> Seq<AudioEvent> {
    if tagged_events(raw).len() == 0 && clean_text(raw).len() > 0 {
        seq![AudioEvent::Speech]
    } else {
        tagged_events(raw)
    }
}

fn tagged_exec(raw: &Vec<char>, a: &str, b: &str) -> (r: bool)
    ensures
        r == tagged(raw@, a@, b@),
{
    contains_exec(raw, &chars_of(a)) || contains_exec(raw, &chars_of(b))
}

/// Reads the raw output of the recogniser.
pub fn parse_sensevoice_output(raw_text: &str) -> (r: ParsedSenseVoiceOutput)
    ensures
        r.text@ == clean_text(raw_text@),
        r.emotion == emotion_of(raw_text@),
        r.events@ == events_of(raw_text@),
{
    let raw = chars_of(raw_text);
    let emotion = if tagged_exec(&raw, "<|HAPPY|>", "<|happy|>") {
        Emotion::Happy
    } else if tagged_exec(&raw, "<|SAD|>", "<|sad|>") {
        Emotion::Sad
    } else if tagged_exec(&raw, "<|ANGRY|>", "<|angry|>") {
        Emotion::Angry
    } else if tagged_exec(&raw, "<|FEARFUL|>", "<|fearful|>") {
        Emotion::Fearful
    } else if tagged_exec(&raw, "<|DISGUSTED|>", "<|disgusted|>") {
        Emotion::Disgusted
    } else if tagged_exec(&raw, "<|SURPRISED|>", "<|surprised|>") {
        Emotion::Surprised
    } else {
        Emotion::Neutral
    };
    let mut events: Vec<AudioEvent> = Vec::new();
    let ghost r0 = raw@;
    if tagged_exec(&raw, "<|Speech|>", "<|speech|>") {
        events.push(AudioEvent::Speech);
    }
    let ghost e1 = events@;
    if tagged_exec(&raw, "<|Laughter|>", "<|laughter|>") {
        events.push(AudioEvent::Laughter);
    }
    let ghost e2 = events@;
    if tagged_exec(&raw, "<|Applause|>", "<|applause|>") {
        events.push(AudioEvent::Applause);
    }
    let ghost e3 = events@;
    if tagged_exec(&raw, "<|Music|>", "<|music|>") || tagged_exec(&raw, "<|BGM|>", "<|bgm|>") {
        events.push(AudioEvent::Music);
    }
    let ghost e4 = events@;
    if tagged_exec(&raw, "<|Noise|>", "<|noise|>") {
        events.push(AudioEvent::Noise);
    }
    assert(e1 =~= opt_event(tagged(r0, "<|Speech|>"@, "<|speech|>"@), AudioEvent::Speech));
    assert(e2 =~= e1 + opt_event(tagged(r0, "<|Laughter|>"@, "<|laughter|>"@), AudioEvent::Laughter));
    assert(e3 =~= e2 + opt_event(tagged(r0, "<|Applause|>"@, "<|applause|>"@), AudioEvent::Applause));
    assert(e4 =~= e3 + opt_event(
        tagged(r0, "<|Music|>"@, "<|music|>"@) || tagged(r0, "<|BGM|>"@, "<|bgm|>"@),
        AudioEvent::Music,
    ));
    assert(events@ =~= tagged_events(r0));
    let mut clean = raw;
    let empty: Vec<char> = Vec::new();
    let mut i: usize = 0;
    while i < TOKEN_COUNT
        invariant
            i <= TOKEN_COUNT,
            empty@ == Seq::<char>::empty(),
            clean@ == strip_tokens(raw_text@, i as nat),
        decreases TOKEN_COUNT - i,
    {
        let pat = chars_of(token(i));
        clean = replace_exec(&clean, &pat, &empty);
        i += 1;
    }
    let text = trim_exec(&clean);
    if events.len() == 0 && text.len() > 0 {
        events.push(AudioEvent::Speech);
        assert(events@ =~= seq![AudioEvent::Speech]);
    }
    ParsedSenseVoiceOutput { text: string_of(&text), emotion, events }
}

} // verus!
