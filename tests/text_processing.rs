use second_brain::sensevoice::{parse_sensevoice_output, AudioEvent, Emotion};
use second_brain::llm::{extract_json_from_response, strip_thinking_tags};
use second_brain::web::{extract_title, html_to_markdown, WebCrawler};

#[test]
fn test_parse_sensevoice_output() {
    let output = "<|en|><|HAPPY|><|Speech|>Hello how are you<|/Speech|>";
    let parsed = parse_sensevoice_output(output);
    assert_eq!(parsed.text, "Hello how are you");
    assert_eq!(parsed.emotion, Emotion::Happy);
    assert!(parsed.events.contains(&AudioEvent::Speech));

    let output2 = "<|en|><|NEUTRAL|><|Laughter|>haha<|/Laughter|>";
    let parsed2 = parse_sensevoice_output(output2);
    assert!(parsed2.events.contains(&AudioEvent::Laughter));

    let output3 = "Just plain text";
    let parsed3 = parse_sensevoice_output(output3);
    assert_eq!(parsed3.text, "Just plain text");
    assert_eq!(parsed3.emotion, Emotion::Neutral);
}

#[test]
fn sensevoice_untagged_text_counts_as_speech() {
    let parsed = parse_sensevoice_output("  hello  ");
    assert_eq!(parsed.text, "hello");
    assert_eq!(parsed.events, vec![AudioEvent::Speech]);
}

#[test]
fn sensevoice_only_tokens_gives_no_events() {
    let parsed = parse_sensevoice_output("<|en|><|nospeech|>");
    assert_eq!(parsed.text, "");
    assert!(parsed.events.is_empty());
    assert_eq!(parsed.emotion, Emotion::Neutral);
}

#[test]
fn sensevoice_music_from_bgm_and_sad() {
    let parsed = parse_sensevoice_output("<|zh|><|sad|><|BGM|>la la<|/BGM|>");
    assert_eq!(parsed.text, "la la");
    assert_eq!(parsed.emotion, Emotion::Sad);
    assert_eq!(parsed.events, vec![AudioEvent::Music]);
}

#[test]
fn test_extract_title() {
    let html = "<html><head><title>Test Page</title></head><body></body></html>";
    assert_eq!(extract_title(html), Some("Test Page".to_string()));
}

#[test]
fn extract_title_is_case_blind_and_trimmed() {
    assert_eq!(extract_title("<TITLE>  Hi there </Title>"), Some("Hi there".to_string()));
    assert_eq!(extract_title("<p>no title</p>"), None);
    assert_eq!(extract_title("</title><title>"), None);
}

#[test]
fn test_html_to_markdown_headers() {
    let html = "<h1>Header 1</h1><h2>Header 2</h2>";
    let md = html_to_markdown(html);
    assert!(md.contains("# Header 1"));
    assert!(md.contains("## Header 2"));
}

#[test]
fn test_html_to_markdown_links() {
    let html = r#"<a href="https://example.com">Example</a>"#;
    let md = html_to_markdown(html);
    assert!(md.contains("[Example](https://example.com)"));
}

#[test]
fn test_remove_script_tags() {
    let html = "<p>Before</p><script>alert('bad');</script><p>After</p>";
    let md = html_to_markdown(html);
    assert!(!md.contains("alert"));
    assert!(md.contains("Before"));
    assert!(md.contains("After"));
}

#[test]
fn html_to_markdown_exact_rendering() {
    let html = "<h1 class=\"x\">Title</h1><p>One &amp; <b>two</b></p><ul><li>a</li><li>b</li></ul>";
    assert_eq!(html_to_markdown(html), "# Title\n\nOne & **two**\n\n- a\n\n- b");
}

#[test]
fn crawler_default_config() {
    let c = WebCrawler::new();
    assert_eq!(c.config().user_agent, "SecondBrain/1.0 (Meeting Assistant)");
    assert_eq!(c.config().timeout_secs, 30);
    assert!(c.config().respect_robots_txt);
}

#[test]
fn thinking_sections_are_dropped() {
    assert_eq!(strip_thinking_tags("<think>hmm</think> Answer "), "Answer");
    assert_eq!(strip_thinking_tags("A<THINKING>x</Thinking>B<reasoning>y</reasoning>C"), "ABC");
    assert_eq!(strip_thinking_tags("<think>never closed"), "<think>never closed");
}

#[test]
fn json_is_cut_from_a_response() {
    assert_eq!(extract_json_from_response("<think>{no}</think>Here: {\"a\": {\"b\": 1}} done"), "{\"a\": {\"b\": 1}}");
    assert_eq!(extract_json_from_response("  no json  "), "no json");
    assert_eq!(extract_json_from_response("{ open"), "{ open");
}
