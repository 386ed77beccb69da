use second_brain::chunker::{extraction_paragraphs, ChunkerConfig, DocumentChunker};
use second_brain::diarization::{relabel_speakers, DiarizedSegment};
use second_brain::models::{all_models_installed, get_models_status, get_required_models, is_model_installed};
use second_brain::screenshot::{capture_screen_as_data_url, encode_screenshot};

#[test]
fn test_chunk_markdown() {
    let chunker = DocumentChunker::new();
    let content = r#"
# Heading 1

This is the first paragraph with some content.

## Heading 2

This is another paragraph with different content.

- List item 1
- List item 2
- List item 3

Final paragraph here.
"#;
    let chunks = chunker.chunk_markdown(content);
    assert!(!chunks.is_empty());
    for chunk in &chunks {
        assert!(!chunk.text.trim().is_empty());
    }
}

#[test]
fn test_chunk_with_metadata() {
    let chunker = DocumentChunker::new();
    let content = "Short content for testing.";
    let chunks = chunker.chunk_with_metadata(content, "https://example.com", "Test Page");
    assert!(!chunks.is_empty());
    assert_eq!(chunks[0].source_url, "https://example.com");
    assert_eq!(chunks[0].source_title, "Test Page");
    assert_eq!(chunks[0].total_chunks, chunks.len());
}

#[test]
fn chunks_carry_character_spans() {
    let chunker = DocumentChunker::with_config(ChunkerConfig { chunk_size: 10 });
    let text = "# Header\n\nfrom a\ndocument";
    let chunks = chunker.chunk_markdown(text);
    let spans: Vec<(usize, usize, &str)> = chunks.iter().map(|c| (c.start_char, c.end_char, c.text.as_str())).collect();
    assert_eq!(spans, vec![(0, 8, "# Header"), (10, 16, "from a"), (17, 25, "document")]);
    assert_eq!(chunks[2].chunk_index, 2);
    assert_eq!(chunker.chunk_size(), 10);
}

#[test]
fn paragraphs_for_extraction_are_long_and_capped() {
    let long = "x".repeat(50);
    let short = "y".repeat(49);
    let mut parts = vec![short.clone(), long.clone()];
    for _ in 0..25 {
        parts.push(long.clone());
    }
    let text = parts.join("\n\n");
    let ps = extraction_paragraphs(&text);
    assert_eq!(ps.len(), 20);
    assert!(ps.iter().all(|p| p.len() == 50));
    assert!(extraction_paragraphs("").is_empty());
}

#[test]
fn guests_take_the_diarized_label() {
    let mut segs = vec![
        (0u64, 1000u64, "Guest".to_string(), "hi".to_string()),
        (1000, 3000, "You".to_string(), "yo".to_string()),
        (5000, 7000, "Guest".to_string(), "bye".to_string()),
        (9000, 9100, "Guest".to_string(), "?".to_string()),
    ];
    let d = vec![
        DiarizedSegment { start_ms: 0, end_ms: 2000, speaker_id: 0, speaker_label: "Speaker 1".to_string() },
        DiarizedSegment { start_ms: 4000, end_ms: 8000, speaker_id: 1, speaker_label: "Speaker 2".to_string() },
    ];
    relabel_speakers(&mut segs, &d);
    let labels: Vec<&str> = segs.iter().map(|s| s.2.as_str()).collect();
    assert_eq!(labels, vec!["Speaker 1", "You", "Speaker 2", "Guest"]);
}

#[test]
fn model_catalogue_and_install_state() {
    let models = get_required_models();
    assert_eq!(models.len(), 10);
    assert_eq!(models[0].id, "silero-vad");
    assert!(models[1].is_archive);
    let none: Vec<String> = vec![];
    assert!(!all_models_installed(&none));
    let mut files: Vec<String> = models.iter().filter(|m| !m.is_archive).map(|m| m.filename.clone()).collect();
    assert!(is_model_installed(&models[0], &files));
    assert!(!is_model_installed(&models[1], &files));
    files.push("sherpa-onnx-sense-voice-zh-en-ja-ko-yue-2024-07-17/model.int8.onnx".to_string());
    files.push("sherpa-onnx-sense-voice-zh-en-ja-ko-yue-2024-07-17/tokens.txt".to_string());
    files.push("sherpa-onnx-pyannote-segmentation-3-0/model.onnx".to_string());
    assert!(all_models_installed(&files));
    let status = get_models_status(&files);
    assert!(status.iter().all(|s| s.installed));
    assert_eq!(status[3].id, "gliner-model");
}

#[test]
fn screenshot_data_url() {
    let shot = encode_screenshot(&vec![b'h', b'i'], 3, 4);
    assert_eq!(shot.base64_data, "aGk=");
    assert_eq!(shot.format, "png");
    assert_eq!(capture_screen_as_data_url(&shot), "data:image/png;base64,aGk=");
}
