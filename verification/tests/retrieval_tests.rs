use ironclad_agent::retrieval::{
    active_memory, budgeted_section, chunk_text, entity_is_relevant, estimate_tokens,
    find_break_point, working_memory_lines, ChunkConfig,
};
use ironclad_agent::utf8_text::floor_char_boundary;

#[test]
fn chunk_empty_text() {
    let chunks = chunk_text("", &ChunkConfig::default());
    assert!(chunks.is_empty());
}

#[test]
fn chunk_short_text() {
    let text = "This is a short sentence.";
    let chunks = chunk_text(text, &ChunkConfig::default());
    assert_eq!(chunks.len(), 1);
    assert_eq!(chunks[0].text, text);
    assert_eq!(chunks[0].index, 0);
}

#[test]
fn chunk_long_text_produces_overlapping_chunks() {
    let text = "word ".repeat(1000);
    let config = ChunkConfig {
        max_tokens: 50,
        overlap_tokens: 10,
    };
    let chunks = chunk_text(&text, &config);
    assert!(chunks.len() > 1);

    for (i, chunk) in chunks.iter().enumerate() {
        assert_eq!(chunk.index, i);
        assert!(!chunk.text.is_empty());
    }

    for i in 1..chunks.len() {
        assert!(chunks[i].start_char < chunks[i - 1].end_char);
    }
}

#[test]
fn chunk_respects_sentence_boundaries() {
    let text = "First sentence. Second sentence. Third sentence. Fourth sentence. Fifth sentence. \
                Sixth sentence. Seventh sentence. Eighth sentence. Ninth sentence. Tenth sentence.";
    let config = ChunkConfig {
        max_tokens: 20,
        overlap_tokens: 5,
    };
    let chunks = chunk_text(text, &config);
    for chunk in &chunks {
        if chunk.end_char < text.len() {
            let ends_at_boundary = chunk.text.ends_with(". ")
                || chunk.text.ends_with('.')
                || chunk.text.ends_with(' ');
            assert!(
                ends_at_boundary,
                "chunk should end at a boundary: {:?}",
                &chunk.text[chunk.text.len().saturating_sub(10)..]
            );
        }
    }
}

#[test]
fn chunk_covers_full_text() {
    let text = "a ".repeat(500);
    let config = ChunkConfig {
        max_tokens: 25,
        overlap_tokens: 5,
    };
    let chunks = chunk_text(&text, &config);

    assert_eq!(chunks.first().unwrap().start_char, 0);
    assert_eq!(chunks.last().unwrap().end_char, text.len());
}

#[test]
fn chunk_zero_max_tokens() {
    let chunks = chunk_text(
        "some text",
        &ChunkConfig {
            max_tokens: 0,
            overlap_tokens: 0,
        },
    );
    assert!(chunks.is_empty());
}

#[test]
fn estimate_tokens_basic() {
    assert_eq!(estimate_tokens(""), 0);
    assert_eq!(estimate_tokens("abcd"), 1);
    assert_eq!(estimate_tokens("hello world!"), 3);
}

#[test]
fn chunk_multibyte_does_not_panic() {
    let text = "Hello \u{1F600} world. ".repeat(200);
    let config = ChunkConfig {
        max_tokens: 20,
        overlap_tokens: 5,
    };
    let chunks = chunk_text(&text, &config);
    assert!(chunks.len() > 1);
    for chunk in &chunks {
        assert!(!chunk.text.is_empty());
        let _ = chunk.text.as_bytes();
    }
}

#[test]
fn chunk_cjk_text() {
    let text = "\u{4F60}\u{597D}\u{4E16}\u{754C} ".repeat(300);
    let config = ChunkConfig {
        max_tokens: 15,
        overlap_tokens: 3,
    };
    let chunks = chunk_text(&text, &config);
    assert!(chunks.len() > 1);
    assert_eq!(chunks.first().unwrap().start_char, 0);
    assert_eq!(chunks.last().unwrap().end_char, text.len());
}

#[test]
fn floor_char_boundary_ascii() {
    let text = "hello world";
    assert_eq!(floor_char_boundary(text, 5), 5);
    assert_eq!(floor_char_boundary(text, 0), 0);
    assert_eq!(floor_char_boundary(text, 100), text.len());
}

#[test]
fn floor_char_boundary_multibyte() {
    let text = "caf\u{00E9}";
    assert_eq!(text.len(), 5);
    assert_eq!(floor_char_boundary(text, 4), 3);
    assert_eq!(floor_char_boundary(text, 3), 3);
    assert_eq!(floor_char_boundary(text, 5), 5);
}

#[test]
fn floor_char_boundary_emoji() {
    let text = "a\u{1F600}b";
    assert_eq!(text.len(), 6);
    assert_eq!(floor_char_boundary(text, 2), 1);
    assert_eq!(floor_char_boundary(text, 5), 5);
}

#[test]
fn estimate_tokens_rounding() {
    assert_eq!(estimate_tokens("a"), 1);
    assert_eq!(estimate_tokens("abcde"), 2);
    assert_eq!(estimate_tokens("abcdefgh"), 2);
}

#[test]
fn chunk_with_paragraph_breaks() {
    let text = "Paragraph one content.\n\nParagraph two content.\n\nParagraph three content.\n\n\
                Paragraph four content.\n\nParagraph five content.";
    let config = ChunkConfig {
        max_tokens: 15,
        overlap_tokens: 3,
    };
    let chunks = chunk_text(text, &config);
    for chunk in &chunks {
        if chunk.end_char < text.len() {
            let last_few = &chunk.text[chunk.text.len().saturating_sub(5)..];
            let has_good_break =
                last_few.contains('\n') || last_few.contains(". ") || last_few.ends_with(' ');
            assert!(has_good_break, "chunk should end at a reasonable boundary");
        }
    }
}

#[test]
fn chunk_config_default() {
    let config = ChunkConfig::default();
    assert_eq!(config.max_tokens, 512);
    assert_eq!(config.overlap_tokens, 64);
}

#[test]
fn find_break_point_at_end_of_text() {
    let text = "Hello world.";
    assert_eq!(find_break_point(text, 0, text.len()), text.len());
}

#[test]
fn chunks_reassemble_the_text_without_gaps() {
    let text = "alpha beta gamma. ".repeat(40);
    let config = ChunkConfig {
        max_tokens: 12,
        overlap_tokens: 2,
    };
    let chunks = chunk_text(&text, &config);
    assert_eq!(chunks[0].start_char, 0);
    for c in &chunks {
        assert_eq!(c.text, text[c.start_char..c.end_char]);
    }
    for w in chunks.windows(2) {
        assert!(w[1].start_char <= w[0].end_char);
    }
}

#[test]
fn find_break_point_prefers_a_sentence_end() {
    let text = "Alpha beta. Gamma delta epsilon";
    let end = find_break_point(text, 0, 16);
    assert_eq!(&text[..end], "Alpha beta. ");
}

fn entries(es: &[(&str, &str)]) -> Vec<(String, String)> {
    es.iter().map(|(a, b)| (a.to_string(), b.to_string())).collect()
}

#[test]
fn retriever_empty_db_returns_empty() {
    assert_eq!(active_memory(&[]), "");
    assert!(budgeted_section("[Working Memory]\n", &[], 100).is_none());
}

#[test]
fn retriever_returns_working_memory() {
    let lines = working_memory_lines(&entries(&[("goal", "find documentation")]));
    let section = budgeted_section("[Working Memory]\n", &lines, 1000).unwrap();
    let result = active_memory(&[section]);
    assert!(result.contains("Working Memory"));
    assert!(result.contains("find documentation"));
    assert_eq!(result, "[Active Memory]\n[Working Memory]\n- [goal] find documentation\n");
}

#[test]
fn retriever_skips_turn_summary_working_entries() {
    let lines = working_memory_lines(&entries(&[
        ("turn_summary", "Good to be back on familiar ground."),
        ("goal", "fix Telegram loop"),
        ("Turn_Summary", "another mirror"),
    ]));
    let section = budgeted_section("[Working Memory]\n", &lines, 1000).unwrap();
    assert!(section.contains("Working Memory"));
    assert!(section.contains("fix Telegram loop"));
    assert!(!section.contains("Good to be back on familiar ground."));
    assert!(!section.contains("another mirror"));
}

#[test]
fn retriever_respects_zero_budget() {
    let lines = working_memory_lines(&entries(&[("goal", "test")]));
    assert!(budgeted_section("[Working Memory]\n", &lines, 0).is_none());
}

#[test]
fn retriever_returns_relationships() {
    assert!(entity_is_relevant("Jon", "user-1", Some("Jon"), 1));
}

#[test]
fn retriever_relationships_high_interaction_count() {
    assert!(entity_is_relevant("some random query", "alice", Some("Alice Smith"), 4));
    assert!(!entity_is_relevant("some random query", "alice", Some("Alice Smith"), 2));
    assert!(entity_is_relevant("ask ALICE", "alice", None, 0));
}

#[test]
fn budgeted_section_stops_at_the_first_line_that_does_not_fit() {
    let lines = vec!["- aaaa\n".to_string(), "- ".to_string() + &"b".repeat(40) + "\n", "- c\n".to_string()];
    // Header and first line take 2 tokens each; the second line (11) does not fit in 10.
    let section = budgeted_section("[Head]\n", &lines, 10).unwrap();
    assert_eq!(section, "[Head]\n- aaaa\n");
}

#[test]
fn active_memory_separates_sections_by_blank_lines() {
    let out = active_memory(&["A".to_string(), "B".to_string()]);
    assert_eq!(out, "[Active Memory]\nA\n\nB");
}
