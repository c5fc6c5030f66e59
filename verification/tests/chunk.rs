use audify::normalize::paragraph_piece;
use audify::chunk::split_sentences;
use audify::chunk::{chunk_text, DEFAULT_TARGET_CHARS};

#[test]
fn short_text_is_one_chunk() {
    let chunks = chunk_text("Hello world.", 2500);
    assert_eq!(chunks, vec!["Hello world.".to_string()]);
}

#[test]
fn packs_paragraphs_up_to_target() {
    // Three ~20-char paragraphs, target 50 → packs 2 then 1.
    let text = "aaaaaaaaaaaaaaaaaa.\n\nbbbbbbbbbbbbbbbbbb.\n\ncccccccccccccccccc.";
    let chunks = chunk_text(text, 50);
    assert_eq!(chunks.len(), 2);
    assert!(chunks[0].contains("aaaa") && chunks[0].contains("bbbb"));
    assert!(chunks[1].contains("cccc"));
}

#[test]
fn splits_oversized_paragraph_on_sentences() {
    let text = "First sentence here. Second sentence here. Third sentence here.";
    let chunks = chunk_text(text, 25);
    assert!(chunks.len() >= 2);
    // No chunk wildly exceeds the target (sentences are ~20 chars).
    assert!(chunks.iter().all(|c| c.chars().count() <= 45));
}

#[test]
fn empty_text_is_no_chunks() {
    assert!(chunk_text("   \n\n  ", 100).is_empty());
}

#[test]
fn packed_paragraphs_are_joined_by_a_blank_line() {
    let chunks = chunk_text("one.\n\ntwo.\n\nthree.", 100);
    assert_eq!(chunks, vec!["one.\n\ntwo.\n\nthree.".to_string()]);
}

#[test]
fn oversized_paragraph_sentences_are_space_joined() {
    let text = "Aa bb. Cc dd! Ee ff? Gg hh.";
    let chunks = chunk_text(text, 13);
    assert_eq!(
        chunks,
        vec!["Aa bb. Cc dd!".to_string(), "Ee ff? Gg hh.".to_string()]
    );
}

#[test]
fn a_terminator_inside_a_word_does_not_end_a_sentence() {
    // "e.g." is followed by a space only after its last dot.
    let text = "Use e.g.this form. Then stop.";
    let chunks = chunk_text(text, 10);
    assert_eq!(
        chunks,
        vec!["Use e.g.this form.".to_string(), "Then stop.".to_string()]
    );
}

#[test]
fn a_sentence_longer_than_the_target_stands_alone() {
    let text = "This single sentence is far longer than the target. Ok.";
    let chunks = chunk_text(text, 10);
    assert_eq!(
        chunks,
        vec![
            "This single sentence is far longer than the target.".to_string(),
            "Ok.".to_string()
        ]
    );
}

#[test]
fn zero_target_is_treated_as_one() {
    let chunks = chunk_text("a\n\nb", 0);
    assert_eq!(chunks, vec!["a".to_string(), "b".to_string()]);
}

#[test]
fn chunks_keep_every_word_in_order() {
    let text = "  Alpha beta.\n\n\n gamma   delta! Epsilon zeta? Eta theta.\n\niota kappa  ";
    for target in [1usize, 5, 12, 20, 40, 1000] {
        let chunks = chunk_text(text, target);
        let from_chunks: Vec<&str> = chunks.iter().flat_map(|c| c.split_whitespace()).collect();
        let from_text: Vec<&str> = text.split_whitespace().collect();
        assert_eq!(from_chunks, from_text);
        for c in &chunks {
            assert!(!c.is_empty());
            assert_eq!(c.trim(), c.as_str());
        }
    }
}

#[test]
fn default_target_is_2500() {
    assert_eq!(DEFAULT_TARGET_CHARS, 2500);
}

#[test]
fn chunks_stay_within_budget_unless_one_long_sentence() {
    let text = "Short one. Another short one.\n\nA much much longer sentence that goes on and on past any small budget. Tail.\n\nEnd!";
    for target in [5usize, 15, 30, 60] {
        for c in chunk_text(text, target) {
            let n = c.chars().count();
            let single_sentence = !c[..c.len() - 1].contains(". ")
                && !c[..c.len() - 1].contains("! ")
                && !c.contains('\n');
            assert!(n <= target || single_sentence, "{target}: {c:?}");
        }
    }
}

#[test]
fn sentence_pieces_keep_their_punctuation() {
    let chunks = chunk_text("One two three. Four five six! Seven eight nine? Ten", 1);
    assert_eq!(
        chunks,
        vec!["One two three.", "Four five six!", "Seven eight nine?", "Ten"]
    );
}

#[test]
fn rechunking_a_chunk_gives_it_back() {
    let text = "First paragraph here.\n\nSecond one.\n\nThird paragraph is a bit longer. It has two sentences!\n\nA very long sentence that keeps going well past the budget without any break at all.";
    for target in [0usize, 10, 30, 60, 2500] {
        for c in chunk_text(text, target) {
            assert_eq!(chunk_text(&c, target), vec![c.clone()]);
        }
    }
}

#[test]
fn fitting_paragraphs_are_packed_greedily() {
    let text = "one two.\n\n\n  three four five.  \n\nsix.\n\nseven eight nine ten.";
    let paras = ["one two.", "three four five.", "six.", "seven eight nine ten."];
    let target = 30;
    let chunks = chunk_text(text, target);
    assert_eq!(chunks.join("\n\n"), paras.join("\n\n"));
    assert_eq!(
        chunks,
        vec![
            "one two.\n\nthree four five.".to_string(),
            "six.\n\nseven eight nine ten.".to_string()
        ]
    );
    // The first chunk was closed only because "six." did not fit.
    assert!(chunks[0].chars().count() + 2 + "six.".chars().count() > target);
}

#[test]
fn long_chunks_hold_no_sentence_break() {
    let text = "Short one. A much longer sentence that goes on and on! Tail? End.";
    let target = 12;
    for c in chunk_text(text, target) {
        if c.chars().count() > target {
            let v: Vec<char> = c.chars().collect();
            for w in v.windows(2) {
                assert!(!(matches!(w[0], '.' | '!' | '?') && w[1].is_whitespace()));
            }
        }
        assert_eq!(c.trim(), c);
        assert!(!c.is_empty());
    }
    assert_eq!(chunk_text(text, 0), chunk_text(text, 1));
}

#[test]
fn sentences_are_split_after_terminators() {
    assert_eq!(
        split_sentences("  One. Two!  Three?Four 3.5 five.  \n tail"),
        vec!["One.", "Two!", "Three?Four 3.5 five.", "tail"]
    );
    assert!(split_sentences("   ").is_empty());
    assert_eq!(split_sentences("No end"), vec!["No end"]);
}

#[test]
fn paragraph_pieces() {
    assert_eq!(paragraph_piece(true, "Figure 1 text"), "");
    assert_eq!(paragraph_piece(false, ""), "");
    assert_eq!(paragraph_piece(false, "Body."), "Body.\n\n");
}
