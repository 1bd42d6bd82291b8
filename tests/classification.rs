use rsonpath::classification::depth::{resume_depth_classification, DepthBlock, DepthIterator, VectorIterator};
use rsonpath::classification::quotes::{QuoteClassifiedIterator, SequentialQuoteClassifier};
use rsonpath::classification::structural::{BracketType, StructuralClassifier, StructuralEvent};
use rsonpath::engine::tail_skipping::TailSkip;
use rsonpath::input::Input;

fn padded(json: &str) -> Input {
    Input::new(json.as_bytes())
}

fn first_mask(json: &str) -> u64 {
    let input = padded(json);
    let mut classifier = SequentialQuoteClassifier::new(input.as_bytes());
    classifier.next().map(|b| b.within_quotes_mask).unwrap_or(0)
}

#[test]
fn quote_mask_escaped_backslash_ends_string() {
    assert_eq!(first_mask(r#""a\\"b""#), 0b1111 | (u64::MAX << 6));
}

#[test]
fn quote_mask_two_escaped_backslashes() {
    assert_eq!(first_mask(r#""a\\\\""#), 0b11_1111);
}

#[test]
fn quote_mask_escaped_quote() {
    assert_eq!(first_mask(r#""\"""#), 0b111);
}

#[test]
fn quote_mask_document() {
    let json = r#"{"x": "string", "y": {"z": "\"escaped\""}}"#;
    let expected = 0b000111111111111000110000110001111111000110;
    assert_eq!(first_mask(json), expected);
}

#[test]
fn quote_carry_crosses_blocks() {
    let json = format!("\"{}\"", "a".repeat(70));
    let input = padded(&json);
    let mut classifier = SequentialQuoteClassifier::new(input.as_bytes());
    assert_eq!(classifier.next().map(|b| b.within_quotes_mask), Some(u64::MAX));
    assert_eq!(classifier.next().map(|b| b.within_quotes_mask), Some(0b111_1111));
    assert_eq!(classifier.get_offset(), 128);
}

#[test]
fn quote_classifier_offset_and_flip() {
    let input = padded(&"a".repeat(100));
    let mut classifier = SequentialQuoteClassifier::new(input.as_bytes());
    classifier.offset(1);
    assert_eq!(classifier.get_offset(), 64);
    classifier.flip_quotes_bit();
    assert_eq!(classifier.next().map(|b| b.within_quotes_mask), Some(u64::MAX));
    assert!(classifier.next().is_some());
    assert!(classifier.is_empty());
    assert!(classifier.next().is_none());
}

#[test]
fn structural_events_outside_strings() {
    let input = padded(r#"{"a:":[1,"]"],"b":{}}"#);
    let mut classifier = StructuralClassifier::new(input.as_bytes());
    classifier.turn_colons_on(0);
    classifier.turn_commas_on(0);
    let mut events = vec![];
    while let Some(e) = classifier.next() {
        events.push(e);
    }
    assert_eq!(
        events,
        vec![
            StructuralEvent::Opening(BracketType::Curly, 0),
            StructuralEvent::Colon(5),
            StructuralEvent::Opening(BracketType::Square, 6),
            StructuralEvent::Comma(8),
            StructuralEvent::Closing(BracketType::Square, 12),
            StructuralEvent::Comma(13),
            StructuralEvent::Colon(17),
            StructuralEvent::Opening(BracketType::Curly, 18),
            StructuralEvent::Closing(BracketType::Curly, 19),
            StructuralEvent::Closing(BracketType::Curly, 20),
        ]
    );
}

#[test]
fn structural_masking_keeps_offsets() {
    let input = padded(r#"{"a":[1,2]}"#);
    let mut classifier = StructuralClassifier::new(input.as_bytes());
    let mut events = vec![];
    while let Some(e) = classifier.next() {
        events.push(e.idx());
    }
    assert_eq!(events, vec![0, 5, 9, 10]);
}

#[test]
fn depth_classifier_advances_to_decreases() {
    let input = padded(r#"[42, {"b":[[]],"c":{}}, 44]}"#);
    let state = StructuralClassifier::new(input.as_bytes()).stop();
    let (first, mut iter) = VectorIterator::resume(state, b'[');
    assert!(first.is_none());
    let mut block = iter.next().expect("a block");
    assert_eq!(block.get_depth(), 0);
    assert!(block.advance_to_next_depth_decrease());
    assert_eq!(block.get_depth(), 2);
    assert!(block.advance_to_next_depth_decrease());
    assert_eq!(block.get_depth(), 1);
    assert!(block.advance_to_next_depth_decrease());
    assert_eq!(block.get_depth(), 0);
    assert!(!block.advance_to_next_depth_decrease());
}

#[test]
fn depth_block_totals() {
    let input = padded(r#"{"a":{"b":"}}"},"c":{}}}"#);
    let mut iter = {
        let state = StructuralClassifier::new(input.as_bytes()).stop();
        VectorIterator::resume(state, b'{').1
    };
    let mut block = iter.next().expect("a block");
    block.add_depth(3);
    assert_eq!(block.get_depth(), 3);
    assert_eq!(block.depth_at_end(), 2);
    assert_eq!(block.estimate_lowest_possible_depth(), -1);
}

#[test]
fn tail_skip_finds_matching_close() {
    let json = r#"{"a":{"b":"}"},"c":[{}]}  {"d":1}"#;
    let input = padded(json);
    let mut classifier = TailSkip::new(StructuralClassifier::new(input.as_bytes()));
    assert_eq!(classifier.next(), Some(StructuralEvent::Opening(BracketType::Curly, 0)));
    let close = classifier.skip(b'{');
    assert_eq!(close, 23);
    assert_eq!(classifier.next(), Some(StructuralEvent::Opening(BracketType::Curly, 26)));
}

#[test]
fn tail_skip_without_close_reaches_end() {
    let input = padded(r#"{"a":[1,2"#);
    let mut classifier = TailSkip::new(StructuralClassifier::new(input.as_bytes()));
    assert_eq!(classifier.next(), Some(StructuralEvent::Opening(BracketType::Curly, 0)));
    assert_eq!(classifier.skip(b'{'), input.as_bytes().len());
    assert_eq!(classifier.next(), None);
}

#[test]
fn depth_resumes_mid_block() {
    let input = padded(r#"{"a":[1,[2]],"b":3}"#);
    let mut classifier = StructuralClassifier::new(input.as_bytes());
    assert_eq!(classifier.next(), Some(StructuralEvent::Opening(BracketType::Curly, 0)));
    let state = classifier.stop();
    assert_eq!(state.get_idx(), 1);
    let outcome = resume_depth_classification(state, b'{');
    let mut block = outcome.0.expect("the partial block");
    block.add_depth(1);
    assert!(block.advance_to_next_depth_decrease());
    assert_eq!(block.get_depth(), 0);
    assert_eq!(block.get_idx(), 19);
}

#[test]
fn skipping_and_scanning_continue_alike() {
    let json = r#"{"a":{"b":"}{\"","c":[{}]},"d":[3]}"#;
    let input = padded(json);
    let mut skipping = TailSkip::new(StructuralClassifier::new(input.as_bytes()));
    skipping.turn_commas_on(0);
    let mut scanning = StructuralClassifier::new(input.as_bytes());
    scanning.turn_commas_on(0);
    assert_eq!(skipping.next(), scanning.next());
    assert_eq!(skipping.next(), scanning.next());
    let close = skipping.skip(b'{');
    assert_eq!(close, 25);
    let mut rest = vec![];
    while let Some(e) = scanning.next() {
        if e.idx() > close {
            rest.push(e);
        }
    }
    let mut skipped_rest = vec![];
    while let Some(e) = skipping.next() {
        skipped_rest.push(e);
    }
    assert_eq!(skipped_rest, rest);
}
