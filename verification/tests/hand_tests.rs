use blackjack_assistant::cards::StringToInt;
use blackjack_assistant::hand::{card_score_of, hand_has_room, hand_total};

fn hand(cards: &[&str]) -> Vec<String> {
    cards.iter().map(|c| c.to_string()).collect()
}

#[test]
fn converter_values() {
    let converter = StringToInt::new();
    assert_eq!(converter.get_value("ace_low"), Some(1));
    assert_eq!(converter.get_value("2"), Some(2));
    assert_eq!(converter.get_value("9"), Some(9));
    assert_eq!(converter.get_value("10"), Some(10));
    assert_eq!(converter.get_value("jack"), Some(10));
    assert_eq!(converter.get_value("queen"), Some(10));
    assert_eq!(converter.get_value("king"), Some(10));
    assert_eq!(converter.get_value("ace_high"), Some(11));
    assert_eq!(converter.get_value("ace"), None);
    assert_eq!(converter.get_value("Jack"), None);
    assert_eq!(converter.get_value(""), None);
}

#[test]
fn blackjack_is_21() {
    assert_eq!(hand_total(hand(&["ace", "king"])), 21);
    assert_eq!(hand_total(hand(&["10", "ace"])), 21);
}

#[test]
fn two_aces_make_12() {
    assert_eq!(hand_total(hand(&["ace", "ace"])), 12);
}

#[test]
fn aces_lowered_only_while_over_21() {
    // 11 + 11 + 11 + 8 = 41, lowered twice to 21.
    assert_eq!(hand_total(hand(&["ace", "ace", "ace", "8"])), 21);
    // 11 + 10 + 5 = 26, lowered once to 16.
    assert_eq!(hand_total(hand(&["queen", "5", "ace"])), 16);
    // 11 + 9 = 20: no lowering.
    assert_eq!(hand_total(hand(&["ace", "9"])), 20);
}

#[test]
fn bust_without_aces_stays_bust() {
    assert_eq!(hand_total(hand(&["king", "queen", "5"])), 25);
}

#[test]
fn all_aces_lowered_and_still_bust() {
    // 11 * 2 + 10 + 10 = 42 -> 32 -> 22.
    assert_eq!(hand_total(hand(&["ace", "king", "ace", "jack"])), 22);
}

#[test]
fn named_high_ace_is_never_lowered() {
    assert_eq!(hand_total(hand(&["ace_high", "king", "5"])), 26);
    assert_eq!(hand_total(hand(&["ace_low", "2"])), 3);
}

#[test]
fn unknown_names_count_nothing() {
    assert_eq!(hand_total(hand(&["banana", "5"])), 5);
    assert_eq!(hand_total(hand(&["-1", "7"])), 7);
    assert_eq!(hand_total(hand(&[])), 0);
}

#[test]
fn total_does_not_depend_on_order() {
    let a = hand(&["ace", "6", "king", "ace"]);
    let b = hand(&["king", "ace", "ace", "6"]);
    assert_eq!(hand_total(a), hand_total(b));
    assert_eq!(hand_total(hand(&["ace", "6", "king", "ace"])), 18);
}

#[test]
fn card_scores() {
    assert_eq!(card_score_of(&"ace".to_string()), 11);
    assert_eq!(card_score_of(&"king".to_string()), 10);
    assert_eq!(card_score_of(&"3".to_string()), 3);
    assert_eq!(card_score_of(&"x".to_string()), 0);
}

#[test]
fn room_in_hands() {
    assert!(hand_has_room(&hand(&["ace", "king"]), 53));
    let many_aces: Vec<String> = (0..127).map(|_| "ace".to_string()).collect();
    assert!(hand_has_room(&many_aces, 0));
    assert!(!hand_has_room(&many_aces, 1));
    let too_many: Vec<String> = (0..128).map(|_| "ace".to_string()).collect();
    assert!(!hand_has_room(&too_many, 0));
}
