use letters_game::game_core::{Game, GameResult};

const DICT: &str = "aa\nab\narbol\nba\nnummulitidae\n";

#[test]
fn parse_sorts_and_counts() {
    let parsed = Game::parse_dictionary("b\n\na\r\nc");
    assert_eq!(parsed, vec![("a", 1), ("b", 1), ("c", 1)]);
}

#[test]
fn parse_drops_empty_lines() {
    let parsed = Game::parse_dictionary("\n\n\n");
    assert!(parsed.is_empty());
}

#[test]
fn parse_counts_characters_not_bytes() {
    let parsed = Game::parse_dictionary("ára\n");
    assert_eq!(parsed, vec![("ára", 3)]);
}

#[test]
fn exist_finds_entries_and_nothing_else() {
    let game = Game::new(DICT, 0);
    assert!(game.exist("ab"));
    assert!(game.exist("nummulitidae"));
    assert!(!game.exist("abx"));
    assert!(!game.exist(""));
    assert!(!game.exist("zzz"));
}

#[test]
fn exist_does_not_fold_accents() {
    let game = Game::new(DICT, 0);
    assert!(game.exist("arbol"));
    assert!(!game.exist("árbol"));
}

#[test]
fn formable_consumes_repeated_letters() {
    let mut game = Game::new(DICT, 0);
    game.set_available_letters(vec!['a']);
    assert!(game.is_formable("a"));
    assert!(!game.is_formable("aa"));
    game.set_available_letters(vec!['a', 'a']);
    assert!(game.is_formable("aa"));
}

#[test]
fn formable_folds_the_submission() {
    let mut game = Game::new(DICT, 0);
    game.set_available_letters(vec!['a']);
    assert!(game.is_formable("á"));
    game.set_available_letters(vec!['u']);
    assert!(game.is_formable("ü"));
}

#[test]
fn empty_word_is_trivially_formable() {
    let mut game = Game::new(DICT, 0);
    game.set_available_letters(vec![]);
    assert!(game.is_formable(""));
}

#[test]
fn pool_without_d_and_e_cannot_form_nummulitidae() {
    let mut game = Game::new(DICT, 0);
    game.set_available_letters(vec![
        'a', 'a', 'a', 'a', 'f', 'h', 'h', 'i', 'i', 'i', 'l', 'm', 'm', 'n', 'r', 's', 's', 't',
        'u', 'u', 'y',
    ]);
    assert!(!game.is_formable("nummulitidae"));
    assert!(matches!(game.play("nummulitidae"), GameResult::CantForm));
}

#[test]
fn pool_with_d_and_e_forms_nummulitidae_and_ties() {
    let mut game = Game::new(DICT, 0);
    game.set_available_letters(vec![
        'a', 'a', 'a', 'a', 'd', 'e', 'f', 'h', 'h', 'i', 'i', 'i', 'l', 'm', 'm', 'n', 'r', 's',
        's', 't', 'u', 'u', 'y',
    ]);
    assert!(game.is_formable("nummulitidae"));
    match game.play("nummulitidae") {
        GameResult::Tie(best) => assert_eq!(best, "nummulitidae"),
        _ => panic!("expected a tie"),
    }
}

#[test]
fn empty_pool_rejects_every_nonempty_submission() {
    let mut game = Game::new(DICT, 0);
    game.set_available_letters(vec![]);
    assert!(matches!(game.play("aa"), GameResult::CantForm));
    assert!(matches!(game.play("x"), GameResult::CantForm));
}

#[test]
fn empty_submission_is_formable_but_does_not_exist() {
    let mut game = Game::new(DICT, 0);
    game.set_available_letters(vec![]);
    assert!(matches!(game.play(""), GameResult::DoesntExist));
}

#[test]
fn unknown_word_fails_existence() {
    let mut game = Game::new(DICT, 0);
    game.set_available_letters(vec!['z', 'z']);
    assert!(matches!(game.play("zz"), GameResult::DoesntExist));
}

#[test]
fn losing_round_names_the_longer_word() {
    let mut game = Game::new(DICT, 0);
    game.set_available_letters(vec!['a', 'b', 'l', 'o', 'r']);
    match game.play("ab") {
        GameResult::YouLose(best) => assert_eq!(best, "arbol"),
        _ => panic!("expected a loss"),
    }
}

#[test]
fn accented_submission_wins_through_folding() {
    let dict = "árbol\n";
    let mut game = Game::new(dict, 0);
    game.set_available_letters(vec!['a', 'b', 'l', 'o', 'r']);
    assert!(game.is_formable("árbol"));
    match game.play("árbol") {
        GameResult::Tie(best) => assert_eq!(best, "árbol"),
        _ => panic!("expected a tie"),
    }
}

#[test]
fn find_longest_respects_the_pool_size() {
    let mut game = Game::new(DICT, 0);
    game.set_available_letters(vec!['a', 'a']);
    let (best, len) = game.find_longest_word();
    assert_eq!((best, len), ("aa", 2));
}

#[test]
fn find_longest_prefers_the_earliest_of_equal_lengths() {
    let mut game = Game::new(DICT, 0);
    game.set_available_letters(vec!['a', 'b', 'x']);
    let (best, len) = game.find_longest_word();
    assert_eq!((best, len), ("ab", 2));
}

#[test]
fn find_longest_answers_empty_when_nothing_is_formable() {
    let mut game = Game::new(DICT, 0);
    game.set_available_letters(vec!['z']);
    let (best, len) = game.find_longest_word();
    assert_eq!((best, len), ("", 0));
}

#[test]
fn display_uppercases_and_sorts() {
    let mut game = Game::new(DICT, 0);
    game.set_available_letters(vec!['b', 'a', 'c']);
    assert_eq!(game.get_available_letters(), "A B C ");
}

#[test]
fn display_does_not_depend_on_the_given_order() {
    let mut game = Game::new(DICT, 0);
    game.set_available_letters(vec!['c', 'a', 'b']);
    let first = game.get_available_letters();
    let mut other = Game::new(DICT, 0);
    other.set_available_letters(vec!['b', 'c', 'a']);
    assert_eq!(first, other.get_available_letters());
}

#[test]
fn display_is_idempotent() {
    let mut game = Game::new(DICT, 3);
    let first = game.get_available_letters();
    assert_eq!(first, game.get_available_letters());
    game.set_available_letters(vec!['k', 'q']);
    let second = game.get_available_letters();
    assert_eq!(second, "K Q ");
    assert_eq!(second, game.get_available_letters());
}

#[test]
fn generated_pool_has_the_requested_size_and_table_letters_only() {
    let mut game = Game::new("q\n", 5);
    assert_eq!(game.pool_len(), 5);
    assert_eq!(game.get_available_letters(), "Q Q Q Q Q ");
    game.generate_available_letters(2);
    assert_eq!(game.pool_len(), 2);
    assert_eq!(game.get_available_letters(), "Q Q ");
}

#[test]
fn generated_pool_folds_its_letters() {
    let game = Game::new("á\n", 4);
    assert_eq!(game.get_available_letters(), "A A A A ");
}

#[test]
fn remove_accents_folds_exactly_the_accented_vowels() {
    assert_eq!(Game::remove_accents('á'), 'a');
    assert_eq!(Game::remove_accents('é'), 'e');
    assert_eq!(Game::remove_accents('í'), 'i');
    assert_eq!(Game::remove_accents('ó'), 'o');
    assert_eq!(Game::remove_accents('ú'), 'u');
    assert_eq!(Game::remove_accents('ü'), 'u');
    assert_eq!(Game::remove_accents('a'), 'a');
    assert_eq!(Game::remove_accents('ñ'), 'ñ');
}
