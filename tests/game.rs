use letter_boxed::game::Game;
use letter_boxed::sides::{Side, Sides};
use letter_boxed::solver::Solver;

fn setup_game() -> Game {
    let sides = Sides::from_str("DKI", "JTA", "CLV", "ERO").unwrap();
    Game::new(sides)
}

fn words(list: &[&str]) -> Vec<String> {
    list.iter().map(|w| w.to_string()).collect()
}

fn dictionary() -> Vec<String> {
    words(&["OKRA", "ADJECTIVAL", "ALTO", "LOCK", "KOALA", "AKA", "JOKE", "TAKE", "OVAL", "DICE", "OCTAL", "ROCK"])
}

fn total_chars(s: &[String]) -> usize {
    s.iter().map(|w| w.chars().count()).sum()
}

fn sorted(mut v: Vec<char>) -> Vec<char> {
    v.sort();
    v
}

#[test]
fn test_mark_word() {
    let mut game = setup_game();
    assert_eq!(game.play_word("OKRA"), 4);
    assert_eq!(game.play_word("OKRA"), 0);
    assert_eq!(game.play_word("ADJECTIVAL"), 8);
}

#[test]
fn test_solve() {
    let game = setup_game();
    let solutions = Solver::solve(&game, &dictionary());

    assert!(!solutions.is_empty());
    assert!(solutions.contains(&vec!["OKRA".to_string(), "ADJECTIVAL".to_string()]));
}

#[test]
fn letters_stay_partitioned() {
    let mut game = setup_game();
    let all = sorted("DKIJTACLVERO".chars().collect());
    for w in ["OKRA", "AKA", "ADJECTIVAL"] {
        game.play_word(w);
        let used = game.used_letters().clone();
        let left = game.remaining_letters().clone();
        assert!(used.iter().all(|c| !left.contains(c)));
        let mut both = used.clone();
        both.extend(left);
        assert_eq!(sorted(both), all);
    }
}

#[test]
fn replaying_used_letters_counts_zero() {
    let mut game = setup_game();
    assert_eq!(game.play_word("OKRA"), 4);
    assert_eq!(game.play_word("KOALA"), 1);
    assert_eq!(game.play_word("AKA"), 0);
}

#[test]
fn repeating_a_word_needs_same_ends() {
    let mut game = setup_game();
    assert!(game.check_dict_word("OKRA"));
    game.play_word("OKRA");
    assert!(!game.check_dict_word("OKRA"));
    assert!(game.check_dict_word("AKA"));
    game.play_word("AKA");
    assert!(game.check_dict_word("AKA"));
}

#[test]
fn win_exactly_when_all_letters_used() {
    let mut game = setup_game();
    assert!(!game.check_win());
    game.play_word("OKRA");
    assert!(!game.check_win());
    game.play_word("ADJECTIVAL");
    assert!(game.check_win());
    assert_eq!(game.used_letters().len(), 12);
    assert!(game.remaining_letters().is_empty());
}

#[test]
fn solutions_sorted_by_total_length() {
    let game = setup_game();
    let solutions = Solver::solve_game(&game, &dictionary(), 3);
    assert!(!solutions.is_empty());
    for pair in solutions.windows(2) {
        assert!(total_chars(&pair[0]) <= total_chars(&pair[1]));
    }
}

#[test]
fn early_exit_keeps_a_long_enough_chain() {
    let game = setup_game();
    let solutions = Solver::solve_game(&game, &dictionary(), 2);
    assert!(solutions.iter().any(|s| s.len() >= 2));
    let (found, levels) = Solver::search(&game, &dictionary(), 2);
    assert_eq!(levels, 2);
    assert!(found.iter().any(|s| s.len() >= 2));
}

#[test]
fn no_legal_words_no_solutions() {
    let game = setup_game();
    assert!(Solver::solve(&game, &Vec::new()).is_empty());
    assert!(Solver::solve(&game, &words(&["ZOO", "DKI", "TT"])).is_empty());
}

#[test]
fn illegal_words_rejected() {
    let game = setup_game();
    assert!(!game.check_dict_word(""));
    assert!(!game.check_dict_word("DK"));
    assert!(!game.check_dict_word("OZ"));
    assert!(game.check_dict_word("DIKE") == false);
    assert!(game.check_dict_word("JOKE"));
}

#[test]
fn possible_words_follow_last_word() {
    let mut game = setup_game();
    assert_eq!(game.possible_words(&words(&["OKRA", "TT", "ALTO"])), words(&["OKRA", "ALTO"]));
    game.play_word("OKRA");
    assert_eq!(game.possible_words(&dictionary()), words(&["ADJECTIVAL", "ALTO", "AKA"]));
}

#[test]
fn sides_lookup() {
    let sides = Sides::from_str("DKI", "JTA", "CLV", "ERO").unwrap();
    assert_eq!(sides.get_side('K'), Some(Side::Top));
    assert_eq!(sides.get_side('A'), Some(Side::Right));
    assert_eq!(sides.get_side('V'), Some(Side::Bottom));
    assert_eq!(sides.get_side('E'), Some(Side::Left));
    assert_eq!(sides.get_side('Z'), None);
    assert_eq!(sides.get_letters(&Side::Bottom), ['C', 'L', 'V']);
    assert_eq!(sides.top(), ['D', 'K', 'I']);
    assert_eq!(sides.left(), ['E', 'R', 'O']);
    assert_eq!(sides.all_chars_vec().len(), 12);
}

#[test]
fn malformed_sides_rejected() {
    assert!(Sides::from_str("DK", "JTA", "CLV", "ERO").is_none());
    assert!(Sides::from_str("DKI", "JTA", "CLVX", "ERO").is_none());
    let four = ["DKI".to_string(), "JTA".to_string(), "CLV".to_string(), "ER".to_string()];
    assert!(Sides::from_sides(&four).is_none());
}

#[test]
fn solution_total_counts_characters() {
    let game = setup_game();
    let solutions = Solver::solve(&game, &words(&["OKRA", "ADJECTIVAL"]));
    assert_eq!(solutions, vec![words(&["OKRA", "ADJECTIVAL"])]);
    assert_eq!(total_chars(&solutions[0]), 14);
}

#[test]
fn repeated_letter_board_wins_on_its_own_letters() {
    let sides = Sides::from_str("ABC", "DEF", "GHI", "JKA").unwrap();
    assert_eq!(sides.all_chars_vec().len(), 11);
    let mut game = Game::new(sides);
    assert_eq!(game.remaining_letters().len(), 11);
    assert_eq!(game.play_word("ADGJ"), 4);
    assert!(!game.check_win());
    assert_eq!(game.play_word("JBEHK"), 4);
    assert!(!game.check_win());
    assert_eq!(game.play_word("KCFI"), 3);
    assert!(game.check_win());
    assert_eq!(game.used_letters().len(), 11);
}

#[test]
fn board_drawn_as_cross() {
    let game = setup_game();
    assert_eq!(
        game.format_board(),
        "  D K I  \nE       J \nR       T \nO       A \n  C L V  "
    );
}

#[test]
fn duplicate_dictionary_words_kept_once() {
    let game = setup_game();
    let dict = words(&["OKRA", "OKRA", "ADJECTIVAL", "ADJECTIVAL"]);
    assert_eq!(game.possible_words(&dict), words(&["OKRA", "ADJECTIVAL"]));
    assert_eq!(Solver::solve(&game, &dict), vec![words(&["OKRA", "ADJECTIVAL"])]);
}

#[test]
fn chains_stop_at_first_win() {
    let game = setup_game();
    let solutions = Solver::solve(&game, &words(&["OKRA", "ADJECTIVAL", "LOCK"]));
    assert!(solutions.contains(&words(&["OKRA", "ADJECTIVAL"])));
    assert!(!solutions.contains(&words(&["OKRA", "ADJECTIVAL", "LOCK"])));
}

#[test]
fn letters_off_the_board_are_not_recorded() {
    let mut game = setup_game();
    assert_eq!(game.play_word("OZ"), 2);
    let mut used = game.used_letters().clone();
    used.sort();
    assert_eq!(used, vec!['O']);
    assert_eq!(game.remaining_letters().len(), 11);
    assert_eq!(game.previous_words(), &words(&["OZ"]));
}
