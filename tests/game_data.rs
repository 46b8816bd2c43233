use letter_boxed::game::Game;
use letter_boxed::game_data::{find_game_data, game_data_json, GameData};

fn strings(list: &[&str]) -> Vec<String> {
    list.iter().map(|w| w.to_string()).collect()
}

fn record(sides: [&str; 4], yesterday: [&str; 4]) -> GameData {
    GameData {
        date: "2024-01-01".to_string(),
        dictionary: strings(&["OKRA", "ADJECTIVAL"]),
        editor: "Editor".to_string(),
        editorImage: String::new(),
        expiration: 0,
        id: 1,
        isFree: true,
        ourSolution: strings(&["OKRA", "ADJECTIVAL"]),
        par: 2,
        printDate: "2024-01-01".to_string(),
        sides: sides.map(|s| s.to_string()),
        yesterdaysSides: yesterday.map(|s| s.to_string()),
        yesterdaysSolution: Vec::new(),
    }
}

#[test]
fn record_found_in_page() {
    let html = "<html><head>\
        <script type=\"text/javascript\">var other = 1;</script>\
        <script type=\"text/javascript\">window.gameData = {\"id\":7}</script>\
        <script type=\"text/javascript\">window.gameData = {\"id\":8}</script>\
        </head><body></body></html>";
    assert_eq!(game_data_json(html), Some("{\"id\":7}".to_string()));
}

#[test]
fn page_without_record() {
    let html = "<html><head><script type=\"text/javascript\">var x = 1;</script>\
        <script>window.gameData = {}</script></head></html>";
    assert_eq!(game_data_json(html), None);
    assert_eq!(game_data_json(""), None);
}

#[test]
fn record_text_skips_assignment() {
    let scripts = strings(&["let a = 2;", "window.gameData = [1,2]", "window.gameData = [3]"]);
    assert_eq!(find_game_data(&scripts), Some("[1,2]".to_string()));
    assert_eq!(find_game_data(&strings(&["nothing here"])), None);
    assert_eq!(find_game_data(&strings(&["window.gameData"])), None);
    assert_eq!(find_game_data(&Vec::new()), None);
}

#[test]
fn games_from_record() {
    let data = record(["DKI", "JTA", "CLV", "ERO"], ["ABC", "DEF", "GHI", "JKL"]);
    let today = Game::today(&data).unwrap();
    assert_eq!(today.sides().top(), ['D', 'K', 'I']);
    assert_eq!(today.sides().left(), ['E', 'R', 'O']);
    assert!(today.previous_words().is_empty());
    let yesterday = Game::yesterday(&data).unwrap();
    assert_eq!(yesterday.sides().right(), ['D', 'E', 'F']);
    assert_eq!(yesterday.sides().bottom(), ['G', 'H', 'I']);
    assert_eq!(yesterday.remaining_letters().len(), 12);
}

#[test]
fn malformed_record_gives_no_game() {
    let data = record(["DKI", "JTA", "CLV", "EROX"], ["AB", "DEF", "GHI", "JKL"]);
    assert!(Game::today(&data).is_none());
    assert!(Game::yesterday(&data).is_none());
}
