use vstd::prelude::*;
use crate::game::words_view;
use crate::text::char_vec;

verus! {

/// The puzzle record that the puzzle page publishes.
#[allow(non_snake_case)]
#[derive(Debug)]
pub struct GameData {
    pub date: String,
    pub dictionary: Vec<String>,
    pub editor: String,
    pub editorImage: String,
    pub expiration: usize,
    pub id: usize,
    pub isFree: bool,
    pub ourSolution: Vec<String>,
    pub par: usize,
    pub printDate: String,
    pub sides: [String; 4],
    pub yesterdaysSides: [String; 4],
    pub yesterdaysSolution: Vec<String>,
}

/// The inner HTML of each element of the HTML document `html` that the CSS
/// selector `selector` matches, in the order in which the parser created the
/// elements (attributes are kept in the order they were parsed).
pub uninterp spec fn selected_inner_html(html: Seq<char>, selector: Seq<char>) -> Seq<Seq<char>>;

/// Relies on scraper's `Selector::parse`, `Html::parse_document`,
/// `Html::select` and `ElementRef::inner_html` (built with its
/// `deterministic` feature, so that attributes keep their order): the inner
/// HTML of the elements that the selector matches. `None` only when the
/// selector does not parse, which the script selector does.
#[verifier::external_body]
fn select_inner_html(html: &str, selector: &str) -> (r: Option<Vec<String>>)
    ensures
        r is Some ==> words_view(r->0@) == selected_inner_html(html@, selector@),
        selector@ == script_selector() ==> r is Some,
{
    let selector = scraper::Selector::parse(selector).ok()?;
    let document = scraper::Html::parse_document(html);
    Some(document.select(&selector).map(|e| e.inner_html()).collect())
}

/// The name under which the page assigns the puzzle record.
pub open spec fn marker() -> Seq<char> {
    "window.gameData"@
}

/// What a script holds before the record itself.
pub open spec fn assignment() -> Seq<char> {
    "window.gameData = "@
}

/// The selector of the page's scripts.
pub open spec fn script_selector() -> Seq<char> {
    "script[type=\"text/javascript\"]"@
}

/// Whether `needle` occurs in `hay` as a run of consecutive characters.
pub open spec fn occurs_in(needle: Seq<char>, hay: Seq<char>) -> bool {
    exists|i: int| 0 <= i && i + needle.len() <= hay.len() && #[trigger] hay.subrange(i, i + needle.len()) == needle
}

/// Script `i` is the first of `scripts` that mentions the marker.
pub open spec fn first_mention(scripts: Seq<Seq<char>>, i: int) -> bool {
    &&& 0 <= i < scripts.len()
    &&& occurs_in(marker(), scripts[i])
    &&& forall|j: int| 0 <= j < i ==> !occurs_in(marker(), #[trigger] scripts[j])
}

/// The record's text: the first script that mentions the marker, without
/// as many characters as the assignment has. `None` when no script mentions
/// the marker, or that script is shorter than the assignment.
pub open spec fn game_data_text(scripts: Seq<Seq<char>>) -> Option<Seq<char>> {
    if exists|i: int| first_mention(scripts, i) {
        let i = choose|i: int| first_mention(scripts, i);
        if scripts[i].len() >= assignment().len() {
            Some(scripts[i].skip(assignment().len() as int))
        } else {
            None
        }
    } else {
        None
    }
}

/// Whether `needle` occurs in `hay`.
fn occurs(needle: &Vec<char>, hay: &Vec<char>) -> (r: bool)
    ensures
        r == occurs_in(needle@, hay@),
{
    if needle.len() > hay.len() {
        return false;
    }
    let last = hay.len() - needle.len();
    let mut i: usize = 0;
    while i <= last
        invariant
            last == hay.len() - needle.len(),
            needle.len() <= hay.len(),
            0 <= i <= last + 1,
            forall|k: int| 0 <= k < i ==> #[trigger] hay@.subrange(k, k + needle.len()) != needle@,
        decreases last + 1 - i,
    {
        let mut j: usize = 0;
        let mut same = true;
        while j < needle.len()
            invariant
                i + needle.len() <= hay.len(),
                0 <= j <= needle.len(),
                same == forall|m: int| 0 <= m < j ==> hay@[i + m] == needle@[m],
            decreases needle.len() - j,
        {
            same = same && hay[i + j] == needle[j];
            j = j + 1;
        }
        if same {
            assert(hay@.subrange(i as int, i + needle.len()) =~= needle@);
            return true;
        }
        proof {
            let m = choose|m: int| 0 <= m < needle.len() && hay@[i + m] != needle@[m];
            assert(hay@.subrange(i as int, i + needle.len())[m] != needle@[m]);
        }
        i = i + 1;
    }
    false
}

/// The record's text among the page's `scripts` (see `game_data_text`).
pub fn find_game_data(scripts: &Vec<String>) -> (r: Option<String>)
    ensures
        r is Some <==> game_data_text(words_view(scripts@)) is Some,
        r is Some ==> r->0@ == game_data_text(words_view(scripts@))->0,
{
    let ghost sv = words_view(scripts@);
    let mark = char_vec("window.gameData");
    let skip = char_vec("window.gameData = ").len();
    for i in 0..scripts.len()
        invariant
            sv == words_view(scripts@),
            mark@ == marker(),
            skip == assignment().len(),
            forall|j: int| 0 <= j < i ==> !occurs_in(marker(), #[trigger] sv[j]),
    {
        let text = scripts[i].as_str();
        if occurs(&mark, &char_vec(text)) {
            proof {
                assert(first_mention(sv, i as int));
                let c = choose|c: int| first_mention(sv, c);
                if c < i {
                    assert(!occurs_in(marker(), sv[c]));
                }
                if c > i {
                    assert(!occurs_in(marker(), sv[i as int]));
                }
            }
            let len = text.unicode_len();
            if len >= skip {
                return Some(String::from_str(text.substring_char(skip, len)));
            }
            return None;
        }
    }
    None
}

/// The record's text on the puzzle page `html`: the scripts of the page,
/// then `find_game_data`. `None` when the page holds none.
pub fn game_data_json(html: &str) -> (r: Option<String>)
    ensures
        r is Some ==> game_data_text(selected_inner_html(html@, script_selector())) == Some(r->0@),
        game_data_text(selected_inner_html(html@, script_selector())) is None ==> r is None,
        game_data_text(selected_inner_html(html@, script_selector())) is Some ==> r is Some,
{
    match select_inner_html(html, "script[type=\"text/javascript\"]") {
        Some(scripts) => find_game_data(&scripts),
        None => None,
    }
}

} // verus!
