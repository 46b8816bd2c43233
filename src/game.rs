use vstd::prelude::*;
use crate::sides::{Side, Sides, add_letter, remove_letter, vec_holds};
use crate::text::char_vec;
use crate::solver::copy_words;
use crate::game_data::GameData;

verus! {

/// The views of a list of words.
pub open spec fn words_view(v: Seq<String>) -> Seq<Seq<char>> {
    v.map_values(|w: String| w@)
}

/// Whether `w` may follow the words of `chain`: it starts with the last
/// letter of the last word, when there is one.
pub open spec fn follows(chain: Seq<Seq<char>>, w: Seq<char>) -> bool {
    chain.len() == 0 || (chain.last().len() > 0 && w.len() > 0 && w[0] == chain.last().last())
}

/// Whether `w` may be played on `sides` after the words of `chain`.
pub open spec fn legal_after(sides: Sides, chain: Seq<Seq<char>>, w: Seq<char>) -> bool {
    follows(chain, w) && sides.spells(w)
}

/// The distinct letters of `w` that are not in `used`.
pub open spec fn new_letters(used: Set<char>, w: Seq<char>) -> Set<char> {
    w.to_set().difference(used)
}

/// The board drawn as text: the top side, the left and right sides facing
/// each other on three lines, then the bottom side.
pub open spec fn board_text(b: Sides) -> Seq<char> {
    let t = b.letters_of(Side::Top);
    let r = b.letters_of(Side::Right);
    let d = b.letters_of(Side::Bottom);
    let l = b.letters_of(Side::Left);
    seq![' ', ' ', t[0], ' ', t[1], ' ', t[2], ' ', ' ', '\n']
        + seq![l[0], ' ', ' ', ' ', ' ', ' ', ' ', ' ', r[0], ' ', '\n']
        + seq![l[1], ' ', ' ', ' ', ' ', ' ', ' ', ' ', r[1], ' ', '\n']
        + seq![l[2], ' ', ' ', ' ', ' ', ' ', ' ', ' ', r[2], ' ', '\n']
        + seq![' ', ' ', d[0], ' ', d[1], ' ', d[2], ' ', ' ']
}

/// Relies on `String::push`: appends `c` to `s`.
#[verifier::external_body]
fn push_char(s: &mut String, c: char)
    ensures
        final(s)@ == old(s)@.push(c),
{
    s.push(c)
}

/// A puzzle in play: the board, the letters used and left, and the words played.
#[derive(Clone, Debug)]
pub struct Game {
    sides: Sides,
    used_letters: Vec<char>,
    remaining_letters: Vec<char>,
    previous_words: Vec<String>,
}

impl Game {
    pub closed spec fn board(self) -> Sides {
        self.sides
    }

    /// The letters that the words played so far have used.
    pub closed spec fn used(self) -> Set<char> {
        self.used_letters@.to_set()
    }

    /// The letters of the board that no word has used yet.
    pub closed spec fn remaining(self) -> Set<char> {
        self.remaining_letters@.to_set()
    }

    /// The words played so far, in order.
    pub closed spec fn chain(self) -> Seq<Seq<char>> {
        words_view(self.previous_words@)
    }

    pub closed spec fn wf(self) -> bool {
        &&& self.used_letters@.no_duplicates()
        &&& self.remaining_letters@.no_duplicates()
        &&& self.used().disjoint(self.remaining())
        &&& self.used() + self.remaining() == self.sides.all_chars()
    }

    /// Whether `w` may be played next.
    pub open spec fn legal(self, w: Seq<char>) -> bool {
        legal_after(self.board(), self.chain(), w)
    }

    /// Whether every letter of the board has been used.
    pub open spec fn won(self) -> bool {
        self.used() == self.board().all_chars()
    }

    /// A fresh game on `sides`: nothing used, nothing played.
    pub fn new(sides: Sides) -> (r: Self)
        ensures
            r.wf(),
            r.board() == sides,
            r.used() == Set::<char>::empty(),
            r.remaining() == sides.all_chars(),
            r.chain() == Seq::<Seq<char>>::empty(),
    {
        let remaining_letters = sides.all_chars_vec();
        let r = Game { sides, used_letters: Vec::new(), remaining_letters, previous_words: Vec::new() };
        assert(r.used() =~= Set::<char>::empty());
        assert(r.used() + r.remaining() =~= sides.all_chars());
        assert(r.chain() =~= Seq::<Seq<char>>::empty());
        r
    }

    /// A fresh game on the sides of today's puzzle in `data`; `None` unless
    /// each side has three letters.
    pub fn today(data: &GameData) -> (r: Option<Self>)
        ensures
            r is Some <==> (forall|i: int| 0 <= i < 4 ==> (#[trigger] data.sides@[i])@.len() == 3),
            r is Some ==> {
                &&& r->0.wf()
                &&& r->0.board().letters_of(Side::Top) == data.sides@[0]@
                &&& r->0.board().letters_of(Side::Right) == data.sides@[1]@
                &&& r->0.board().letters_of(Side::Bottom) == data.sides@[2]@
                &&& r->0.board().letters_of(Side::Left) == data.sides@[3]@
                &&& r->0.used() == Set::<char>::empty()
                &&& r->0.chain() == Seq::<Seq<char>>::empty()
            },
    {
        match Sides::from_sides(&data.sides) {
            Some(sides) => Some(Self::new(sides)),
            None => None,
        }
    }

    /// A fresh game on the sides of yesterday's puzzle in `data`; `None`
    /// unless each side has three letters.
    pub fn yesterday(data: &GameData) -> (r: Option<Self>)
        ensures
            r is Some <==> (forall|i: int| 0 <= i < 4 ==> (#[trigger] data.yesterdaysSides@[i])@.len() == 3),
            r is Some ==> {
                &&& r->0.wf()
                &&& r->0.board().letters_of(Side::Top) == data.yesterdaysSides@[0]@
                &&& r->0.board().letters_of(Side::Right) == data.yesterdaysSides@[1]@
                &&& r->0.board().letters_of(Side::Bottom) == data.yesterdaysSides@[2]@
                &&& r->0.board().letters_of(Side::Left) == data.yesterdaysSides@[3]@
                &&& r->0.used() == Set::<char>::empty()
                &&& r->0.chain() == Seq::<Seq<char>>::empty()
            },
    {
        match Sides::from_sides(&data.yesterdaysSides) {
            Some(sides) => Some(Self::new(sides)),
            None => None,
        }
    }

    /// The board drawn as text (see `board_text`).
    pub fn format_board(&self) -> (r: String)
        ensures
            r@ == board_text(self.board()),
    {
        let t = self.sides.top();
        let r = self.sides.right();
        let d = self.sides.bottom();
        let l = self.sides.left();
        let cells: Vec<char> = vec![
            ' ', ' ', t[0], ' ', t[1], ' ', t[2], ' ', ' ', '\n',
            l[0], ' ', ' ', ' ', ' ', ' ', ' ', ' ', r[0], ' ', '\n',
            l[1], ' ', ' ', ' ', ' ', ' ', ' ', ' ', r[1], ' ', '\n',
            l[2], ' ', ' ', ' ', ' ', ' ', ' ', ' ', r[2], ' ', '\n',
            ' ', ' ', d[0], ' ', d[1], ' ', d[2], ' ', ' ',
        ];
        assert(cells@ =~= board_text(self.board()));
        let mut out = String::new();
        for i in 0..cells.len()
            invariant
                out@ == cells@.take(i as int),
        {
            push_char(&mut out, cells[i]);
            assert(out@ =~= cells@.take(i + 1));
        }
        assert(cells@.take(cells.len() as int) =~= cells@);
        out
    }

    pub fn sides(&self) -> (r: &Sides)
        ensures
            *r == self.board(),
    {
        &self.sides
    }

    /// The letters used so far, each once.
    pub fn used_letters(&self) -> (r: &Vec<char>)
        requires
            self.wf(),
        ensures
            r@.to_set() == self.used(),
            r@.no_duplicates(),
    {
        &self.used_letters
    }

    /// The letters of the board not used yet, each once.
    pub fn remaining_letters(&self) -> (r: &Vec<char>)
        requires
            self.wf(),
        ensures
            r@.to_set() == self.remaining(),
            r@.no_duplicates(),
    {
        &self.remaining_letters
    }

    /// The words played so far.
    pub fn previous_words(&self) -> (r: &Vec<String>)
        ensures
            words_view(r@) == self.chain(),
    {
        &self.previous_words
    }

    /// The last letter of the last word played, if any.
    pub(crate) fn last_letter(&self) -> (r: Option<char>)
        ensures
            self.chain().len() == 0 || self.chain().last().len() == 0 ==> r is None,
            self.chain().len() > 0 && self.chain().last().len() > 0 ==> r == Some(
                self.chain().last().last(),
            ),
    {
        let n = self.previous_words.len();
        if n == 0 {
            return None;
        }
        let w = char_vec(self.previous_words[n - 1].as_str());
        if w.len() == 0 {
            None
        } else {
            Some(w[w.len() - 1])
        }
    }

    /// Whether `word` may be played next: it follows the last word and can be
    /// traced on the board.
    pub fn check_dict_word(&self, word: &str) -> (r: bool)
        ensures
            r == self.legal(word@),
    {
        if self.previous_words.len() > 0 {
            let w = char_vec(word);
            match self.last_letter() {
                None => {
                    return false;
                },
                Some(c) => {
                    if w.len() == 0 || w[0] != c {
                        return false;
                    }
                },
            }
        }
        self.sides.can_spell(word)
    }

    /// The words of `dictionary` that may be played next, each once, in the
    /// order of their first place in the dictionary.
    pub fn possible_words(&self, dictionary: &Vec<String>) -> (r: Vec<String>)
        ensures
            words_view(r@).no_duplicates(),
            forall|i: int| 0 <= i < r.len() ==> self.legal(#[trigger] r@[i]@),
            forall|i: int| 0 <= i < r.len() ==> words_view(dictionary@).contains(#[trigger] r@[i]@),
            forall|j: int|
                0 <= j < dictionary.len() && self.legal(#[trigger] dictionary@[j]@) ==> words_view(
                    r@,
                ).contains(dictionary@[j]@),
    {
        let mut r: Vec<String> = Vec::new();
        for k in 0..dictionary.len()
            invariant
                words_view(r@).no_duplicates(),
                forall|i: int| 0 <= i < r.len() ==> self.legal(#[trigger] r@[i]@),
                forall|i: int| 0 <= i < r.len() ==> words_view(dictionary@).contains(#[trigger] r@[i]@),
                forall|j: int|
                    0 <= j < k && self.legal(#[trigger] dictionary@[j]@) ==> words_view(r@).contains(
                        dictionary@[j]@,
                    ),
        {
            if self.check_dict_word(dictionary[k].as_str()) {
                let ghost before = r@;
                add_word(&mut r, &dictionary[k]);
                assert(words_view(dictionary@)[k as int] == dictionary@[k as int]@);
                assert forall|i: int| 0 <= i < r.len() implies self.legal(#[trigger] r@[i]@)
                    && words_view(dictionary@).contains(r@[i]@) by {
                    if i < before.len() {
                        assert(r@[i] == before[i]);
                    }
                }
            }
        }
        r
    }

    /// The number of distinct letters of `word` that no word played so far has used.
    pub fn count_new_letters(&self, word: &str) -> (r: usize)
        requires
            self.wf(),
        ensures
            r == new_letters(self.used(), word@).len(),
    {
        let w = char_vec(word);
        let mut fresh: Vec<char> = Vec::new();
        for i in 0..w.len()
            invariant
                w@ == word@,
                fresh@.no_duplicates(),
                fresh@.to_set() == new_letters(self.used(), w@.take(i as int)),
        {
            let c = w[i];
            let ghost f = fresh@;
            if !vec_holds(&self.used_letters, c) {
                add_letter(&mut fresh, c);
            }
            proof {
                lemma_take_next_to_set(w@, i as int);
                assert forall|d: char| fresh@.to_set().contains(d) <==> new_letters(self.used(), w@.take(i + 1)).contains(d) by {
                    assert(f.to_set().contains(d) == f.contains(d));
                    assert(self.used().contains(d) == self.used_letters@.contains(d));
                }
            }
            assert(fresh@.to_set() =~= new_letters(self.used(), w@.take(i + 1)));
        }
        assert(w@.take(w@.len() as int) == w@);
        proof { fresh@.unique_seq_to_set(); }
        fresh.len()
    }

    /// Plays `word`: its letters become used, and it is added to the chain.
    /// Returns how many distinct letters it used for the first time. It does
    /// not check that the word may be played.
    pub fn play_word(&mut self, word: &str) -> (r: usize)
        requires
            old(self).wf(),
        ensures
            final(self).wf(),
            final(self).board() == old(self).board(),
            final(self).used() == old(self).used() + word@.to_set().intersect(old(self).board().all_chars()),
            final(self).remaining() == old(self).remaining() - word@.to_set(),
            final(self).chain() == old(self).chain().push(word@),
            r == new_letters(old(self).used(), word@).len(),
    {
        let r = self.count_new_letters(word);
        let w = char_vec(word);
        let ghost used0 = self.used();
        let ghost rem0 = self.remaining();
        let ghost all = self.sides.all_chars();
        for i in 0..w.len()
            invariant
                w@ == word@,
                self.sides == old(self).sides,
                self.previous_words == old(self).previous_words,
                all == self.sides.all_chars(),
                self.used_letters@.no_duplicates(),
                self.remaining_letters@.no_duplicates(),
                self.used() == used0 + w@.take(i as int).to_set().intersect(all),
                self.remaining() == rem0 - w@.take(i as int).to_set(),
                used0.disjoint(rem0),
                used0 + rem0 == all,
        {
            let c = w[i];
            let ghost u = self.used_letters@;
            let ghost m = self.remaining_letters@;
            let on_board = self.sides.get_side(c).is_some();
            if on_board {
                add_letter(&mut self.used_letters, c);
            }
            remove_letter(&mut self.remaining_letters, c);
            proof {
                lemma_take_next_to_set(w@, i as int);
                assert forall|d: char| self.used().contains(d) <==> (used0 + w@.take(i + 1).to_set().intersect(all)).contains(d) by {
                    assert(self.used_letters@.contains(d) <==> (u.contains(d) || (d == c && on_board)));
                    assert(u.to_set().contains(d) == u.contains(d));
                }
                assert forall|d: char| self.remaining().contains(d) <==> (rem0 - w@.take(i + 1).to_set()).contains(d) by {
                    assert(self.remaining_letters@.contains(d) <==> (m.contains(d) && d != c));
                    assert(m.to_set().contains(d) == m.contains(d));
                }
            }
            assert(self.used() =~= used0 + w@.take(i + 1).to_set().intersect(all));
            assert(self.remaining() =~= rem0 - w@.take(i + 1).to_set());
        }
        assert(w@.take(w@.len() as int) == w@);
        assert(self.used().disjoint(self.remaining()));
        assert(self.used() + self.remaining() =~= all);
        let ghost chain0 = self.chain();
        self.previous_words.push(String::from_str(word));
        assert(self.chain() =~= chain0.push(word@));
        r
    }

    /// An independent copy of this state.
    pub(crate) fn duplicate(&self) -> (r: Game)
        requires
            self.wf(),
        ensures
            r.wf(),
            r.board() == self.board(),
            r.used() == self.used(),
            r.remaining() == self.remaining(),
            r.chain() == self.chain(),
    {
        Game {
            sides: self.sides,
            used_letters: copy_chars(&self.used_letters),
            remaining_letters: copy_chars(&self.remaining_letters),
            previous_words: copy_words(&self.previous_words),
        }
    }

    /// Whether every letter of the board has been used.
    pub fn check_win(&self) -> (r: bool)
        requires
            self.wf(),
        ensures
            r == self.won(),
            r == (self.used().len() == self.board().all_chars().len()),
    {
        let r = self.remaining_letters.len() == 0;
        proof {
            lemma_won_by_count(*self);
            if r {
                assert(self.remaining() =~= Set::<char>::empty());
                assert(self.used() =~= self.sides.all_chars());
            }
            if self.won() && !r {
                assert(self.remaining().contains(self.remaining_letters@[0]));
            }
        }
        r
    }
}

/// Whether `v` holds a word equal to `w`.
pub(crate) fn has_word(v: &Vec<String>, w: &String) -> (r: bool)
    ensures
        r == words_view(v@).contains(w@),
{
    let mut i: usize = 0;
    while i < v.len()
        invariant
            0 <= i <= v.len(),
            forall|j: int| 0 <= j < i ==> v@[j]@ != w@,
        decreases v.len() - i,
    {
        if v[i] == *w {
            assert(words_view(v@)[i as int] == w@);
            return true;
        }
        i = i + 1;
    }
    proof {
        if words_view(v@).contains(w@) {
            let j = choose|j: int| 0 <= j < v.len() && words_view(v@)[j] == w@;
            assert(v@[j]@ == w@);
        }
    }
    false
}

/// Adds a copy of `w` to `r`, which holds no word twice, unless it is there.
pub(crate) fn add_word(r: &mut Vec<String>, w: &String)
    requires
        words_view(old(r)@).no_duplicates(),
    ensures
        words_view(final(r)@).no_duplicates(),
        words_view(final(r)@).contains(w@),
        forall|v: Seq<char>| #[trigger] words_view(final(r)@).contains(v) <==> (words_view(old(r)@).contains(v) || v == w@),
        forall|i: int| 0 <= i < old(r).len() ==> final(r)@[i] == old(r)@[i],
        final(r).len() <= old(r).len() + 1,
        final(r).len() == old(r).len() + 1 ==> final(r)@[old(r).len() as int]@ == w@,
{
    if !has_word(r, w) {
        let ghost before = r@;
        r.push(w.clone());
        let ghost b = words_view(before);
        let ghost a = words_view(r@);
        assert(a =~= b.push(w@));
        assert forall|v: Seq<char>| #[trigger] a.contains(v) <==> (b.contains(v) || v == w@) by {
            if b.contains(v) {
                let j = choose|j: int| 0 <= j < b.len() && b[j] == v;
                assert(a[j] == v);
            }
            if v == w@ {
                assert(a[b.len() as int] == v);
            }
            if a.contains(v) {
                let j = choose|j: int| 0 <= j < a.len() && a[j] == v;
                if j < b.len() {
                    assert(b[j] == v);
                }
            }
        }
        assert forall|x: int, y: int| 0 <= x < y < a.len() implies a[x] != a[y] by {
            if y == b.len() {
                assert(b[x] == a[x]);
            }
        }
    }
}

/// A copy of the letters of `v`.
fn copy_chars(v: &Vec<char>) -> (r: Vec<char>)
    ensures
        r@ == v@,
{
    let mut r: Vec<char> = Vec::new();
    for i in 0..v.len()
        invariant
            r@ == v@.take(i as int),
    {
        r.push(v[i]);
        assert(r@ =~= v@.take(i + 1));
    }
    assert(r@ =~= v@);
    r
}

/// At every point of a game, each letter of the board is either used or
/// left, and never both.
pub proof fn lemma_letters_partition(g: Game)
    requires
        g.wf(),
    ensures
        g.used().disjoint(g.remaining()),
        g.used() + g.remaining() == g.board().all_chars(),
{
}

/// A word made only of letters already used brings no new letter.
pub proof fn lemma_used_word_adds_nothing(g: Game, w: Seq<char>)
    requires
        g.wf(),
        forall|i: int| 0 <= i < w.len() ==> g.used().contains(#[trigger] w[i]),
    ensures
        new_letters(g.used(), w).len() == 0,
{
    assert(new_letters(g.used(), w) =~= Set::<char>::empty());
}

/// Right after a word has been played, the same word may be played again
/// exactly when it ends with the letter it starts with.
pub proof fn lemma_repeat_needs_same_ends(sides: Sides, chain: Seq<Seq<char>>, w: Seq<char>)
    requires
        sides.spells(w),
    ensures
        legal_after(sides, chain.push(w), w) <==> w[0] == w.last(),
{
}

/// Whether the game is won agrees with how many letters have been used.
pub proof fn lemma_won_by_count(g: Game)
    requires
        g.wf(),
    ensures
        g.won() <==> g.used().len() == g.board().all_chars().len(),
{
    g.used_letters@.unique_seq_to_set();
    lemma_board_letters_finite(g.sides);
    if g.used().len() == g.sides.all_chars().len() {
        vstd::set_lib::lemma_subset_equality(g.used(), g.sides.all_chars());
    }
}

/// The letters of the first `i + 1` characters of `w` are those of the first
/// `i` and the character at `i`.
proof fn lemma_take_next_to_set(w: Seq<char>, i: int)
    requires
        0 <= i < w.len(),
    ensures
        w.take(i + 1).to_set() == w.take(i).to_set().insert(w[i]),
{
    assert(w.take(i + 1) =~= w.take(i).push(w[i]));
    w.take(i).lemma_push_to_set_commute(w[i]);
}

/// The letters of a board form a finite set.
pub proof fn lemma_board_letters_finite(sides: Sides)
    ensures
        sides.all_chars().finite(),
{
    vstd::seq_lib::seq_to_set_is_finite(sides.letters_of(Side::Top));
    vstd::seq_lib::seq_to_set_is_finite(sides.letters_of(Side::Right));
    vstd::seq_lib::seq_to_set_is_finite(sides.letters_of(Side::Bottom));
    vstd::seq_lib::seq_to_set_is_finite(sides.letters_of(Side::Left));
}

} // verus!
