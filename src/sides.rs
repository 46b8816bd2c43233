use vstd::prelude::*;

verus! {

/// One of the four sides of the box.
#[derive(Clone, Copy, Debug, PartialEq, Eq, Structural)]
pub enum Side {
    Top,
    Right,
    Bottom,
    Left,
}

/// The four sides of a puzzle, three letters each, in the order given.
#[derive(Clone, Copy, Debug)]
pub struct Sides {
    top: [char; 3],
    right: [char; 3],
    bottom: [char; 3],
    left: [char; 3],
}

impl Sides {
    /// The letters of side `s`, in board order.
    pub closed spec fn letters_of(self, s: Side) -> Seq<char> {
        match s {
            Side::Top => self.top@,
            Side::Right => self.right@,
            Side::Bottom => self.bottom@,
            Side::Left => self.left@,
        }
    }

    /// Every letter of the puzzle (repeated letters collapse).
    pub open spec fn all_chars(self) -> Set<char> {
        self.letters_of(Side::Top).to_set() + self.letters_of(Side::Right).to_set()
            + self.letters_of(Side::Bottom).to_set() + self.letters_of(Side::Left).to_set()
    }

    /// The first side, in the order top, right, bottom, left, that holds `c`.
    pub open spec fn side_of(self, c: char) -> Option<Side> {
        if self.letters_of(Side::Top).contains(c) {
            Some(Side::Top)
        } else if self.letters_of(Side::Right).contains(c) {
            Some(Side::Right)
        } else if self.letters_of(Side::Bottom).contains(c) {
            Some(Side::Bottom)
        } else if self.letters_of(Side::Left).contains(c) {
            Some(Side::Left)
        } else {
            None
        }
    }

    /// A word that can be traced on the board: it is not empty, each letter is
    /// on a side, and no letter lies on the side of the letter before it.
    pub open spec fn spells(self, w: Seq<char>) -> bool {
        &&& w.len() > 0
        &&& forall|i: int| 0 <= i < w.len() ==> #[trigger] self.side_of(w[i]) is Some
        &&& forall|i: int|
            0 < i < w.len() ==> !self.letters_of(self.side_of(w[i - 1])->0).contains(#[trigger] w[i])
    }

    pub fn new(top: [char; 3], right: [char; 3], bottom: [char; 3], left: [char; 3]) -> (r: Self)
        ensures
            r.letters_of(Side::Top) == top@,
            r.letters_of(Side::Right) == right@,
            r.letters_of(Side::Bottom) == bottom@,
            r.letters_of(Side::Left) == left@,
    {
        Sides { top, right, bottom, left }
    }

    /// Builds the sides from four strings; `None` unless each has exactly three letters.
    pub fn from_str(top: &str, right: &str, bottom: &str, left: &str) -> (r: Option<Self>)
        ensures
            r is Some <==> (top@.len() == 3 && right@.len() == 3 && bottom@.len() == 3
                && left@.len() == 3),
            r is Some ==> {
                &&& r->0.letters_of(Side::Top) == top@
                &&& r->0.letters_of(Side::Right) == right@
                &&& r->0.letters_of(Side::Bottom) == bottom@
                &&& r->0.letters_of(Side::Left) == left@
            },
    {
        let t = triple(top);
        let r = triple(right);
        let b = triple(bottom);
        let l = triple(left);
        match (t, r, b, l) {
            (Some(t), Some(r), Some(b), Some(l)) => Some(Self::new(t, r, b, l)),
            _ => None,
        }
    }

    /// Builds the sides from the four strings of a puzzle record, in the order
    /// top, right, bottom, left; `None` unless each has exactly three letters.
    pub fn from_sides(sides: &[String; 4]) -> (r: Option<Self>)
        ensures
            r is Some <==> (forall|i: int| 0 <= i < 4 ==> (#[trigger] sides@[i])@.len() == 3),
            r is Some ==> {
                &&& r->0.letters_of(Side::Top) == sides@[0]@
                &&& r->0.letters_of(Side::Right) == sides@[1]@
                &&& r->0.letters_of(Side::Bottom) == sides@[2]@
                &&& r->0.letters_of(Side::Left) == sides@[3]@
            },
    {
        let r = Self::from_str(sides[0].as_str(), sides[1].as_str(), sides[2].as_str(), sides[3].as_str());
        proof {
            if !(r is Some) {
                assert(!(forall|i: int| 0 <= i < 4 ==> (#[trigger] sides@[i])@.len() == 3)) by {
                    if sides@[0]@.len() != 3 {} else if sides@[1]@.len() != 3 {} else if sides@[2]@.len() != 3 {} else {
                        assert(sides@[3]@.len() != 3);
                    }
                }
            }
        }
        r
    }

    pub fn top(&self) -> (r: [char; 3])
        ensures
            r@ == self.letters_of(Side::Top),
    {
        self.top
    }

    pub fn right(&self) -> (r: [char; 3])
        ensures
            r@ == self.letters_of(Side::Right),
    {
        self.right
    }

    pub fn bottom(&self) -> (r: [char; 3])
        ensures
            r@ == self.letters_of(Side::Bottom),
    {
        self.bottom
    }

    pub fn left(&self) -> (r: [char; 3])
        ensures
            r@ == self.letters_of(Side::Left),
    {
        self.left
    }

    /// The side that holds `letter`, or `None` when it is not on the board.
    pub fn get_side(&self, letter: char) -> (r: Option<Side>)
        ensures
            r == self.side_of(letter),
            r is Some <==> self.all_chars().contains(letter),
    {
        if holds(&self.top, letter) {
            Some(Side::Top)
        } else if holds(&self.right, letter) {
            Some(Side::Right)
        } else if holds(&self.bottom, letter) {
            Some(Side::Bottom)
        } else if holds(&self.left, letter) {
            Some(Side::Left)
        } else {
            None
        }
    }

    /// The letters of the given side, in board order.
    pub fn get_letters(&self, side: &Side) -> (r: [char; 3])
        ensures
            r@ == self.letters_of(*side),
    {
        match side {
            Side::Top => self.top,
            Side::Right => self.right,
            Side::Bottom => self.bottom,
            Side::Left => self.left,
        }
    }

    /// Whether `word` can be traced on the board.
    pub fn can_spell(&self, word: &str) -> (r: bool)
        ensures
            r == self.spells(word@),
    {
        let w = crate::text::char_vec(word);
        if w.len() == 0 {
            return false;
        }
        let mut prev: Option<Side> = None;
        let mut i: usize = 0;
        while i < w.len()
            invariant
                w@ == word@,
                0 <= i <= w.len(),
                i == 0 <==> prev is None,
                i > 0 ==> prev == self.side_of(w@[i - 1]),
                forall|j: int| 0 <= j < i ==> #[trigger] self.side_of(w@[j]) is Some,
                forall|j: int|
                    0 < j < i ==> !self.letters_of(self.side_of(w@[j - 1])->0).contains(#[trigger] w@[j]),
            decreases w.len() - i,
        {
            let letter = w[i];
            match self.get_side(letter) {
                Some(side) => {
                    if let Some(p) = prev {
                        let letters = self.get_letters(&p);
                        if holds(&letters, letter) {
                            assert(!self.spells(word@)) by {
                                assert(self.letters_of(self.side_of(w@[i - 1])->0).contains(w@[i as int]));
                            }
                            return false;
                        }
                    }
                    prev = Some(side);
                },
                None => {
                    assert(self.side_of(w@[i as int]) is None);
                    return false;
                },
            }
            i = i + 1;
        }
        true
    }

    /// The distinct letters of the board.
    pub fn all_chars_vec(&self) -> (r: Vec<char>)
        ensures
            r@.no_duplicates(),
            r@.to_set() == self.all_chars(),
    {
        let mut r: Vec<char> = Vec::new();
        let all: [char; 12] = [
            self.top[0], self.top[1], self.top[2],
            self.right[0], self.right[1], self.right[2],
            self.bottom[0], self.bottom[1], self.bottom[2],
            self.left[0], self.left[1], self.left[2],
        ];
        for i in 0..12usize
            invariant
                r@.no_duplicates(),
                forall|c: char| r@.contains(c) <==> exists|j: int| 0 <= j < i && all@[j] == c,
        {
            add_letter(&mut r, all[i]);
            assert forall|c: char| r@.contains(c) <==> exists|j: int| 0 <= j < i + 1 && all@[j] == c by {
                if c == all@[i as int] {
                    assert(all@[i as int] == c);
                }
                if exists|j: int| 0 <= j < i + 1 && all@[j] == c {
                    let j = choose|j: int| 0 <= j < i + 1 && all@[j] == c;
                    if j < i {
                        assert(exists|j: int| 0 <= j < i && all@[j] == c);
                    }
                }
            }
        }
        assert(r@.to_set() =~= self.all_chars()) by {
            assert forall|c: char| r@.to_set().contains(c) <==> self.all_chars().contains(c) by {
                if self.all_chars().contains(c) {
                    if self.top@.contains(c) {
                        let m = choose|m: int| 0 <= m < 3 && self.top@[m] == c;
                        assert(all@[m] == c);
                    } else if self.right@.contains(c) {
                        let m = choose|m: int| 0 <= m < 3 && self.right@[m] == c;
                        assert(all@[3 + m] == c);
                    } else if self.bottom@.contains(c) {
                        let m = choose|m: int| 0 <= m < 3 && self.bottom@[m] == c;
                        assert(all@[6 + m] == c);
                    } else {
                        let m = choose|m: int| 0 <= m < 3 && self.left@[m] == c;
                        assert(all@[9 + m] == c);
                    }
                }
                if r@.contains(c) {
                    let j = choose|j: int| 0 <= j < 12 && all@[j] == c;
                    if j < 3 {
                        assert(self.top@[j] == c);
                    } else if j < 6 {
                        assert(self.right@[j - 3] == c);
                    } else if j < 9 {
                        assert(self.bottom@[j - 6] == c);
                    } else {
                        assert(self.left@[j - 9] == c);
                    }
                }
            }
        }
        r
    }
}

/// A letter has a side exactly when it is on the board.
pub proof fn lemma_side_of_on_board(sides: Sides, c: char)
    ensures
        sides.side_of(c) is Some <==> sides.all_chars().contains(c),
{
}

/// Adds `c` to the letters of `v` unless it is there already.
pub(crate) fn add_letter(v: &mut Vec<char>, c: char)
    requires
        old(v)@.no_duplicates(),
    ensures
        final(v)@.no_duplicates(),
        forall|d: char| final(v)@.contains(d) <==> (old(v)@.contains(d) || d == c),
{
    if !vec_holds(v, c) {
        let ghost before = v@;
        v.push(c);
        assert forall|d: char| v@.contains(d) <==> (before.contains(d) || d == c) by {
            if before.contains(d) {
                let j = choose|j: int| 0 <= j < before.len() && before[j] == d;
                assert(v@[j] == d);
            }
            if d == c {
                assert(v@[before.len() as int] == c);
            }
            if v@.contains(d) {
                let j = choose|j: int| 0 <= j < v@.len() && v@[j] == d;
                if j < before.len() {
                    assert(before[j] == d);
                }
            }
        }
    }
}

/// Whether the three letters `t` hold `c`.
fn holds(t: &[char; 3], c: char) -> (r: bool)
    ensures
        r == t@.contains(c),
{
    let mut i: usize = 0;
    while i < 3
        invariant
            0 <= i <= 3,
            forall|j: int| 0 <= j < i ==> t@[j] != c,
        decreases 3 - i,
    {
        if t[i] == c {
            return true;
        }
        i = i + 1;
    }
    false
}

/// Takes `c` out of the letters of `v`.
pub(crate) fn remove_letter(v: &mut Vec<char>, c: char)
    requires
        old(v)@.no_duplicates(),
    ensures
        final(v)@.no_duplicates(),
        forall|d: char| final(v)@.contains(d) <==> (old(v)@.contains(d) && d != c),
{
    let ghost before = v@;
    let mut i: usize = 0;
    while i < v.len()
        invariant
            v@ == before,
            before == old(v)@,
            before.no_duplicates(),
            0 <= i <= v.len(),
            forall|j: int| 0 <= j < i ==> v@[j] != c,
        decreases v.len() - i,
    {
        if v[i] == c {
            v.remove(i);
            assert(v@ == before.remove(i as int));
            assert forall|a: int, b: int| 0 <= a < b < v@.len() implies v@[a] != v@[b] by {
                let a2 = if a < i { a } else { a + 1 };
                let b2 = if b < i { b } else { b + 1 };
                assert(before[a2] == v@[a] && before[b2] == v@[b]);
            }
            assert forall|d: char| v@.contains(d) <==> (before.contains(d) && d != c) by {
                if before.contains(d) && d != c {
                    let j = choose|j: int| 0 <= j < before.len() && before[j] == d;
                    if j < i {
                        assert(v@[j] == d);
                    } else {
                        assert(v@[j - 1] == d);
                    }
                }
                if v@.contains(d) {
                    let j = choose|j: int| 0 <= j < v@.len() && v@[j] == d;
                    if j < i {
                        assert(before[j] == d);
                        assert(before[i as int] == c);
                    } else {
                        assert(before[j + 1] == d);
                        assert(before[i as int] == c);
                    }
                }
            }
            return;
        }
        i = i + 1;
    }
}

/// Whether `v` holds `c`.
pub(crate) fn vec_holds(v: &Vec<char>, c: char) -> (r: bool)
    ensures
        r == v@.contains(c),
{
    let mut i: usize = 0;
    while i < v.len()
        invariant
            0 <= i <= v.len(),
            forall|j: int| 0 <= j < i ==> v@[j] != c,
        decreases v.len() - i,
    {
        if v[i] == c {
            return true;
        }
        i = i + 1;
    }
    false
}

/// The three letters of `s`, or `None` unless it has exactly three.
fn triple(s: &str) -> (r: Option<[char; 3]>)
    ensures
        r is Some <==> s@.len() == 3,
        r is Some ==> r->0@ == s@,
{
    let v = crate::text::char_vec(s);
    if v.len() == 3 {
        let t = [v[0], v[1], v[2]];
        assert(t@ =~= s@);
        Some(t)
    } else {
        None
    }
}

} // verus!
