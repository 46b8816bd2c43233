use vstd::prelude::*;
use crate::game::{Game, words_view, follows, legal_after, add_word};
use crate::sides::{Sides, lemma_side_of_on_board};
use crate::text::char_vec;

verus! {

/// The most words that a search adds to the starting chain.
pub const MAX_DEPTH: usize = 10;

/// Every letter that the words of `ws` hold.
pub open spec fn letters_in(ws: Seq<Seq<char>>) -> Set<char>
    decreases ws.len(),
{
    if ws.len() == 0 {
        Set::empty()
    } else {
        letters_in(ws.drop_last()) + ws.last().to_set()
    }
}

/// The number of characters in all the words of `ws`.
pub open spec fn total_len(ws: Seq<Seq<char>>) -> nat
    decreases ws.len(),
{
    if ws.len() == 0 {
        0
    } else {
        total_len(ws.drop_last()) + ws.last().len()
    }
}

/// The ranking key of a chain: its character count, capped at `usize::MAX`.
pub open spec fn rank(ws: Seq<Seq<char>>) -> nat {
    if total_len(ws) <= usize::MAX {
        total_len(ws)
    } else {
        usize::MAX as nat
    }
}

/// Each word of `ext` is in `dict` and may be played on `sides` after
/// `start` and the words of `ext` before it.
#[verifier::opaque]
pub open spec fn legal_extension(
    sides: Sides,
    start: Seq<Seq<char>>,
    ext: Seq<Seq<char>>,
    dict: Seq<Seq<char>>,
) -> bool {
    forall|k: int|
        0 <= k < ext.len() ==> dict.contains(#[trigger] ext[k]) && legal_after(
            sides,
            start + ext.take(k),
            ext[k],
        )
}

/// `h` is `g` with `level` words of `dict` played on it legally.
pub open spec fn reached(g: Game, dict: Seq<Seq<char>>, h: Game, level: int) -> bool {
    let n = g.chain().len() as int;
    &&& h.wf()
    &&& h.board() == g.board()
    &&& h.chain().len() == n + level
    &&& h.chain().take(n) == g.chain()
    &&& candidate(g, dict, h.chain().skip(n))
    &&& h.used() == g.used() + letters_in(h.chain().skip(n))
}

/// `s` is the chain of `g` followed by one to `MAX_DEPTH` words of `dict`,
/// each played legally, that together use every letter of the board, while
/// no shorter run of its first words does.
pub open spec fn winning_chain(g: Game, dict: Seq<Seq<char>>, s: Seq<Seq<char>>) -> bool {
    let n = g.chain().len() as int;
    &&& n < s.len() <= n + MAX_DEPTH
    &&& s.take(n) == g.chain()
    &&& candidate(g, dict, s.skip(n))
    &&& g.used() + letters_in(s.skip(n)) == g.board().all_chars()
}

/// The words of `ext`, added to the chain of `g`, use every letter of the board.
pub open spec fn won_with(g: Game, ext: Seq<Seq<char>>) -> bool {
    g.used() + letters_in(ext) == g.board().all_chars()
}

/// `ext` is a legal run of words of `dict` after the chain of `g`, and no
/// shorter nonempty run of its first words wins `g`: the search meets it.
pub open spec fn candidate(g: Game, dict: Seq<Seq<char>>, ext: Seq<Seq<char>>) -> bool {
    &&& legal_extension(g.board(), g.chain(), ext, dict)
    &&& forall|k: int| 1 <= k < ext.len() ==> !won_with(g, #[trigger] ext.take(k))
}

/// Some chain of `sols` is `c`.
pub open spec fn holds_chain(sols: Seq<Vec<String>>, c: Seq<Seq<char>>) -> bool {
    exists|i: int| 0 <= i < sols.len() && words_view(#[trigger] sols[i]@) == c
}

/// Some state of `games` has chain `c`.
pub open spec fn has_state(games: Seq<Game>, c: Seq<Seq<char>>) -> bool {
    exists|i: int| 0 <= i < games.len() && (#[trigger] games[i]).chain() == c
}

/// `h` followed by `w` has been dealt with: kept in `sols` if it wins, in `next` if not.
pub open spec fn expanded(h: Game, w: Seq<char>, sols: Seq<Vec<String>>, next: Seq<Game>) -> bool {
    if h.used() + w.to_set() == h.board().all_chars() {
        holds_chain(sols, h.chain().push(w))
    } else {
        has_state(next, h.chain().push(w))
    }
}

/// `games` holds every run of `level` words that the search meets and that does not win.
pub open spec fn frontier_complete(g: Game, dict: Seq<Seq<char>>, games: Seq<Game>, level: int) -> bool {
    forall|ext: Seq<Seq<char>>|
        ext.len() == level && #[trigger] candidate(g, dict, ext) && (level == 0 || !won_with(g, ext))
            ==> has_state(games, g.chain() + ext)
}

/// `sols` holds every winning run of one to `level` words that the search meets.
pub open spec fn solutions_complete(g: Game, dict: Seq<Seq<char>>, sols: Seq<Vec<String>>, level: int) -> bool {
    forall|ext: Seq<Seq<char>>|
        1 <= ext.len() <= level && #[trigger] candidate(g, dict, ext) && won_with(g, ext)
            ==> holds_chain(sols, g.chain() + ext)
}

/// A list that keeps the chains of `s0` and adds more holds what `s0` held.
proof fn lemma_holds_grow(s0: Seq<Vec<String>>, s1: Seq<Vec<String>>, c: Seq<Seq<char>>)
    requires
        holds_chain(s0, c),
        s0.len() <= s1.len(),
        forall|i: int| 0 <= i < s0.len() ==> s1[i] == s0[i],
    ensures
        holds_chain(s1, c),
{
    let i = choose|i: int| 0 <= i < s0.len() && words_view(#[trigger] s0[i]@) == c;
    assert(s1[i] == s0[i]);
}

/// A list of states that keeps those of `s0` and adds more has what `s0` had.
proof fn lemma_has_grow(s0: Seq<Game>, s1: Seq<Game>, c: Seq<Seq<char>>)
    requires
        has_state(s0, c),
        s0.len() <= s1.len(),
        forall|i: int| 0 <= i < s0.len() ==> s1[i] == s0[i],
    ensures
        has_state(s1, c),
{
    let i = choose|i: int| 0 <= i < s0.len() && (#[trigger] s0[i]).chain() == c;
    assert(s1[i] == s0[i]);
}

/// Once every state of a level has been followed by every playable word that
/// may follow it, each run of one more word that the search meets is in
/// `sols` if it wins and in `next` if not.
proof fn lemma_level_complete(
    g: Game,
    dict: Seq<Seq<char>>,
    games: Seq<Game>,
    possible: Seq<String>,
    sols: Seq<Vec<String>>,
    next: Seq<Game>,
    level: int,
    ext: Seq<Seq<char>>,
)
    requires
        0 <= level,
        frontier_complete(g, dict, games, level),
        forall|i: int| 0 <= i < games.len() ==> reached(g, dict, #[trigger] games[i], level),
        forall|w: Seq<char>| dict.contains(w) && #[trigger] g.board().spells(w) ==> words_view(possible).contains(w),
        forall|i: int, k: int|
            0 <= i < games.len() && 0 <= k < possible.len() && follows(games[i].chain(), possible[k]@)
                ==> expanded(#[trigger] games[i], #[trigger] possible[k]@, sols, next),
        ext.len() == level + 1,
        candidate(g, dict, ext),
    ensures
        won_with(g, ext) ==> holds_chain(sols, g.chain() + ext),
        !won_with(g, ext) ==> has_state(next, g.chain() + ext),
{
    reveal(legal_extension);
    let n = g.chain().len() as int;
    let p = ext.take(level);
    let w = ext[level];
    assert(ext =~= p.push(w));
    assert(p.len() == level);
    assert(candidate(g, dict, p)) by {
        assert forall|k: int| 0 <= k < p.len() implies dict.contains(#[trigger] p[k]) && legal_after(
            g.board(),
            g.chain() + p.take(k),
            p[k],
        ) by {
            assert(p.take(k) =~= ext.take(k));
            assert(p[k] == ext[k]);
        }
        assert forall|k: int| 1 <= k < p.len() implies !won_with(g, #[trigger] p.take(k)) by {
            assert(p.take(k) =~= ext.take(k));
        }
    }
    if level > 0 {
        assert(!won_with(g, ext.take(level)));
    }
    let i = choose|i: int| 0 <= i < games.len() && (#[trigger] games[i]).chain() == g.chain() + p;
    let h = games[i];
    assert(reached(g, dict, h, level));
    assert(h.chain().skip(n) =~= p);
    assert(dict.contains(w) && legal_after(g.board(), g.chain() + ext.take(level), w));
    let k = choose|k: int| 0 <= k < possible.len() && words_view(possible)[k] == w;
    assert(possible[k]@ == w);
    assert(expanded(h, possible[k]@, sols, next));
    assert(h.chain().push(w) =~= g.chain() + ext);
    lemma_letters_push(p, w);
    assert(h.used() + w.to_set() =~= g.used() + letters_in(ext));
    assert(h.board() == g.board());
}

/// `v` is ordered by character count, least first.
pub open spec fn ordered_by_total(v: Seq<Vec<String>>) -> bool {
    forall|i: int, j: int| 0 <= i < j < v.len() ==> total_len(words_view(v[i]@)) <= total_len(words_view(v[j]@))
}

/// Every chain of `v` has a character count that fits a `usize`.
pub open spec fn totals_fit(v: Seq<Vec<String>>) -> bool {
    forall|i: int| 0 <= i < v.len() ==> total_len(words_view(#[trigger] v[i]@)) <= usize::MAX
}

/// A list ordered by rank, whose counts all fit a `usize`, is ordered by count.
pub proof fn lemma_ranked_by_total(v: Seq<Vec<String>>)
    requires
        ranked(v),
        totals_fit(v),
    ensures
        ordered_by_total(v),
{
    assert forall|i: int, j: int| 0 <= i < j < v.len() implies total_len(words_view(v[i]@)) <= total_len(words_view(v[j]@)) by {
        assert(rank(words_view(v[i]@)) <= rank(words_view(v[j]@)));
        assert(total_len(words_view(v[i]@)) <= usize::MAX);
        assert(total_len(words_view(v[j]@)) <= usize::MAX);
    }
}

/// `v` is ordered by `rank`, least first.
pub open spec fn ranked(v: Seq<Vec<String>>) -> bool {
    forall|i: int, j: int| 0 <= i < j < v.len() ==> rank(words_view(v[i]@)) <= rank(words_view(v[j]@))
}

/// A legal extension stays legal with one more legal word.
proof fn lemma_extension_push(
    sides: Sides,
    start: Seq<Seq<char>>,
    ext: Seq<Seq<char>>,
    dict: Seq<Seq<char>>,
    w: Seq<char>,
)
    requires
        legal_extension(sides, start, ext, dict),
        dict.contains(w),
        legal_after(sides, start + ext, w),
    ensures
        legal_extension(sides, start, ext.push(w), dict),
{
    reveal(legal_extension);
    let ext2 = ext.push(w);
    assert forall|k: int| 0 <= k < ext2.len() implies dict.contains(#[trigger] ext2[k]) && legal_after(
        sides,
        start + ext2.take(k),
        ext2[k],
    ) by {
        if k < ext.len() {
            assert(ext2.take(k) =~= ext.take(k));
            assert(ext2[k] == ext[k]);
        } else {
            assert(ext2.take(k) =~= ext);
        }
    }
}

/// The letters of a list with one more word.
proof fn lemma_letters_push(ext: Seq<Seq<char>>, w: Seq<char>)
    ensures
        letters_in(ext.push(w)) == letters_in(ext) + w.to_set(),
{
    assert(ext.push(w).drop_last() =~= ext);
}

/// Playing one more legal word keeps a state reached from `g`, one level further.
proof fn lemma_reached_step(g: Game, dict: Seq<Seq<char>>, h: Game, level: int, w: Seq<char>, h2: Game)
    requires
        0 <= level,
        reached(g, dict, h, level),
        level == 0 || !won_with(g, h.chain().skip(g.chain().len() as int)),
        dict.contains(w),
        legal_after(h.board(), h.chain(), w),
        h2.wf(),
        h2.board() == h.board(),
        h2.chain() == h.chain().push(w),
        h2.used() == h.used() + w.to_set(),
    ensures
        reached(g, dict, h2, level + 1),
{
    let n = g.chain().len() as int;
    let ext = h.chain().skip(n);
    let ext2 = h2.chain().skip(n);
    assert(ext2 =~= ext.push(w));
    assert(h2.chain().take(n) =~= h.chain().take(n));
    assert(h.chain() =~= g.chain() + ext);
    lemma_extension_push(g.board(), g.chain(), ext, dict, w);
    lemma_letters_push(ext, w);
    assert forall|k: int| 1 <= k < ext2.len() implies !won_with(g, #[trigger] ext2.take(k)) by {
        if k < ext.len() {
            assert(ext2.take(k) =~= ext.take(k));
        } else {
            assert(ext2.take(k) =~= ext);
        }
    }
    assert(h2.used() =~= g.used() + letters_in(ext2));
}

/// The words of `dictionary` that can be traced on `sides`, each once.
fn playable_words(sides: &Sides, dictionary: &Vec<String>) -> (r: Vec<String>)
    ensures
        words_view(r@).no_duplicates(),
        forall|i: int| 0 <= i < r.len() ==> sides.spells(#[trigger] r@[i]@),
        forall|i: int| 0 <= i < r.len() ==> words_view(dictionary@).contains(#[trigger] r@[i]@),
        forall|w: Seq<char>|
            words_view(dictionary@).contains(w) && #[trigger] sides.spells(w) ==> words_view(r@).contains(w),
{
    let mut r: Vec<String> = Vec::new();
    for k in 0..dictionary.len()
        invariant
            words_view(r@).no_duplicates(),
            forall|i: int| 0 <= i < r.len() ==> sides.spells(#[trigger] r@[i]@),
            forall|i: int| 0 <= i < r.len() ==> words_view(dictionary@).contains(#[trigger] r@[i]@),
            forall|j: int|
                0 <= j < k && sides.spells(#[trigger] dictionary@[j]@) ==> words_view(r@).contains(dictionary@[j]@),
    {
        if sides.can_spell(dictionary[k].as_str()) {
            let ghost before = r@;
            add_word(&mut r, &dictionary[k]);
            assert(words_view(dictionary@)[k as int] == dictionary@[k as int]@);
            assert forall|i: int| 0 <= i < r.len() implies sides.spells(#[trigger] r@[i]@)
                && words_view(dictionary@).contains(r@[i]@) by {
                if i < before.len() {
                    assert(r@[i] == before[i]);
                }
            }
        }
    }
    assert forall|w: Seq<char>|
        words_view(dictionary@).contains(w) && #[trigger] sides.spells(w) implies words_view(r@).contains(w) by {
        let j = choose|j: int| 0 <= j < dictionary.len() && words_view(dictionary@)[j] == w;
        assert(dictionary@[j]@ == w);
    }
    r
}

/// The words of `possible` that may follow the last word of `game`.
fn quick_filter_possible_words(game: &Game, possible: &Vec<String>) -> (r: Vec<String>)
    requires
        words_view(possible@).no_duplicates(),
    ensures
        words_view(r@).no_duplicates(),
        forall|i: int| 0 <= i < r.len() ==> follows(game.chain(), #[trigger] r@[i]@),
        forall|i: int| 0 <= i < r.len() ==> possible@.contains(#[trigger] r@[i]),
        forall|k: int|
            0 <= k < possible.len() && follows(game.chain(), #[trigger] possible@[k]@) ==> r@.contains(possible@[k]),
{
    let mut r: Vec<String> = Vec::new();
    let empty = game.previous_words().len() == 0;
    let last = game.last_letter();
    let ghost mut idx: Seq<int> = Seq::empty();
    for k in 0..possible.len()
        invariant
            words_view(possible@).no_duplicates(),
            words_view(r@).no_duplicates(),
            idx.len() == r.len(),
            forall|i: int| 0 <= i < r.len() ==> 0 <= #[trigger] idx[i] < k && r@[i] == possible@[idx[i]],
            forall|a: int, b: int| 0 <= a < b < r.len() ==> #[trigger] idx[a] < #[trigger] idx[b],
            empty == (game.chain().len() == 0),
            game.chain().len() == 0 || game.chain().last().len() == 0 ==> last is None,
            game.chain().len() > 0 && game.chain().last().len() > 0 ==> last == Some(
                game.chain().last().last(),
            ),
            forall|i: int| 0 <= i < r.len() ==> follows(game.chain(), #[trigger] r@[i]@),
            forall|i: int| 0 <= i < r.len() ==> possible@.contains(#[trigger] r@[i]),
            forall|j: int|
                0 <= j < k && follows(game.chain(), #[trigger] possible@[j]@) ==> r@.contains(possible@[j]),
    {
        let ghost before = r@;
        let keep = if empty {
            true
        } else {
            match last {
                None => false,
                Some(c) => {
                    let w = char_vec(possible[k].as_str());
                    w.len() > 0 && w[0] == c
                },
            }
        };
        if keep {
            r.push(possible[k].clone());
            assert(possible@[k as int] == r@[r.len() - 1]);
            proof {
                idx = idx.push(k as int);
            }
        }
        proof {
            assert forall|a: int, b: int| 0 <= a < b < r.len() implies words_view(r@)[a] != words_view(r@)[b] by {
                assert(words_view(possible@)[idx[a]] == r@[a]@);
                assert(words_view(possible@)[idx[b]] == r@[b]@);
            }
        }
        assert forall|j: int|
            0 <= j < k + 1 && follows(game.chain(), #[trigger] possible@[j]@) implies r@.contains(possible@[j]) by {
            if j < k {
                let m = choose|m: int| 0 <= m < before.len() && before[m] == possible@[j];
                assert(r@[m] == possible@[j]);
            } else {
                assert(keep);
                assert(r@[r.len() - 1] == possible@[j]);
            }
        }
    }
    r
}

/// A copy of the words of `v`.
pub(crate) fn copy_words(v: &Vec<String>) -> (r: Vec<String>)
    ensures
        r@ == v@,
{
    let mut r: Vec<String> = Vec::new();
    for i in 0..v.len()
        invariant
            r@ == v@.take(i as int),
    {
        r.push(v[i].clone());
        assert(r@ =~= v@.take(i + 1));
    }
    assert(r@ =~= v@);
    r
}

/// Whether some chain of `solutions` has at least `min_words` words.
fn any_reaches(solutions: &Vec<Vec<String>>, min_words: usize) -> (r: bool)
    ensures
        r == exists|i: int| 0 <= i < solutions.len() && #[trigger] solutions@[i].len() >= min_words,
{
    for i in 0..solutions.len()
        invariant
            forall|j: int| 0 <= j < i ==> #[trigger] solutions@[j].len() < min_words,
    {
        if solutions[i].len() >= min_words {
            return true;
        }
    }
    false
}

/// The ranking key of chain `s`: its character count, capped at `usize::MAX`.
fn rank_of(s: &Vec<String>) -> (r: usize)
    ensures
        r == rank(words_view(s@)),
{
    let mut total: usize = 0;
    for i in 0..s.len()
        invariant
            total == rank(words_view(s@.take(i as int))),
    {
        let l = s[i].as_str().unicode_len();
        proof {
            assert(words_view(s@.take(i + 1)).drop_last() =~= words_view(s@.take(i as int)));
            assert(words_view(s@.take(i + 1)).last() == s@[i as int]@);
        }
        if total > usize::MAX - l {
            total = usize::MAX;
        } else {
            total = total + l;
        }
    }
    assert(s@.take(s@.len() as int) =~= s@);
    total
}

/// Puts `x` into `out` after every chain of no greater rank, keeping `keys`
/// the ranks of `out`, in order. Returns where `x` went.
fn insert_ranked(out: &mut Vec<Vec<String>>, keys: &mut Vec<usize>, x: Vec<String>) -> (pos: usize)
    requires
        old(keys).len() == old(out).len(),
        forall|a: int| 0 <= a < old(keys).len() ==> old(keys)@[a] == rank(words_view(#[trigger] old(out)@[a]@)),
        forall|a: int, b: int| 0 <= a < b < old(keys).len() ==> old(keys)@[a] <= old(keys)@[b],
    ensures
        pos <= old(out).len(),
        final(out)@ == old(out)@.insert(pos as int, x),
        final(keys).len() == final(out).len(),
        forall|a: int| 0 <= a < final(keys).len() ==> final(keys)@[a] == rank(words_view(#[trigger] final(out)@[a]@)),
        forall|a: int, b: int| 0 <= a < b < final(keys).len() ==> final(keys)@[a] <= final(keys)@[b],
{
    let key = rank_of(&x);
    let mut pos: usize = 0;
    while pos < keys.len() && keys[pos] <= key
        invariant
            0 <= pos <= keys.len(),
            forall|a: int| 0 <= a < pos ==> keys@[a] <= key,
        decreases keys.len() - pos,
    {
        pos = pos + 1;
    }
    let ghost out0 = out@;
    let ghost keys0 = keys@;
    out.insert(pos, x);
    keys.insert(pos, key);
    proof {
        assert forall|a: int| 0 <= a < keys.len() implies keys@[a] == rank(words_view(#[trigger] out@[a]@)) by {
            if a < pos {
                assert(out@[a] == out0[a]);
            } else if a > pos {
                assert(out@[a] == out0[a - 1]);
            }
        }
        assert forall|a: int, b: int| 0 <= a < b < keys.len() implies keys@[a] <= keys@[b] by {
            if pos < keys0.len() {
                assert(keys0[pos as int] > key);
            }
            if a < pos && b > pos {
                assert(keys0[a] <= keys0[b - 1]);
            }
        }
    }
    pos
}

/// `v` ordered by `rank`, least first; chains of equal rank keep their order.
/// Also returns, for each place of the result, where its chain was in `v`,
/// and for each place of `v`, where its chain went.
fn rank_sort(v: &Vec<Vec<String>>) -> (r: (Vec<Vec<String>>, Ghost<Seq<int>>, Ghost<Seq<int>>))
    ensures
        r.0.len() == v.len(),
        ranked(r.0@),
        r.1@.len() == v.len(),
        r.2@.len() == v.len(),
        forall|j: int| 0 <= j < v.len() ==> 0 <= #[trigger] r.1@[j] < v.len() && r.0@[j]@ == v@[r.1@[j]]@,
        forall|a: int, b: int| 0 <= a < b < v.len() ==> #[trigger] r.1@[a] != #[trigger] r.1@[b],
        forall|i: int| 0 <= i < v.len() ==> 0 <= #[trigger] r.2@[i] < v.len() && r.0@[r.2@[i]]@ == v@[i]@,
{
    let mut out: Vec<Vec<String>> = Vec::new();
    let mut keys: Vec<usize> = Vec::new();
    let ghost mut src: Seq<int> = Seq::empty();
    let ghost mut dst: Seq<int> = Seq::empty();
    for k in 0..v.len()
        invariant
            keys.len() == out.len(),
            out.len() == k,
            src.len() == k,
            dst.len() == k,
            k <= v.len(),
            forall|a: int| 0 <= a < keys.len() ==> keys@[a] == rank(words_view(#[trigger] out@[a]@)),
            forall|a: int, b: int| 0 <= a < b < keys.len() ==> keys@[a] <= keys@[b],
            forall|j: int| 0 <= j < k ==> 0 <= #[trigger] src[j] < k && out@[j]@ == v@[src[j]]@,
            forall|a: int, b: int| 0 <= a < b < k ==> #[trigger] src[a] != #[trigger] src[b],
            forall|i: int| 0 <= i < k ==> 0 <= #[trigger] dst[i] < k && out@[dst[i]]@ == v@[i]@,
    {
        let x = copy_words(&v[k]);
        let ghost out0 = out@;
        let pos = insert_ranked(&mut out, &mut keys, x);
        proof {
            let src0 = src;
            let dst0 = dst;
            src = src0.insert(pos as int, k as int);
            dst = Seq::new(k as nat + 1, |i: int| if i == k { pos as int } else if dst0[i] >= pos { dst0[i] + 1 } else { dst0[i] });
            assert forall|j: int| 0 <= j < k + 1 implies 0 <= #[trigger] src[j] < k + 1 && out@[j]@ == v@[src[j]]@ by {
                if j < pos {
                    assert(out@[j] == out0[j]);
                    assert(src[j] == src0[j]);
                } else if j > pos {
                    assert(out@[j] == out0[j - 1]);
                    assert(src[j] == src0[j - 1]);
                }
            }
            assert forall|a: int, b: int| 0 <= a < b < k + 1 implies #[trigger] src[a] != #[trigger] src[b] by {
                let a0 = if a < pos { a } else { a - 1 };
                let b0 = if b < pos { b } else { b - 1 };
                if a != pos && b != pos {
                    assert(src[a] == src0[a0] && src[b] == src0[b0]);
                } else if a == pos {
                    assert(src[b] == src0[b0]);
                } else {
                    assert(src[a] == src0[a0]);
                }
            }
            assert forall|i: int| 0 <= i < k + 1 implies 0 <= #[trigger] dst[i] < k + 1 && out@[dst[i]]@ == v@[i]@ by {
                if i < k {
                    if dst0[i] < pos {
                        assert(out@[dst0[i]] == out0[dst0[i]]);
                    } else {
                        assert(out@[dst0[i] + 1] == out0[dst0[i]]);
                    }
                }
            }
        }
    }
    assert forall|i: int, j: int| 0 <= i < j < out.len() implies rank(words_view(out@[i]@)) <= rank(words_view(out@[j]@)) by {
        assert(keys@[i] <= keys@[j]);
    }
    (out, Ghost(src), Ghost(dst))
}

/// The chains of the states of `v`.
pub open spec fn chains_of(v: Seq<Game>) -> Seq<Seq<Seq<char>>> {
    v.map_values(|h: Game| h.chain())
}

/// The chains of `v`, as words.
pub open spec fn sol_views(v: Seq<Vec<String>>) -> Seq<Seq<Seq<char>>> {
    v.map_values(|s: Vec<String>| words_view(s@))
}

/// Adding an item that is not there keeps a list free of repeats.
proof fn lemma_push_fresh<T>(v: Seq<T>, c: T)
    requires
        v.no_duplicates(),
        !v.contains(c),
    ensures
        v.push(c).no_duplicates(),
{
    let u = v.push(c);
    assert forall|a: int, b: int| 0 <= a < b < u.len() implies u[a] != u[b] by {
        if b == v.len() {
            assert(u[a] == v[a]);
        } else {
            assert(u[a] == v[a] && u[b] == v[b]);
        }
    }
}

/// A child of parent `i` by word `j` differs from every chain of `others`,
/// each of which is a child of a distinct parent before it, or of the same
/// parent by an earlier word.
proof fn lemma_child_fresh(
    pc: Seq<Seq<Seq<char>>>,
    i: int,
    cv: Seq<Seq<char>>,
    j: int,
    others: Seq<Seq<Seq<char>>>,
    op: Seq<int>,
    ob: Seq<int>,
)
    requires
        0 <= i < pc.len(),
        0 <= j < cv.len(),
        pc.no_duplicates(),
        cv.no_duplicates(),
        op.len() == others.len(),
        ob.len() == others.len(),
        forall|x: int| 0 <= x < others.len() ==> 0 <= #[trigger] op[x] <= i && others[x].len() > 0
            && others[x].drop_last() == pc[op[x]]
            && (op[x] == i ==> 0 <= ob[x] < j && others[x].last() == cv[ob[x]]),
    ensures
        !others.contains(pc[i].push(cv[j])),
{
    let c = pc[i].push(cv[j]);
    if others.contains(c) {
        let x = choose|x: int| 0 <= x < others.len() && others[x] == c;
        assert(op[x] == op[x]);
        assert(c.drop_last() =~= pc[i]);
        assert(c.last() == cv[j]);
        if op[x] != i {
            assert(pc[op[x]] != pc[i]);
        } else {
            assert(cv[ob[x]] != cv[j]);
        }
    }
}

/// Growing the lists keeps what has been dealt with.
proof fn lemma_expanded_grow(
    h: Game,
    w: Seq<char>,
    s0: Seq<Vec<String>>,
    s1: Seq<Vec<String>>,
    n0: Seq<Game>,
    n1: Seq<Game>,
)
    requires
        expanded(h, w, s0, n0),
        s0.len() <= s1.len(),
        forall|i: int| 0 <= i < s0.len() ==> s1[i] == s0[i],
        n0.len() <= n1.len(),
        forall|i: int| 0 <= i < n0.len() ==> n1[i] == n0[i],
    ensures
        expanded(h, w, s1, n1),
{
    if h.used() + w.to_set() == h.board().all_chars() {
        lemma_holds_grow(s0, s1, h.chain().push(w));
    } else {
        lemma_has_grow(n0, n1, h.chain().push(w));
    }
}

/// With no word of the dictionary that can be traced on the board, no chain wins.
pub proof fn lemma_no_playable_word_no_chain(g: Game, dict: Seq<Seq<char>>, s: Seq<Seq<char>>)
    requires
        forall|j: int| 0 <= j < dict.len() ==> !g.board().spells(#[trigger] dict[j]),
    ensures
        !winning_chain(g, dict, s),
{
    reveal(legal_extension);
    let n = g.chain().len() as int;
    if winning_chain(g, dict, s) {
        let ext = s.skip(n);
        assert(dict.contains(ext[0]) && legal_after(g.board(), g.chain() + ext.take(0), ext[0]));
        let j = choose|j: int| 0 <= j < dict.len() && dict[j] == ext[0];
        assert(!g.board().spells(dict[j]));
    }
}

pub struct Solver {}

impl Solver {
    /// Searches level by level for chains of dictionary words that win `game`,
    /// adding at most `MAX_DEPTH` words to its chain, and does not go on from
    /// a chain that wins. When `min_words` is not 0, it stops before a level
    /// once some chain found has at least `min_words` words. Returns the
    /// chains found, each once, and the number of levels searched: every
    /// winning chain that the search meets within those levels is among them.
    pub fn search(game: &Game, dictionary: &Vec<String>, min_words: usize) -> (r: (Vec<Vec<String>>, usize))
        requires
            game.wf(),
        ensures
            forall|i: int| 0 <= i < r.0.len() ==> winning_chain(*game, words_view(dictionary@), words_view(#[trigger] r.0@[i]@)),
            r.1 <= MAX_DEPTH,
            sol_views(r.0@).no_duplicates(),
            forall|i: int| 0 <= i < r.0.len() ==> (#[trigger] r.0@[i]).len() <= game.chain().len() + r.1,
            min_words > 0 ==> forall|i: int| 0 <= i < r.0.len() && (#[trigger] r.0@[i]).len() >= min_words
                ==> r.0@[i].len() == game.chain().len() + r.1,
            solutions_complete(*game, words_view(dictionary@), r.0@, r.1 as int),
            r.1 < MAX_DEPTH ==> min_words > 0 && exists|i: int| 0 <= i < r.0.len() && #[trigger] r.0@[i].len() >= min_words,
    {
        let ghost dv = words_view(dictionary@);
        let ghost g = *game;
        let possible = playable_words(game.sides(), dictionary);
        let mut solutions: Vec<Vec<String>> = Vec::new();
        let mut games: Vec<Game> = Vec::new();
        games.push(game.duplicate());
        let mut level: usize = 0;
        proof {
            let h = games@[0];
            assert(h.chain().take(g.chain().len() as int) =~= g.chain());
            assert(h.chain().skip(g.chain().len() as int) =~= Seq::<Seq<char>>::empty());
            assert(legal_extension(g.board(), g.chain(), Seq::<Seq<char>>::empty(), dv)) by {
                reveal(legal_extension);
            }
            assert(candidate(g, dv, Seq::<Seq<char>>::empty()));
            assert(h.used() =~= g.used() + letters_in(Seq::<Seq<char>>::empty()));
            assert forall|ext: Seq<Seq<char>>|
                ext.len() == 0 && #[trigger] candidate(g, dv, ext) implies has_state(games@, g.chain() + ext) by {
                assert(g.chain() + ext =~= g.chain());
                assert(games@[0].chain() == g.chain());
            }
        }
        while level < MAX_DEPTH
            invariant
                g == *game,
                game.wf(),
                dv == words_view(dictionary@),
                words_view(possible@).no_duplicates(),
                forall|i: int| 0 <= i < possible.len() ==> g.board().spells(#[trigger] possible@[i]@),
                forall|i: int| 0 <= i < possible.len() ==> dv.contains(#[trigger] possible@[i]@),
                forall|w: Seq<char>| dv.contains(w) && #[trigger] g.board().spells(w) ==> words_view(possible@).contains(w),
                0 <= level <= MAX_DEPTH,
                forall|i: int| 0 <= i < games.len() ==> reached(g, dv, #[trigger] games@[i], level as int),
                forall|i: int| 0 <= i < games.len() ==> level == 0 || !won_with(g, (#[trigger] games@[i]).chain().skip(g.chain().len() as int)),
                forall|i: int| 0 <= i < solutions.len() ==> winning_chain(g, dv, words_view(#[trigger] solutions@[i]@)),
                forall|i: int| 0 <= i < solutions.len() ==> (#[trigger] solutions@[i]).len() <= g.chain().len() + level,
                frontier_complete(g, dv, games@, level as int),
                chains_of(games@).no_duplicates(),
                sol_views(solutions@).no_duplicates(),
                min_words > 0 ==> forall|i: int| 0 <= i < solutions.len() && (#[trigger] solutions@[i]).len() >= min_words
                    ==> solutions@[i].len() == g.chain().len() + level,
                solutions_complete(g, dv, solutions@, level as int),
            ensures
                level <= MAX_DEPTH,
                sol_views(solutions@).no_duplicates(),
                forall|i: int| 0 <= i < solutions.len() ==> winning_chain(g, dv, words_view(#[trigger] solutions@[i]@)),
                forall|i: int| 0 <= i < solutions.len() ==> (#[trigger] solutions@[i]).len() <= g.chain().len() + level,
                solutions_complete(g, dv, solutions@, level as int),
                level < MAX_DEPTH ==> min_words > 0 && exists|i: int| 0 <= i < solutions.len() && #[trigger] solutions@[i].len() >= min_words,
            decreases MAX_DEPTH - level,
        {
            if min_words > 0 && any_reaches(&solutions, min_words) {
                break;
            }
            let ghost sols0 = solutions@;
            proof {
                if min_words > 0 {
                    assert forall|k: int| 0 <= k < sols0.len() implies (#[trigger] sols0[k]).len() < min_words by {
                        if sols0[k].len() >= min_words {
                            assert(solutions@[k].len() >= min_words);
                        }
                    }
                }
            }
            let mut next: Vec<Game> = Vec::new();
            let ghost mut np: Seq<int> = Seq::empty();
            let ghost mut nb: Seq<int> = Seq::empty();
            let ghost mut sp: Seq<int> = Seq::empty();
            let ghost mut sb: Seq<int> = Seq::empty();
            proof {
                assert(sol_views(solutions@).skip(sols0.len() as int) =~= Seq::<Seq<Seq<char>>>::empty());
                assert(chains_of(next@) =~= Seq::<Seq<Seq<char>>>::empty());
            }
            for i in 0..games.len()
                invariant
                    g == *game,
                    game.wf(),
                    dv == words_view(dictionary@),
                    words_view(possible@).no_duplicates(),
                    forall|i: int| 0 <= i < possible.len() ==> g.board().spells(#[trigger] possible@[i]@),
                    forall|i: int| 0 <= i < possible.len() ==> dv.contains(#[trigger] possible@[i]@),
                    0 <= level < MAX_DEPTH,
                    forall|i: int| 0 <= i < games.len() ==> reached(g, dv, #[trigger] games@[i], level as int),
                    forall|i: int| 0 <= i < games.len() ==> level == 0 || !won_with(g, (#[trigger] games@[i]).chain().skip(g.chain().len() as int)),
                    forall|i: int| 0 <= i < next.len() ==> reached(g, dv, #[trigger] next@[i], level + 1),
                    forall|i: int| 0 <= i < next.len() ==> !won_with(g, (#[trigger] next@[i]).chain().skip(g.chain().len() as int)),
                    forall|i: int| 0 <= i < solutions.len() ==> winning_chain(g, dv, words_view(#[trigger] solutions@[i]@)),
                    forall|i: int| 0 <= i < solutions.len() ==> (#[trigger] solutions@[i]).len() <= g.chain().len() + level + 1,
                    sols0.len() <= solutions.len(),
                    forall|k: int| 0 <= k < sols0.len() ==> solutions@[k] == sols0[k],
                    forall|k: int| 0 <= k < sols0.len() ==> (#[trigger] sols0[k]).len() <= g.chain().len() + level,
                    min_words > 0 ==> forall|k: int| 0 <= k < sols0.len() ==> (#[trigger] sols0[k]).len() < min_words,
                    forall|k: int| sols0.len() <= k < solutions.len() ==> (#[trigger] solutions@[k]).len() == g.chain().len() + level + 1,
                    chains_of(games@).no_duplicates(),
                    chains_of(next@).no_duplicates(),
                    sol_views(solutions@).no_duplicates(),
                    np.len() == next.len(),
                    nb.len() == next.len(),
                    forall|x: int| 0 <= x < next.len() ==> 0 <= #[trigger] np[x] < i && chains_of(next@)[x].len() > 0
                        && chains_of(next@)[x].drop_last() == chains_of(games@)[np[x]],
                    sp.len() + sols0.len() == solutions.len(),
                    sb.len() == sp.len(),
                    forall|x: int| 0 <= x < sp.len() ==> 0 <= #[trigger] sp[x] < i && sol_views(solutions@).skip(sols0.len() as int)[x].len() > 0
                        && sol_views(solutions@).skip(sols0.len() as int)[x].drop_last() == chains_of(games@)[sp[x]],
                    forall|a: int, k: int|
                        0 <= a < i && 0 <= k < possible.len() && follows(games@[a].chain(), possible@[k]@)
                            ==> expanded(#[trigger] games@[a], #[trigger] possible@[k]@, solutions@, next@),
            {
                let cands = quick_filter_possible_words(&games[i], &possible);
                for j in 0..cands.len()
                    invariant
                        g == *game,
                        game.wf(),
                        dv == words_view(dictionary@),
                        words_view(possible@).no_duplicates(),
                        forall|i: int| 0 <= i < possible.len() ==> g.board().spells(#[trigger] possible@[i]@),
                        forall|i: int| 0 <= i < possible.len() ==> dv.contains(#[trigger] possible@[i]@),
                        forall|k: int| 0 <= k < cands.len() ==> follows(games@[i as int].chain(), #[trigger] cands@[k]@),
                        forall|k: int| 0 <= k < cands.len() ==> possible@.contains(#[trigger] cands@[k]),
                        0 <= i < games.len(),
                        0 <= level < MAX_DEPTH,
                        reached(g, dv, games@[i as int], level as int),
                        level == 0 || !won_with(g, games@[i as int].chain().skip(g.chain().len() as int)),
                        forall|i: int| 0 <= i < next.len() ==> reached(g, dv, #[trigger] next@[i], level + 1),
                        forall|i: int| 0 <= i < next.len() ==> !won_with(g, (#[trigger] next@[i]).chain().skip(g.chain().len() as int)),
                        forall|i: int| 0 <= i < solutions.len() ==> winning_chain(g, dv, words_view(#[trigger] solutions@[i]@)),
                        forall|i: int| 0 <= i < solutions.len() ==> (#[trigger] solutions@[i]).len() <= g.chain().len() + level + 1,
                        sols0.len() <= solutions.len(),
                        forall|k: int| 0 <= k < sols0.len() ==> solutions@[k] == sols0[k],
                        forall|k: int| 0 <= k < sols0.len() ==> (#[trigger] sols0[k]).len() <= g.chain().len() + level,
                        min_words > 0 ==> forall|k: int| 0 <= k < sols0.len() ==> (#[trigger] sols0[k]).len() < min_words,
                        forall|k: int| sols0.len() <= k < solutions.len() ==> (#[trigger] solutions@[k]).len() == g.chain().len() + level + 1,
                        words_view(cands@).no_duplicates(),
                        chains_of(games@).no_duplicates(),
                        chains_of(next@).no_duplicates(),
                        sol_views(solutions@).no_duplicates(),
                        np.len() == next.len(),
                        nb.len() == next.len(),
                        forall|x: int| 0 <= x < next.len() ==> 0 <= #[trigger] np[x] <= i && chains_of(next@)[x].len() > 0
                            && chains_of(next@)[x].drop_last() == chains_of(games@)[np[x]]
                            && (np[x] == i ==> 0 <= nb[x] < j && chains_of(next@)[x].last() == words_view(cands@)[nb[x]]),
                        sp.len() + sols0.len() == solutions.len(),
                        sb.len() == sp.len(),
                        forall|x: int| 0 <= x < sp.len() ==> 0 <= #[trigger] sp[x] <= i && sol_views(solutions@).skip(sols0.len() as int)[x].len() > 0
                            && sol_views(solutions@).skip(sols0.len() as int)[x].drop_last() == chains_of(games@)[sp[x]]
                            && (sp[x] == i ==> 0 <= sb[x] < j && sol_views(solutions@).skip(sols0.len() as int)[x].last() == words_view(cands@)[sb[x]]),
                        forall|a: int, k: int|
                            0 <= a < i && 0 <= k < possible.len() && follows(games@[a].chain(), possible@[k]@)
                                ==> expanded(#[trigger] games@[a], #[trigger] possible@[k]@, solutions@, next@),
                        forall|b: int| 0 <= b < j ==> expanded(games@[i as int], #[trigger] cands@[b]@, solutions@, next@),
                {
                    let ghost w = cands@[j as int]@;
                    let ghost s_before = solutions@;
                    let ghost n_before = next@;
                    proof {
                        let m = choose|m: int| 0 <= m < possible.len() && possible@[m] == cands@[j as int];
                        assert(g.board().spells(possible@[m]@));
                        assert(dv.contains(possible@[m]@));
                        assert forall|k: int| 0 <= k < w.len() implies games@[i as int].board().all_chars().contains(#[trigger] w[k]) by {
                            lemma_side_of_on_board(g.board(), w[k]);
                        }
                    }
                    let mut h = games[i].duplicate();
                    h.play_word(cands[j].as_str());
                    proof {
                        assert(w.to_set().intersect(games@[i as int].board().all_chars()) =~= w.to_set());
                        lemma_reached_step(g, dv, games@[i as int], level as int, w, h);
                    }
                    let ghost c = h.chain();
                    proof {
                        assert(chains_of(games@)[i as int] == games@[i as int].chain());
                        assert(words_view(cands@)[j as int] == w);
                        assert(c == chains_of(games@)[i as int].push(words_view(cands@)[j as int]));
                    }
                    if h.check_win() {
                        let s = copy_words(h.previous_words());
                        proof {
                            let n = g.chain().len() as int;
                            assert(h.chain().skip(n).len() == level + 1);
                            let fresh = sol_views(solutions@).skip(sols0.len() as int);
                            lemma_child_fresh(chains_of(games@), i as int, words_view(cands@), j as int, fresh, sp, sb);
                            if sol_views(solutions@).contains(c) {
                                let x = choose|x: int| 0 <= x < solutions.len() && sol_views(solutions@)[x] == c;
                                if x < sols0.len() {
                                    assert(solutions@[x] == sols0[x]);
                                    assert(sol_views(solutions@)[x].len() == sols0[x].len());
                                } else {
                                    assert(fresh[x - sols0.len()] == c);
                                }
                            }
                            lemma_push_fresh(sol_views(solutions@), c);
                        }
                        solutions.push(s);
                        assert(words_view(solutions@[solutions.len() - 1]@) == h.chain());
                        assert(solutions@[solutions.len() - 1].len() == h.chain().len());
                        proof {
                            assert(sol_views(solutions@) =~= sol_views(s_before).push(c));
                            assert(sol_views(solutions@).skip(sols0.len() as int) =~= sol_views(s_before).skip(sols0.len() as int).push(c));
                            sp = sp.push(i as int);
                            sb = sb.push(j as int);
                            assert(c.drop_last() =~= chains_of(games@)[i as int]);
                        }
                    } else {
                        proof {
                            let n = g.chain().len() as int;
                            assert(!(h.used() =~= h.board().all_chars()));
                            assert(!won_with(g, h.chain().skip(n)));
                        }
                        proof {
                            lemma_child_fresh(chains_of(games@), i as int, words_view(cands@), j as int, chains_of(next@), np, nb);
                            lemma_push_fresh(chains_of(next@), c);
                        }
                        next.push(h);
                        assert(next@[next.len() - 1] == h);
                        proof {
                            assert(chains_of(next@) =~= chains_of(n_before).push(c));
                            np = np.push(i as int);
                            nb = nb.push(j as int);
                            assert(c.drop_last() =~= chains_of(games@)[i as int]);
                        }
                    }
                    proof {
                        assert(expanded(games@[i as int], w, solutions@, next@));
                        assert forall|a: int, k: int|
                            0 <= a < i && 0 <= k < possible.len() && follows(games@[a].chain(), possible@[k]@)
                                implies expanded(#[trigger] games@[a], #[trigger] possible@[k]@, solutions@, next@) by {
                            lemma_expanded_grow(games@[a], possible@[k]@, s_before, solutions@, n_before, next@);
                        }
                        assert forall|b: int| 0 <= b < j + 1 implies expanded(games@[i as int], #[trigger] cands@[b]@, solutions@, next@) by {
                            if b < j {
                                lemma_expanded_grow(games@[i as int], cands@[b]@, s_before, solutions@, n_before, next@);
                            }
                        }
                    }
                }
                proof {
                    assert forall|a: int, k: int|
                        0 <= a < i + 1 && 0 <= k < possible.len() && follows(games@[a].chain(), possible@[k]@)
                            implies expanded(#[trigger] games@[a], #[trigger] possible@[k]@, solutions@, next@) by {
                        if a == i {
                            let b = choose|b: int| 0 <= b < cands.len() && cands@[b] == possible@[k];
                            assert(expanded(games@[i as int], cands@[b]@, solutions@, next@));
                        }
                    }
                }
            }
            proof {
                assert forall|ext: Seq<Seq<char>>|
                    ext.len() == level + 1 && #[trigger] candidate(g, dv, ext) && (level + 1 == 0 || !won_with(g, ext))
                        implies has_state(next@, g.chain() + ext) by {
                    lemma_level_complete(g, dv, games@, possible@, solutions@, next@, level as int, ext);
                }
                assert forall|ext: Seq<Seq<char>>|
                    1 <= ext.len() <= level + 1 && #[trigger] candidate(g, dv, ext) && won_with(g, ext)
                        implies holds_chain(solutions@, g.chain() + ext) by {
                    if ext.len() == level + 1 {
                        lemma_level_complete(g, dv, games@, possible@, solutions@, next@, level as int, ext);
                    } else {
                        lemma_holds_grow(sols0, solutions@, g.chain() + ext);
                    }
                }
            }
            proof {
                assert forall|k: int| 0 <= k < solutions.len() && min_words > 0 && (#[trigger] solutions@[k]).len() >= min_words
                    implies solutions@[k].len() == g.chain().len() + level + 1 by {
                    if k < sols0.len() {
                        assert(solutions@[k] == sols0[k]);
                    }
                }
            }
            games = next;
            level = level + 1;
        }
        let r = (solutions, level);
        proof {
            if level < MAX_DEPTH {
                let i = choose|i: int| 0 <= i < r.0.len() && #[trigger] r.0@[i].len() >= min_words;
                assert(r.0@[i].len() >= min_words);
            }
        }
        r
    }

    /// Every chain of dictionary words, adding at most `MAX_DEPTH` words to
    /// the chain of `game`, that wins it, least characters first. The search
    /// stops early once a chain of at least `min_words` words has been found,
    /// unless `min_words` is 0. Each chain comes once, and no shorter run of
    /// its first words wins; every winning chain that the search meets up to
    /// the level where it stopped is among the result.
    pub fn solve_game(game: &Game, dictionary: &Vec<String>, min_words: usize) -> (r: Vec<Vec<String>>)
        requires
            game.wf(),
        ensures
            forall|i: int| 0 <= i < r.len() ==> winning_chain(*game, words_view(dictionary@), words_view(#[trigger] r@[i]@)),
            ranked(r@),
            totals_fit(r@) ==> ordered_by_total(r@),
            sol_views(r@).no_duplicates(),
            (forall|j: int| 0 <= j < dictionary.len() ==> !game.board().spells(#[trigger] dictionary@[j]@)) ==> r.len() == 0,
            (min_words == 0 || forall|i: int| 0 <= i < r.len() ==> #[trigger] r@[i].len() < min_words)
                ==> solutions_complete(*game, words_view(dictionary@), r@, MAX_DEPTH as int),
            exists|l: int|
                0 <= l <= MAX_DEPTH && #[trigger] solutions_complete(*game, words_view(dictionary@), r@, l)
                    && (forall|i: int| 0 <= i < r.len() ==> (#[trigger] r@[i]).len() <= game.chain().len() + l)
                    && (l < MAX_DEPTH ==> min_words > 0 && exists|i: int| 0 <= i < r.len() && #[trigger] r@[i].len() >= min_words)
                    && (min_words > 0 ==> forall|i: int| 0 <= i < r.len() && #[trigger] r@[i].len() >= min_words
                        ==> r@[i].len() == game.chain().len() + l),
    {
        let (found, levels) = Self::search(game, dictionary, min_words);
        let (r, Ghost(src), Ghost(dst)) = rank_sort(&found);
        assert forall|j: int| 0 <= j < r.len() implies winning_chain(*game, words_view(dictionary@), words_view(#[trigger] r@[j]@)) by {
            assert(r@[j]@ == found@[src[j]]@);
            assert(winning_chain(*game, words_view(dictionary@), words_view(found@[src[j]]@)));
        }
        proof {
            if totals_fit(r@) {
                lemma_ranked_by_total(r@);
            }
            assert forall|a: int, b: int| 0 <= a < b < r.len() implies sol_views(r@)[a] != sol_views(r@)[b] by {
                assert(r@[a]@ == found@[src[a]]@);
                assert(r@[b]@ == found@[src[b]]@);
                assert(sol_views(found@)[src[a]] != sol_views(found@)[src[b]]);
            }
            let l = levels as int;
            assert forall|ext: Seq<Seq<char>>|
                1 <= ext.len() <= l && #[trigger] candidate(*game, words_view(dictionary@), ext) && won_with(*game, ext)
                    implies holds_chain(r@, game.chain() + ext) by {
                let i = choose|i: int| 0 <= i < found.len() && words_view(#[trigger] found@[i]@) == game.chain() + ext;
                assert(r@[dst[i]]@ == found@[i]@);
                assert(words_view(r@[dst[i]]@) == game.chain() + ext);
            }
            assert(solutions_complete(*game, words_view(dictionary@), r@, l));
            assert forall|i: int| 0 <= i < r.len() implies (#[trigger] r@[i]).len() <= game.chain().len() + l by {
                assert(r@[i]@ == found@[src[i]]@);
                assert(found@[src[i]].len() <= game.chain().len() + l);
            }
            assert forall|i: int| 0 <= i < r.len() && min_words > 0 && #[trigger] r@[i].len() >= min_words
                implies r@[i].len() == game.chain().len() + l by {
                assert(r@[i]@ == found@[src[i]]@);
                assert(found@[src[i]].len() == r@[i].len());
            }
            if l < MAX_DEPTH {
                let i = choose|i: int| 0 <= i < found.len() && #[trigger] found@[i].len() >= min_words;
                assert(r@[dst[i]]@ == found@[i]@);
                assert(r@[dst[i]].len() >= min_words);
            }
            if forall|j: int| 0 <= j < dictionary.len() ==> !game.board().spells(#[trigger] dictionary@[j]@) {
                assert forall|j: int| 0 <= j < words_view(dictionary@).len() implies !game.board().spells(#[trigger] words_view(dictionary@)[j]) by {
                    assert(words_view(dictionary@)[j] == dictionary@[j]@);
                }
                if r.len() > 0 {
                    lemma_no_playable_word_no_chain(*game, words_view(dictionary@), words_view(r@[0]@));
                }
            }
            if min_words == 0 || forall|i: int| 0 <= i < r.len() ==> #[trigger] r@[i].len() < min_words {
                if levels < MAX_DEPTH {
                    let i = choose|i: int| 0 <= i < found.len() && #[trigger] found@[i].len() >= min_words;
                    assert(r@[dst[i]]@ == found@[i]@);
                    assert(r@[dst[i]].len() >= min_words);
                }
                assert forall|ext: Seq<Seq<char>>|
                    1 <= ext.len() <= MAX_DEPTH && #[trigger] candidate(*game, words_view(dictionary@), ext) && won_with(*game, ext)
                        implies holds_chain(r@, game.chain() + ext) by {
                    let i = choose|i: int| 0 <= i < found.len() && words_view(#[trigger] found@[i]@) == game.chain() + ext;
                    assert(r@[dst[i]]@ == found@[i]@);
                    assert(words_view(r@[dst[i]]@) == game.chain() + ext);
                }
            }
        }
        r
    }

    /// Every chain of dictionary words, adding at most `MAX_DEPTH` words to
    /// the chain of `game`, that wins it, least characters first: each winning
    /// chain that the search meets is among the result.
    pub fn solve(game: &Game, dictionary: &Vec<String>) -> (r: Vec<Vec<String>>)
        requires
            game.wf(),
        ensures
            forall|i: int| 0 <= i < r.len() ==> winning_chain(*game, words_view(dictionary@), words_view(#[trigger] r@[i]@)),
            ranked(r@),
            totals_fit(r@) ==> ordered_by_total(r@),
            sol_views(r@).no_duplicates(),
            (forall|j: int| 0 <= j < dictionary.len() ==> !game.board().spells(#[trigger] dictionary@[j]@)) ==> r.len() == 0,
            solutions_complete(*game, words_view(dictionary@), r@, MAX_DEPTH as int),
    {
        Self::solve_game(game, dictionary, 0)
    }
}

} // verus!
