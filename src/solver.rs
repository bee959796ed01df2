//! Depth-first search over the placements of each word in turn.
use vstd::prelude::*;

use rand::rngs::StdRng;

use crate::board::Board;
use crate::candidates::{shuffled_directions, shuffled_range};
use crate::error::SolveError;
use crate::geometry::{cell_in_grid, fits, in_grid, step, Dir, Pos};
use crate::placement::{
    agree, check_collision, consistent, covered, extendable, is_arrangement, lemma_free_iff_consistent,
    lemma_shows_after, shows, solvable, Anchor, PlacedWord,
};

verus! {

/// A complete placement of the words together with the board they fill.
#[derive(Debug)]
pub struct Solution {
    pub placed_words: Vec<PlacedWord>,
    pub board: Board,
}

/// The letters of each word.
pub open spec fn letters_of(words: Seq<String>) -> Seq<Seq<char>> {
    words.map_values(|s: String| s@)
}

/// The anchor of each placed word.
pub open spec fn anchors_of(ps: Seq<PlacedWord>) -> Seq<Anchor> {
    ps.map_values(|p: PlacedWord| (p.position, p.direction))
}

/// The letters of each placed word.
pub open spec fn placed_letters(ps: Seq<PlacedWord>) -> Seq<Seq<char>> {
    ps.map_values(|p: PlacedWord| p.word@)
}

/// Laying the next word at `a` after `prefix` leads to no full arrangement.
pub open spec fn dead(words: Seq<Seq<char>>, prefix: Seq<Anchor>, w: int, h: int, a: Anchor) -> bool {
    !extendable(words, prefix.push(a), w, h)
}

impl Solution {
    /// This solution places `words`, in order, consistently on a `w` by `h`
    /// board, and its board holds exactly their letters.
    pub open spec fn solves(self, words: Seq<Seq<char>>, w: int, h: int) -> bool {
        &&& self.board.wf()
        &&& self.board.w() == w
        &&& self.board.h() == h
        &&& placed_letters(self.placed_words@) == words
        &&& is_arrangement(words, anchors_of(self.placed_words@), w, h)
        &&& shows(self.board, words, anchors_of(self.placed_words@))
    }

    /// No word placed yet, on an empty `width` by `height` board.
    pub fn new(width: isize, height: isize) -> (r: Result<Solution, SolveError>)
        requires
            width > 0 && height > 0 ==> width * height <= usize::MAX,
        ensures
            r is Err <==> (width <= 0 || height <= 0),
            r is Err ==> r == Err::<Solution, SolveError>(SolveError::InvalidDimensions),
            r matches Ok(s) ==> {
                &&& s.placed_words@.len() == 0
                &&& s.board.wf()
                &&& s.board.w() == width
                &&& s.board.h() == height
                &&& forall|x: int, y: int|
                    in_grid(x, y, width as int, height as int) ==> #[trigger] s.board.at(x, y) is None
            },
    {
        match Board::new(width, height) {
            Ok(board) => Ok(Solution { placed_words: Vec::new(), board }),
            Err(e) => Err(e),
        }
    }
}

/// Every letter of every word placed by a solution lies on the board.
pub proof fn lemma_spans_in_bounds(sol: Solution, words: Seq<Seq<char>>, w: int, h: int)
    requires
        sol.solves(words, w, h),
    ensures
        forall|k: int, i: int|
            0 <= k < sol.placed_words@.len() && 0 <= i < sol.placed_words@[k].word@.len()
                ==> #[trigger] cell_in_grid(
                step(sol.placed_words@[k].position, sol.placed_words@[k].direction, i),
                w,
                h,
            ),
{
    let ps = sol.placed_words@;
    let anchors = anchors_of(ps);
    assert forall|k: int, i: int|
        0 <= k < ps.len() && 0 <= i < ps[k].word@.len() implies #[trigger] cell_in_grid(
        step(ps[k].position, ps[k].direction, i),
        w,
        h,
    ) by {
        assert(anchors[k] == (ps[k].position, ps[k].direction));
        assert(placed_letters(ps)[k] == ps[k].word@);
        assert(fits(anchors[k].0, anchors[k].1, words[k].len() as int, w, h));
    }
}

/// Where two words placed by a solution share a cell, both lay the same
/// letter there, and the board holds that letter.
pub proof fn lemma_shared_cells_agree(sol: Solution, words: Seq<Seq<char>>, w: int, h: int)
    requires
        sol.solves(words, w, h),
    ensures
        forall|k: int, l: int, i: int, j: int|
            #![trigger step(sol.placed_words@[k].position, sol.placed_words@[k].direction, i), step(sol.placed_words@[l].position, sol.placed_words@[l].direction, j)]
            0 <= k < sol.placed_words@.len() && 0 <= l < sol.placed_words@.len() && 0 <= i
                < sol.placed_words@[k].word@.len() && 0 <= j < sol.placed_words@[l].word@.len()
                && step(sol.placed_words@[k].position, sol.placed_words@[k].direction, i) == step(
                sol.placed_words@[l].position,
                sol.placed_words@[l].direction,
                j,
            ) ==> {
                &&& sol.placed_words@[k].word@[i] == sol.placed_words@[l].word@[j]
                &&& sol.board.at(
                    step(sol.placed_words@[k].position, sol.placed_words@[k].direction, i).0,
                    step(sol.placed_words@[k].position, sol.placed_words@[k].direction, i).1,
                ) == Some(sol.placed_words@[k].word@[i])
            },
{
    let ps = sol.placed_words@;
    let anchors = anchors_of(ps);
    assert forall|k: int, l: int, i: int, j: int|
        #![trigger step(ps[k].position, ps[k].direction, i), step(ps[l].position, ps[l].direction, j)]
        0 <= k < ps.len() && 0 <= l < ps.len() && 0 <= i < ps[k].word@.len() && 0 <= j
            < ps[l].word@.len() && step(ps[k].position, ps[k].direction, i) == step(
            ps[l].position,
            ps[l].direction,
            j,
        ) implies {
        &&& ps[k].word@[i] == ps[l].word@[j]
        &&& sol.board.at(
            step(ps[k].position, ps[k].direction, i).0,
            step(ps[k].position, ps[k].direction, i).1,
        ) == Some(ps[k].word@[i])
    } by {
        assert(anchors.len() == ps.len());
        assert(anchors[k] == (ps[k].position, ps[k].direction));
        assert(anchors[l] == (ps[l].position, ps[l].direction));
        assert(placed_letters(ps)[k] == ps[k].word@);
        assert(placed_letters(ps)[l] == ps[l].word@);
        assert(agree(words[k], anchors[k], words[l], anchors[l]));
        assert(step(anchors[k].0, anchors[k].1, i) == step(ps[k].position, ps[k].direction, i));
        assert(step(anchors[l].0, anchors[l].1, j) == step(ps[l].position, ps[l].direction, j));
        assert(ps[k].word@[i] == ps[l].word@[j]);
    }
}

/// A prefix of a consistent arrangement is consistent.
pub proof fn lemma_prefix_consistent(words: Seq<Seq<char>>, full: Seq<Anchor>, m: int, w: int, h: int)
    requires
        consistent(words, full, w, h),
        0 <= m <= full.len(),
    ensures
        consistent(words, full.subrange(0, m), w, h),
{
    let p = full.subrange(0, m);
    assert forall|k: int| 0 <= k < m implies #[trigger] p[k] == full[k] by {}
    assert forall|k: int, l: int| 0 <= k < p.len() && 0 <= l < p.len() implies #[trigger] agree(
        words[k],
        p[k],
        words[l],
        p[l],
    ) by {
        assert(agree(words[k], full[k], words[l], full[l]));
    }
    assert forall|k: int| 0 <= k < p.len() implies #[trigger] fits(
        p[k].0,
        p[k].1,
        words[k].len() as int,
        w,
        h,
    ) by {
        assert(fits(full[k].0, full[k].1, words[k].len() as int, w, h));
    }
}

/// An inconsistent prefix has no consistent completion.
proof fn lemma_dead_if_inconsistent(words: Seq<Seq<char>>, prefix: Seq<Anchor>, w: int, h: int, a: Anchor)
    requires
        prefix.len() < words.len(),
        !consistent(words, prefix.push(a), w, h),
    ensures
        dead(words, prefix, w, h, a),
{
    let p = prefix.push(a);
    if extendable(words, p, w, h) {
        let full = choose|full: Seq<Anchor>|
            #[trigger] is_arrangement(words, full, w, h) && full.subrange(0, p.len() as int) == p;
        lemma_prefix_consistent(words, full, p.len() as int, w, h);
    }
}

/// When every start cell and direction of the next word is a dead end, the
/// prefix has no completion.
proof fn lemma_exhausted(words: Seq<Seq<char>>, prefix: Seq<Anchor>, w: int, h: int)
    requires
        prefix.len() < words.len(),
        words[prefix.len() as int].len() >= 1,
        forall|x: isize, y: isize, d: Dir|
            0 <= x < w && 0 <= y < h ==> #[trigger] dead(words, prefix, w, h, (Pos { x, y }, d)),
    ensures
        !extendable(words, prefix, w, h),
{
    let t = prefix.len() as int;
    if extendable(words, prefix, w, h) {
        let full = choose|full: Seq<Anchor>|
            #[trigger] is_arrangement(words, full, w, h) && full.subrange(0, t) == prefix;
        let a = full[t];
        assert(fits(a.0, a.1, words[t].len() as int, w, h));
        assert(cell_in_grid(step(a.0, a.1, 0), w, h));
        assert(full.subrange(0, t + 1) =~= prefix.push(a));
        assert(a == (Pos { x: a.0.x, y: a.0.y }, a.1));
        assert(dead(words, prefix, w, h, (Pos { x: a.0.x, y: a.0.y }, a.1)));
    }
}

/// Places words `t ..` after the anchors already chosen, trying every start
/// cell and direction in a random order. On success `anchors` holds a full
/// arrangement and the board it fills is returned; otherwise `anchors` is as
/// it was and no completion of it exists.
fn backtrack(
    letters: &Vec<Vec<char>>,
    words: Ghost<Seq<Seq<char>>>,
    t: usize,
    board: &Board,
    anchors: &mut Vec<Anchor>,
    rng: &mut StdRng,
) -> (r: Option<Board>)
    requires
        letters@.len() == words@.len(),
        forall|k: int|
            0 <= k < words@.len() ==> #[trigger] letters@[k]@ == words@[k] && words@[k].len() >= 1,
        board.wf(),
        old(anchors)@.len() == t,
        consistent(words@, old(anchors)@, board.w(), board.h()),
        shows(*board, words@, old(anchors)@),
    ensures
        r is Some <==> extendable(words@, old(anchors)@, board.w(), board.h()),
        r is None ==> final(anchors)@ == old(anchors)@,
        r matches Some(b) ==> {
            &&& b.wf()
            &&& b.w() == board.w()
            &&& b.h() == board.h()
            &&& final(anchors)@.subrange(0, t as int) == old(anchors)@
            &&& is_arrangement(words@, final(anchors)@, board.w(), board.h())
            &&& shows(b, words@, final(anchors)@)
        },
    decreases words@.len() - t,
{
    let ghost w = board.w();
    let ghost h = board.h();
    let ghost prefix = anchors@;
    let n = letters.len();
    if t == n {
        assert(anchors@.subrange(0, t as int) =~= prefix);
        assert(is_arrangement(words@, prefix, w, h));
        let b = board.snapshot();
        proof {
            assert forall|k: int, i: int|
                #![trigger step(prefix[k].0, prefix[k].1, i), words@[k]]
                0 <= k < prefix.len() && 0 <= i < words@[k].len() implies b.at(
                step(prefix[k].0, prefix[k].1, i).0,
                step(prefix[k].0, prefix[k].1, i).1,
            ) == Some(words@[k][i]) by {}
        }
        return Some(b);
    }
    let word = &letters[t];
    proof {
        board.lemma_dims();
    }
    let xs = shuffled_range(board.width(), rng);
    let mut xi: usize = 0;
    while xi < xs.len()
        invariant
            letters@.len() == words@.len(),
            forall|k: int|
                0 <= k < words@.len() ==> #[trigger] letters@[k]@ == words@[k] && words@[k].len()
                    >= 1,
            board.wf(),
            w == board.w(),
            h == board.h(),
            t < words@.len(),
            n == letters@.len(),
            prefix.len() == t,
            word@ == words@[t as int],
            word@.len() >= 1,
            0 < w <= isize::MAX,
            0 < h <= isize::MAX,
            anchors@ == prefix,
            old(anchors)@ == prefix,
            consistent(words@, prefix, w, h),
            shows(*board, words@, prefix),
            xs@.len() == w,
            forall|x: isize| #[trigger] xs@.contains(x) <==> 0 <= x < w,
            forall|i: int, y: isize, d: Dir|
                0 <= i < xi && 0 <= y < h ==> #[trigger] dead(
                    words@,
                    prefix,
                    w,
                    h,
                    (Pos { x: xs@[i], y }, d),
                ),
        decreases xs@.len() - xi,
    {
        let x = xs[xi];
        let ys = shuffled_range(board.height(), rng);
        let mut yi: usize = 0;
        while yi < ys.len()
            invariant
                letters@.len() == words@.len(),
                forall|k: int|
                    0 <= k < words@.len() ==> #[trigger] letters@[k]@ == words@[k]
                        && words@[k].len() >= 1,
                board.wf(),
                w == board.w(),
                h == board.h(),
                t < words@.len(),
                n == letters@.len(),
                prefix.len() == t,
                word@ == words@[t as int],
                word@.len() >= 1,
                0 < w <= isize::MAX,
                0 < h <= isize::MAX,
                anchors@ == prefix,
                old(anchors)@ == prefix,
                consistent(words@, prefix, w, h),
                shows(*board, words@, prefix),
                ys@.len() == h,
                forall|y: isize| #[trigger] ys@.contains(y) <==> 0 <= y < h,
                forall|j: int, d: Dir|
                    0 <= j < yi ==> #[trigger] dead(
                        words@,
                        prefix,
                        w,
                        h,
                        (Pos { x, y: ys@[j] }, d),
                    ),
            decreases ys@.len() - yi,
        {
            let y = ys[yi];
            let ds = shuffled_directions(rng);
            let mut di: usize = 0;
            while di < ds.len()
                invariant
                    letters@.len() == words@.len(),
                    forall|k: int|
                        0 <= k < words@.len() ==> #[trigger] letters@[k]@ == words@[k]
                            && words@[k].len() >= 1,
                    board.wf(),
                    w == board.w(),
                    h == board.h(),
                    t < words@.len(),
                    n == letters@.len(),
                    prefix.len() == t,
                    word@ == words@[t as int],
                    word@.len() >= 1,
                    0 < w <= isize::MAX,
                    0 < h <= isize::MAX,
                    anchors@ == prefix,
                    old(anchors)@ == prefix,
                    consistent(words@, prefix, w, h),
                    shows(*board, words@, prefix),
                    forall|l: int|
                        0 <= l < di ==> #[trigger] dead(
                            words@,
                            prefix,
                            w,
                            h,
                            (Pos { x, y }, ds@[l]),
                        ),
                decreases ds@.len() - di,
            {
                let d = ds[di];
                let pos = Pos { x, y };
                let ghost a: Anchor = (pos, d);
                if board.span_in_bounds(pos, d, word.len()) {
                    match check_collision(board, word, pos, d) {
                        Some(nb) => {
                            proof {
                                lemma_free_iff_consistent(*board, words@, prefix, a);
                                lemma_shows_after(*board, nb, words@, prefix, a);
                            }
                            anchors.push((pos, d));
                            match backtrack(letters, words, t + 1, &nb, anchors, rng) {
                                Some(b) => {
                                    proof {
                                        let f = anchors@;
                                        assert(f.subrange(0, t as int) =~= f.subrange(
                                            0,
                                            t + 1,
                                        ).subrange(0, t as int));
                                        assert(prefix.push(a).subrange(0, t as int) =~= prefix);
                                        assert(f.subrange(0, t + 1) == prefix.push(a));
                                        assert(f.subrange(0, t as int) == prefix);
                                        assert(is_arrangement(words@, f, w, h));
                                    }
                                    return Some(b);
                                },
                                None => {
                                    anchors.pop();
                                    assert(anchors@ =~= prefix);
                                },
                            }
                        },
                        None => {
                            proof {
                                lemma_free_iff_consistent(*board, words@, prefix, a);
                                lemma_dead_if_inconsistent(words@, prefix, w, h, a);
                            }
                        },
                    }
                } else {
                    proof {
                        assert(prefix.push(a)[t as int] == a);
                        lemma_dead_if_inconsistent(words@, prefix, w, h, a);
                    }
                }
                di = di + 1;
            }
            proof {
                assert forall|d: Dir| #[trigger] dead(words@, prefix, w, h, (Pos { x, y }, d)) by {
                    assert(ds@.contains(d));
                    let l = choose|l: int| 0 <= l < ds@.len() && ds@[l] == d;
                    assert(dead(words@, prefix, w, h, (Pos { x, y }, ds@[l])));
                }
            }
            yi = yi + 1;
        }
        proof {
            assert forall|y: isize, d: Dir|
                0 <= y < h implies #[trigger] dead(words@, prefix, w, h, (Pos { x, y }, d)) by {
                assert(ys@.contains(y));
                let j = choose|j: int| 0 <= j < ys@.len() && ys@[j] == y;
                assert(dead(words@, prefix, w, h, (Pos { x, y: ys@[j] }, d)));
            }
        }
        xi = xi + 1;
    }
    proof {
        assert forall|x: isize, y: isize, d: Dir|
            0 <= x < w && 0 <= y < h implies #[trigger] dead(
            words@,
            prefix,
            w,
            h,
            (Pos { x, y }, d),
        ) by {
            assert(xs@.contains(x));
            let i = choose|i: int| 0 <= i < xs@.len() && xs@[i] == x;
            assert(dead(words@, prefix, w, h, (Pos { x: xs@[i], y }, d)));
        }
        lemma_exhausted(words@, prefix, w, h);
    }
    None
}

/// The letters of `s`, in order.
fn letters_from(s: &String) -> (r: Vec<char>)
    ensures
        r@ == s@,
{
    let text = s.as_str();
    let n = text.unicode_len();
    let mut r: Vec<char> = Vec::new();
    let mut i: usize = 0;
    while i < n
        invariant
            i <= n,
            n == text@.len(),
            text@ == s@,
            r@ == s@.subrange(0, i as int),
        decreases n - i,
    {
        r.push(text.get_char(i));
        i = i + 1;
    }
    assert(r@ =~= s@);
    r
}

/// Places every word of `words`, in the order given, on a `width` by
/// `height` grid, trying start cells and directions in an order drawn from
/// `rng`. The first complete consistent arrangement found is returned.
/// Fails with `InvalidDimensions` when a dimension is not positive, else with
/// `EmptyWord` when a word has no letters, else with `NoSolutionFound` exactly
/// when no arrangement of the words exists.
pub fn solve(words: &Vec<String>, width: isize, height: isize, rng: &mut StdRng) -> (r: Result<
    Solution,
    SolveError,
>)
    requires
        width > 0 && height > 0 ==> width * height <= usize::MAX,
    ensures
        (r == Err::<Solution, SolveError>(SolveError::InvalidDimensions)) <==> (width <= 0 || height
            <= 0),
        (r == Err::<Solution, SolveError>(SolveError::EmptyWord)) <==> (width > 0 && height > 0
            && exists|k: int| 0 <= k < words@.len() && #[trigger] words@[k]@.len() == 0),
        (r == Err::<Solution, SolveError>(SolveError::NoSolutionFound)) <==> (width > 0 && height
            > 0 && (forall|k: int| 0 <= k < words@.len() ==> #[trigger] words@[k]@.len() > 0)
            && !solvable(letters_of(words@), width as int, height as int)),
        r matches Ok(sol) ==> {
            &&& sol.placed_words@.len() == words@.len()
            &&& forall|k: int| 0 <= k < words@.len() ==> #[trigger] sol.placed_words@[k].word@ == words@[k]@
            &&& sol.solves(letters_of(words@), width as int, height as int)
        },
{
    let start = match Solution::new(width, height) {
        Ok(s) => s,
        Err(e) => {
            return Err(e);
        },
    };
    let ghost ws = letters_of(words@);
    let mut letters: Vec<Vec<char>> = Vec::new();
    let mut k: usize = 0;
    while k < words.len()
        invariant
            k <= words@.len(),
            ws == letters_of(words@),
            letters@.len() == k,
            forall|j: int| 0 <= j < k ==> #[trigger] letters@[j]@ == ws[j] && ws[j].len() >= 1,
            forall|j: int| 0 <= j < k ==> #[trigger] words@[j]@.len() > 0,
            width > 0,
            height > 0,
            start.board.wf(),
            start.board.w() == width,
            start.board.h() == height,
            forall|x: int, y: int|
                in_grid(x, y, width as int, height as int) ==> #[trigger] start.board.at(x, y) is None,
        decreases words@.len() - k,
    {
        let cs = letters_from(&words[k]);
        assert(ws[k as int] == words@[k as int]@);
        if cs.len() == 0 {
            assert(words@[k as int]@.len() == 0);
            return Err(SolveError::EmptyWord);
        }
        letters.push(cs);
        k = k + 1;
    }
    let board = start.board;
    let mut anchors: Vec<Anchor> = Vec::new();
    proof {
        assert(anchors@.subrange(0, 0) =~= anchors@);
        assert forall|x: int, y: int|
            in_grid(x, y, board.w(), board.h()) && !covered(ws, anchors@, x, y) implies #[trigger] board.at(x, y)
            is None by {}
    }
    match backtrack(&letters, Ghost(ws), 0, &board, &mut anchors, rng) {
        None => {
            proof {
                if solvable(ws, width as int, height as int) {
                    let full = choose|full: Seq<Anchor>| #[trigger] is_arrangement(ws, full, width as int, height as int);
                    assert(full.subrange(0, 0) =~= Seq::<Anchor>::empty());
                }
            }
            Err(SolveError::NoSolutionFound)
        },
        Some(b) => {
            let mut placed: Vec<PlacedWord> = Vec::new();
            let mut i: usize = 0;
            while i < anchors.len()
                invariant
                    i <= anchors@.len(),
                    anchors@.len() == words@.len(),
                    ws == letters_of(words@),
                    placed@.len() == i,
                    forall|j: int| 0 <= j < i ==> #[trigger] placed@[j].word@ == words@[j]@,
                    forall|j: int| 0 <= j < i ==> (#[trigger] placed@[j]).position == anchors@[j].0,
                    forall|j: int| 0 <= j < i ==> (#[trigger] placed@[j]).direction == anchors@[j].1,
                decreases anchors@.len() - i,
            {
                let (position, direction) = anchors[i];
                placed.push(PlacedWord { word: words[i].clone(), position, direction });
                i = i + 1;
            }
            assert(anchors_of(placed@) =~= anchors@);
            assert(placed_letters(placed@) =~= ws);
            Ok(Solution { placed_words: placed, board: b })
        },
    }
}

} // verus!
