//! Placed words, the arrangement model, and the atomic collision check.
use vstd::prelude::*;

use crate::board::Board;
use crate::geometry::{
    cell_in_grid, fits, in_grid, lemma_step_bounded, lemma_step_injective, step, Dir, Pos,
};

verus! {

/// A word committed to a start cell and a direction.
#[derive(Debug)]
pub struct PlacedWord {
    pub word: String,
    pub position: Pos,
    pub direction: Dir,
}

/// Where a word starts and the direction it runs in.
pub type Anchor = (Pos, Dir);

/// Word `a` laid at `p` and word `b` laid at `q` agree on every cell they share.
pub open spec fn agree(a: Seq<char>, p: Anchor, b: Seq<char>, q: Anchor) -> bool {
    forall|i: int, j: int|
        #![trigger step(p.0, p.1, i), step(q.0, q.1, j)]
        0 <= i < a.len() && 0 <= j < b.len() && step(p.0, p.1, i) == step(q.0, q.1, j) ==> a[i]
            == b[j]
}

/// The first `anchors.len()` words, laid at their anchors, lie in the `w` by
/// `h` grid and agree pairwise.
pub open spec fn consistent(words: Seq<Seq<char>>, anchors: Seq<Anchor>, w: int, h: int) -> bool {
    &&& anchors.len() <= words.len()
    &&& forall|k: int|
        0 <= k < anchors.len() ==> #[trigger] fits(
            anchors[k].0,
            anchors[k].1,
            words[k].len() as int,
            w,
            h,
        )
    &&& forall|k: int, l: int|
        0 <= k < anchors.len() && 0 <= l < anchors.len() ==> #[trigger] agree(
            words[k],
            anchors[k],
            words[l],
            anchors[l],
        )
}

/// `anchors` gives every word a place, and the places are consistent.
pub open spec fn is_arrangement(words: Seq<Seq<char>>, anchors: Seq<Anchor>, w: int, h: int) -> bool {
    &&& anchors.len() == words.len()
    &&& consistent(words, anchors, w, h)
}

/// Some full arrangement of `words` begins with `prefix`.
pub open spec fn extendable(words: Seq<Seq<char>>, prefix: Seq<Anchor>, w: int, h: int) -> bool {
    exists|full: Seq<Anchor>|
        #[trigger] is_arrangement(words, full, w, h) && full.subrange(0, prefix.len() as int)
            == prefix
}

/// Some full arrangement of `words` exists.
pub open spec fn solvable(words: Seq<Seq<char>>, w: int, h: int) -> bool {
    exists|full: Seq<Anchor>| #[trigger] is_arrangement(words, full, w, h)
}

/// Letter `i` of word `k` is laid on cell `(x, y)`.
pub open spec fn lays(words: Seq<Seq<char>>, anchors: Seq<Anchor>, k: int, i: int, x: int, y: int) -> bool {
    &&& 0 <= k < anchors.len()
    &&& 0 <= i < words[k].len()
    &&& step(anchors[k].0, anchors[k].1, i) == (x, y)
}

/// Some placed word covers cell `(x, y)`.
pub open spec fn covered(words: Seq<Seq<char>>, anchors: Seq<Anchor>, x: int, y: int) -> bool {
    exists|k: int, i: int| #[trigger] lays(words, anchors, k, i, x, y)
}

/// `b` holds exactly the letters of the placed words: each covered cell the
/// letter laid on it, each other cell nothing.
pub open spec fn shows(b: Board, words: Seq<Seq<char>>, anchors: Seq<Anchor>) -> bool {
    &&& forall|k: int, i: int|
        #![trigger step(anchors[k].0, anchors[k].1, i), words[k]]
        0 <= k < anchors.len() && 0 <= i < words[k].len() ==> b.at(
            step(anchors[k].0, anchors[k].1, i).0,
            step(anchors[k].0, anchors[k].1, i).1,
        ) == Some(words[k][i])
    &&& forall|x: int, y: int|
        in_grid(x, y, b.w(), b.h()) && !covered(words, anchors, x, y) ==> #[trigger] b.at(x, y)
            is None
}

/// Laying `word` at `(start, d)` meets no cell of `b` holding another letter.
pub open spec fn free_for(b: Board, word: Seq<char>, start: Pos, d: Dir) -> bool {
    forall|i: int|
        0 <= i < word.len() ==> {
            let c = #[trigger] step(start, d, i);
            b.at(c.0, c.1) is None || b.at(c.0, c.1) == Some(word[i])
        }
}

/// Whether cell `(x, y)` lies on the run of `len` cells from `start` along `d`.
pub open spec fn on_run(start: Pos, d: Dir, len: int, x: int, y: int) -> bool {
    exists|i: int| 0 <= i < len && #[trigger] step(start, d, i) == (x, y)
}

/// Lays `word` at `(start, d)` on a copy of `board`. Gives `None` when a cell
/// on the way already holds another letter; `board` itself is never changed.
pub fn check_collision(board: &Board, word: &Vec<char>, start: Pos, d: Dir) -> (r: Option<Board>)
    requires
        board.wf(),
        fits(start, d, word@.len() as int, board.w(), board.h()),
    ensures
        r is Some <==> free_for(*board, word@, start, d),
        r matches Some(b) ==> {
            &&& b.wf()
            &&& b.w() == board.w()
            &&& b.h() == board.h()
            &&& forall|i: int|
                0 <= i < word@.len() ==> #[trigger] b.at(step(start, d, i).0, step(start, d, i).1)
                    == Some(word@[i])
            &&& forall|x: int, y: int|
                in_grid(x, y, board.w(), board.h()) && !on_run(start, d, word@.len() as int, x, y)
                    ==> #[trigger] b.at(x, y) == board.at(x, y)
        },
{
    let ghost w = board.w();
    let ghost h = board.h();
    let mut ret = board.snapshot();
    let delta = d.pos_from_dir();
    let mut i: usize = 0;
    while i < word.len()
        invariant
            i <= word@.len(),
            board.wf(),
            fits(start, d, word@.len() as int, w, h),
            w == board.w(),
            h == board.h(),
            delta.x == d.dx(),
            delta.y == d.dy(),
            ret.wf(),
            ret.w() == w,
            ret.h() == h,
            forall|j: int|
                0 <= j < i ==> #[trigger] ret.at(step(start, d, j).0, step(start, d, j).1) == Some(
                    word@[j],
                ),
            forall|j: int|
                0 <= j < i ==> {
                    let c = #[trigger] step(start, d, j);
                    board.at(c.0, c.1) is None || board.at(c.0, c.1) == Some(word@[j])
                },
            forall|x: int, y: int|
                in_grid(x, y, w, h) && !on_run(start, d, i as int, x, y) ==> #[trigger] ret.at(x, y)
                    == board.at(x, y),
        decreases word@.len() - i,
    {
        proof {
            assert(cell_in_grid(step(start, d, i as int), w, h));
            assert(cell_in_grid(step(start, d, 0), w, h));
            lemma_step_bounded(start, d, i as int, w, h);
            board.lemma_dims();
        }
        let pos = start.add(delta.mul(i as isize));
        let c = word[i];
        let ghost cur = step(start, d, i as int);
        assert(!on_run(start, d, i as int, cur.0, cur.1)) by {
            if on_run(start, d, i as int, cur.0, cur.1) {
                let j = choose|j: int| 0 <= j < i && #[trigger] step(start, d, j) == cur;
                lemma_step_injective(start, d, j, i as int);
            }
        }
        match ret.get(pos.x, pos.y) {
            None => {
                ret.set(pos.x, pos.y, c);
            },
            Some(found) => {
                if found != c {
                    return None;
                }
            },
        }
        proof {
            assert forall|x: int, y: int|
                in_grid(x, y, w, h) && !on_run(start, d, i + 1, x, y) implies #[trigger] ret.at(x, y)
                == board.at(x, y) by {
                if on_run(start, d, i as int, x, y) {
                    let j = choose|j: int| 0 <= j < i && #[trigger] step(start, d, j) == (x, y);
                    assert(0 <= j < i + 1 && step(start, d, j) == (x, y));
                }
                assert(step(start, d, i as int) != (x, y));
            }
        }
        i = i + 1;
    }
    Some(ret)
}

/// A word laid at one anchor agrees with itself: its cells are distinct.
pub proof fn lemma_self_agree(a: Seq<char>, p: Anchor)
    ensures
        agree(a, p, a, p),
{
    assert forall|i: int, j: int|
        0 <= i < a.len() && 0 <= j < a.len() && step(p.0, p.1, i) == step(p.0, p.1, j) implies a[i]
        == a[j] by {
        lemma_step_injective(p.0, p.1, i, j);
    }
}

/// On a board that shows a consistent arrangement, the next word can be laid
/// at `a` without a clash exactly when the longer arrangement is consistent.
pub proof fn lemma_free_iff_consistent(
    b: Board,
    words: Seq<Seq<char>>,
    anchors: Seq<Anchor>,
    a: Anchor,
)
    requires
        shows(b, words, anchors),
        consistent(words, anchors, b.w(), b.h()),
        anchors.len() < words.len(),
        fits(a.0, a.1, words[anchors.len() as int].len() as int, b.w(), b.h()),
    ensures
        free_for(b, words[anchors.len() as int], a.0, a.1) <==> consistent(
            words,
            anchors.push(a),
            b.w(),
            b.h(),
        ),
{
    let n = anchors.len() as int;
    let wd = words[n];
    let ext = anchors.push(a);
    let w = b.w();
    let h = b.h();
    assert forall|k: int| 0 <= k < n implies #[trigger] ext[k] == anchors[k] by {}
    assert(ext[n] == a);
    if free_for(b, wd, a.0, a.1) {
        assert forall|k: int, l: int|
            0 <= k < ext.len() && 0 <= l < ext.len() implies #[trigger] agree(
            words[k],
            ext[k],
            words[l],
            ext[l],
        ) by {
            if k == n && l == n {
                lemma_self_agree(wd, a);
            } else if k == n {
                assert forall|i: int, j: int|
                    #![trigger step(a.0, a.1, i), step(anchors[l].0, anchors[l].1, j)]
                    0 <= i < wd.len() && 0 <= j < words[l].len() && step(a.0, a.1, i) == step(
                        anchors[l].0,
                        anchors[l].1,
                        j,
                    ) implies wd[i] == words[l][j] by {
                    let c = step(a.0, a.1, i);
                    assert(b.at(c.0, c.1) == Some(words[l][j]));
                }
            } else if l == n {
                assert forall|i: int, j: int|
                    #![trigger step(anchors[k].0, anchors[k].1, i), step(a.0, a.1, j)]
                    0 <= i < words[k].len() && 0 <= j < wd.len() && step(
                        anchors[k].0,
                        anchors[k].1,
                        i,
                    ) == step(a.0, a.1, j) implies words[k][i] == wd[j] by {
                    let c = step(a.0, a.1, j);
                    assert(b.at(c.0, c.1) == Some(words[k][i]));
                }
            } else {
                assert(agree(words[k], anchors[k], words[l], anchors[l]));
            }
        }
        assert forall|k: int| 0 <= k < ext.len() implies #[trigger] fits(
            ext[k].0,
            ext[k].1,
            words[k].len() as int,
            w,
            h,
        ) by {}
    }
    if consistent(words, ext, w, h) {
        assert forall|j: int| 0 <= j < wd.len() implies {
            let c = #[trigger] step(a.0, a.1, j);
            b.at(c.0, c.1) is None || b.at(c.0, c.1) == Some(wd[j])
        } by {
            let c = step(a.0, a.1, j);
            assert(cell_in_grid(c, w, h));
            if b.at(c.0, c.1) is Some {
                assert(covered(words, anchors, c.0, c.1));
                let (k, i) = choose|k: int, i: int| #[trigger] lays(words, anchors, k, i, c.0, c.1);
                assert(b.at(c.0, c.1) == Some(words[k][i]));
                assert(agree(words[k], ext[k], words[n], ext[n]));
            }
        }
    }
}

/// After the next word is laid at `a` on a board that showed the shorter
/// arrangement, the new board shows the longer one.
pub proof fn lemma_shows_after(
    b: Board,
    nb: Board,
    words: Seq<Seq<char>>,
    anchors: Seq<Anchor>,
    a: Anchor,
)
    requires
        shows(b, words, anchors),
        anchors.len() < words.len(),
        consistent(words, anchors.push(a), b.w(), b.h()),
        nb.w() == b.w(),
        nb.h() == b.h(),
        forall|i: int|
            0 <= i < words[anchors.len() as int].len() ==> #[trigger] nb.at(
                step(a.0, a.1, i).0,
                step(a.0, a.1, i).1,
            ) == Some(words[anchors.len() as int][i]),
        forall|x: int, y: int|
            in_grid(x, y, b.w(), b.h()) && !on_run(
                a.0,
                a.1,
                words[anchors.len() as int].len() as int,
                x,
                y,
            ) ==> #[trigger] nb.at(x, y) == b.at(x, y),
    ensures
        shows(nb, words, anchors.push(a)),
{
    let n = anchors.len() as int;
    let wd = words[n];
    let ext = anchors.push(a);
    let w = b.w();
    let h = b.h();
    assert forall|k: int| 0 <= k < n implies #[trigger] ext[k] == anchors[k] by {}
    assert(ext[n] == a);
    assert forall|k: int, i: int|
        #![trigger step(ext[k].0, ext[k].1, i), words[k]]
        0 <= k < ext.len() && 0 <= i < words[k].len() implies nb.at(
        step(ext[k].0, ext[k].1, i).0,
        step(ext[k].0, ext[k].1, i).1,
    ) == Some(words[k][i]) by {
        if k < n {
            let c = step(anchors[k].0, anchors[k].1, i);
            assert(fits(ext[k].0, ext[k].1, words[k].len() as int, w, h));
            assert(cell_in_grid(c, w, h));
            if on_run(a.0, a.1, wd.len() as int, c.0, c.1) {
                let j = choose|j: int| 0 <= j < wd.len() && #[trigger] step(a.0, a.1, j) == c;
                assert(agree(words[k], ext[k], words[n], ext[n]));
            }
        }
    }
    assert forall|x: int, y: int|
        in_grid(x, y, nb.w(), nb.h()) && !covered(words, ext, x, y) implies #[trigger] nb.at(x, y)
        is None by {
        if on_run(a.0, a.1, wd.len() as int, x, y) {
            let j = choose|j: int| 0 <= j < wd.len() && #[trigger] step(a.0, a.1, j) == (x, y);
            assert(lays(words, ext, n, j, x, y));
        } else if covered(words, anchors, x, y) {
            let (k, i) = choose|k: int, i: int| #[trigger] lays(words, anchors, k, i, x, y);
            assert(lays(words, ext, k, i, x, y));
        }
    }
}

} // verus!
