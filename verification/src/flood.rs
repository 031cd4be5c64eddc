//! The distance field of a side: for every square, the least number of
//! slides in which some piece of that side could reach it.

use vstd::prelude::*;
use queues::Queue;
use crate::board::{Coordinate, Game, Move, Piece};
use crate::fifo::{queue_add, queue_items, queue_new, queue_remove, queue_size, CoordinateDistance};
use crate::movegen::{
    find_possible_moves, lemma_slides_complete, lemma_slides_sound, slides, square_at,
};
use crate::rules::can_slide;

verus! {

/// One hop of the flood fill: a slide from square `a` to square `b`, both
/// given by their row-major positions.
#[verifier::opaque]
pub open spec fn hop(board: Seq<Piece>, a: int, b: int) -> bool {
    can_slide(board, square_at(a), square_at(b))
}

/// `d` is the distance field of `piece` on `board`: the squares that hold
/// `piece` are exactly those at distance 0; a square at a positive distance
/// is one hop away from a square one nearer; a hop never leads to an
/// unmarked square nor adds more than one to the distance; -1 marks the
/// squares that no hop sequence reaches.
pub open spec fn is_distance_field(board: Seq<Piece>, piece: Piece, d: Seq<i8>) -> bool {
    &&& d.len() == 100
    &&& forall|s: int| 0 <= s < 100 ==> -1 <= #[trigger] d[s] < 100
    &&& forall|s: int| 0 <= s < 100 ==> (#[trigger] d[s] == 0 <==> board[s] == piece)
    &&& forall|s: int|
        0 <= s < 100 && #[trigger] d[s] > 0 ==> exists|a: int|
            0 <= a < 100 && d[a] == d[s] - 1 && #[trigger] hop(board, a, s)
    &&& forall|a: int, s: int|
        0 <= a < 100 && 0 <= s < 100 && d[a] >= 0 && #[trigger] hop(board, a, s) ==> 0 <= d[s]
            <= d[a] + 1
}

/// Some square holding `piece` is joined to the square `s` by a chain of at
/// most `n` hops.
pub open spec fn reachable_within(board: Seq<Piece>, piece: Piece, s: int, n: nat) -> bool
    decreases n,
{
    if n == 0 {
        0 <= s < 100 && board[s] == piece
    } else {
        reachable_within(board, piece, s, (n - 1) as nat) || exists|a: int|
            0 <= a < 100 && reachable_within(board, piece, a, (n - 1) as nat) && #[trigger] hop(
                board,
                a,
                s,
            )
    }
}

/// `n` is the least number of hops in which `piece` reaches the square `s`.
pub open spec fn is_least_hops(board: Seq<Piece>, piece: Piece, s: int, n: nat) -> bool {
    reachable_within(board, piece, s, n) && forall|m: nat|
        m < n ==> !reachable_within(board, piece, s, m)
}

/// The least number of hops in which `piece` reaches the square `s`, or -1
/// where no chain of hops leads there.
pub open spec fn hop_distance(board: Seq<Piece>, piece: Piece, s: int) -> int {
    if exists|n: nat| is_least_hops(board, piece, s, n) {
        (choose|n: nat| is_least_hops(board, piece, s, n)) as int
    } else {
        -1
    }
}

/// Number of unmarked squares among the first `n`.
spec fn unset_count(d: Seq<i8>, n: nat) -> nat
    decreases n,
{
    if n == 0 {
        0
    } else {
        unset_count(d, (n - 1) as nat) + if d[n - 1] == -1 {
            1nat
        } else {
            0nat
        }
    }
}

proof fn lemma_unset_all(d: Seq<i8>, n: nat)
    requires
        n <= d.len(),
        forall|s: int| 0 <= s < n ==> d[s] == -1,
    ensures
        unset_count(d, n) == n,
    decreases n,
{
    if n > 0 {
        lemma_unset_all(d, (n - 1) as nat);
    }
}

proof fn lemma_unset_bound(d: Seq<i8>, n: nat)
    ensures
        unset_count(d, n) <= n,
    decreases n,
{
    if n > 0 {
        lemma_unset_bound(d, (n - 1) as nat);
    }
}

proof fn lemma_unset_update(d: Seq<i8>, t: int, v: i8, n: nat)
    requires
        0 <= t < d.len(),
        n <= d.len(),
        d[t] == -1,
        v != -1,
    ensures
        unset_count(d.update(t, v), n) == unset_count(d, n) - if t < n {
            1int
        } else {
            0int
        },
    decreases n,
{
    if n > 0 {
        lemma_unset_update(d, t, v, (n - 1) as nat);
    }
}

/// What holds of the marks at every moment of the flood fill.
spec fn marks_ok(board: Seq<Piece>, piece: Piece, d: Seq<i8>) -> bool {
    &&& d.len() == 100
    &&& forall|s: int| 0 <= s < 100 ==> -1 <= #[trigger] d[s] && d[s] + unset_count(d, 100) <= 99
    &&& forall|s: int| 0 <= s < 100 ==> (#[trigger] d[s] == 0 <==> board[s] == piece)
    &&& forall|s: int|
        0 <= s < 100 && #[trigger] d[s] > 0 ==> exists|a: int|
            0 <= a < 100 && d[a] == d[s] - 1 && #[trigger] hop(board, a, s)
}

/// The square `s` waits in the queue.
spec fn queued(q: Seq<CoordinateDistance>, s: int) -> bool {
    exists|i: int| 0 <= i < q.len() && (#[trigger] q[i]).coord.index() == s
}

/// Every hop from `a` leads to a marked square, at most one further.
spec fn closed_at(board: Seq<Piece>, d: Seq<i8>, a: int) -> bool {
    forall|s: int| 0 <= s < 100 && #[trigger] hop(board, a, s) ==> 0 <= d[s] <= d[a] + 1
}

/// The squares in `done` are marked and closed.
spec fn done_ok(board: Seq<Piece>, d: Seq<i8>, done: Set<int>) -> bool {
    forall|b: int| #[trigger] done.contains(b) ==> 0 <= b < 100 && d[b] >= 0 && closed_at(board, d, b)
}

/// The state between two removals from the queue.
spec fn frontier_ok(
    board: Seq<Piece>,
    piece: Piece,
    d: Seq<i8>,
    q: Seq<CoordinateDistance>,
    done: Set<int>,
) -> bool {
    &&& marks_ok(board, piece, d)
    &&& forall|i: int|
        0 <= i < q.len() ==> (#[trigger] q[i]).coord.on_board() && d[q[i].coord.index()]
            == q[i].distance && q[i].distance >= 0
    &&& forall|i: int, j: int|
        0 <= i <= j < q.len() ==> (#[trigger] q[i]).distance <= (#[trigger] q[j]).distance
            <= q[i].distance + 1
    &&& forall|s: int, i: int|
        0 <= s < 100 && 0 <= i < q.len() ==> #[trigger] d[s] <= (#[trigger] q[i]).distance + 1
    &&& forall|s: int| 0 <= s < 100 && #[trigger] d[s] >= 0 ==> done.contains(s) || queued(q, s)
    &&& done_ok(board, d, done)
}

/// The state while the hops from the square `a`, at distance `dist`, are
/// being followed.
spec fn sweep_ok(
    board: Seq<Piece>,
    piece: Piece,
    d: Seq<i8>,
    q: Seq<CoordinateDistance>,
    done: Set<int>,
    a: int,
    dist: int,
) -> bool {
    &&& marks_ok(board, piece, d)
    &&& 0 <= a < 100
    &&& d[a] == dist
    &&& dist >= 0
    &&& forall|i: int|
        0 <= i < q.len() ==> (#[trigger] q[i]).coord.on_board() && d[q[i].coord.index()]
            == q[i].distance && dist <= q[i].distance <= dist + 1
    &&& forall|i: int, j: int|
        0 <= i <= j < q.len() ==> (#[trigger] q[i]).distance <= (#[trigger] q[j]).distance
    &&& forall|s: int| 0 <= s < 100 ==> #[trigger] d[s] <= dist + 1
    &&& forall|s: int|
        0 <= s < 100 && #[trigger] d[s] >= 0 ==> done.contains(s) || queued(q, s) || s == a
    &&& done_ok(board, d, done)
}

proof fn lemma_begin_sweep(
    board: Seq<Piece>,
    piece: Piece,
    d: Seq<i8>,
    q: Seq<CoordinateDistance>,
    done: Set<int>,
)
    requires
        frontier_ok(board, piece, d, q, done),
        q.len() > 0,
    ensures
        sweep_ok(board, piece, d, q.drop_first(), done, q[0].coord.index(), q[0].distance as int),
{
    let rest = q.drop_first();
    let a = q[0].coord.index();
    let dist = q[0].distance as int;
    assert forall|i: int| 0 <= i < rest.len() implies (#[trigger] rest[i]).coord.on_board()
        && d[rest[i].coord.index()] == rest[i].distance && dist <= rest[i].distance <= dist + 1 by {
        assert(rest[i] == q[i + 1]);
        assert(q[0].distance <= q[i + 1].distance <= q[0].distance + 1);
    }
    assert forall|i: int, j: int| 0 <= i <= j < rest.len() implies (#[trigger] rest[i]).distance <= (
    #[trigger] rest[j]).distance by {
        assert(rest[i] == q[i + 1]);
        assert(rest[j] == q[j + 1]);
    }
    assert forall|s: int| 0 <= s < 100 implies #[trigger] d[s] <= dist + 1 by {
        assert(d[s] <= q[0].distance + 1);
    }
    assert forall|s: int| 0 <= s < 100 && #[trigger] d[s] >= 0 implies done.contains(s) || queued(
        rest,
        s,
    ) || s == a by {
        if !done.contains(s) && s != a {
            assert(queued(q, s));
            let i = choose|i: int| 0 <= i < q.len() && (#[trigger] q[i]).coord.index() == s;
            assert(rest[i - 1] == q[i]);
        }
    }
}

proof fn lemma_mark_marks(
    board: Seq<Piece>,
    piece: Piece,
    d: Seq<i8>,
    a: int,
    t: int,
)
    requires
        marks_ok(board, piece, d),
        0 <= a < 100,
        0 <= t < 100,
        d[a] >= 0,
        d[t] == -1,
        hop(board, a, t),
    ensures
        d[a] + 1 <= 99,
        unset_count(d.update(t, (d[a] + 1) as i8), 100) + 1 == unset_count(d, 100),
        marks_ok(board, piece, d.update(t, (d[a] + 1) as i8)),
{
    let v = (d[a] + 1) as i8;
    let d2 = d.update(t, v);
    lemma_unset_update(d, t, v, 100);
    lemma_unset_bound(d, 100);
    assert(d[a] + unset_count(d, 100) <= 99);
    assert(d[t] + unset_count(d, 100) <= 99);
    assert(unset_count(d2, 100) + 1 == unset_count(d, 100));
    assert(v == d[a] + 1);
    assert forall|s: int| 0 <= s < 100 implies -1 <= #[trigger] d2[s] && d2[s] + unset_count(
        d2,
        100,
    ) <= 99 by {
        assert(d[s] + unset_count(d, 100) <= 99);
    }
    assert forall|s: int| 0 <= s < 100 implies (#[trigger] d2[s] == 0 <==> board[s] == piece) by {
        assert(d[s] == 0 <==> board[s] == piece);
    }
    assert forall|s: int| 0 <= s < 100 && #[trigger] d2[s] > 0 implies exists|b: int|
        0 <= b < 100 && d2[b] == d2[s] - 1 && #[trigger] hop(board, b, s) by {
        if s == t {
            assert(d2[a] == d2[s] - 1 && hop(board, a, s));
        } else {
            assert(d[s] > 0);
            let b = choose|b: int| 0 <= b < 100 && d[b] == d[s] - 1 && #[trigger] hop(board, b, s);
            assert(d2[b] == d2[s] - 1 && hop(board, b, s));
        }
    }
}

proof fn lemma_mark_done(board: Seq<Piece>, d: Seq<i8>, done: Set<int>, t: int, v: i8)
    requires
        d.len() == 100,
        done_ok(board, d, done),
        0 <= t < 100,
        d[t] == -1,
    ensures
        done_ok(board, d.update(t, v), done),
{
    let d2 = d.update(t, v);
    assert forall|b: int| #[trigger] done.contains(b) implies 0 <= b < 100 && d2[b] >= 0
        && closed_at(board, d2, b) by {
        assert(closed_at(board, d, b));
        assert forall|s: int| 0 <= s < 100 && #[trigger] hop(board, b, s) implies 0 <= d2[s]
            <= d2[b] + 1 by {
            assert(0 <= d[s] <= d[b] + 1);
        }
    }
}

proof fn lemma_mark(
    board: Seq<Piece>,
    piece: Piece,
    d: Seq<i8>,
    q: Seq<CoordinateDistance>,
    done: Set<int>,
    a: int,
    dist: int,
    to: Coordinate,
)
    requires
        sweep_ok(board, piece, d, q, done, a, dist),
        to.on_board(),
        d[to.index()] == -1,
        hop(board, a, to.index()),
    ensures
        dist + 1 <= 99,
        unset_count(d.update(to.index(), (dist + 1) as i8), 100) + 1 == unset_count(d, 100),
        sweep_ok(
            board,
            piece,
            d.update(to.index(), (dist + 1) as i8),
            q.push(CoordinateDistance { coord: to, distance: (dist + 1) as i8 }),
            done,
            a,
            dist,
        ),
{
    let t = to.index();
    let v = (dist + 1) as i8;
    let d2 = d.update(t, v);
    let item = CoordinateDistance { coord: to, distance: v };
    let q2 = q.push(item);
    lemma_mark_marks(board, piece, d, a, t);
    lemma_mark_done(board, d, done, t, v);
    assert(v == dist + 1);
    assert forall|i: int| 0 <= i < q2.len() implies (#[trigger] q2[i]).coord.on_board()
        && d2[q2[i].coord.index()] == q2[i].distance && dist <= q2[i].distance <= dist + 1 by {
        if i < q.len() {
            assert(q2[i] == q[i]);
            assert(d[q[i].coord.index()] == q[i].distance);
        }
    }
    assert forall|i: int, j: int| 0 <= i <= j < q2.len() implies (#[trigger] q2[i]).distance <= (
    #[trigger] q2[j]).distance by {
        if j < q.len() {
            assert(q2[i] == q[i]);
            assert(q2[j] == q[j]);
        } else if i < q.len() {
            assert(q2[i] == q[i]);
        }
    }
    assert forall|s: int| 0 <= s < 100 implies #[trigger] d2[s] <= dist + 1 by {
        assert(d[s] <= dist + 1);
    }
    assert forall|s: int| 0 <= s < 100 && #[trigger] d2[s] >= 0 implies done.contains(s) || queued(
        q2,
        s,
    ) || s == a by {
        if s == t {
            assert(q2[q.len() as int].coord.index() == s);
        } else {
            assert(d[s] >= 0);
            if queued(q, s) {
                let i = choose|i: int| 0 <= i < q.len() && (#[trigger] q[i]).coord.index() == s;
                assert(q2[i] == q[i]);
            }
        }
    }
}

proof fn lemma_end_sweep(
    board: Seq<Piece>,
    piece: Piece,
    d: Seq<i8>,
    q: Seq<CoordinateDistance>,
    done: Set<int>,
    a: int,
    dist: int,
)
    requires
        sweep_ok(board, piece, d, q, done, a, dist),
        forall|s: int| 0 <= s < 100 && #[trigger] hop(board, a, s) ==> d[s] >= 0,
    ensures
        frontier_ok(board, piece, d, q, done.insert(a)),
{
    let done2 = done.insert(a);
    assert forall|i: int, j: int| 0 <= i <= j < q.len() implies (#[trigger] q[i]).distance <= (
    #[trigger] q[j]).distance <= q[i].distance + 1 by {
        assert(dist <= q[i].distance <= dist + 1);
        assert(dist <= q[j].distance <= dist + 1);
    }
    assert forall|s: int, i: int| 0 <= s < 100 && 0 <= i < q.len() implies #[trigger] d[s] <= (
    #[trigger] q[i]).distance + 1 by {
        assert(d[s] <= dist + 1);
        assert(dist <= q[i].distance);
    }
    assert forall|b: int| #[trigger] done2.contains(b) implies 0 <= b < 100 && d[b] >= 0
        && closed_at(board, d, b) by {
        if b == a {
            assert forall|s: int| 0 <= s < 100 && #[trigger] hop(board, a, s) implies 0 <= d[s]
                <= d[a] + 1 by {
                assert(d[s] <= dist + 1);
            }
        } else {
            assert(done.contains(b));
        }
    }
    assert forall|i: int| 0 <= i < q.len() implies (#[trigger] q[i]).coord.on_board()
        && d[q[i].coord.index()] == q[i].distance && q[i].distance >= 0 by {
        assert(dist <= q[i].distance);
    }
}

proof fn lemma_finished(board: Seq<Piece>, piece: Piece, d: Seq<i8>, done: Set<int>)
    requires
        frontier_ok(board, piece, d, Seq::<CoordinateDistance>::empty(), done),
    ensures
        is_distance_field(board, piece, d),
{
    let q = Seq::<CoordinateDistance>::empty();
    lemma_unset_bound(d, 100);
    assert forall|s: int| 0 <= s < 100 implies -1 <= #[trigger] d[s] < 100 by {
        assert(d[s] + unset_count(d, 100) <= 99);
    }
    assert forall|a: int, s: int|
        0 <= a < 100 && 0 <= s < 100 && d[a] >= 0 && #[trigger] hop(board, a, s) implies 0 <= d[s]
        <= d[a] + 1 by {
        assert(done.contains(a) || queued(q, a));
        assert(!queued(q, a));
        assert(closed_at(board, d, a));
    }
}

/// The state while the board is scanned for the sources of the flood fill:
/// the first `n` squares have been looked at.
spec fn seeding_ok(
    board: Seq<Piece>,
    piece: Piece,
    d: Seq<i8>,
    q: Seq<CoordinateDistance>,
    n: int,
) -> bool {
    &&& d.len() == 100
    &&& forall|s: int|
        0 <= s < 100 ==> #[trigger] d[s] == if s < n && board[s] == piece {
            0i8
        } else {
            -1i8
        }
    &&& forall|i: int|
        0 <= i < q.len() ==> (#[trigger] q[i]).coord.on_board() && d[q[i].coord.index()] == 0
            && q[i].distance == 0
    &&& forall|s: int| 0 <= s < 100 && #[trigger] d[s] == 0 ==> queued(q, s)
    &&& unset_count(d, 100) + q.len() == 100
}

proof fn lemma_seed(
    board: Seq<Piece>,
    piece: Piece,
    d: Seq<i8>,
    q: Seq<CoordinateDistance>,
    n: int,
    c: Coordinate,
)
    requires
        seeding_ok(board, piece, d, q, n),
        c.on_board(),
        c.index() == n,
        board[n] == piece,
    ensures
        seeding_ok(
            board,
            piece,
            d.update(n, 0i8),
            q.push(CoordinateDistance { coord: c, distance: 0 }),
            n + 1,
        ),
{
    let d2 = d.update(n, 0i8);
    let q2 = q.push(CoordinateDistance { coord: c, distance: 0 });
    lemma_unset_update(d, n, 0i8, 100);
    assert forall|i: int| 0 <= i < q2.len() implies (#[trigger] q2[i]).coord.on_board()
        && d2[q2[i].coord.index()] == 0 && q2[i].distance == 0 by {
        if i < q.len() {
            assert(q2[i] == q[i]);
        }
    }
    assert forall|s: int| 0 <= s < 100 && #[trigger] d2[s] == 0 implies queued(q2, s) by {
        if s == n {
            assert(q2[q.len() as int].coord.index() == s);
        } else {
            assert(d[s] == 0);
            let i = choose|i: int| 0 <= i < q.len() && (#[trigger] q[i]).coord.index() == s;
            assert(q2[i] == q[i]);
        }
    }
}

proof fn lemma_seeded(board: Seq<Piece>, piece: Piece, d: Seq<i8>, q: Seq<CoordinateDistance>)
    requires
        seeding_ok(board, piece, d, q, 100),
    ensures
        frontier_ok(board, piece, d, q, Set::<int>::empty()),
{
    lemma_unset_bound(d, 100);
    assert forall|s: int| 0 <= s < 100 implies -1 <= #[trigger] d[s] && d[s] + unset_count(d, 100)
        <= 99 by {
        if d[s] == 0 {
            assert(queued(q, s));
        }
    }
    assert(marks_ok(board, piece, d));
    assert forall|i: int, j: int| 0 <= i <= j < q.len() implies (#[trigger] q[i]).distance <= (
    #[trigger] q[j]).distance <= q[i].distance + 1 by {
        assert(q[i].distance == 0);
        assert(q[j].distance == 0);
    }
    assert forall|s: int, i: int| 0 <= s < 100 && 0 <= i < q.len() implies #[trigger] d[s] <= (
    #[trigger] q[i]).distance + 1 by {
        assert(q[i].distance == 0);
    }
}

/// Computes the distance field of `piece`: a breadth-first flood fill that
/// starts from every square holding `piece` at once and follows slides.
pub fn distances(game: Game, piece: Piece) -> (field: [i8; 100])
    ensures
        is_distance_field(game@.squares, piece, field@),
        forall|s: int| 0 <= s < 100 ==> #[trigger] field@[s] == hop_distance(game@.squares, piece, s),
{
    let ghost board = game@.squares;
    let mut q: Queue<CoordinateDistance> = queue_new();
    let mut distances: [i8; 100] = [-1;100];
    proof {
        lemma_unset_all(distances@, 100);
    }
    let mut y: u8 = 0;
    while y < 10
        invariant
            board == game@.squares,
            y <= 10,
            seeding_ok(board, piece, distances@, queue_items(q), 10 * y),
        decreases 10 - y,
    {
        let mut x: u8 = 0;
        while x < 10
            invariant
                board == game@.squares,
                y < 10,
                x <= 10,
                seeding_ok(board, piece, distances@, queue_items(q), 10 * y + x),
            decreases 10 - x,
        {
            let coord = Coordinate { y: y, x: x };
            if game.piece_at(coord) == piece {
                proof {
                    lemma_seed(board, piece, distances@, queue_items(q), 10 * y + x, coord);
                }
                queue_add(&mut q, CoordinateDistance { coord: coord, distance: 0 });
                distances[10 * (y as usize) + (x as usize)] = 0;
            }
            x += 1;
        }
        y += 1;
    }
    let ghost mut done: Set<int> = Set::empty();
    proof {
        lemma_seeded(board, piece, distances@, queue_items(q));
    }
    while queue_size(&q) > 0
        invariant
            board == game@.squares,
            frontier_ok(board, piece, distances@, queue_items(q), done),
        ensures
            frontier_ok(board, piece, distances@, queue_items(q), done),
            queue_items(q).len() == 0,
        decreases unset_count(distances@, 100) + queue_items(q).len(),
    {
        let ghost before = queue_items(q);
        let ghost measure = unset_count(distances@, 100) + before.len();
        let coordinate_distance = match queue_remove(&mut q) {
            Some(first) => first,
            None => {
                break ;
            },
        };
        let from = coordinate_distance.coord;
        let dist = coordinate_distance.distance;
        let ghost a = from.index();
        proof {
            lemma_begin_sweep(board, piece, distances@, before, done);
            assert(square_at(a) == from);
        }
        let possible_moves = find_possible_moves(game, from);
        let mut i: usize = 0;
        while i < possible_moves.len()
            invariant
                board == game@.squares,
                from.on_board(),
                a == from.index(),
                square_at(a) == from,
                possible_moves@ == slides(board, from),
                i <= possible_moves.len(),
                sweep_ok(board, piece, distances@, queue_items(q), done, a, dist as int),
                forall|k: int|
                    0 <= k < i ==> (#[trigger] possible_moves@[k]).to.on_board()
                        && distances@[possible_moves@[k].to.index()] >= 0,
                unset_count(distances@, 100) + queue_items(q).len() + 1 == measure,
            decreases possible_moves.len() - i,
        {
            let to = possible_moves[i].to;
            let ghost marks = distances@;
            proof {
                lemma_slides_sound(board, from, i as int);
                assert(square_at(to.index()) == to);
                assert(hop(board, a, to.index())) by {
                    reveal(hop);
                }
                assert(-1 <= marks[to.index()]);
            }
            let target: usize = 10 * (to.y as usize) + (to.x as usize);
            if distances[target] == -1 {
                proof {
                    lemma_mark(board, piece, marks, queue_items(q), done, a, dist as int, to);
                }
                queue_add(&mut q, CoordinateDistance { coord: to, distance: dist + 1 });
                distances[target] = dist + 1;
            }
            proof {
                assert forall|k: int| 0 <= k < i + 1 implies (
                #[trigger] possible_moves@[k]).to.on_board()
                    && distances@[possible_moves@[k].to.index()] >= 0 by {
                    if k < i {
                        assert(marks[possible_moves@[k].to.index()] >= 0);
                    }
                }
            }
            i += 1;
        }
        proof {
            assert forall|s: int| 0 <= s < 100 && #[trigger] hop(board, a, s) implies distances@[s]
                >= 0 by {
                reveal(hop);
                lemma_slides_complete(board, from, square_at(s));
                let m = Move { from: from, to: square_at(s) };
                let k = choose|k: int| 0 <= k < possible_moves@.len() && possible_moves@[k] == m;
                assert(possible_moves@[k].to.index() == s);
            }
            lemma_end_sweep(board, piece, distances@, queue_items(q), done, a, dist as int);
            done = done.insert(a);
        }
    }
    proof {
        assert(queue_items(q) =~= Seq::<CoordinateDistance>::empty());
        lemma_finished(board, piece, distances@, done);
        assert forall|s: int| 0 <= s < 100 implies #[trigger] distances@[s] == hop_distance(
            board,
            piece,
            s,
        ) by {
            lemma_distance_field_is_least(board, piece, distances@, s);
        }
    }
    distances
}

proof fn lemma_field_reaches(board: Seq<Piece>, piece: Piece, d: Seq<i8>, s: int, k: nat)
    requires
        is_distance_field(board, piece, d),
        0 <= s < 100,
        d[s] == k,
    ensures
        reachable_within(board, piece, s, k),
    decreases k,
{
    if k > 0 {
        let a = choose|a: int| 0 <= a < 100 && d[a] == d[s] - 1 && #[trigger] hop(board, a, s);
        lemma_field_reaches(board, piece, d, a, (k - 1) as nat);
    }
}

proof fn lemma_field_below(board: Seq<Piece>, piece: Piece, d: Seq<i8>, s: int, n: nat)
    requires
        is_distance_field(board, piece, d),
        0 <= s < 100,
        reachable_within(board, piece, s, n),
    ensures
        0 <= d[s] <= n,
    decreases n,
{
    if n > 0 {
        if reachable_within(board, piece, s, (n - 1) as nat) {
            lemma_field_below(board, piece, d, s, (n - 1) as nat);
        } else {
            let a = choose|a: int|
                0 <= a < 100 && reachable_within(board, piece, a, (n - 1) as nat) && #[trigger] hop(
                    board,
                    a,
                    s,
                );
            lemma_field_below(board, piece, d, a, (n - 1) as nat);
        }
    }
}

/// A distance field gives, for each square, the least number of hops from
/// a square that holds the piece, and -1 where there is no chain of hops.
pub proof fn lemma_distance_field_is_least(board: Seq<Piece>, piece: Piece, d: Seq<i8>, s: int)
    requires
        is_distance_field(board, piece, d),
        0 <= s < 100,
    ensures
        d[s] == hop_distance(board, piece, s),
{
    if d[s] >= 0 {
        let k = d[s] as nat;
        lemma_field_reaches(board, piece, d, s, k);
        assert forall|m: nat| m < k implies !reachable_within(board, piece, s, m) by {
            if reachable_within(board, piece, s, m) {
                lemma_field_below(board, piece, d, s, m);
            }
        }
        assert(is_least_hops(board, piece, s, k));
        let n = choose|n: nat| is_least_hops(board, piece, s, n);
        lemma_field_below(board, piece, d, s, n);
        assert(!(k < n));
    } else {
        assert forall|n: nat| !is_least_hops(board, piece, s, n) by {
            if reachable_within(board, piece, s, n) {
                lemma_field_below(board, piece, d, s, n);
            }
        }
    }
}

/// A board and a piece have one distance field only.
pub proof fn lemma_distance_field_unique(
    board: Seq<Piece>,
    piece: Piece,
    d1: Seq<i8>,
    d2: Seq<i8>,
)
    requires
        is_distance_field(board, piece, d1),
        is_distance_field(board, piece, d2),
    ensures
        d1 == d2,
{
    assert forall|s: int| 0 <= s < 100 implies d1[s] == d2[s] by {
        lemma_distance_field_is_least(board, piece, d1, s);
        lemma_distance_field_is_least(board, piece, d2, s);
    }
    assert(d1 =~= d2);
}

} // verus!
