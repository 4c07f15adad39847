//! The marble game: players take turns to put marbles into a circle, and
//! score on every 23rd marble.  The circle is a linked list of the
//! `linked_list` crate, walked with its cursor.

use linked_list::{Cursor, LinkedList};
use vstd::prelude::*;

verus! {

#[verifier::external_type_specification]
#[verifier::external_body]
#[verifier::reject_recursive_types(T)]
pub struct ExLinkedList<T>(LinkedList<T>);

#[verifier::external_type_specification]
#[verifier::external_body]
#[verifier::reject_recursive_types(T)]
pub struct ExCursor<'a, T: 'a>(Cursor<'a, T>);

/// The elements of a list, from its front to its back.
pub uninterp spec fn list_items(list: LinkedList<usize>) -> Seq<usize>;

/// The elements of the list that a cursor walks, from its front to its
/// back.
pub uninterp spec fn cursor_items(cursor: Cursor<usize>) -> Seq<usize>;

/// The place of a cursor: the number of elements of its list that stand
/// before it.  A cursor rests between two elements, or before the first or
/// after the last.
pub uninterp spec fn cursor_place(cursor: Cursor<usize>) -> int;

/// `LinkedList::new` makes a list without elements.
#[verifier::external_body]
fn list_new() -> (list: LinkedList<usize>)
    ensures
        list_items(list) == Seq::<usize>::empty(),
{
    LinkedList::new()
}

/// `LinkedList::push_front` puts the element before all others.
#[verifier::external_body]
fn list_push_front(list: &mut LinkedList<usize>, elem: usize)
    ensures
        list_items(*final(list)) == seq![elem] + list_items(*old(list)),
{
    list.push_front(elem)
}

/// `LinkedList::cursor` hands out a cursor over the list that rests before
/// its first element.
#[verifier::external_body]
fn list_cursor<'a>(list: &'a mut LinkedList<usize>) -> (cursor: Cursor<'a, usize>)
    ensures
        cursor_items(cursor) == list_items(*old(list)),
        cursor_place(cursor) == 0,
{
    list.cursor()
}

/// `Cursor::next` yields the element after the cursor and moves the cursor
/// over it.  After the last element it yields nothing, and the cursor goes
/// to the place before the first element.
#[verifier::external_body]
fn cursor_next(cursor: &mut Cursor<usize>) -> (elem: Option<usize>)
    ensures
        cursor_items(*final(cursor)) == cursor_items(*old(cursor)),
        cursor_place(*old(cursor)) < cursor_items(*old(cursor)).len() ==> elem == Some(
            cursor_items(*old(cursor))[cursor_place(*old(cursor))],
        ) && cursor_place(*final(cursor)) == cursor_place(*old(cursor)) + 1,
        cursor_place(*old(cursor)) >= cursor_items(*old(cursor)).len() ==> elem is None && cursor_place(
            *final(cursor),
        ) == 0,
{
    cursor.next().map(|elem| *elem)
}

/// `Cursor::prev` yields the element before the cursor and moves the cursor
/// back over it.  Before the first element it yields nothing, and the
/// cursor goes to the place after the last element.
#[verifier::external_body]
fn cursor_prev(cursor: &mut Cursor<usize>) -> (elem: Option<usize>)
    ensures
        cursor_items(*final(cursor)) == cursor_items(*old(cursor)),
        cursor_place(*old(cursor)) > 0 ==> elem == Some(
            cursor_items(*old(cursor))[cursor_place(*old(cursor)) - 1],
        ) && cursor_place(*final(cursor)) == cursor_place(*old(cursor)) - 1,
        cursor_place(*old(cursor)) <= 0 ==> elem is None && cursor_place(*final(cursor)) == cursor_items(
            *old(cursor),
        ).len(),
{
    cursor.prev().map(|elem| *elem)
}

/// `Cursor::insert` puts the element into the list at the place of the
/// cursor, which then rests before it.
#[verifier::external_body]
fn cursor_insert(cursor: &mut Cursor<usize>, elem: usize)
    ensures
        cursor_items(*final(cursor)) == cursor_items(*old(cursor)).insert(cursor_place(*old(cursor)), elem),
        cursor_place(*final(cursor)) == cursor_place(*old(cursor)),
{
    cursor.insert(elem)
}

/// `Cursor::remove` takes the element after the cursor out of the list and
/// yields it; the cursor does not move.  After the last element it yields
/// nothing.
#[verifier::external_body]
fn cursor_remove(cursor: &mut Cursor<usize>) -> (elem: Option<usize>)
    ensures
        cursor_place(*final(cursor)) == cursor_place(*old(cursor)),
        cursor_place(*old(cursor)) < cursor_items(*old(cursor)).len() ==> elem == Some(
            cursor_items(*old(cursor))[cursor_place(*old(cursor))],
        ) && cursor_items(*final(cursor)) == cursor_items(*old(cursor)).remove(cursor_place(*old(cursor))),
        cursor_place(*old(cursor)) >= cursor_items(*old(cursor)).len() ==> elem is None && cursor_items(
            *final(cursor),
        ) == cursor_items(*old(cursor)),
{
    cursor.remove()
}

/// Where a cursor at `place` in a circle of `len` elements rests after it
/// has gone forward over `n` elements.  From the place after the last
/// element it goes on before the first.
pub open spec fn forward(len: int, place: int, n: nat) -> int
    decreases n, (if place >= len { 1nat } else { 0nat }),
{
    if n == 0 {
        place
    } else if place < len {
        forward(len, place + 1, (n - 1) as nat)
    } else if len > 0 {
        forward(len, 0, n)
    } else {
        place
    }
}

/// Where a cursor at `place` in a circle of `len` elements rests after it
/// has gone backward over `n` elements.  From the place before the first
/// element it goes on after the last.
pub open spec fn backward(len: int, place: int, n: nat) -> int
    decreases n, (if place <= 0 { 1nat } else { 0nat }),
{
    if n == 0 {
        place
    } else if place > 0 {
        backward(len, place - 1, (n - 1) as nat)
    } else if len > 0 {
        backward(len, len, n)
    } else {
        place
    }
}

/// A cursor that goes forward stays within the circle.
pub proof fn lemma_forward_within(len: int, place: int, n: nat)
    requires
        len > 0,
        0 <= place <= len,
    ensures
        0 <= forward(len, place, n) <= len,
    decreases n, (if place >= len { 1nat } else { 0nat }),
{
    if n > 0 {
        if place < len {
            lemma_forward_within(len, place + 1, (n - 1) as nat);
        } else {
            lemma_forward_within(len, 0, n);
        }
    }
}

/// A cursor that has gone backward rests before an element.
pub proof fn lemma_backward_within(len: int, place: int, n: nat)
    requires
        len > 0,
        0 <= place <= len,
    ensures
        0 <= backward(len, place, n) <= len,
        n > 0 ==> backward(len, place, n) < len,
    decreases n, (if place <= 0 { 1nat } else { 0nat }),
{
    if n > 0 {
        if place > 0 {
            lemma_backward_within(len, place - 1, (n - 1) as nat);
        } else {
            lemma_backward_within(len, len, n);
        }
    }
}

/// Moves the cursor forward over `n` elements of a circle: at the end of
/// the list it goes on at the front.
pub fn go_forward(cursor: &mut Cursor<usize>, n: usize)
    requires
        cursor_items(*old(cursor)).len() > 0,
        0 <= cursor_place(*old(cursor)) <= cursor_items(*old(cursor)).len(),
    ensures
        cursor_items(*final(cursor)) == cursor_items(*old(cursor)),
        cursor_place(*final(cursor)) == forward(
            cursor_items(*old(cursor)).len() as int,
            cursor_place(*old(cursor)),
            n as nat,
        ),
{
    let mut i = n;
    let ghost len = cursor_items(*cursor).len() as int;

    while i > 0
        invariant
            len > 0,
            cursor_items(*cursor) == cursor_items(*old(cursor)),
            len == cursor_items(*cursor).len(),
            0 <= cursor_place(*cursor) <= len,
            forward(len, cursor_place(*old(cursor)), n as nat) == forward(len, cursor_place(*cursor), i as nat),
        decreases i, (if cursor_place(*cursor) >= len { 1nat } else { 0nat }),
    {
        if !cursor_next(cursor).is_none() {
            i -= 1;
        }
    }
}

/// Moves the cursor backward over `n` elements of a circle: at the front
/// of the list it goes on at the end.
pub fn go_backward(cursor: &mut Cursor<usize>, n: usize)
    requires
        cursor_items(*old(cursor)).len() > 0,
        0 <= cursor_place(*old(cursor)) <= cursor_items(*old(cursor)).len(),
    ensures
        cursor_items(*final(cursor)) == cursor_items(*old(cursor)),
        cursor_place(*final(cursor)) == backward(
            cursor_items(*old(cursor)).len() as int,
            cursor_place(*old(cursor)),
            n as nat,
        ),
{
    let mut i = n;
    let ghost len = cursor_items(*cursor).len() as int;

    while i > 0
        invariant
            len > 0,
            cursor_items(*cursor) == cursor_items(*old(cursor)),
            len == cursor_items(*cursor).len(),
            0 <= cursor_place(*cursor) <= len,
            backward(len, cursor_place(*old(cursor)), n as nat) == backward(
                len,
                cursor_place(*cursor),
                i as nat,
            ),
        decreases i, (if cursor_place(*cursor) <= 0 { 1nat } else { 0nat }),
    {
        if !cursor_prev(cursor).is_none() {
            i -= 1;
        }
    }
}

/// The state of a game.
pub struct Game {
    /// The marbles of the circle, from the front of the list to its back.
    pub circle: Seq<usize>,
    /// The number of marbles of the list before the current marble.
    pub place: int,
    /// The score of each player.
    pub scores: Seq<nat>,
    /// The player whose turn is next.
    pub player: int,
}

/// The game before the first turn: marble 0 alone in the circle.
pub open spec fn opening(nb_players: nat) -> Game {
    Game { circle: seq![0usize], place: 0, scores: Seq::new(nb_players, |i: int| 0nat), player: 0 }
}

/// The game after the player whose turn it is has played `marble`.  A
/// marble whose number is a multiple of 23 is kept: the player scores it
/// and the marble seven places back in the circle, which leaves the circle,
/// and the marble after that becomes the current one.  Every other marble
/// goes into the circle two places on, and becomes the current one.
pub open spec fn turn(g: Game, marble: usize) -> Game {
    let len = g.circle.len() as int;
    let next_player = (g.player + 1) % (g.scores.len() as int);
    if marble % 23 == 0 {
        let place = backward(len, g.place, 7);
        Game {
            circle: g.circle.remove(place),
            place,
            scores: g.scores.update(g.player, (g.scores[g.player] + marble + g.circle[place]) as nat),
            player: next_player,
        }
    } else {
        let place = forward(len, g.place, 2);
        Game { circle: g.circle.insert(place, marble), place, player: next_player, ..g }
    }
}

/// The game after the marbles 1 to `marbles` have been played.
pub open spec fn play(nb_players: nat, marbles: nat) -> Game
    decreases marbles,
{
    if marbles == 0 {
        opening(nb_players)
    } else {
        turn(play(nb_players, (marbles - 1) as nat), marbles as usize)
    }
}

/// The highest of the scores, 0 if there is none.
pub open spec fn high_score(scores: Seq<nat>) -> nat
    decreases scores.len(),
{
    if scores.len() == 0 {
        0
    } else if scores.last() >= high_score(scores.drop_last()) {
        scores.last()
    } else {
        high_score(scores.drop_last())
    }
}

/// What holds of a game after `k` marbles of at most `last` marbles: the
/// circle is never empty, holds marbles played so far only, and no score
/// is above `2 * last` for each marble played.
pub open spec fn game_inv(g: Game, nb_players: nat, k: nat, last: nat) -> bool {
    &&& g.scores.len() == nb_players
    &&& 0 <= g.player < nb_players
    &&& g.circle.len() >= 1 + k % 23
    &&& 0 <= g.place <= g.circle.len()
    &&& forall|i: int| 0 <= i < g.circle.len() ==> #[trigger] g.circle[i] <= k
    &&& forall|i: int| 0 <= i < nb_players ==> #[trigger] g.scores[i] <= 2 * last * k
}

/// A turn keeps what holds of a game.
pub proof fn lemma_turn_keeps(g: Game, nb_players: nat, k: nat, last: nat)
    requires
        game_inv(g, nb_players, k, last),
        k < last,
        last < usize::MAX,
    ensures
        game_inv(turn(g, (k + 1) as usize), nb_players, k + 1, last),
{
    let marble = (k + 1) as usize;
    let len = g.circle.len() as int;
    let g2 = turn(g, marble);
    assert(2 * last * (k + 1) == 2 * last * k + 2 * last) by (nonlinear_arith);
    if marble % 23 == 0 {
        lemma_backward_within(len, g.place, 7);
        let place = backward(len, g.place, 7);
        assert(g.circle[place] <= k);
        assert forall|i: int| 0 <= i < g2.circle.len() implies #[trigger] g2.circle[i] <= k + 1 by {
            if i < place {
                assert(g2.circle[i] == g.circle[i]);
            } else {
                assert(g2.circle[i] == g.circle[i + 1]);
            }
        }
    } else {
        lemma_forward_within(len, g.place, 2);
        let place = forward(len, g.place, 2);
        assert forall|i: int| 0 <= i < g2.circle.len() implies #[trigger] g2.circle[i] <= k + 1 by {
            if i < place {
                assert(g2.circle[i] == g.circle[i]);
            } else if i > place {
                assert(g2.circle[i] == g.circle[i - 1]);
            }
        }
    }
}

/// The highest score when `nb_players` players have played the marbles 1
/// to `final_marble`.
pub fn play_game(final_marble: usize, nb_players: usize) -> (high: usize)
    requires
        nb_players > 0,
        2 * final_marble * final_marble <= usize::MAX,
    ensures
        high == high_score(play(nb_players as nat, final_marble as nat).scores),
{
    let mut list = list_new();
    list_push_front(&mut list, 0);
    let mut cursor = list_cursor(&mut list);

    let mut next_marble: usize = 1;
    let mut current_player: usize = 0;

    let mut scores: Vec<usize> = vec![0; nb_players];
    let ghost mut g = opening(nb_players as nat);
    proof {
        assert(cursor_items(cursor) =~= g.circle);
        assert(2 * final_marble * 0 == 0) by (nonlinear_arith);
        assert(final_marble < usize::MAX) by (nonlinear_arith)
            requires
                2 * final_marble * final_marble <= usize::MAX,
                final_marble >= 0,
        ;
    }

    while next_marble <= final_marble
        invariant
            nb_players > 0,
            final_marble < usize::MAX,
            2 * final_marble * final_marble <= usize::MAX,
            1 <= next_marble <= final_marble + 1,
            g == play(nb_players as nat, (next_marble - 1) as nat),
            game_inv(g, nb_players as nat, (next_marble - 1) as nat, final_marble as nat),
            cursor_items(cursor) == g.circle,
            cursor_place(cursor) == g.place,
            current_player == g.player,
            scores@.len() == nb_players,
            forall|i: int| 0 <= i < nb_players ==> #[trigger] scores@[i] == g.scores[i],
        decreases final_marble + 1 - next_marble,
    {
        proof {
            lemma_turn_keeps(g, nb_players as nat, (next_marble - 1) as nat, final_marble as nat);
            lemma_backward_within(g.circle.len() as int, g.place, 7);
            lemma_forward_within(g.circle.len() as int, g.place, 2);
            assert(2 * final_marble * next_marble <= 2 * final_marble * final_marble) by (nonlinear_arith)
                requires
                    0 <= next_marble <= final_marble,
            ;
            assert(2 * final_marble * next_marble == 2 * final_marble * (next_marble - 1) + 2 * final_marble)
                by (nonlinear_arith);
        }
        if next_marble % 23 == 0 {
            go_backward(&mut cursor, 7);
            let removed_marble = cursor_remove(&mut cursor).unwrap();
            let score = scores[current_player];
            assert(score == g.scores[current_player as int]);
            assert(removed_marble <= next_marble - 1);
            assert(score + next_marble + removed_marble <= 2 * final_marble * next_marble);
            scores.set(current_player, score + (next_marble + removed_marble));
        } else {
            go_forward(&mut cursor, 2);
            cursor_insert(&mut cursor, next_marble);
        }
        proof {
            g = turn(g, next_marble);
        }
        next_marble += 1;
        current_player = (current_player + 1) % nb_players;
    }

    let mut high: usize = 0;
    for i in 0..nb_players
        invariant
            scores@.len() == nb_players,
            g.scores.len() == nb_players,
            forall|i: int| 0 <= i < nb_players ==> #[trigger] scores@[i] == g.scores[i],
            high == high_score(g.scores.take(i as int)),
    {
        proof {
            assert(g.scores.take(i + 1).drop_last() =~= g.scores.take(i as int));
            assert(g.scores.take(i + 1).last() == g.scores[i as int]);
        }
        if scores[i] >= high {
            high = scores[i];
        }
    }
    assert(g.scores.take(nb_players as int) =~= g.scores);
    high
}

} // verus!
