use vstd::prelude::*;
use crate::tictactoe::{Cell, Contract, GameView, can_play, consistent, lemma_play_keeps_consistent, mark_for, play_outcome};

verus! {

/// The Soroban host environment, which holds the bot's vector of moves.
#[verifier::external_type_specification]
#[verifier::external_body]
pub struct ExEnv(soroban_sdk::Env);

/// A vector in the host's memory.
#[verifier::external_type_specification]
#[verifier::external_body]
#[verifier::reject_recursive_types(T)]
pub struct ExHostVec<T>(soroban_sdk::Vec<T>);

/// The items of a host vector of `u32`s, in order.
pub uninterp spec fn host_vec_items(v: soroban_sdk::Vec<u32>) -> Seq<u32>;

/// Every value the host vector holds is a `u32`. (A `soroban_sdk::Vec<u32>`
/// received from outside may hold values of other types.)
pub uninterp spec fn host_vec_all_u32(v: soroban_sdk::Vec<u32>) -> bool;

/// `soroban_sdk::Vec::new`: a new, empty vector in the host's memory.
#[verifier::external_body]
fn host_vec_new(env: &soroban_sdk::Env) -> (v: soroban_sdk::Vec<u32>)
    ensures
        host_vec_items(v) == Seq::<u32>::empty(),
        host_vec_all_u32(v),
{
    soroban_sdk::Vec::new(env)
}

/// `soroban_sdk::Vec::push_back`: appends `x` to the vector. The host
/// refuses a vector longer than `u32::MAX` items; the contract does not
/// state that the host may also stop on exhausting its resource budget.
#[verifier::external_body]
fn host_vec_push(v: &mut soroban_sdk::Vec<u32>, x: u32)
    requires
        host_vec_items(*old(v)).len() < u32::MAX,
    ensures
        host_vec_items(*final(v)) == host_vec_items(*old(v)).push(x),
        host_vec_all_u32(*old(v)) ==> host_vec_all_u32(*final(v)),
{
    v.push_back(x)
}

/// `soroban_sdk::Vec::len`: the number of items, which the host keeps
/// within `u32`.
#[verifier::external_body]
fn host_vec_len(v: &soroban_sdk::Vec<u32>) -> (n: u32)
    ensures
        n == host_vec_items(*v).len(),
{
    v.len()
}

/// `soroban_sdk::Vec::get`: the item at position `i`, or `None` past the
/// end. It panics on a value that is not a `u32`, which the `requires`
/// leaves out; running out of budget is not stated.
#[verifier::external_body]
fn host_vec_get(v: &soroban_sdk::Vec<u32>, i: u32) -> (item: Option<u32>)
    requires
        host_vec_all_u32(*v),
    ensures
        i < host_vec_items(*v).len() ==> item == Some(host_vec_items(*v)[i as int]),
        i >= host_vec_items(*v).len() ==> item is None,
{
    v.get(i)
}

/// The squares `i < n` with `empty[i]`, in increasing order: the moves the
/// bot has to choose from.
pub open spec fn free_squares(empty: Seq<bool>, n: int) -> Seq<u32>
    decreases n,
{
    if n <= 0 {
        Seq::empty()
    } else if empty[n - 1] {
        free_squares(empty, n - 1).push((n - 1) as u32)
    } else {
        free_squares(empty, n - 1)
    }
}

/// The bot's decision: no move while no game is in progress, once there is
/// a winner, or when the board is full; otherwise the free square at
/// position `random % k` of the `k` free squares.
pub open spec fn bot_choice(playing: bool, has_winner: bool, empty: Seq<bool>, random: u64) -> Option<u32> {
    let moves = free_squares(empty, 9);
    if !playing || has_winner || moves.len() == 0 {
        None
    } else {
        Some(moves[(random % (moves.len() as u64)) as int])
    }
}

/// Which squares of a game's board are empty.
pub open spec fn empty_squares(g: GameView) -> Seq<bool> {
    g.board.map_values(|c: Cell| c == Cell::Null)
}

/// Result code and game storage after the bot, playing as `me`, takes its
/// turn with the random number `random`.
pub open spec fn go_outcome(g: GameView, me: Seq<char>, random: u64) -> (u32, GameView) {
    match bot_choice(g.playing != 0, g.winner.len() > 0, empty_squares(g), random) {
        None => (1, g),
        Some(mv) => play_outcome(g, me, mv),
    }
}

/// The bot contract: it plays tic-tac-toe against whoever started a game
/// with it, picking a random empty square.
pub struct BotContract;

impl BotContract {
    /// Decides the bot's move from what it observes of a game: whether one
    /// is in progress, the winner's address (empty while there is none),
    /// which squares are empty, and a random number.
    /// The free squares are gathered, in increasing order, in a vector in
    /// the host's memory.
    pub fn choose_move(
        env: &soroban_sdk::Env,
        playing: bool,
        winner: &String,
        empty: &[bool; 9],
        random: u64,
    ) -> (choice: Option<u32>)
        ensures
            choice == bot_choice(playing, winner@.len() > 0, empty@, random),
    {
        if !playing {
            return None;
        }
        if !winner.as_str().is_empty() {
            return None;
        }
        let mut moves = host_vec_new(env);
        let mut i: u32 = 0;
        while i < 9
            invariant
                i <= 9,
                host_vec_items(moves) == free_squares(empty@, i as int),
                host_vec_all_u32(moves),
            decreases 9 - i,
        {
            proof {
                lemma_free_squares_len(empty@, i as int);
            }
            if empty[i as usize] {
                host_vec_push(&mut moves, i);
            }
            i = i + 1;
        }
        let count: u32 = host_vec_len(&moves);
        if count == 0 {
            return None;
        }
        let pick: u64 = random % (count as u64);
        host_vec_get(&moves, pick as u32)
    }

    /// The bot, playing as `me`, takes its turn in `game`: it reads whether
    /// a game is in progress, the winner and the empty squares, picks a move
    /// with `random`, and plays it. Returns `1` when it has no move to make,
    /// and otherwise the game's answer to the move.
    pub fn go(env: &soroban_sdk::Env, game: &mut Contract, me: &String, random: u64) -> (r: u32)
        ensures
            (r, final(game)@) == go_outcome(old(game)@, me@, random),
    {
        proof {
            game.lemma_board_size();
        }
        let playing = game.is_playing();
        let winner = game.winner();
        let mut empty: [bool; 9] = [false; 9];
        let mut i: u32 = 0;
        while i < 9
            invariant
                i <= 9,
                forall|j: int| 0 <= j < i ==> empty@[j] == (game@.board[j] == Cell::Null),
            decreases 9 - i,
        {
            empty[i as usize] = game.is_empty(i);
            i = i + 1;
        }
        assert(empty@ =~= empty_squares(game@));
        match Self::choose_move(env, playing, &winner, &empty, random) {
            None => 1,
            Some(mv) => game.play(me, mv),
        }
    }
}

proof fn lemma_free_squares_len(empty: Seq<bool>, n: int)
    requires
        0 <= n,
    ensures
        free_squares(empty, n).len() <= n,
    decreases n,
{
    if n > 0 {
        lemma_free_squares_len(empty, n - 1);
    }
}

proof fn lemma_free_squares_are_free(empty: Seq<bool>, n: int, k: int)
    requires
        0 <= k < free_squares(empty, n).len(),
        n <= empty.len(),
        n <= 9,
    ensures
        0 <= free_squares(empty, n)[k] < n,
        empty[free_squares(empty, n)[k] as int],
    decreases n,
{
    if n > 0 {
        let prev = free_squares(empty, n - 1);
        if empty[n - 1] && k == prev.len() {
        } else {
            lemma_free_squares_are_free(empty, n - 1, k);
        }
    }
}

proof fn lemma_free_square_found(empty: Seq<bool>, n: int, i: int)
    requires
        0 <= i < n <= empty.len(),
        empty[i],
    ensures
        free_squares(empty, n).len() > 0,
    decreases n,
{
    if i < n - 1 {
        lemma_free_square_found(empty, n - 1, i);
    }
}

/// The bot only ever picks an empty square of the board.
pub proof fn lemma_bot_picks_empty_square(playing: bool, has_winner: bool, empty: Seq<bool>, random: u64)
    requires
        empty.len() == 9,
        bot_choice(playing, has_winner, empty, random) is Some,
    ensures
        bot_choice(playing, has_winner, empty, random)->0 < 9,
        empty[bot_choice(playing, has_winner, empty, random)->0 as int],
{
    let moves = free_squares(empty, 9);
    lemma_free_squares_len(empty, 9);
    lemma_free_squares_are_free(empty, 9, (random % (moves.len() as u64)) as int);
}

/// On its turn in a game without a winner and with an empty square left,
/// the bot always makes a move, which the game accepts.
pub proof fn lemma_bot_moves_on_its_turn(g: GameView, me: Seq<char>, random: u64, square: int)
    requires
        g.board.len() == 9,
        g.playing != 0,
        g.winner.len() == 0,
        g.next == me,
        mark_for(g, me) is Some,
        0 <= square < 9,
        g.board[square] == Cell::Null,
    ensures
        go_outcome(g, me, random).0 == 0,
{
    let empty = empty_squares(g);
    lemma_free_square_found(empty, 9, square);
    lemma_bot_picks_empty_square(true, false, empty, random);
    let mv = bot_choice(true, false, empty, random)->0;
    assert(can_play(g, me, mv));
}

/// Against a different address, the bot never moves twice in a row: after
/// a move the game accepted, its next turn is refused.
pub proof fn lemma_bot_no_two_moves_in_a_row(g: GameView, me: Seq<char>, random: u64, random2: u64)
    requires
        g.player != g.opponent,
        go_outcome(g, me, random).0 == 0,
    ensures
        go_outcome(go_outcome(g, me, random).1, me, random2).0 == 1,
{
}

/// The bot's turn keeps the game contract consistent.
pub proof fn lemma_go_keeps_consistent(g: GameView, me: Seq<char>, random: u64)
    requires
        consistent(g),
    ensures
        consistent(go_outcome(g, me, random).1),
{
    if let Some(mv) = bot_choice(g.playing != 0, g.winner.len() > 0, empty_squares(g), random) {
        lemma_play_keeps_consistent(g, me, mv);
    }
}

/// The free squares are exactly the empty squares below `n`, listed in
/// strictly increasing order.
pub proof fn lemma_free_squares_are_the_empty_squares(empty: Seq<bool>, n: int)
    requires
        0 <= n <= empty.len(),
        n <= 9,
    ensures
        forall|a: int, b: int|
            0 <= a < b < free_squares(empty, n).len() ==> free_squares(empty, n)[a] < free_squares(empty, n)[b],
        forall|a: int| 0 <= a < free_squares(empty, n).len() ==> empty[free_squares(empty, n)[a] as int] && free_squares(empty, n)[a] < n,
        forall|q: int| 0 <= q < n && empty[q] ==> free_squares(empty, n).contains(q as u32),
    decreases n,
{
    if n > 0 {
        lemma_free_squares_are_the_empty_squares(empty, n - 1);
        let prev = free_squares(empty, n - 1);
        let cur = free_squares(empty, n);
        assert forall|q: int| 0 <= q < n && empty[q] implies cur.contains(q as u32) by {
            if q == n - 1 {
                assert(cur[cur.len() - 1] == q as u32);
            } else {
                let w = choose|w: int| 0 <= w < prev.len() && prev[w] == q as u32;
                assert(cur[w] == q as u32);
            }
        }
    }
}

/// The bot's choice, while it may move and `k > 0` squares are free, is
/// fixed by `random % k`: a random number `r < k` picks the `r`-th free
/// square (counting from zero, in increasing order of squares).
pub proof fn lemma_bot_choice_small(empty: Seq<bool>, r: u64)
    requires
        empty.len() == 9,
        r < free_squares(empty, 9).len(),
    ensures
        bot_choice(true, false, empty, r) == Some(free_squares(empty, 9)[r as int]),
{
    let k = free_squares(empty, 9).len();
    lemma_free_squares_len(empty, 9);
    vstd::arithmetic::div_mod::lemma_small_mod(r as nat, k);
    assert(r % (k as u64) == r);
}

/// Random numbers `k` apart, for `k` free squares, make the bot pick the
/// same square: only the full 64-bit random number modulo `k` matters.
pub proof fn lemma_bot_choice_periodic(empty: Seq<bool>, random: u64)
    requires
        empty.len() == 9,
        free_squares(empty, 9).len() > 0,
        random >= free_squares(empty, 9).len(),
    ensures
        bot_choice(true, false, empty, random) == bot_choice(
            true,
            false,
            empty,
            (random - free_squares(empty, 9).len()) as u64,
        ),
{
    let k = free_squares(empty, 9).len();
    lemma_free_squares_len(empty, 9);
    let r = random as int;
    assert((r - k) % (k as int) == r % (k as int)) by (nonlinear_arith)
        requires
            k > 0,
            r >= k,
    {
        vstd::arithmetic::div_mod::lemma_mod_sub_multiples_vanish(r, k as int);
    }
}

/// The bot declines exactly when it may not move or has no free square:
/// with no game in progress or a winner it never moves, and otherwise it
/// moves if and only if some square is empty.
pub proof fn lemma_bot_declines(empty: Seq<bool>, playing: bool, has_winner: bool, random: u64)
    requires
        empty.len() == 9,
    ensures
        !playing || has_winner ==> bot_choice(playing, has_winner, empty, random) is None,
        playing && !has_winner ==> (bot_choice(playing, has_winner, empty, random) is Some <==> exists|q: int|
            0 <= q < 9 && #[trigger] empty[q]),
{
    lemma_free_squares_are_the_empty_squares(empty, 9);
    if playing && !has_winner {
        if exists|q: int| 0 <= q < 9 && #[trigger] empty[q] {
            let q = choose|q: int| 0 <= q < 9 && #[trigger] empty[q];
            lemma_free_square_found(empty, 9, q);
        }
        if free_squares(empty, 9).len() > 0 {
            let q = free_squares(empty, 9)[0] as int;
            assert(empty[q]);
        }
    }
}

} // verus!
