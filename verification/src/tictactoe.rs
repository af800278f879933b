use vstd::prelude::*;

verus! {

/// One square of the board, as the game stores it: `NULL`, `X` or `O`.
#[derive(Clone, Copy, Debug, PartialEq, Eq, Structural)]
pub enum Cell {
    Null,
    X,
    O,
}

/// `b[i]`, `b[j]` and `b[k]` all hold `m`.
pub open spec fn line_of(b: Seq<Cell>, m: Cell, i: int, j: int, k: int) -> bool {
    b[i] == m && b[j] == m && b[k] == m
}

/// Row `r` (cells `3r, 3r+1, 3r+2`) or column `r` (cells `r, r+3, r+6`) is all `m`.
pub open spec fn row_or_column(b: Seq<Cell>, m: Cell, r: int) -> bool {
    line_of(b, m, 3 * r, 3 * r + 1, 3 * r + 2) || line_of(b, m, r, r + 3, r + 6)
}

/// Some row, column or diagonal of the board is all `m`.
pub open spec fn has_line(b: Seq<Cell>, m: Cell) -> bool {
    ||| row_or_column(b, m, 0)
    ||| row_or_column(b, m, 1)
    ||| row_or_column(b, m, 2)
    ||| line_of(b, m, 0, 4, 8)
    ||| line_of(b, m, 2, 4, 6)
}

/// Checks the rows and columns, then the two diagonals, for three `value`s.
fn completes_line(board: &[Cell; 9], value: Cell) -> (win: bool)
    ensures
        win == has_line(board@, value),
{
    let mut win: bool = false;
    let mut i: usize = 0;
    while i < 3 && !win
        invariant
            i <= 3,
            win ==> has_line(board@, value),
            !win ==> forall|r: int| 0 <= r < i ==> !row_or_column(board@, value, r),
        decreases 3 - i,
    {
        if board[i * 3] == value && board[i * 3 + 1] == value && board[i * 3 + 2] == value {
            win = true;
        } else if board[i] == value && board[3 + i] == value && board[6 + i] == value {
            win = true;
        }
        proof {
            if win {
                assert(row_or_column(board@, value, i as int));
                assert(0 <= i < 3);
            }
        }
        i = i + 1;
    }
    if !win {
        assert(!row_or_column(board@, value, 0));
        assert(!row_or_column(board@, value, 1));
        assert(!row_or_column(board@, value, 2));
        if board[0] == value && board[4] == value && board[8] == value {
            win = true;
        }
        if board[2] == value && board[4] == value && board[6] == value {
            win = true;
        }
    }
    win
}

/// What the game contract holds in its instance storage. A key that was
/// never written reads as its default (`0`, the empty string, `NULL`), so
/// the model stores those defaults in its place.
pub struct GameView {
    /// `PLAYING`: non-zero while a game is in progress.
    pub playing: u32,
    /// `PLAYER`: the address that started the game; plays `X`.
    pub player: Seq<char>,
    /// `OPPONENT`: the other participant; plays `O`.
    pub opponent: Seq<char>,
    /// `NEXT`: the address whose turn it is.
    pub next: Seq<char>,
    /// `WINNER`: the winner's address, or empty.
    pub winner: Seq<char>,
    /// Keys `0..9`: the squares, row by row.
    pub board: Seq<Cell>,
}

/// A board of nine empty squares.
pub open spec fn empty_board() -> Seq<Cell> {
    Seq::new(9, |i: int| Cell::Null)
}

/// The storage of a freshly deployed game contract.
pub open spec fn initial_game() -> GameView {
    GameView {
        playing: 0,
        player: Seq::empty(),
        opponent: Seq::empty(),
        next: Seq::empty(),
        winner: Seq::empty(),
        board: empty_board(),
    }
}

/// The game that `start(player, opponent)` sets up.
pub open spec fn fresh_game(player: Seq<char>, opponent: Seq<char>) -> GameView {
    GameView {
        playing: 1,
        player,
        opponent,
        next: player,
        winner: Seq::empty(),
        board: empty_board(),
    }
}

/// Result code and storage after `start(player, opponent)`: a new game when
/// none is in progress (`0`), otherwise a refusal (`1`) that changes nothing.
pub open spec fn start_outcome(g: GameView, player: Seq<char>, opponent: Seq<char>) -> (u32, GameView) {
    if g.playing == 0 {
        (0, fresh_game(player, opponent))
    } else {
        (1, g)
    }
}

/// The symbol that `addr` plays: `X` for the player, `O` for the opponent.
pub open spec fn mark_for(g: GameView, addr: Seq<char>) -> Option<Cell> {
    if g.player == addr {
        Some(Cell::X)
    } else if g.opponent == addr {
        Some(Cell::O)
    } else {
        None
    }
}

/// `addr` may put its mark on square `mv`: a game is in progress, it is
/// `addr`'s turn, `addr` takes part, and `mv` is an empty square of the board.
pub open spec fn can_play(g: GameView, addr: Seq<char>, mv: u32) -> bool {
    &&& g.playing != 0
    &&& g.next == addr
    &&& mark_for(g, addr) is Some
    &&& mv < 9
    &&& g.board[mv as int] == Cell::Null
}

/// The storage after `addr` marks square `mv`: the turn passes to the other
/// participant, and if the mark completes a line, `addr` is the winner and
/// the game is over.
pub open spec fn after_move(g: GameView, addr: Seq<char>, mv: u32) -> GameView {
    let m = mark_for(g, addr)->0;
    let board = g.board.update(mv as int, m);
    let next = if g.player == addr { g.opponent } else { g.player };
    if has_line(board, m) {
        GameView { playing: 0, player: g.player, opponent: g.opponent, next, winner: addr, board }
    } else {
        GameView { playing: g.playing, player: g.player, opponent: g.opponent, next, winner: g.winner, board }
    }
}

/// Result code and storage after `play(addr, mv)`.
pub open spec fn play_outcome(g: GameView, addr: Seq<char>, mv: u32) -> (u32, GameView) {
    if can_play(g, addr, mv) {
        (0, after_move(g, addr, mv))
    } else {
        (1, g)
    }
}

/// The tic-tac-toe contract, holding a model of its instance storage.
/// Addresses are held as their string form, which is what the contract
/// stores and compares.
pub struct Contract {
    playing: u32,
    player: String,
    opponent: String,
    next: String,
    winner: String,
    board: [Cell; 9],
}

impl View for Contract {
    type V = GameView;

    closed spec fn view(&self) -> GameView {
        GameView {
            playing: self.playing,
            player: self.player@,
            opponent: self.opponent@,
            next: self.next@,
            winner: self.winner@,
            board: self.board@,
        }
    }
}

impl Contract {
    /// The board of every game has nine squares.
    pub proof fn lemma_board_size(&self)
        ensures
            self@.board.len() == 9,
    {
    }

    /// The contract as deployed, before any game.
    pub fn new() -> (c: Contract)
        ensures
            c@ == initial_game(),
    {
        let c = Contract {
            playing: 0,
            player: String::new(),
            opponent: String::new(),
            next: String::new(),
            winner: String::new(),
            board: [Cell::Null; 9],
        };
        assert(c@.board =~= empty_board());
        c
    }

    /// The contract holding the given storage values.
    pub fn from_storage(
        playing: u32,
        player: String,
        opponent: String,
        next: String,
        winner: String,
        board: [Cell; 9],
    ) -> (c: Contract)
        ensures
            c@ == (GameView {
                playing,
                player: player@,
                opponent: opponent@,
                next: next@,
                winner: winner@,
                board: board@,
            }),
    {
        Contract { playing, player, opponent, next, winner, board }
    }

    /// The `PLAYING` value.
    pub fn playing(&self) -> (p: u32)
        ensures
            p == self@.playing,
    {
        self.playing
    }

    /// The player's address.
    pub fn player(&self) -> (p: &String)
        ensures
            p@ == self@.player,
    {
        &self.player
    }

    /// The opponent's address.
    pub fn opponent(&self) -> (o: &String)
        ensures
            o@ == self@.opponent,
    {
        &self.opponent
    }

    /// The address whose turn it is.
    pub fn next(&self) -> (n: &String)
        ensures
            n@ == self@.next,
    {
        &self.next
    }

    /// The squares of the board, row by row.
    pub fn board(&self) -> (b: [Cell; 9])
        ensures
            b@ == self@.board,
    {
        self.board
    }

    /// Starts a game between `player_addr` (who moves first, with `X`) and
    /// `opponent_addr`, unless one is in progress. Returns `0` on success and
    /// `1` when a game is already being played.
    pub fn start(&mut self, player_addr: String, opponent_addr: String) -> (r: u32)
        ensures
            (r, final(self)@) == start_outcome(old(self)@, player_addr@, opponent_addr@),
    {
        if self.playing == 0 {
            let next = player_addr.clone();
            self.player = player_addr;
            self.opponent = opponent_addr;
            self.next = next;
            self.winner = String::new();
            self.board = [Cell::Null; 9];
            self.playing = 1;
            assert(self@.board =~= empty_board());
            0
        } else {
            1
        }
    }

    /// `addr` marks square `player_move`. Returns `0` when the move is made,
    /// and `1`, changing nothing, when no game is in progress, it is not
    /// `addr`'s turn, `addr` does not take part, or the square is off the
    /// board or taken. A move that completes a line makes `addr` the winner
    /// and ends the game.
    pub fn play(&mut self, addr: &String, player_move: u32) -> (r: u32)
        ensures
            (r, final(self)@) == play_outcome(old(self)@, addr@, player_move),
    {
        if self.playing == 0 {
            return 1;
        }
        if !(self.next == *addr) {
            return 1;
        }
        let value: Cell;
        let next: String;
        if self.player == *addr {
            next = self.opponent.clone();
            value = Cell::X;
        } else if self.opponent == *addr {
            next = self.player.clone();
            value = Cell::O;
        } else {
            return 1;
        }
        if player_move < 9 {
            if self.board[player_move as usize] != Cell::Null {
                return 1;
            }
        } else {
            return 1;
        }
        self.board[player_move as usize] = value;
        self.next = next;
        let win = completes_line(&self.board, value);
        if win {
            self.winner = addr.clone();
            self.playing = 0;
        }
        proof {
            let g = old(self)@;
            assert(self@.board =~= g.board.update(player_move as int, value));
        }
        0
    }

    /// The winner's address, or the empty string while there is none.
    pub fn winner(&self) -> (w: String)
        ensures
            w@ == self@.winner,
    {
        self.winner.clone()
    }

    /// Whether a game is in progress.
    pub fn is_playing(&self) -> (b: bool)
        ensures
            b == (self@.playing != 0),
    {
        self.playing != 0
    }

    /// Whether square `index` of the board is empty.
    pub fn is_empty(&self, index: u32) -> (b: bool)
        requires
            index < 9,
        ensures
            b == (self@.board[index as int] == Cell::Null),
    {
        self.board[index as usize] == Cell::Null
    }
}

/// How many squares of `b` hold `m`.
pub open spec fn count_marks(b: Seq<Cell>, m: Cell) -> nat
    decreases b.len(),
{
    if b.len() == 0 {
        0
    } else {
        count_marks(b.drop_last(), m) + (if b.last() == m { 1nat } else { 0nat })
    }
}

/// The turn agrees with the marks on the board: `X` moves first, so it is
/// the player's turn when both have made as many moves, and the
/// opponent's when the player has made one more.
pub open spec fn turn_matches_marks(g: GameView) -> bool {
    ||| count_marks(g.board, Cell::X) == count_marks(g.board, Cell::O) && g.next == g.player
    ||| count_marks(g.board, Cell::X) == count_marks(g.board, Cell::O) + 1 && g.next == g.opponent
}

/// What holds of every state the game contract can reach: while a game is
/// in progress there is no winner, no line on the board, and the turn is a
/// participant's; a winner is a participant whose mark fills a line; and
/// between two different addresses the turn agrees with the marks.
pub open spec fn consistent(g: GameView) -> bool {
    &&& g.board.len() == 9
    &&& g.playing != 0 ==> g.winner.len() == 0
    &&& g.playing != 0 ==> (g.next == g.player || g.next == g.opponent)
    &&& g.playing != 0 ==> !has_line(g.board, Cell::X) && !has_line(g.board, Cell::O)
    &&& g.winner.len() != 0 ==> (g.winner == g.player || g.winner == g.opponent)
    &&& g.winner.len() != 0 ==> has_line(g.board, mark_for(g, g.winner)->0)
    &&& g.player != g.opponent ==> turn_matches_marks(g)
}

/// Marking one square with `m` completes no line of another mark.
proof fn lemma_no_new_line_of_other_mark(b: Seq<Cell>, i: int, m: Cell, other: Cell)
    requires
        b.len() == 9,
        0 <= i < 9,
        m != other,
        !has_line(b, other),
    ensures
        !has_line(b.update(i, m), other),
{
    let u = b.update(i, m);
    assert forall|j: int| 0 <= j < 9 && u[j] == other implies b[j] == other by {
        if j == i {
            assert(u[j] == m);
        }
    }
}

proof fn lemma_count_empty(b: Seq<Cell>, m: Cell)
    requires
        m != Cell::Null,
        forall|i: int| 0 <= i < b.len() ==> b[i] == Cell::Null,
    ensures
        count_marks(b, m) == 0,
    decreases b.len(),
{
    if b.len() > 0 {
        lemma_count_empty(b.drop_last(), m);
    }
}

proof fn lemma_count_update(b: Seq<Cell>, i: int, m: Cell, c: Cell)
    requires
        0 <= i < b.len(),
        b[i] == Cell::Null,
        m != Cell::Null,
        c != Cell::Null,
    ensures
        count_marks(b.update(i, m), c) == count_marks(b, c) + (if c == m { 1nat } else { 0nat }),
    decreases b.len(),
{
    let u = b.update(i, m);
    if i == b.len() - 1 {
        assert(u.drop_last() =~= b.drop_last());
    } else {
        assert(u.drop_last() =~= b.drop_last().update(i, m));
        lemma_count_update(b.drop_last(), i, m, c);
    }
}

/// A freshly deployed game contract is consistent.
pub proof fn lemma_initial_consistent()
    ensures
        consistent(initial_game()),
{
}

/// `start` keeps the game contract consistent.
pub proof fn lemma_start_keeps_consistent(g: GameView, player: Seq<char>, opponent: Seq<char>)
    requires
        consistent(g),
    ensures
        consistent(start_outcome(g, player, opponent).1),
{
    if g.playing == 0 {
        lemma_count_empty(empty_board(), Cell::X);
        lemma_count_empty(empty_board(), Cell::O);
    }
}

/// `play` keeps the game contract consistent.
pub proof fn lemma_play_keeps_consistent(g: GameView, addr: Seq<char>, mv: u32)
    requires
        consistent(g),
    ensures
        consistent(play_outcome(g, addr, mv).1),
{
    if can_play(g, addr, mv) {
        let m = mark_for(g, addr)->0;
        lemma_count_update(g.board, mv as int, m, Cell::X);
        lemma_count_update(g.board, mv as int, m, Cell::O);
        let other = if m == Cell::X { Cell::O } else { Cell::X };
        lemma_no_new_line_of_other_mark(g.board, mv as int, m, other);
    }
}

/// A successful move puts the mover's mark on the chosen square, which was
/// empty, and leaves the other squares as they were.
pub proof fn lemma_move_marks_one_square(g: GameView, addr: Seq<char>, mv: u32)
    requires
        play_outcome(g, addr, mv).0 == 0,
    ensures
        mv < 9,
        g.board[mv as int] == Cell::Null,
        play_outcome(g, addr, mv).1.board == g.board.update(mv as int, mark_for(g, addr)->0),
{
}

/// Between two different addresses, nobody moves twice in a row: after a
/// successful move, the mover's next move is refused.
pub proof fn lemma_no_two_moves_in_a_row(g: GameView, addr: Seq<char>, mv: u32, mv2: u32)
    requires
        g.player != g.opponent,
        play_outcome(g, addr, mv).0 == 0,
    ensures
        play_outcome(play_outcome(g, addr, mv).1, addr, mv2) == (1u32, play_outcome(g, addr, mv).1),
{
}

/// A move that completes a line ends the game with the mover as the
/// winner: every further move is refused, and a new game can be started.
pub proof fn lemma_win_ends_game(
    g: GameView,
    addr: Seq<char>,
    mv: u32,
    other: Seq<char>,
    mv2: u32,
    player: Seq<char>,
    opponent: Seq<char>,
)
    requires
        can_play(g, addr, mv),
        has_line(g.board.update(mv as int, mark_for(g, addr)->0), mark_for(g, addr)->0),
    ensures
        play_outcome(g, addr, mv).1.winner == addr,
        play_outcome(g, addr, mv).1.playing == 0,
        play_outcome(play_outcome(g, addr, mv).1, other, mv2).0 == 1,
        start_outcome(play_outcome(g, addr, mv).1, player, opponent) == (0u32, fresh_game(player, opponent)),
{
}

/// While a game is in progress, a second `start` is refused and changes
/// nothing.
pub proof fn lemma_no_restart_during_game(g: GameView, p: Seq<char>, o: Seq<char>, p2: Seq<char>, o2: Seq<char>)
    requires
        start_outcome(g, p, o).0 == 0,
    ensures
        start_outcome(start_outcome(g, p, o).1, p2, o2) == (1u32, fresh_game(p, o)),
{
}

/// A call made on the game contract.
pub enum GameCall {
    Start(Seq<char>, Seq<char>),
    Play(Seq<char>, u32),
}

/// Result code and storage after one call.
pub open spec fn call_outcome(g: GameView, c: GameCall) -> (u32, GameView) {
    match c {
        GameCall::Start(p, o) => start_outcome(g, p, o),
        GameCall::Play(a, mv) => play_outcome(g, a, mv),
    }
}

/// The storage after making `calls`, in order, from `g`.
pub open spec fn run_game(g: GameView, calls: Seq<GameCall>) -> GameView
    decreases calls.len(),
{
    if calls.len() == 0 {
        g
    } else {
        call_outcome(run_game(g, calls.drop_last()), calls.last()).1
    }
}

/// How many of `calls`, made in order from `g`, succeed.
pub open spec fn successes(g: GameView, calls: Seq<GameCall>) -> nat
    decreases calls.len(),
{
    if calls.len() == 0 {
        0
    } else {
        successes(g, calls.drop_last()) + (if call_outcome(run_game(g, calls.drop_last()), calls.last()).0
            == 0 { 1nat } else { 0nat })
    }
}

/// `c`, made on `g`, is a successful move that completes a line.
pub open spec fn completes_line_at(g: GameView, c: GameCall) -> bool {
    match c {
        GameCall::Play(a, mv) => can_play(g, a, mv) && has_line(
            g.board.update(mv as int, mark_for(g, a)->0),
            mark_for(g, a)->0,
        ),
        GameCall::Start(_, _) => false,
    }
}

/// `c`, made on `g`, successfully starts a game.
pub open spec fn starts_game_at(g: GameView, c: GameCall) -> bool {
    c is Start && g.playing == 0
}

/// The mover of a call.
pub open spec fn mover(c: GameCall) -> Seq<char> {
    match c {
        GameCall::Play(a, _) => a,
        GameCall::Start(p, _) => p,
    }
}

/// Every state reached by any calls from a freshly deployed contract is
/// consistent.
pub proof fn lemma_run_consistent(calls: Seq<GameCall>)
    ensures
        consistent(run_game(initial_game(), calls)),
    decreases calls.len(),
{
    if calls.len() > 0 {
        lemma_run_consistent(calls.drop_last());
        let g = run_game(initial_game(), calls.drop_last());
        match calls.last() {
            GameCall::Start(p, o) => lemma_start_keeps_consistent(g, p, o),
            GameCall::Play(a, mv) => lemma_play_keeps_consistent(g, a, mv),
        }
    }
}

/// A winning move followed by calls none of which starts a new game leaves
/// the mover as the winner and the game over.
proof fn lemma_winner_stays(g: GameView, calls: Seq<GameCall>, j: int)
    requires
        0 <= j < calls.len(),
        completes_line_at(run_game(g, calls.take(j)), calls[j]),
        forall|k: int| j < k < calls.len() ==> !starts_game_at(#[trigger] run_game(g, calls.take(k)), calls[k]),
    ensures
        run_game(g, calls).winner == mover(calls[j]),
        run_game(g, calls).playing == 0,
    decreases calls.len(),
{
    let n = calls.len();
    let prev = calls.drop_last();
    if j == n - 1 {
        assert(prev =~= calls.take(j));
    } else {
        assert forall|k: int| j < k < prev.len() implies !starts_game_at(#[trigger] run_game(g, prev.take(k)), prev[k]) by {
            assert(prev.take(k) =~= calls.take(k));
            assert(!starts_game_at(run_game(g, calls.take(k)), calls[k]));
        }
        assert(prev.take(j) =~= calls.take(j));
        lemma_winner_stays(g, prev, j);
        assert(prev =~= calls.take(n - 1));
        assert(!starts_game_at(run_game(g, calls.take(n - 1)), calls[n - 1]));
    }
}

/// Whoever the winner is came from a move since the last new game: if,
/// starting without a winner, the winner is non-empty after some calls,
/// one of them completed a line, it was made by the winner, and no game was
/// started after it.
proof fn lemma_winner_has_winning_move(g: GameView, calls: Seq<GameCall>)
    requires
        g.winner.len() == 0,
        run_game(g, calls).winner.len() != 0,
    ensures
        exists|j: int|
            0 <= j < calls.len() && completes_line_at(#[trigger] run_game(g, calls.take(j)), calls[j])
                && mover(calls[j]) == run_game(g, calls).winner && forall|k: int|
                j < k < calls.len() ==> !starts_game_at(#[trigger] run_game(g, calls.take(k)), calls[k]),
    decreases calls.len(),
{
    let n = calls.len();
    let prev = calls.drop_last();
    let h = run_game(g, prev);
    assert(prev =~= calls.take(n - 1));
    if completes_line_at(h, calls[n - 1]) {
        assert(completes_line_at(run_game(g, calls.take(n - 1)), calls[n - 1]));
    } else {
        assert(h.winner == run_game(g, calls).winner);
        assert(!starts_game_at(h, calls[n - 1]));
        lemma_winner_has_winning_move(g, prev);
        let j = choose|j: int|
            0 <= j < prev.len() && completes_line_at(#[trigger] run_game(g, prev.take(j)), prev[j])
                && mover(prev[j]) == run_game(g, prev).winner && forall|k: int|
                j < k < prev.len() ==> !starts_game_at(#[trigger] run_game(g, prev.take(k)), prev[k]);
        assert(prev.take(j) =~= calls.take(j));
        assert forall|k: int| j < k < calls.len() implies !starts_game_at(#[trigger] run_game(g, calls.take(k)), calls[k]) by {
            if k < n - 1 {
                assert(prev.take(k) =~= calls.take(k));
                assert(!starts_game_at(run_game(g, prev.take(k)), prev[k]));
            }
        }
        assert(completes_line_at(run_game(g, calls.take(j)), calls[j]));
    }
}

/// The winner after any calls from a contract without a winner (a freshly
/// deployed one, say) is non-empty exactly when some move since the last
/// new game completed a line, and it is that move's mover.
pub proof fn lemma_winner_law(g: GameView, calls: Seq<GameCall>)
    requires
        g.winner.len() == 0,
    ensures
        run_game(g, calls).winner.len() != 0 ==> exists|j: int|
            0 <= j < calls.len() && completes_line_at(#[trigger] run_game(g, calls.take(j)), calls[j])
                && mover(calls[j]) == run_game(g, calls).winner && forall|k: int|
                j < k < calls.len() ==> !starts_game_at(#[trigger] run_game(g, calls.take(k)), calls[k]),
        forall|j: int|
            0 <= j < calls.len() && completes_line_at(#[trigger] run_game(g, calls.take(j)), calls[j])
                && (forall|k: int|
                j < k < calls.len() ==> !starts_game_at(#[trigger] run_game(g, calls.take(k)), calls[k]))
                ==> run_game(g, calls).winner == mover(calls[j]),
{
    if run_game(g, calls).winner.len() != 0 {
        lemma_winner_has_winning_move(g, calls);
    }
    assert forall|j: int|
        0 <= j < calls.len() && completes_line_at(#[trigger] run_game(g, calls.take(j)), calls[j])
            && (forall|k: int|
            j < k < calls.len() ==> !starts_game_at(#[trigger] run_game(g, calls.take(k)), calls[k]))
            implies run_game(g, calls).winner == mover(calls[j]) by {
        lemma_winner_stays(g, calls, j);
    }
}

/// Whose turn it is after a run of moves from a new game between two
/// different addresses: the player's after an even number of successful
/// moves, the opponent's after an odd number.
proof fn lemma_turns_alternate(p: Seq<char>, o: Seq<char>, calls: Seq<GameCall>)
    requires
        p != o,
        forall|j: int| 0 <= j < calls.len() ==> #[trigger] calls[j] is Play,
    ensures
        run_game(fresh_game(p, o), calls).player == p,
        run_game(fresh_game(p, o), calls).opponent == o,
        run_game(fresh_game(p, o), calls).next == (if successes(fresh_game(p, o), calls) % 2 == 0 {
            p
        } else {
            o
        }),
    decreases calls.len(),
{
    if calls.len() > 0 {
        let prev = calls.drop_last();
        assert forall|j: int| 0 <= j < prev.len() implies #[trigger] prev[j] is Play by {
            assert(prev[j] == calls[j]);
        }
        lemma_turns_alternate(p, o, prev);
        assert(calls[calls.len() - 1] is Play);
    }
}

/// Between two different addresses, after a new game only moves: the
/// successful ones alternate between the player and the opponent, the
/// player first.
pub proof fn lemma_moves_alternate(p: Seq<char>, o: Seq<char>, calls: Seq<GameCall>, j: int)
    requires
        p != o,
        forall|i: int| 0 <= i < calls.len() ==> #[trigger] calls[i] is Play,
        0 <= j < calls.len(),
        call_outcome(run_game(fresh_game(p, o), calls.take(j)), calls[j]).0 == 0,
    ensures
        mover(calls[j]) == (if successes(fresh_game(p, o), calls.take(j)) % 2 == 0 { p } else { o }),
{
    let pre = calls.take(j);
    assert forall|i: int| 0 <= i < pre.len() implies #[trigger] pre[i] is Play by {
        assert(pre[i] == calls[i]);
    }
    lemma_turns_alternate(p, o, pre);
    assert(calls[j] is Play);
}

/// The eight lines of the board: three rows, three columns, two diagonals.
pub open spec fn is_board_line(i: int, j: int, k: int) -> bool {
    ||| (i, j, k) == (0int, 1int, 2int)
    ||| (i, j, k) == (3int, 4int, 5int)
    ||| (i, j, k) == (6int, 7int, 8int)
    ||| (i, j, k) == (0int, 3int, 6int)
    ||| (i, j, k) == (1int, 4int, 7int)
    ||| (i, j, k) == (2int, 5int, 8int)
    ||| (i, j, k) == (0int, 4int, 8int)
    ||| (i, j, k) == (2int, 4int, 6int)
}

/// A move that fills any row, column or diagonal with the mover's mark
/// makes the mover the winner and ends the game: if it is `addr`'s turn in
/// a game in progress, `addr` takes part (as the player, with `X`, or as
/// the opponent, with `O`), square `mv` is empty, and after marking it the
/// three squares of some line hold that mark, then the move is accepted,
/// `addr` becomes the winner, the game is over, the turn passes to the
/// other participant, and square `mv` holds the mark.
pub proof fn lemma_filling_a_line_wins(g: GameView, addr: Seq<char>, mv: u32, i: int, j: int, k: int)
    requires
        g.board.len() == 9,
        g.playing != 0,
        g.next == addr,
        g.player == addr || g.opponent == addr,
        mv < 9,
        g.board[mv as int] == Cell::Null,
        is_board_line(i, j, k),
        ({
            let m = if g.player == addr { Cell::X } else { Cell::O };
            let b = g.board.update(mv as int, m);
            b[i] == m && b[j] == m && b[k] == m
        }),
    ensures
        play_outcome(g, addr, mv).0 == 0,
        play_outcome(g, addr, mv).1.winner == addr,
        play_outcome(g, addr, mv).1.playing == 0,
        play_outcome(g, addr, mv).1.board[mv as int] == (if g.player == addr { Cell::X } else { Cell::O }),
        play_outcome(g, addr, mv).1.next == (if g.player == addr { g.opponent } else { g.player }),
{
}

/// A move that fills no line leaves the winner and the game as they were:
/// if, after an accepted move, none of the eight lines holds the mover's
/// mark on all three squares, the winner is unchanged and the game goes on.
pub proof fn lemma_no_line_no_winner(g: GameView, addr: Seq<char>, mv: u32)
    requires
        g.board.len() == 9,
        play_outcome(g, addr, mv).0 == 0,
        ({
            let m = if g.player == addr { Cell::X } else { Cell::O };
            let b = g.board.update(mv as int, m);
            forall|i: int, j: int, k: int| is_board_line(i, j, k) ==> !(b[i] == m && b[j] == m && b[k] == m)
        }),
    ensures
        play_outcome(g, addr, mv).1.winner == g.winner,
        play_outcome(g, addr, mv).1.playing == g.playing,
{
    let m = if g.player == addr { Cell::X } else { Cell::O };
    let b = g.board.update(mv as int, m);
    assert(is_board_line(0, 1, 2));
    assert(is_board_line(3, 4, 5));
    assert(is_board_line(6, 7, 8));
    assert(is_board_line(0, 3, 6));
    assert(is_board_line(1, 4, 7));
    assert(is_board_line(2, 5, 8));
    assert(is_board_line(0, 4, 8));
    assert(is_board_line(2, 4, 6));
}

} // verus!
