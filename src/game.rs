//! The tournament engine: pairing generation, result recording and the
//! re-prioritization pass that decides which match is played next.
use vstd::prelude::*;
use vstd::set_lib::{lemma_int_range, lemma_len_subset, set_int_range};
use rand::Rng;
use crate::matches::{
    involving, lemma_involving_absent, lemma_involving_prefix, lemma_involving_push,
    lemma_involving_update, lemma_tally_bounds, lemma_tally_update, play_value, played_in, points_in,
    Match, Player,
};
use crate::quotes::quote_table;
use crate::moves::{bonus, outcome, resolve, GameMode, Playable, RpsResult, Rpssl};
use crate::queue::{
    queue_change_priority, queue_clear, queue_clone, queue_get_priority, queue_new, queue_peek,
    queue_pop, queue_push, queue_entries, MatchKey, MatchQueue,
};

verus! {

/// Most players a tournament holds: player ids are `u16`.
pub const MAX_PLAYERS: usize = 65535;

/// Most rounds a tournament runs: round numbers are `u16`.
pub const MAX_ROUNDS: usize = 65535;

/// Most matches one player is scheduled for: at eleven points a match, a
/// player's score then stays within `u16`.
pub const MAX_GAMES: usize = 5957;

/// Priorities of pending matches are counted down from this value, which lies
/// above every score term a pending match can have.
pub const PENDING_BASE: i64 = 99_999_999;

/// Weight of the round number in the priority of a pending match.
pub const ROUND_WEIGHT: i64 = 1000;

/// Why an operation on the tournament was refused.
#[derive(Debug, Clone, Copy, PartialEq, Eq, Structural)]
pub enum GameError {
    /// A player of that name already exists.
    DuplicateName,
    /// A pairing that was to be scheduled exists already. The registry's
    /// invariant rules this out, so no operation returns it.
    DuplicateMatch,
    /// No player or match has that identifier.
    NotFound,
    /// The operation does not fit the current state of play.
    InvalidState,
    /// The tournament would grow past the sizes it can count.
    TooLarge,
}

/// Sum of the games played over a list of players.
pub open spec fn total_played(ps: Seq<Player>) -> int
    decreases ps.len(),
{
    if ps.len() == 0 {
        0
    } else {
        total_played(ps.drop_last()) + ps.last().played
    }
}

/// Priority of a pending match from its two players' score and potential
/// terms and its round: lower rounds and players further behind come first.
pub open spec fn pending_priority(
    score1: int,
    potential1: int,
    score2: int,
    potential2: int,
    round: int,
) -> int {
    PENDING_BASE - ((score1 - potential1) + (score2 - potential2) + round * ROUND_WEIGHT)
}

/// The pairing convention: odd rounds list the lower id first, even rounds the higher.
pub open spec fn follows_convention(m: Match) -> bool {
    if m.round % 2 == 1 {
        m.player1 < m.player2
    } else {
        m.player1 > m.player2
    }
}

/// The match pairs players `a` and `b`, in either order, in round `r`.
pub open spec fn pairs(m: Match, a: int, b: int, r: int) -> bool {
    m.round == r && ((m.player1 == a && m.player2 == b) || (m.player1 == b && m.player2 == a))
}

/// Some match of `ms` pairs players `a` and `b` in round `r`.
pub open spec fn covered_in(ms: Seq<Match>, a: int, b: int, r: int) -> bool {
    exists|i: int| 0 <= i < ms.len() && pairs(ms[i], a, b, r)
}

/// The keys of a list of matches.
pub open spec fn keys_of(ms: Seq<Match>) -> Set<MatchKey> {
    Set::new(|k: MatchKey| exists|i: int| 0 <= i < ms.len() && ms[i].key_spec() == k)
}

/// The player statistics recomputed from scratch over the matches.
pub open spec fn recomputed(ps: Seq<Player>, ms: Seq<Match>) -> Seq<Player> {
    Seq::new(
        ps.len(),
        |i: int|
            Player {
                id: ps[i].id,
                name: ps[i].name,
                score: points_in(ms, ps[i].id as int) as u16,
                played: played_in(ms, ps[i].id as int) as u16,
            },
    )
}

/// A freshly scheduled match of the new player `n1` against an existing one.
pub open spec fn fresh_ok(m: Match, n1: int, rounds: int) -> bool {
    &&& m.result is None
    &&& m.play1 == Rpssl::Unset
    &&& m.play2 == Rpssl::Unset
    &&& 1 <= m.round <= rounds
    &&& follows_convention(m)
    &&& (m.player1 == n1 && 1 <= m.player2 < n1) || (m.player2 == n1 && 1 <= m.player1 < n1)
}

/// The opponent of player `n1` in a match that involves them.
pub open spec fn opponent(m: Match, n1: int) -> int {
    if m.player1 == n1 {
        m.player2 as int
    } else {
        m.player1 as int
    }
}

/// Pairing of opponent `q` in round `r` comes before pairing of opponent
/// `p + 1` in round `round` in the order of generation.
pub open spec fn generated_before(q: int, r: int, p: int, round: int) -> bool {
    q < p + 1 || (q == p + 1 && r < round)
}

/// A match with its moves and outcome cleared.
pub open spec fn cleared(m: Match) -> Match {
    Match { play1: Rpssl::Unset, play2: Rpssl::Unset, result: None, ..m }
}

/// A match with moves recorded and the outcome they give under `k` moves.
pub open spec fn recorded(m: Match, play1: Rpssl, play2: Rpssl, k: int) -> Match {
    Match {
        play1,
        play2,
        result: Some(outcome(play1.index(), play2.index(), k)),
        ..m
    }
}

/// The players after one played match credited `gain1` points to player `id1`
/// and `gain2` points to player `id2`, and one game to each.
pub open spec fn credited(ps: Seq<Player>, id1: int, gain1: int, id2: int, gain2: int) -> Seq<
    Player,
> {
    Seq::new(
        ps.len(),
        |j: int|
            if j == id1 - 1 {
                Player {
                    score: (ps[j].score + gain1) as u16,
                    played: (ps[j].played + 1) as u16,
                    ..ps[j]
                }
            } else if j == id2 - 1 {
                Player {
                    score: (ps[j].score + gain2) as u16,
                    played: (ps[j].played + 1) as u16,
                    ..ps[j]
                }
            } else {
                ps[j]
            },
    )
}

/// Number of matches of `ms` whose priority in `e` is negative.
pub open spec fn count_sunk(ms: Seq<Match>, e: Map<MatchKey, i64>) -> int
    decreases ms.len(),
{
    if ms.len() == 0 {
        0
    } else {
        count_sunk(ms.drop_last(), e) + if e[ms.last().key_spec()] < 0 {
            1int
        } else {
            0int
        }
    }
}

/// Leaderboard order: higher score first, lower id first among equal scores.
pub open spec fn ranks_before(a: Player, b: Player) -> bool {
    a.score > b.score || (a.score == b.score && a.id < b.id)
}

/// A freshly scheduled, unplayed match of round `r` between two of the first `n` players.
pub open spec fn fresh_in_round(m: Match, n: int, r: int) -> bool {
    &&& m.result is None
    &&& m.play1 == Rpssl::Unset
    &&& m.play2 == Rpssl::Unset
    &&& m.round == r
    &&& follows_convention(m)
    &&& 1 <= m.player1 <= n
    &&& 1 <= m.player2 <= n
}

/// The lower id of the two players of a match.
pub open spec fn low_id(m: Match) -> int {
    if m.player1 < m.player2 {
        m.player1 as int
    } else {
        m.player2 as int
    }
}

/// The higher id of the two players of a match.
pub open spec fn high_id(m: Match) -> int {
    if m.player1 < m.player2 {
        m.player2 as int
    } else {
        m.player1 as int
    }
}

/// Pair `(x, y)` with `x < y` comes before pair `(a + 1, b + 1)` in the order
/// in which a round's pairs are generated.
pub open spec fn pair_before(x: int, y: int, a: int, b: int) -> bool {
    y - 1 < b || (y - 1 == b && x - 1 < a)
}

/// How many of the pairs generated so far in a round involve the player at
/// position `z`, when pairs `(x, y)` with `y <= b` and `(x, b + 1)` with
/// `x <= a` are done.
pub open spec fn round_share(z: int, a: int, b: int) -> int {
    if z < b {
        b - 1 + if z < a {
            1int
        } else {
            0int
        }
    } else if z == b {
        a
    } else {
        0
    }
}

/// Order of the played-match listing: higher priority first, lower registry
/// position first among equal priorities.
pub open spec fn played_before(p1: int, i1: int, p2: int, i2: int) -> bool {
    p1 > p2 || (p1 == p2 && i1 < i2)
}

/// A running tournament.
pub struct Game {
    pub player_list: Vec<Player>,
    pub match_list: Vec<Match>,
    queue: MatchQueue,
    rng_seed: u64,
    rounds: usize,
    game_mode: GameMode,
}

impl Game {
    /// The priority the queue holds for each scheduled match.
    pub closed spec fn entries(self) -> Map<MatchKey, i64> {
        queue_entries(self.queue)
    }

    /// The players, in the order of their ids.
    pub closed spec fn players(self) -> Seq<Player> {
        self.player_list@
    }

    /// The scheduled matches.
    pub closed spec fn matches(self) -> Seq<Match> {
        self.match_list@
    }

    /// The configured number of rounds.
    pub closed spec fn rounds_spec(self) -> int {
        self.rounds as int
    }

    /// The active variant.
    pub closed spec fn mode(self) -> GameMode {
        self.game_mode
    }

    /// Some match pairs players `a` and `b` in round `r`.
    pub closed spec fn covered(self, a: int, b: int, r: int) -> bool {
        covered_in(self.match_list@, a, b, r)
    }

    /// A match fits the registry: known players, a configured round, the
    /// pairing convention and moves that agree with the outcome.
    pub closed spec fn match_ok(self, m: Match) -> bool {
        &&& 1 <= m.player1 <= self.player_list@.len()
        &&& 1 <= m.player2 <= self.player_list@.len()
        &&& 1 <= m.round <= self.rounds
        &&& follows_convention(m)
        &&& m.consistent(self.game_mode.arity_spec())
    }

    /// The registries and the queue agree with one another.
    pub closed spec fn shape_ok(self) -> bool {
        let n = self.player_list@.len() as int;
        let ms = self.match_list@;
        &&& n <= MAX_PLAYERS
        &&& 1 <= self.rounds <= MAX_ROUNDS
        &&& self.rounds * (n - 1) <= MAX_GAMES
        &&& forall|pid: int| 1 <= pid <= n ==> #[trigger] involving(ms, pid) == self.rounds * (n - 1)
        &&& 2 * ms.len() == self.rounds * n * (n - 1)
        &&& forall|i: int| 0 <= i < n ==> #[trigger] self.player_list@[i].id == i + 1
        &&& forall|i: int, j: int|
            0 <= i < j < n ==> #[trigger] self.player_list@[i].name@
                != #[trigger] self.player_list@[j].name@
        &&& forall|i: int| 0 <= i < ms.len() ==> self.match_ok(#[trigger] ms[i])
        &&& forall|i: int, j: int|
            0 <= i < j < ms.len() ==> #[trigger] ms[i].key_spec() != #[trigger] ms[j].key_spec()
        &&& forall|a: int, b: int, r: int|
            1 <= a < b <= n && 1 <= r <= self.rounds ==> #[trigger] self.covered(a, b, r)
        &&& self.entries().dom() == keys_of(ms)
    }

    /// Every player's counters equal the tallies over the match registry.
    pub closed spec fn stats_ok(self) -> bool {
        self.player_list@ == recomputed(self.player_list@, self.match_list@)
    }

    /// Played matches, and only they, hold a negative priority.
    pub closed spec fn settled(self) -> bool {
        forall|i: int|
            0 <= i < self.match_list@.len() ==> (self.entries()[#[trigger] self.match_list@[i].key_spec()]
                < 0) == self.match_list@[i].resolved()
    }

    /// The tournament's invariant, which every public operation keeps.
    pub closed spec fn inv(self) -> bool {
        self.shape_ok() && self.stats_ok() && self.settled()
    }

    /// Number of matches each player is scheduled to play.
    pub closed spec fn capacity(self) -> int {
        self.rounds * (self.player_list@.len() - 1)
    }

    /// How far completed matches are sunk below all pending ones.
    pub closed spec fn sink(self) -> int {
        total_played(self.player_list@) / 2 + 1
    }

    /// The priority of a pending match under the current scores.
    pub closed spec fn pending_priority_of(self, m: Match) -> int {
        let p1 = self.player_list@[m.player1 - 1];
        let p2 = self.player_list@[m.player2 - 1];
        let k = self.game_mode.arity_spec();
        pending_priority(
            p1.score as int,
            (self.capacity() - p1.played) * k,
            p2.score as int,
            (self.capacity() - p2.played) * k,
            m.round as int,
        )
    }

    /// The priority a match gets from one pass, given the one it held before.
    pub closed spec fn target(self, prev: i64, m: Match) -> int {
        if m.resolved() {
            if prev < 0 {
                prev as int
            } else {
                -self.sink()
            }
        } else {
            self.pending_priority_of(m)
        }
    }

    /// Each match holds the priority that one pass gives it from `prev`.
    pub closed spec fn reprioritized(self, prev: Map<MatchKey, i64>) -> bool {
        forall|i: int|
            0 <= i < self.match_list@.len() ==> self.entries()[#[trigger] self.match_list@[i].key_spec()]
                == self.target(prev[self.match_list@[i].key_spec()], self.match_list@[i])
    }

    /// Whether a key is scheduled.
    pub closed spec fn has_key(self, k: MatchKey) -> bool {
        exists|i: int| 0 <= i < self.match_list@.len() && self.match_list@[i].key_spec() == k
    }

    /// The position of the match with key `k` in the registry.
    pub closed spec fn index_of(self, k: MatchKey) -> int {
        choose|i: int| 0 <= i < self.match_list@.len() && self.match_list@[i].key_spec() == k
    }

    /// The state after the result of the match at `i` was taken back: its
    /// moves cleared, every player's statistics recomputed and the matches
    /// re-ranked.
    pub closed spec fn removed_from(self, prev: Game, i: int) -> bool {
        &&& 0 <= i < prev.match_list@.len()
        &&& self.match_list@ == prev.match_list@.update(i, cleared(prev.match_list@[i]))
        &&& self.player_list@ == recomputed(prev.player_list@, self.match_list@)
        &&& self.reprioritized(prev.entries())
        &&& self.rounds == prev.rounds
        &&& self.game_mode == prev.game_mode
    }

    /// The match at `i` is played, sank at least as far as every other played
    /// match, and strictly further than every played match after it in the
    /// registry: the last match of the played listing.
    pub closed spec fn latest(self, i: int) -> bool {
        &&& 0 <= i < self.match_list@.len()
        &&& self.match_list@[i].resolved()
        &&& forall|j: int|
            0 <= j < self.match_list@.len() && (#[trigger] self.match_list@[j]).resolved()
                ==> self.entries()[self.match_list@[i].key_spec()]
                <= self.entries()[self.match_list@[j].key_spec()]
        &&& forall|j: int|
            i < j < self.match_list@.len() && (#[trigger] self.match_list@[j]).resolved()
                ==> self.entries()[self.match_list@[i].key_spec()]
                < self.entries()[self.match_list@[j].key_spec()]
    }

    /// Position of a match in the registry.
    fn find_match(&self, key: &MatchKey) -> (r: Option<usize>)
        ensures
            r matches Some(i) ==> i < self.match_list@.len() && self.match_list@[i as int].key_spec()
                == *key,
            r is None ==> !self.has_key(*key),
    {
        let mut i: usize = 0;
        while i < self.match_list.len()
            invariant
                i <= self.match_list@.len(),
                forall|j: int| 0 <= j < i ==> self.match_list@[j].key_spec() != *key,
            decreases self.match_list@.len() - i,
        {
            let m = &self.match_list[i];
            if m.player1 == key.0 && m.player2 == key.1 && m.round == key.2 {
                return Some(i);
            }
            i = i + 1;
        }
        None
    }

    /// Sum of the games played over all players.
    fn played_sum(&self) -> (r: i64)
        requires
            self.player_list@.len() <= MAX_PLAYERS,
        ensures
            r == total_played(self.player_list@),
            0 <= r <= 65535 * MAX_PLAYERS,
    {
        let mut sum: i64 = 0;
        let mut i: usize = 0;
        while i < self.player_list.len()
            invariant
                i <= self.player_list@.len() <= MAX_PLAYERS,
                sum == total_played(self.player_list@.take(i as int)),
                0 <= sum <= 65535 * i,
            decreases self.player_list@.len() - i,
        {
            assert(self.player_list@.take(i + 1).drop_last() =~= self.player_list@.take(i as int));
            sum = sum + self.player_list[i].played as i64;
            i = i + 1;
        }
        assert(self.player_list@.take(i as int) =~= self.player_list@);
        assert(sum <= 65535 * MAX_PLAYERS) by (nonlinear_arith)
            requires
                sum <= 65535 * i,
                i <= MAX_PLAYERS,
        ;
        sum
    }

    /// An empty tournament of one round in the three-move variant.
    pub fn new() -> (r: Game)
        ensures
            r.inv(),
            r.players().len() == 0,
            r.matches().len() == 0,
            r.rounds_spec() == 1,
            r.mode() == GameMode::RPS,
    {
        let g = Game {
            player_list: Vec::new(),
            match_list: Vec::new(),
            queue: queue_new(),
            rng_seed: draw_seed(),
            rounds: 1,
            game_mode: GameMode::RPS,
        };
        assert(keys_of(g.match_list@) =~= Set::empty());
        assert(g.entries().dom() =~= Set::empty());
        assert(g.player_list@ =~= recomputed(g.player_list@, g.match_list@));
        g
    }

    /// Adds a player under a new name and schedules a match against every
    /// existing player in every round; the player's id is one above the
    /// highest id so far.
    pub fn add_player(&mut self, name: &str) -> (r: Result<(), GameError>)
        requires
            old(self).inv(),
        ensures
            final(self).inv(),
            (r == Err::<(), GameError>(GameError::DuplicateName)) == (exists|i: int|
                0 <= i < old(self).players().len() && old(self).players()[i].name@ == name@),
            (r == Err::<(), GameError>(GameError::TooLarge)) == (!(exists|i: int|
                0 <= i < old(self).players().len() && old(self).players()[i].name@ == name@) && (
            old(self).players().len() >= MAX_PLAYERS || old(self).rounds_spec() * old(
                self,
            ).players().len() > MAX_GAMES)),
            r is Err ==> r == Err::<(), GameError>(GameError::DuplicateName) || r == Err::<
                (),
                GameError,
            >(GameError::TooLarge),
            r is Err ==> *final(self) == *old(self),
            r is Ok ==> {
                let n = old(self).players().len() as int;
                &&& final(self).players().len() == n + 1
                &&& final(self).players().take(n) == old(self).players()
                &&& final(self).players()[n].id == n + 1
                &&& final(self).players()[n].name@ == name@
                &&& final(self).players()[n].score == 0
                &&& final(self).players()[n].played == 0
                &&& final(self).matches().len() == old(self).matches().len() + old(
                    self,
                ).rounds_spec() * n
                &&& final(self).matches().take(old(self).matches().len() as int) == old(
                    self,
                ).matches()
                &&& forall|j: int|
                    old(self).matches().len() <= j < final(self).matches().len() ==> fresh_ok(
                        #[trigger] final(self).matches()[j],
                        n + 1,
                        old(self).rounds_spec(),
                    )
                &&& forall|q: int, rr: int|
                    1 <= q <= n && 1 <= rr <= old(self).rounds_spec() ==> #[trigger] covered_in(
                        final(self).matches(),
                        q,
                        n + 1,
                        rr,
                    )
                &&& final(self).reprioritized(old(self).entries())
                &&& forall|i: int|
                    0 <= i < old(self).matches().len() && old(self).rank(
                        #[trigger] old(self).matches()[i],
                    ) < 0 ==> final(self).rank(final(self).matches()[i]) == old(self).rank(
                        old(self).matches()[i],
                    )
                &&& final(self).rounds_spec() == old(self).rounds_spec()
                &&& final(self).mode() == old(self).mode()
            },
    {
        let n = self.player_list.len();
        let name_s = name.to_owned();
        let mut i: usize = 0;
        while i < n
            invariant
                n == self.player_list@.len(),
                *self == *old(self),
                old(self).inv(),
                name_s@ == name@,
                i <= n,
                forall|j: int| 0 <= j < i ==> self.player_list@[j].name@ != name@,
            decreases n - i,
        {
            if self.player_list[i].name == name_s {
                assert(old(self).players()[i as int].name@ == name@);
                return Err(GameError::DuplicateName);
            }
            i = i + 1;
        }
        if n >= MAX_PLAYERS {
            return Err(GameError::TooLarge);
        }
        assert(self.rounds * n <= MAX_ROUNDS * MAX_PLAYERS) by (nonlinear_arith)
            requires
                self.rounds <= MAX_ROUNDS,
                n <= MAX_PLAYERS,
        ;
        if (self.rounds as u64) * (n as u64) > MAX_GAMES as u64 {
            return Err(GameError::TooLarge);
        }
        let ghost old_ms = self.match_list@;
        let ghost old_len = old_ms.len() as int;
        let ghost n1 = n + 1;
        let id: u16 = (n + 1) as u16;
        let player = Player::new(name, id);
        let rounds = self.rounds;
        let mut p: usize = 0;
        while p < n
            invariant
                n == self.player_list@.len(),
                old(self).inv(),
                self.player_list@ == old(self).player_list@,
                self.rounds == rounds,
                rounds == old(self).rounds,
                self.game_mode == old(self).game_mode,
                old_ms == old(self).match_list@,
                old_len == old_ms.len(),
                n1 == n + 1,
                player.id == n1,
                rounds * n <= MAX_GAMES,
                p <= n,
                forall|q: int|
                    1 <= q <= n ==> #[trigger] involving(self.match_list@, q) == involving(old_ms, q)
                        + if q <= p {
                        rounds as int
                    } else {
                        0int
                    },
                involving(self.match_list@, n1) == involving(old_ms, n1) + p * rounds,
                self.match_list@.len() == old_len + p * rounds,
                forall|i: int| 0 <= i < old_len ==> #[trigger] self.match_list@[i] == old_ms[i],
                forall|j: int|
                    old_len <= j < self.match_list@.len() ==> fresh_ok(
                        #[trigger] self.match_list@[j],
                        n1,
                        rounds as int,
                    ) && generated_before(
                        opponent(self.match_list@[j], n1),
                        self.match_list@[j].round as int,
                        p as int,
                        1,
                    ),
                forall|q: int, r: int|
                    1 <= q <= n && 1 <= r <= rounds && generated_before(q, r, p as int, 1)
                        ==> #[trigger] covered_in(self.match_list@, q, n1, r),
                forall|i: int, j: int|
                    0 <= i < j < self.match_list@.len() ==> #[trigger] self.match_list@[i].key_spec()
                        != #[trigger] self.match_list@[j].key_spec(),
                self.entries().dom() == keys_of(self.match_list@),
                forall|k: MatchKey|
                    old(self).entries().contains_key(k) ==> #[trigger] self.entries()[k]
                        == old(self).entries()[k],
            decreases n - p,
        {
            let mut round: usize = 1;
            while round <= rounds
                invariant
                    n == self.player_list@.len(),
                    old(self).inv(),
                    self.player_list@ == old(self).player_list@,
                    self.rounds == rounds,
                    rounds == old(self).rounds,
                    self.game_mode == old(self).game_mode,
                    old_ms == old(self).match_list@,
                    old_len == old_ms.len(),
                    n1 == n + 1,
                    player.id == n1,
                    rounds * n <= MAX_GAMES,
                    p < n,
                    forall|q: int|
                        1 <= q <= n ==> #[trigger] involving(self.match_list@, q) == involving(old_ms, q)
                            + if q <= p {
                            rounds as int
                        } else if q == p + 1 {
                            round - 1
                        } else {
                            0int
                        },
                    involving(self.match_list@, n1) == involving(old_ms, n1) + p * rounds + (round - 1),
                    1 <= round <= rounds + 1,
                    self.match_list@.len() == old_len + p * rounds + (round - 1),
                    forall|i: int| 0 <= i < old_len ==> #[trigger] self.match_list@[i] == old_ms[i],
                    forall|j: int|
                        old_len <= j < self.match_list@.len() ==> fresh_ok(
                            #[trigger] self.match_list@[j],
                            n1,
                            rounds as int,
                        ) && generated_before(
                            opponent(self.match_list@[j], n1),
                            self.match_list@[j].round as int,
                            p as int,
                            round as int,
                        ),
                    forall|q: int, r: int|
                        1 <= q <= n && 1 <= r <= rounds && generated_before(
                            q,
                            r,
                            p as int,
                            round as int,
                        ) ==> #[trigger] covered_in(self.match_list@, q, n1, r),
                    forall|i: int, j: int|
                        0 <= i < j < self.match_list@.len() ==> #[trigger] self.match_list@[i].key_spec()
                            != #[trigger] self.match_list@[j].key_spec(),
                    self.entries().dom() == keys_of(self.match_list@),
                    forall|k: MatchKey|
                        old(self).entries().contains_key(k) ==> #[trigger] self.entries()[k]
                            == old(self).entries()[k],
                decreases rounds + 1 - round,
            {
                assert(p * rounds + round <= n * rounds) by (nonlinear_arith)
                    requires
                        p < n,
                        round <= rounds,
                ;
                let other = &self.player_list[p];
                let m = if round % 2 == 1 {
                    Match::new(other, &player, round as u16)
                } else {
                    Match::new(&player, other, round as u16)
                };
                let ghost before_ms = self.match_list@;
                proof {
                    assert(other.id == p + 1);
                    assert forall|i: int| 0 <= i < before_ms.len() implies before_ms[i].key_spec()
                        != m.key_spec() by {
                        if i < old_len {
                            assert(old(self).match_ok(old_ms[i]));
                        }
                    }
                    lemma_keys_push(before_ms, m);
                    if old(self).entries().contains_key(m.key_spec()) {
                        assert(keys_of(old_ms).contains(m.key_spec()));
                        let i = choose|i: int|
                            0 <= i < old_ms.len() && old_ms[i].key_spec() == m.key_spec();
                        assert(before_ms[i] == old_ms[i]);
                    }
                }
                self.match_list.push(m);
                queue_push(&mut self.queue, m.key(), 0);
                proof {
                    let ms = self.match_list@;
                    assert(ms[ms.len() - 1] == m);
                    assert forall|q: int| 1 <= q <= n implies #[trigger] involving(ms, q) == involving(
                        old_ms,
                        q,
                    ) + if q <= p {
                        rounds as int
                    } else if q == p + 1 {
                        round + 1 - 1
                    } else {
                        0int
                    } by {
                        lemma_involving_push(before_ms, m, q);
                        assert(involving(before_ms, q) == involving(old_ms, q) + if q <= p {
                            rounds as int
                        } else if q == p + 1 {
                            round - 1
                        } else {
                            0int
                        });
                    }
                    lemma_involving_push(before_ms, m, n1);
                    assert forall|q: int, r: int|
                        1 <= q <= n && 1 <= r <= rounds && generated_before(
                            q,
                            r,
                            p as int,
                            round + 1,
                        ) implies #[trigger] covered_in(ms, q, n1, r) by {
                        if q == p + 1 && r == round {
                            assert(pairs(ms[ms.len() - 1], q, n1, r));
                        } else {
                            assert(covered_in(before_ms, q, n1, r));
                            let i = choose|i: int|
                                0 <= i < before_ms.len() && pairs(before_ms[i], q, n1, r);
                            assert(ms[i] == before_ms[i]);
                        }
                    }
                    assert forall|i: int, j: int|
                        0 <= i < j < ms.len() implies #[trigger] ms[i].key_spec()
                            != #[trigger] ms[j].key_spec() by {
                        if j < ms.len() - 1 {
                            assert(ms[i] == before_ms[i] && ms[j] == before_ms[j]);
                        } else {
                            assert(ms[i] == before_ms[i]);
                        }
                    }
                    assert forall|j: int| old_len <= j < ms.len() implies fresh_ok(
                        #[trigger] ms[j],
                        n1,
                        rounds as int,
                    ) && generated_before(opponent(ms[j], n1), ms[j].round as int, p as int, round + 1)
                        by {
                        if j < ms.len() - 1 {
                            assert(ms[j] == before_ms[j]);
                        }
                    }
                    assert(self.entries().dom() =~= keys_of(ms));
                    assert(ms.len() == old_len + p * rounds + round);
                }
                round = round + 1;
            }
            proof {
                assert(p * rounds + rounds == (p + 1) * rounds) by (nonlinear_arith);
            }
            p = p + 1;
        }
        let ghost mid_ms = self.match_list@;
        self.player_list.push(player);
        proof {
            let ps = self.player_list@;
            let ms = self.match_list@;
            let og = *old(self);
            assert(ms.len() == old_len + n * rounds);
            assert(2 * ms.len() == rounds * (n + 1) * n) by (nonlinear_arith)
                requires
                    ms.len() == old_len + n * rounds,
                    2 * old_len == rounds * n * (n - 1),
            ;
            assert forall|i: int| 0 <= i < ps.len() implies #[trigger] ps[i].id == i + 1 by {
                if i < n {
                    assert(ps[i] == og.player_list@[i]);
                }
            }
            assert forall|i: int, j: int|
                0 <= i < j < ps.len() implies #[trigger] ps[i].name@ != #[trigger] ps[j].name@ by {
                if j < n {
                    assert(ps[i] == og.player_list@[i] && ps[j] == og.player_list@[j]);
                } else {
                    assert(ps[i] == og.player_list@[i]);
                }
            }
            assert forall|i: int| 0 <= i < ms.len() implies self.match_ok(#[trigger] ms[i]) by {
                if i < old_len {
                    assert(og.match_ok(old_ms[i]));
                }
            }
            assert forall|a: int, b: int, r: int|
                1 <= a < b <= ps.len() && 1 <= r <= rounds implies #[trigger] self.covered(a, b, r)
                by {
                if b < n1 {
                    assert(og.covered(a, b, r));
                    let i = choose|i: int| 0 <= i < old_ms.len() && pairs(old_ms[i], a, b, r);
                    assert(ms[i] == old_ms[i]);
                } else {
                    assert(generated_before(a, r, n as int, 1));
                    assert(covered_in(mid_ms, a, n1, r));
                }
            }
            assert forall|i: int| 0 <= i < old_len implies !(#[trigger] old_ms[i]).involves(n1) by {
                assert(og.match_ok(old_ms[i]));
            }
            lemma_tally_absent(old_ms, n1);
            assert(ms.take(old_len) =~= old_ms);
            assert forall|i: int| 0 <= i < ps.len() implies #[trigger] ps[i] == recomputed(ps, ms)[i]
                by {
                lemma_tally_unplayed_suffix(ms, old_len, ps[i].id as int);
                if i < n {
                    assert(ps[i] == og.player_list@[i]);
                    assert(og.player_list@[i] == recomputed(og.player_list@, old_ms)[i]);
                }
            }
            assert(ps =~= recomputed(ps, ms));
            assert(ps.take(n as int) =~= og.player_list@);
            assert(ms.take(old_len) =~= old_ms);
            lemma_involving_absent(old_ms, n1);
            assert(rounds * (n - 1) + rounds == rounds * n) by (nonlinear_arith);
            assert(p * rounds == rounds * n) by (nonlinear_arith)
                requires
                    p == n,
            ;
            assert forall|q: int| 1 <= q <= ps.len() implies #[trigger] involving(ms, q) == rounds * (
            ps.len() - 1) by {
                if q <= n {
                    assert(involving(old_ms, q) == rounds * (n - 1));
                }
            }
        }
        self.update_priorities();
        proof {
            let ms = self.match_list@;
            assert forall|i: int| 0 <= i < ms.len() implies self.entries()[#[trigger] ms[i].key_spec()]
                == self.target(old(self).entries()[ms[i].key_spec()], ms[i]) by {
                if i < old_len {
                    assert(ms[i] == old_ms[i]);
                    assert(keys_of(old_ms).contains(old_ms[i].key_spec()));
                } else {
                    assert(fresh_ok(mid_ms[i], n1, rounds as int));
                }
            }
            assert forall|i: int|
                0 <= i < old_len && old(self).rank(#[trigger] old_ms[i]) < 0 implies self.rank(ms[i])
                    == old(self).rank(old_ms[i]) by {
                assert(ms[i] == old_ms[i]);
                assert(old(self).settled());
                assert(keys_of(old_ms).contains(old_ms[i].key_spec()));
            }
            assert forall|j: int| old_len <= j < ms.len() implies fresh_ok(
                #[trigger] ms[j],
                n1,
                rounds as int,
            ) by {
                assert(fresh_ok(mid_ms[j], n1, rounds as int));
            }
            assert forall|q: int, rr: int| 1 <= q <= n && 1 <= rr <= rounds implies #[trigger] covered_in(
                ms,
                q,
                n1,
                rr,
            ) by {
                assert(generated_before(q, rr, n as int, 1));
                assert(covered_in(mid_ms, q, n1, rr));
            }
        }
        Ok(())
    }

    /// Records the moves of a scheduled match: the outcome follows from the
    /// active variant, both players get one more game and their points, and
    /// the matches are re-ranked. A match that already has a result, or a
    /// move outside the active variant, is refused.
    #[verifier::rlimit(50)]
    pub fn add_result(&mut self, game_id: MatchKey, play1: Rpssl, play2: Rpssl) -> (r: Result<
        (),
        GameError,
    >)
        requires
            old(self).inv(),
        ensures
            final(self).inv(),
            (r == Err::<(), GameError>(GameError::NotFound)) == !old(self).has_key(game_id),
            (r == Err::<(), GameError>(GameError::InvalidState)) == (old(self).has_key(game_id) && (
            old(self).matches()[old(self).index_of(game_id)].resolved() || play1.index()
                >= old(self).mode().arity_spec() || play2.index() >= old(self).mode().arity_spec())),
            r is Err ==> r == Err::<(), GameError>(GameError::NotFound) || r == Err::<
                (),
                GameError,
            >(GameError::InvalidState),
            r is Err ==> *final(self) == *old(self),
            r is Ok ==> {
                let i = old(self).index_of(game_id);
                let m = old(self).matches()[i];
                let res = outcome(play1.index(), play2.index(), old(self).mode().arity_spec());
                &&& final(self).matches() == old(self).matches().update(
                    i,
                    recorded(m, play1, play2, old(self).mode().arity_spec()),
                )
                &&& final(self).players() == credited(
                    old(self).players(),
                    m.player1 as int,
                    play_value(play1) + bonus(res),
                    m.player2 as int,
                    play_value(play2) + 6 - bonus(res),
                )
                &&& final(self).players()[m.player1 - 1].score == old(self).players()[m.player1
                    - 1].score + play_value(play1) + bonus(res)
                &&& final(self).players()[m.player2 - 1].score == old(self).players()[m.player2
                    - 1].score + play_value(play2) + 6 - bonus(res)
                &&& final(self).players()[m.player1 - 1].played == old(self).players()[m.player1
                    - 1].played + 1
                &&& final(self).players()[m.player2 - 1].played == old(self).players()[m.player2
                    - 1].played + 1
                &&& total_played(final(self).players()) == total_played(old(self).players()) + 2
                &&& final(self).reprioritized(old(self).entries())
                &&& final(self).rank(final(self).matches()[i]) == -(total_played(final(self).players())
                    / 2 + 1)
                &&& (forall|j: int|
                    0 <= j < old(self).matches().len() && old(self).rank(
                        #[trigger] old(self).matches()[j],
                    ) < 0 ==> old(self).rank(old(self).matches()[j]) >= -(total_played(
                        old(self).players(),
                    ) / 2 + 1)) ==> forall|j: int|
                    0 <= j < final(self).matches().len() && j != i && final(self).rank(
                        #[trigger] final(self).matches()[j],
                    ) < 0 ==> final(self).rank(final(self).matches()[j]) > final(self).rank(
                        final(self).matches()[i],
                    )
                &&& final(self).rounds_spec() == old(self).rounds_spec()
                &&& final(self).mode() == old(self).mode()
            },
    {
        let idx = match self.find_match(&game_id) {
            None => return Err(GameError::NotFound),
            Some(i) => i,
        };
        let ghost ms = self.match_list@;
        let ghost ps = self.player_list@;
        proof {
            let j = self.index_of(game_id);
            assert(ms[idx as int].key_spec() == game_id);
            if j != idx {
                if j < idx {
                    assert(ms[j].key_spec() != ms[idx as int].key_spec());
                } else {
                    assert(ms[idx as int].key_spec() != ms[j].key_spec());
                }
            }
            assert(self.match_ok(ms[idx as int]));
        }
        let m = self.match_list[idx];
        let k = self.game_mode.arity();
        if m.result.is_some() || play1.ordinal() >= k || play2.ordinal() >= k {
            return Err(GameError::InvalidState);
        }
        let result = resolve(play1.ordinal(), play2.ordinal(), k);
        let gain = result.get_score();
        let score1 = play1.get_score() + gain;
        let score2 = play2.get_score() + (6 - gain);
        let i1 = (m.player1 - 1) as usize;
        let i2 = (m.player2 - 1) as usize;
        let new_m = Match { play1, play2, result: Some(result), ..m };
        proof {
            assert(ps[i1 as int].id == m.player1);
            assert(ps[i2 as int].id == m.player2);
            assert(ps[i1 as int] == recomputed(ps, ms)[i1 as int]);
            assert(ps[i2 as int] == recomputed(ps, ms)[i2 as int]);
            let ms2 = ms.update(idx as int, new_m);
            assert(involving(ms, m.player1 as int) == self.rounds * (ps.len() - 1));
            assert(involving(ms, m.player2 as int) == self.rounds * (ps.len() - 1));
            lemma_tally_update(ms, idx as int, new_m, m.player1 as int);
            lemma_tally_update(ms, idx as int, new_m, m.player2 as int);
            lemma_tally_bounds(ms2, m.player1 as int);
            lemma_tally_bounds(ms2, m.player2 as int);
            lemma_involving_update(ms, idx as int, new_m, m.player1 as int);
            lemma_involving_update(ms, idx as int, new_m, m.player2 as int);
            lemma_tally_bounds(ms, m.player1 as int);
            lemma_tally_bounds(ms, m.player2 as int);
        }
        self.player_list[i1].played = self.player_list[i1].played + 1;
        self.player_list[i1].score = self.player_list[i1].score + score1;
        self.player_list[i2].played = self.player_list[i2].played + 1;
        self.player_list[i2].score = self.player_list[i2].score + score2;
        self.match_list[idx] = new_m;
        proof {
            let ms2 = self.match_list@;
            let ps2 = self.player_list@;
            assert(ms2 == ms.update(idx as int, new_m));
            assert(ps2 =~= credited(ps, m.player1 as int, score1 as int, m.player2 as int, score2 as int));
            lemma_keys_update(ms, idx as int, new_m);
            lemma_credit_matches_tally(ps, ms, idx as int, new_m, score1 as int, score2 as int);
            lemma_same_pairings(*old(self), *self, idx as int);
            let p1n = ps2[i1 as int];
            let p2n = ps2[i2 as int];
            assert(ps2 =~= ps.update(i1 as int, p1n).update(i2 as int, p2n));
            lemma_total_played_update(ps, i1 as int, p1n);
            lemma_total_played_update(ps.update(i1 as int, p1n), i2 as int, p2n);
        }
        self.update_priorities();
        proof {
            let ms2 = self.match_list@;
            let og = *old(self);
            assert(og.settled());
            assert(keys_of(ms).contains(ms[idx as int].key_spec()));
            assert(ms2[idx as int] == new_m);
            assert(self.entries()[ms2[idx as int].key_spec()] == self.target(
                og.entries()[ms2[idx as int].key_spec()],
                ms2[idx as int],
            ));
            if forall|j: int|
                0 <= j < og.matches().len() && og.rank(#[trigger] og.matches()[j]) < 0 ==> og.rank(
                    og.matches()[j],
                ) >= -(total_played(og.players()) / 2 + 1) {
                assert forall|j: int|
                    0 <= j < ms2.len() && j != idx && self.rank(#[trigger] ms2[j]) < 0 implies self.rank(
                        ms2[j],
                    ) > self.rank(ms2[idx as int]) by {
                    assert(ms2[j] == ms[j]);
                    assert(keys_of(ms).contains(ms[j].key_spec()));
                    assert(self.entries()[ms2[j].key_spec()] == self.target(
                        og.entries()[ms2[j].key_spec()],
                        ms2[j],
                    ));
                    assert(self.settled());
                    assert(og.matches()[j] == ms[j]);
                }
            }
        }
        Ok(())
    }

    /// Takes back the result of a scheduled match: its moves are cleared, the
    /// players' statistics are recomputed from scratch and the matches re-ranked.
    pub fn remove_result(&mut self, game_id: MatchKey) -> (r: Result<(), GameError>)
        requires
            old(self).inv(),
        ensures
            final(self).inv(),
            (r == Err::<(), GameError>(GameError::NotFound)) == !old(self).has_key(game_id),
            r is Err ==> *final(self) == *old(self),
            r is Ok ==> final(self).removed_from(*old(self), old(self).index_of(game_id)),
            r is Err ==> r == Err::<(), GameError>(GameError::NotFound),
    {
        let idx = match self.find_match(&game_id) {
            None => return Err(GameError::NotFound),
            Some(i) => i,
        };
        proof {
            let ms = self.match_list@;
            let j = self.index_of(game_id);
            if j != idx {
                if j < idx {
                    assert(ms[j].key_spec() != ms[idx as int].key_spec());
                } else {
                    assert(ms[idx as int].key_spec() != ms[j].key_spec());
                }
            }
        }
        self.clear_result(idx);
        Ok(())
    }

    /// Clears the result at a position of the registry and brings the
    /// statistics and priorities up to date.
    fn clear_result(&mut self, idx: usize)
        requires
            old(self).inv(),
            idx < old(self).match_list@.len(),
        ensures
            final(self).inv(),
            final(self).removed_from(*old(self), idx as int),
    {
        let ghost ms = self.match_list@;
        let m = self.match_list[idx];
        let new_m = Match { play1: Rpssl::Unset, play2: Rpssl::Unset, result: None, ..m };
        self.match_list[idx] = new_m;
        proof {
            assert(self.match_ok(ms[idx as int]));
            lemma_keys_update(ms, idx as int, new_m);
            lemma_same_pairings(*old(self), *self, idx as int);
        }
        self.update_scores();
        self.update_priorities();
    }

    /// Takes back the most recently completed result: the played match that
    /// sank furthest, the last in the registry among equals, which is the last
    /// match of the played listing. Does nothing when no match has been played.
    pub fn remove_latest(&mut self)
        requires
            old(self).inv(),
        ensures
            final(self).inv(),
            (forall|i: int| 0 <= i < old(self).matches().len() ==> !(#[trigger] old(self).matches()[i]).resolved())
                ==> *final(self) == *old(self),
            (exists|i: int| 0 <= i < old(self).matches().len() && (#[trigger] old(self).matches()[i]).resolved())
                ==> exists|i: int| #[trigger] old(self).latest(i) && final(self).removed_from(*old(self), i),
            forall|i: int| #[trigger] old(self).latest(i) && old(self).inv() ==> final(self).removed_from(
                *old(self),
                i,
            ),
    {
        let mut best: Option<usize> = None;
        let mut best_p: i64 = 0;
        let mut i: usize = 0;
        while i < self.match_list.len()
            invariant
                *self == *old(self),
                old(self).inv(),
                i <= self.match_list@.len(),
                best matches Some(b) ==> b < i && self.entries()[self.match_list@[b as int].key_spec()] == best_p
                    && best_p < 0,
                best is None ==> forall|j: int| 0 <= j < i ==> self.entries()[#[trigger] self.match_list@[j].key_spec()] >= 0,
                best is Some ==> forall|j: int| 0 <= j < i && self.entries()[#[trigger] self.match_list@[j].key_spec()] < 0
                    ==> best_p <= self.entries()[self.match_list@[j].key_spec()],
                best matches Some(b) ==> forall|j: int|
                    b < j < i && self.entries()[#[trigger] self.match_list@[j].key_spec()] < 0
                        ==> best_p < self.entries()[self.match_list@[j].key_spec()],
            decreases self.match_list@.len() - i,
        {
            let key = self.match_list[i].key();
            proof {
                assert(keys_of(self.match_list@).contains(key));
            }
            let p = queue_get_priority(&self.queue, &key);
            if let Some(p) = p {
                if p < 0 && (best.is_none() || p <= best_p) {
                    best = Some(i);
                    best_p = p;
                }
            }
            i = i + 1;
        }
        match best {
            None => {
                proof {
                    assert forall|j: int| 0 <= j < self.match_list@.len() implies !(#[trigger] self.match_list@[j]).resolved() by {
                        assert(self.entries()[self.match_list@[j].key_spec()] >= 0);
                    }
                }
            },
            Some(b) => {
                proof {
                    assert(old(self).matches()[b as int].resolved());
                    assert(self.latest(b as int));
                }
                self.clear_result(b);
            },
        }
    }

    /// Number of played matches: those holding a negative priority.
    pub closed spec fn played_count(self) -> int {
        count_sunk(self.match_list@, self.entries())
    }

    /// The priority that the queue holds for a match.
    pub closed spec fn rank(self, m: Match) -> int {
        self.entries()[m.key_spec()] as int
    }

    /// The match is in the registry.
    pub closed spec fn scheduled(self, m: Match) -> bool {
        exists|i: int| 0 <= i < self.match_list@.len() && self.match_list@[i] == m
    }

    /// Number of matches that have been played.
    pub fn get_played_n(&self) -> (r: usize)
        requires
            self.inv(),
        ensures
            r == self.played_count(),
            r <= self.matches().len(),
    {
        let mut count: usize = 0;
        let mut i: usize = 0;
        while i < self.match_list.len()
            invariant
                self.inv(),
                i <= self.match_list@.len(),
                count == count_sunk(self.match_list@.take(i as int), self.entries()),
                count <= i,
            decreases self.match_list@.len() - i,
        {
            let key = self.match_list[i].key();
            proof {
                assert(keys_of(self.match_list@).contains(key));
                assert(self.match_list@.take(i + 1).drop_last() =~= self.match_list@.take(i as int));
            }
            let p = queue_get_priority(&self.queue, &key);
            if let Some(p) = p {
                if p < 0 {
                    count = count + 1;
                }
            }
            i = i + 1;
        }
        assert(self.match_list@.take(i as int) =~= self.match_list@);
        count
    }

    /// Number of matches still to be played.
    pub fn get_left_n(&self) -> (r: usize)
        requires
            self.inv(),
        ensures
            r == self.matches().len() - self.played_count(),
    {
        self.match_list.len() - self.get_played_n()
    }

    /// The pending match with the highest priority, if any match is pending.
    pub fn get_next_game(&self) -> (r: Option<Match>)
        requires
            self.inv(),
        ensures
            r is None <==> forall|i: int|
                0 <= i < self.matches().len() ==> self.rank(#[trigger] self.matches()[i]) <= 0,
            r matches Some(m) ==> self.scheduled(m) && self.rank(m) > 0 && forall|i: int|
                0 <= i < self.matches().len() ==> self.rank(#[trigger] self.matches()[i]) <= self.rank(m),
    {
        match queue_peek(&self.queue) {
            None => {
                proof {
                    assert forall|i: int| 0 <= i < self.match_list@.len() implies self.rank(
                        #[trigger] self.match_list@[i],
                    ) <= 0 by {
                        assert(keys_of(self.match_list@).contains(self.match_list@[i].key_spec()));
                    }
                }
                None
            },
            Some((k, p)) => {
                proof {
                    assert forall|i: int| 0 <= i < self.match_list@.len() implies self.rank(
                        #[trigger] self.match_list@[i],
                    ) <= p by {
                        assert(keys_of(self.match_list@).contains(self.match_list@[i].key_spec()));
                    }
                }
                if p <= 0 {
                    None
                } else {
                    proof {
                        assert(keys_of(self.match_list@).contains(k));
                    }
                    match self.find_match(&k) {
                        Some(i) => {
                            proof {
                                assert(self.rank(self.matches()[i as int]) > 0);
                            }
                            Some(self.match_list[i])
                        },
                        None => None,
                    }
                }
            },
        }
    }

    /// The `n` pending matches with the highest priorities, highest first;
    /// fewer when fewer are pending.
    pub fn get_next_games(&self, n: usize) -> (r: Vec<Match>)
        requires
            self.inv(),
        ensures
            r@.len() <= n,
            forall|a: int| 0 <= a < r@.len() ==> self.scheduled(#[trigger] r@[a]) && self.rank(r@[a]) > 0,
            forall|a: int, b: int|
                0 <= a < b < r@.len() ==> self.rank(#[trigger] r@[a]) >= self.rank(#[trigger] r@[b])
                    && r@[a].key_spec() != r@[b].key_spec(),
            forall|i: int|
                0 <= i < self.matches().len() && self.rank(#[trigger] self.matches()[i]) > 0 && (forall|
                    a: int,
                | 0 <= a < r@.len() ==> r@[a].key_spec() != self.matches()[i].key_spec()) ==> r@.len()
                    == n && forall|a: int| 0 <= a < r@.len() ==> self.rank(#[trigger] r@[a]) >= self.rank(
                    self.matches()[i],
                ),
    {
        let mut q = queue_clone(&self.queue);
        let mut out: Vec<Match> = Vec::new();
        let mut done = false;
        while out.len() < n && !done
            invariant
                self.inv(),
                out@.len() <= n,
                forall|k: MatchKey|
                    #[trigger] queue_entries(q).contains_key(k) ==> (self.entries().contains_key(k)
                        && forall|a: int| 0 <= a < out@.len() ==> out@[a].key_spec() != k),
                forall|k: MatchKey|
                    self.entries().contains_key(k) && self.entries()[k] > 0 && (forall|a: int|
                        0 <= a < out@.len() ==> out@[a].key_spec() != k) ==> #[trigger] queue_entries(
                        q,
                    ).contains_key(k),
                forall|k: MatchKey|
                    #[trigger] queue_entries(q).contains_key(k) ==> queue_entries(q)[k]
                        == self.entries()[k],
                forall|a: int|
                    0 <= a < out@.len() ==> self.scheduled(#[trigger] out@[a]) && self.rank(out@[a]) > 0,
                forall|a: int, b: int|
                    0 <= a < b < out@.len() ==> self.rank(#[trigger] out@[a]) >= self.rank(
                        #[trigger] out@[b],
                    ) && out@[a].key_spec() != out@[b].key_spec(),
                forall|k: MatchKey, a: int|
                    #[trigger] queue_entries(q).contains_key(k) && 0 <= a < out@.len() ==> queue_entries(
                        q,
                    )[k] <= self.rank(#[trigger] out@[a]),
                done ==> forall|k: MatchKey| #[trigger]
                    queue_entries(q).contains_key(k) ==> queue_entries(q)[k] <= 0,
            decreases n - out@.len() + if done {
                0int
            } else {
                1int
            },
        {
            let ghost before = queue_entries(q);
            match queue_pop(&mut q) {
                None => {
                    done = true;
                },
                Some((k, p)) => {
                    if p <= 0 {
                        done = true;
                    } else {
                        proof {
                            assert(keys_of(self.match_list@).contains(k));
                        }
                        match self.find_match(&k) {
                            Some(i) => {
                                let m = self.match_list[i];
                                proof {
                                    assert(self.scheduled(m));
                                }
                                let ghost old_out = out@;
                                out.push(m);
                                proof {
                                    assert forall|k2: MatchKey|
                                        self.entries().contains_key(k2) && self.entries()[k2] > 0
                                            && (forall|a: int|
                                            0 <= a < out@.len() ==> out@[a].key_spec() != k2) implies #[trigger] queue_entries(
                                        q,
                                    ).contains_key(k2) by {
                                        assert forall|a: int| 0 <= a < old_out.len() implies old_out[a].key_spec()
                                            != k2 by {
                                            assert(out@[a] == old_out[a]);
                                        }
                                        assert(out@[old_out.len() as int] == m);
                                        assert(before.contains_key(k2));
                                    }
                                }
                            },
                            None => {
                                done = true;
                            },
                        }
                    }
                },
            }
        }
        proof {
            assert forall|i: int|
                0 <= i < self.match_list@.len() && self.rank(#[trigger] self.match_list@[i]) > 0 && (forall|
                    a: int,
                | 0 <= a < out@.len() ==> out@[a].key_spec() != self.match_list@[i].key_spec())
                implies out@.len() == n && forall|a: int| 0 <= a < out@.len() ==> self.rank(#[trigger] out@[a]) >= self.rank(
                    self.match_list@[i],
                ) by {
                let k = self.match_list@[i].key_spec();
                assert(keys_of(self.match_list@).contains(k));
                assert(queue_entries(q).contains_key(k));
            }
        }
        out
    }

    /// The played matches with their priorities, highest priority first: from
    /// the least to the most recently completed. Matches of equal priority,
    /// which only arise after a result was taken back, come in registry order.
    pub fn get_played_games(&self) -> (r: Vec<(Match, i64)>)
        requires
            self.inv(),
        ensures
            forall|a: int|
                0 <= a < r@.len() ==> self.scheduled((#[trigger] r@[a]).0) && r@[a].1 == self.rank(r@[a].0)
                    && r@[a].1 < 0,
            forall|a: int, b: int|
                0 <= a < b < r@.len() ==> played_before(
                    (#[trigger] r@[a]).1 as int,
                    self.index_of(r@[a].0.key_spec()),
                    (#[trigger] r@[b]).1 as int,
                    self.index_of(r@[b].0.key_spec()),
                ),
            forall|i: int|
                0 <= i < self.matches().len() && self.rank(#[trigger] self.matches()[i]) < 0 ==> exists|
                    a: int,
                | 0 <= a < r@.len() && r@[a].0 == self.matches()[i],
    {
        let n = self.match_list.len();
        let ghost ms = self.match_list@;
        proof {
            lemma_inv_facts(*self);
        }
        let mut used: Vec<bool> = Vec::new();
        while used.len() < n
            invariant
                used@.len() <= n,
                forall|j: int| 0 <= j < used@.len() ==> !used@[j],
            decreases n - used@.len(),
        {
            used.push(false);
        }
        let mut out: Vec<(Match, i64)> = Vec::new();
        let ghost mut ids: Seq<int> = seq![];
        let mut done = false;
        while !done
            invariant
                self.inv(),
                ms == self.match_list@,
                n == ms.len(),
                used@.len() == n,
                out@.len() == ids.len(),
                ids.len() <= n,
                forall|a: int, b: int| 0 <= a < b < ids.len() ==> ids[a] != ids[b],
                forall|a: int|
                    0 <= a < ids.len() ==> 0 <= #[trigger] ids[a] < n && out@[a].0 == ms[ids[a]]
                        && out@[a].1 == self.entries()[ms[ids[a]].key_spec()] && out@[a].1 < 0,
                forall|j: int| 0 <= j < n ==> (#[trigger] used@[j] <==> ids.contains(j)),
                forall|a: int, b: int|
                    0 <= a < b < ids.len() ==> played_before(
                        out@[a].1 as int,
                        #[trigger] ids[a],
                        out@[b].1 as int,
                        #[trigger] ids[b],
                    ),
                forall|a: int, j: int|
                    0 <= a < ids.len() && 0 <= j < n && !used@[j] && self.entries()[ms[j].key_spec()] < 0
                        ==> played_before(
                        out@[a].1 as int,
                        #[trigger] ids[a],
                        self.entries()[ms[j].key_spec()] as int,
                        j,
                    ) && #[trigger] used@[j] == false,
                done ==> forall|j: int|
                    0 <= j < n && self.entries()[#[trigger] ms[j].key_spec()] < 0 ==> used@[j],
            decreases n - ids.len() + if done {
                0int
            } else {
                1int
            },
        {
            let mut best: usize = n;
            let mut best_p: i64 = 0;
            let mut j: usize = 0;
            while j < n
                invariant
                    self.inv(),
                    ms == self.match_list@,
                    n == ms.len(),
                    used@.len() == n,
                    j <= n,
                    best <= n,
                    best == n ==> forall|x: int|
                        0 <= x < j ==> used@[x] || self.entries()[#[trigger] ms[x].key_spec()] >= 0,
                    best < n ==> best < j && !used@[best as int] && self.entries()[ms[best as int].key_spec()]
                        == best_p && best_p < 0,
                    best < n ==> forall|x: int|
                        0 <= x < j && !used@[x] && self.entries()[#[trigger] ms[x].key_spec()] < 0
                            && x != best ==> played_before(
                            best_p as int,
                            best as int,
                            self.entries()[ms[x].key_spec()] as int,
                            x,
                        ),
                decreases n - j,
            {
                let key = self.match_list[j].key();
                proof {
                    assert(keys_of(self.match_list@).contains(key));
                }
                if let Some(p) = queue_get_priority(&self.queue, &key) {
                    if !used[j] && p < 0 && (best == n || p > best_p) {
                        best = j;
                        best_p = p;
                    }
                }
                j = j + 1;
            }
            if best == n {
                done = true;
            } else {
                let m = self.match_list[best];
                let ghost old_out = out@;
                let ghost old_ids = ids;
                out.push((m, best_p));
                used.set(best, true);
                proof {
                    ids = ids.push(best as int);
                    assert forall|a: int| 0 <= a < old_ids.len() implies old_ids[a] != best by {
                        assert(old_ids.contains(old_ids[a]));
                    }
                    assert forall|a: int, b: int| 0 <= a < b < ids.len() implies ids[a] != ids[b] by {
                        if b < old_ids.len() {
                            assert(ids[a] == old_ids[a] && ids[b] == old_ids[b]);
                        }
                    }
                    assert forall|a: int|
                        0 <= a < ids.len() implies 0 <= #[trigger] ids[a] < n && out@[a].0 == ms[ids[a]]
                            && out@[a].1 == self.entries()[ms[ids[a]].key_spec()] && out@[a].1 < 0 by {
                        if a < old_ids.len() {
                            assert(out@[a] == old_out[a] && ids[a] == old_ids[a]);
                        }
                    }
                    assert forall|jj: int| 0 <= jj < n implies (#[trigger] used@[jj] <==> ids.contains(
                        jj,
                    )) by {
                        if jj != best {
                            if old_ids.contains(jj) {
                                let a = choose|a: int| 0 <= a < old_ids.len() && old_ids[a] == jj;
                                assert(ids[a] == jj);
                            }
                            if ids.contains(jj) {
                                let a = choose|a: int| 0 <= a < ids.len() && ids[a] == jj;
                                assert(a < old_ids.len());
                                assert(old_ids[a] == jj);
                            }
                        } else {
                            assert(ids[ids.len() - 1] == jj);
                        }
                    }
                    assert forall|a: int, b: int|
                        0 <= a < b < ids.len() implies played_before(
                        out@[a].1 as int,
                        #[trigger] ids[a],
                        out@[b].1 as int,
                        #[trigger] ids[b],
                    ) by {
                        assert(out@[a] == old_out[a] && ids[a] == old_ids[a]);
                        if b < old_ids.len() {
                            assert(out@[b] == old_out[b] && ids[b] == old_ids[b]);
                        }
                    }
                    assert forall|a: int, x: int|
                        0 <= a < ids.len() && 0 <= x < n && !used@[x] && self.entries()[ms[x].key_spec()]
                            < 0 implies played_before(
                        out@[a].1 as int,
                        #[trigger] ids[a],
                        self.entries()[ms[x].key_spec()] as int,
                        x,
                    ) && #[trigger] used@[x] == false by {
                        if a < old_ids.len() {
                            assert(out@[a] == old_out[a] && ids[a] == old_ids[a]);
                        }
                    }
                    lemma_distinct_bound(ids, n as int);
                }
            }
        }
        proof {
            assert forall|a: int, b: int|
                0 <= a < b < out@.len() implies played_before(
                (#[trigger] out@[a]).1 as int,
                self.index_of(out@[a].0.key_spec()),
                (#[trigger] out@[b]).1 as int,
                self.index_of(out@[b].0.key_spec()),
            ) by {
                assert(played_before(out@[a].1 as int, ids[a], out@[b].1 as int, ids[b]));
                assert(self.index_of(ms[ids[a]].key_spec()) == ids[a]);
                assert(self.index_of(ms[ids[b]].key_spec()) == ids[b]);
            }
            assert forall|a: int| 0 <= a < out@.len() implies self.scheduled((#[trigger] out@[a]).0)
                && out@[a].1 == self.rank(out@[a].0) && out@[a].1 < 0 by {
                assert(0 <= ids[a] < n);
            }
            assert forall|i: int|
                0 <= i < self.match_list@.len() && self.rank(#[trigger] self.match_list@[i]) < 0 implies exists|
                    a: int,
                | 0 <= a < out@.len() && out@[a].0 == self.match_list@[i] by {
                assert(used@[i]);
                let a = choose|a: int| 0 <= a < ids.len() && ids[a] == i;
                assert(out@[a].0 == ms[i]);
            }
        }
        out
    }

    /// Switches the variant; refused once any match has been played.
    pub fn set_mode(&mut self, game_mode: GameMode) -> (r: Result<(), GameError>)
        requires
            old(self).inv(),
        ensures
            final(self).inv(),
            (r == Err::<(), GameError>(GameError::InvalidState)) == (old(self).played_count() > 0),
            r is Err ==> r == Err::<(), GameError>(GameError::InvalidState),
            r is Err ==> *final(self) == *old(self),
            r is Ok ==> final(self).mode() == game_mode && final(self).players() == old(self).players()
                && final(self).matches() == old(self).matches() && final(self).rounds_spec()
                == old(self).rounds_spec() && final(self).reprioritized(old(self).entries()),
    {
        if self.get_played_n() > 0 {
            return Err(GameError::InvalidState);
        }
        proof {
            lemma_count_sunk_zero(self.match_list@, self.entries());
            assert forall|i: int| 0 <= i < self.match_list@.len() implies !(#[trigger] self.match_list@[i]).resolved() by {
                assert(self.entries()[self.match_list@[i].key_spec()] >= 0);
            }
        }
        let ghost g0 = *self;
        self.game_mode = game_mode;
        proof {
            assert forall|i: int| 0 <= i < self.match_list@.len() implies self.match_ok(#[trigger] self.match_list@[i]) by {
                assert(g0.match_ok(self.match_list@[i]));
                assert(!self.match_list@[i].resolved());
            }
            assert forall|x: int, y: int, r: int|
                1 <= x < y <= self.player_list@.len() && 1 <= r <= self.rounds implies #[trigger] self.covered(x, y, r)
                by {
                assert(g0.covered(x, y, r));
            }
        }
        self.update_priorities();
        Ok(())
    }

    /// The seed drawn when the tournament was created.
    pub closed spec fn seed(self) -> int {
        self.rng_seed as int
    }

    /// A quote for the current state of play: the table is walked by the
    /// number of played matches, from a start drawn at creation.
    pub fn get_quote(&self) -> (r: (String, String))
        requires
            self.inv(),
        ensures
            ({
                let i = (self.played_count() % 100 + self.seed() % 100) % quote_table().len() as int;
                r.0@ == quote_table()[i].0@ && r.1@ == quote_table()[i].1@
            }),
    {
        let i = self.get_played_n() % 100;
        crate::quotes::get_quote(i + (self.rng_seed % 100) as usize)
    }

    /// The active variant.
    pub fn get_mode(&self) -> (r: GameMode)
        ensures
            r == self.mode(),
    {
        self.game_mode
    }

    /// The configured number of rounds.
    pub fn get_rounds(&self) -> (r: usize)
        ensures
            r == self.rounds_spec(),
    {
        self.rounds
    }

    /// Every move symbol of the five-move alphabet and the placeholder.
    pub fn get_options(&self) -> (r: Vec<Rpssl>)
        ensures
            r@ == seq![
                Rpssl::Rock,
                Rpssl::Paper,
                Rpssl::Scissors,
                Rpssl::Spock,
                Rpssl::Lizard,
                Rpssl::Unset,
            ],
    {
        let mut r: Vec<Rpssl> = Vec::new();
        r.push(Rpssl::Rock);
        r.push(Rpssl::Paper);
        r.push(Rpssl::Scissors);
        r.push(Rpssl::Spock);
        r.push(Rpssl::Lizard);
        r.push(Rpssl::Unset);
        assert(r@ =~= seq![
            Rpssl::Rock,
            Rpssl::Paper,
            Rpssl::Scissors,
            Rpssl::Spock,
            Rpssl::Lizard,
            Rpssl::Unset,
        ]);
        r
    }

    /// The player with an id, if there is one.
    pub fn get_player(&self, pid: u16) -> (r: Option<Player>)
        requires
            self.inv(),
        ensures
            r == (if 1 <= pid <= self.players().len() {
                Some(self.players()[pid - 1])
            } else {
                None
            }),
    {
        if pid >= 1 && (pid as usize) <= self.player_list.len() {
            Some(self.player_list[(pid - 1) as usize].clone())
        } else {
            None
        }
    }

    /// The name of the player with an id, if there is one.
    pub fn get_player_name(&self, pid: u16) -> (r: Option<String>)
        requires
            self.inv(),
        ensures
            r == (if 1 <= pid <= self.players().len() {
                Some(self.players()[pid - 1].name)
            } else {
                None
            }),
    {
        if pid >= 1 && (pid as usize) <= self.player_list.len() {
            Some(self.player_list[(pid - 1) as usize].name.clone())
        } else {
            None
        }
    }

    /// Removes every player, match and priority; the rounds and the variant stay.
    pub fn reset(&mut self)
        requires
            old(self).inv(),
        ensures
            final(self).inv(),
            final(self).players().len() == 0,
            final(self).matches().len() == 0,
            final(self).rounds_spec() == old(self).rounds_spec(),
            final(self).mode() == old(self).mode(),
    {
        self.player_list.clear();
        self.match_list.clear();
        queue_clear(&mut self.queue);
        assert(keys_of(self.match_list@) =~= Set::empty());
        assert(self.entries().dom() =~= Set::empty());
        assert(self.player_list@ =~= recomputed(self.player_list@, self.match_list@));
    }

    /// The leaderboard: every player once, by score from highest, ties by id
    /// from lowest. Scores are recomputed over the match registry first.
    pub fn get_scores(&mut self) -> (r: Vec<Player>)
        requires
            old(self).inv(),
        ensures
            final(self).inv(),
            final(self).players() == old(self).players(),
            final(self).matches() == old(self).matches(),
            final(self).entries() == old(self).entries(),
            final(self).rounds_spec() == old(self).rounds_spec(),
            final(self).mode() == old(self).mode(),
            final(self).players() == recomputed(old(self).players(), old(self).matches()),
            r@.len() == old(self).players().len(),
            forall|a: int|
                0 <= a < r@.len() ==> 1 <= (#[trigger] r@[a]).id <= old(self).players().len() && r@[a]
                    == old(self).players()[r@[a].id - 1],
            forall|a: int, b: int|
                0 <= a < b < r@.len() ==> ranks_before(#[trigger] r@[a], #[trigger] r@[b]),
    {
        self.update_scores();
        proof {
            assert(self.player_list@ == old(self).player_list@);
        }
        let n = self.player_list.len();
        let ghost ps = self.player_list@;
        let mut used: Vec<bool> = Vec::new();
        while used.len() < n
            invariant
                used@.len() <= n,
                forall|j: int| 0 <= j < used@.len() ==> !used@[j],
            decreases n - used@.len(),
        {
            used.push(false);
        }
        let mut out: Vec<Player> = Vec::new();
        let ghost mut ids: Seq<int> = seq![];
        while out.len() < n
            invariant
                self.inv(),
                ps == self.player_list@,
                n == ps.len(),
                used@.len() == n,
                out@.len() <= n,
                ids.len() == out@.len(),
                forall|a: int| 0 <= a < ids.len() ==> #[trigger] ids[a] == out@[a].id - 1,
                forall|a: int|
                    0 <= a < out@.len() ==> 1 <= (#[trigger] out@[a]).id <= n && out@[a] == ps[out@[a].id
                        - 1],
                forall|j: int| 0 <= j < n ==> (#[trigger] used@[j] <==> ids.contains(j)),
                forall|a: int, b: int|
                    0 <= a < b < out@.len() ==> ranks_before(#[trigger] out@[a], #[trigger] out@[b]),
                forall|a: int, j: int|
                    0 <= a < out@.len() && 0 <= j < n && !used@[j] ==> ranks_before(
                        #[trigger] out@[a],
                        #[trigger] ps[j],
                    ),
            decreases n - out@.len(),
        {
            proof {
                assert forall|a: int, b: int| 0 <= a < b < ids.len() implies ids[a] != ids[b] by {
                    assert(ranks_before(out@[a], out@[b]));
                }
                assert(ids.no_duplicates());
                if forall|j: int| 0 <= j < n ==> ids.contains(j) {
                    lemma_cover_bound(ids, n as int);
                }
                let x = choose|x: int| 0 <= x < n && !ids.contains(x);
                assert(!used@[x]);
            }
            let mut best: usize = n;
            let mut j: usize = 0;
            while j < n
                invariant
                    self.inv(),
                    ps == self.player_list@,
                    n == ps.len(),
                    used@.len() == n,
                    j <= n,
                    exists|x: int| 0 <= x < n && !used@[x],
                    best == n || (best < j && !used@[best as int]),
                    best == n ==> forall|x: int| 0 <= x < j ==> used@[x],
                    best < n ==> forall|x: int|
                        0 <= x < j && !used@[x] && x != best ==> ranks_before(
                            ps[best as int],
                            #[trigger] ps[x],
                        ),
                decreases n - j,
            {
                if !used[j] {
                    if best == n {
                        best = j;
                    } else {
                        let pj = &self.player_list[j];
                        let pb = &self.player_list[best];
                        if pj.score > pb.score || (pj.score == pb.score && pj.id < pb.id) {
                            best = j;
                        }
                    }
                }
                j = j + 1;
            }
            let chosen = self.player_list[best].clone();
            let ghost old_out = out@;
            let ghost old_ids = ids;
            proof {
                assert(ps[best as int].id == best + 1);
                assert forall|a: int| 0 <= a < old_out.len() implies ranks_before(
                    old_out[a],
                    chosen,
                ) by {}
            }
            out.push(chosen);
            used.set(best, true);
            proof {
                ids = ids.push(best as int);
                assert forall|a: int, b: int|
                    0 <= a < b < out@.len() implies ranks_before(#[trigger] out@[a], #[trigger] out@[b]) by {
                    assert(out@[a] == old_out[a]);
                    if b < old_out.len() {
                        assert(out@[b] == old_out[b]);
                    }
                }
                assert forall|jj: int| 0 <= jj < n implies (#[trigger] used@[jj] <==> ids.contains(jj)) by {
                    if jj != best {
                        if old_ids.contains(jj) {
                            let a = choose|a: int| 0 <= a < old_ids.len() && old_ids[a] == jj;
                            assert(ids[a] == jj);
                        }
                        if ids.contains(jj) {
                            let a = choose|a: int| 0 <= a < ids.len() && ids[a] == jj;
                            assert(a < old_ids.len());
                            assert(old_ids[a] == jj);
                        }
                    } else {
                        assert(ids[ids.len() - 1] == jj);
                    }
                }
                assert forall|a: int, x: int|
                    0 <= a < out@.len() && 0 <= x < n && !used@[x] implies ranks_before(
                    #[trigger] out@[a],
                    #[trigger] ps[x],
                ) by {
                    assert(ps[x].id == x + 1);
                    if a < old_out.len() {
                        assert(out@[a] == old_out[a]);
                    }
                }
            }
        }
        out
    }

    /// Raises the number of rounds, scheduling every pair of players once in
    /// each added round. A number not above the current one changes nothing.
    pub fn set_rounds(&mut self, rounds: usize) -> (r: Result<(), GameError>)
        requires
            old(self).inv(),
        ensures
            final(self).inv(),
            (r == Err::<(), GameError>(GameError::TooLarge)) == (rounds > old(self).rounds_spec() && (
            rounds > MAX_ROUNDS || rounds * (old(self).players().len() - 1) > MAX_GAMES)),
            r is Err ==> r == Err::<(), GameError>(GameError::TooLarge),
            r is Err ==> *final(self) == *old(self),
            rounds <= old(self).rounds_spec() ==> r is Ok && *final(self) == *old(self),
            r is Ok && rounds > old(self).rounds_spec() ==> {
                let n = old(self).players().len() as int;
                &&& final(self).rounds_spec() == rounds
                &&& final(self).players() == old(self).players()
                &&& final(self).mode() == old(self).mode()
                &&& final(self).matches().len() == old(self).matches().len() + (rounds
                    - old(self).rounds_spec()) * (n * (n - 1) / 2)
                &&& final(self).matches().take(old(self).matches().len() as int) == old(
                    self,
                ).matches()
                &&& forall|j: int|
                    old(self).matches().len() <= j < final(self).matches().len() ==> fresh_in_round(
                        #[trigger] final(self).matches()[j],
                        n,
                        final(self).matches()[j].round as int,
                    ) && final(self).matches()[j].round > old(self).rounds_spec()
                &&& forall|x: int, y: int, rr: int|
                    1 <= x < y <= n && old(self).rounds_spec() < rr <= rounds ==> #[trigger] covered_in(
                        final(self).matches(),
                        x,
                        y,
                        rr,
                    )
                &&& final(self).reprioritized(old(self).entries())
            },
    {
        if rounds <= self.rounds {
            return Ok(());
        }
        if rounds > MAX_ROUNDS {
            return Err(GameError::TooLarge);
        }
        let n = self.player_list.len();
        let ghost nn = n as int;
        proof {
            let h = nn / 2;
            if nn % 2 == 0 {
                assert(nn * (nn - 1) == 2 * (h * (nn - 1))) by (nonlinear_arith)
                    requires
                        nn == 2 * h,
                ;
            } else {
                assert(nn * (nn - 1) == 2 * (nn * h)) by (nonlinear_arith)
                    requires
                        nn == 2 * h + 1,
                ;
            }
        }
        let ghost per_round: int = nn * (nn - 1) / 2;
        if n > 0 {
            assert(rounds * (n - 1) <= MAX_ROUNDS * MAX_PLAYERS) by (nonlinear_arith)
                requires
                    rounds <= MAX_ROUNDS,
                    1 <= n <= MAX_PLAYERS,
            ;
            if (rounds as u64) * ((n - 1) as u64) > MAX_GAMES as u64 {
                return Err(GameError::TooLarge);
            }
        }
        if n == 0 {
            assert(rounds * (nn - 1) == -rounds) by (nonlinear_arith)
                requires
                    nn == 0,
            ;
        }
        assert(rounds * (nn - 1) <= MAX_GAMES) by (nonlinear_arith)
            requires
                nn == 0 ==> rounds * (nn - 1) <= 0,
                nn > 0 ==> rounds * (nn - 1) <= MAX_GAMES,
        ;
        let ghost old_ms = self.match_list@;
        let ghost old_len = old_ms.len() as int;
        let old_rounds = self.rounds;
        let mut round: usize = old_rounds + 1;
        assert((round - old_rounds - 1) * per_round == 0) by (nonlinear_arith)
            requires
                round == old_rounds + 1,
        ;
        assert((round - old_rounds - 1) * (nn - 1) == 0) by (nonlinear_arith)
            requires
                round == old_rounds + 1,
        ;
        while round <= rounds
            invariant
                old(self).inv(),
                n == self.player_list@.len(),
                self.player_list@ == old(self).player_list@,
                self.rounds == old_rounds,
                old_rounds == old(self).rounds,
                self.game_mode == old(self).game_mode,
                old_ms == old(self).match_list@,
                old_len == old_ms.len(),
                2 * per_round == nn * (nn - 1),
                nn == n,
                old_rounds < round <= rounds + 1,
                rounds <= MAX_ROUNDS,
                rounds * (nn - 1) <= MAX_GAMES,
                forall|q: int|
                    1 <= q <= n ==> #[trigger] involving(self.match_list@, q) == involving(old_ms, q)
                        + (round - old_rounds - 1) * (nn - 1),
                self.match_list@.len() == old_len + (round - old_rounds - 1) * per_round,
                self.match_list@.take(old_len) == old_ms,
                forall|j: int|
                    old_len <= j < self.match_list@.len() ==> fresh_in_round(
                        #[trigger] self.match_list@[j],
                        n as int,
                        self.match_list@[j].round as int,
                    ) && old_rounds < self.match_list@[j].round < round,
                forall|x: int, y: int, rr: int|
                    1 <= x < y <= n && old_rounds < rr < round ==> #[trigger] covered_in(
                        self.match_list@,
                        x,
                        y,
                        rr,
                    ),
                forall|i: int, j: int|
                    0 <= i < j < self.match_list@.len() ==> #[trigger] self.match_list@[i].key_spec()
                        != #[trigger] self.match_list@[j].key_spec(),
                self.entries().dom() == keys_of(self.match_list@),
                forall|k: MatchKey|
                    old(self).entries().contains_key(k) ==> #[trigger] self.entries()[k]
                        == old(self).entries()[k],
            decreases rounds + 1 - round,
        {
            let ghost before_ms = self.match_list@;
            proof {
                assert forall|i: int| 0 <= i < before_ms.len() implies (#[trigger] before_ms[i]).round
                    != round by {
                    if i < old_len {
                        assert(before_ms[i] == old_ms[i]);
                        assert(old(self).match_ok(old_ms[i]));
                    }
                }
            }
            proof {
                assert(nn * (nn - 1) >= 0) by (nonlinear_arith)
                    requires
                        nn >= 0,
                ;
                assert((round - old_rounds - 1) * per_round >= 0) by (nonlinear_arith)
                    requires
                        round > old_rounds,
                        per_round >= 0,
                ;
            }
            self.schedule_round(round as u16);
            proof {
                let ms = self.match_list@;
                assert((round - old_rounds - 1) * (nn - 1) + (nn - 1) == (round + 1 - old_rounds - 1)
                    * (nn - 1)) by (nonlinear_arith);
                assert forall|q: int| 1 <= q <= n implies #[trigger] involving(ms, q) == involving(
                    old_ms,
                    q,
                ) + (round + 1 - old_rounds - 1) * (nn - 1) by {
                    assert(involving(before_ms, q) == involving(old_ms, q) + (round - old_rounds - 1)
                        * (nn - 1));
                }
                assert(ms.len() == old_len + (round - old_rounds) * per_round) by (nonlinear_arith)
                    requires
                        2 * (ms.len() - before_ms.len()) == nn * (nn - 1),
                        2 * per_round == nn * (nn - 1),
                        before_ms.len() == old_len + (round - old_rounds - 1) * per_round,
                ;
                assert(ms.take(old_len) =~= before_ms.take(old_len));
                assert forall|j: int| old_len <= j < ms.len() implies fresh_in_round(
                    #[trigger] ms[j],
                    n as int,
                    ms[j].round as int,
                ) && old_rounds < ms[j].round < round + 1 by {
                    if j < before_ms.len() {
                        assert(ms[j] == ms.take(before_ms.len() as int)[j]);
                    }
                }
                assert forall|x: int, y: int, rr: int|
                    1 <= x < y <= n && old_rounds < rr < round + 1 implies #[trigger] covered_in(
                        ms,
                        x,
                        y,
                        rr,
                    ) by {
                    if rr < round {
                        assert(covered_in(before_ms, x, y, rr));
                        let i = choose|i: int| 0 <= i < before_ms.len() && pairs(before_ms[i], x, y, rr);
                        assert(ms[i] == ms.take(before_ms.len() as int)[i]);
                    }
                }
            }
            round = round + 1;
        }
        let ghost mid_ms = self.match_list@;
        self.rounds = rounds;
        proof {
            let ms = self.match_list@;
            let og = *old(self);
            assert(2 * ms.len() == rounds * nn * (nn - 1)) by (nonlinear_arith)
                requires
                    ms.len() == old_len + (rounds - old_rounds) * per_round,
                    2 * per_round == nn * (nn - 1),
                    2 * old_len == old_rounds * nn * (nn - 1),
            ;
            assert forall|i: int| 0 <= i < ms.len() implies self.match_ok(#[trigger] ms[i]) by {
                if i < old_len {
                    assert(ms[i] == old_ms[i]);
                    assert(og.match_ok(old_ms[i]));
                }
            }
            assert forall|x: int, y: int, rr: int|
                1 <= x < y <= n && 1 <= rr <= rounds implies #[trigger] self.covered(x, y, rr) by {
                if rr <= old_rounds {
                    assert(og.covered(x, y, rr));
                    let i = choose|i: int| 0 <= i < old_ms.len() && pairs(old_ms[i], x, y, rr);
                    assert(ms[i] == old_ms[i]);
                } else {
                    assert(covered_in(ms, x, y, rr));
                }
            }
            assert forall|j: int| old_len <= j < ms.len() implies !(#[trigger] ms[j]).resolved() by {
                assert(fresh_in_round(ms[j], n as int, ms[j].round as int));
            }
            assert forall|i: int| 0 <= i < n implies #[trigger] self.player_list@[i] == recomputed(
                self.player_list@,
                ms,
            )[i] by {
                lemma_tally_unplayed_suffix(ms, old_len, self.player_list@[i].id as int);
                assert(ms.take(old_len) == old_ms);
                assert(og.player_list@[i] == recomputed(og.player_list@, old_ms)[i]);
            }
            assert(self.player_list@ =~= recomputed(self.player_list@, ms));
            assert(old_rounds * (nn - 1) + (rounds + 1 - old_rounds - 1) * (nn - 1) == rounds * (nn
                - 1)) by (nonlinear_arith);
            assert forall|q: int| 1 <= q <= n implies #[trigger] involving(ms, q) == rounds * (nn - 1)
                by {
                assert(involving(old_ms, q) == old_rounds * (nn - 1));
            }
        }
        self.update_priorities();
        proof {
            let ms = self.match_list@;
            assert forall|i: int| 0 <= i < ms.len() implies self.entries()[#[trigger] ms[i].key_spec()]
                == self.target(old(self).entries()[ms[i].key_spec()], ms[i]) by {
                if i < old_len {
                    assert(ms[i] == old_ms[i]);
                    assert(keys_of(old_ms).contains(old_ms[i].key_spec()));
                } else {
                    assert(fresh_in_round(mid_ms[i], n as int, mid_ms[i].round as int));
                }
            }
            assert forall|j: int| old_len <= j < ms.len() implies fresh_in_round(
                #[trigger] ms[j],
                n as int,
                ms[j].round as int,
            ) && ms[j].round > old_rounds by {
                assert(fresh_in_round(mid_ms[j], n as int, mid_ms[j].round as int));
            }
            assert forall|x: int, y: int, rr: int|
                1 <= x < y <= n && old_rounds < rr <= rounds implies #[trigger] covered_in(ms, x, y, rr) by {
                assert(covered_in(mid_ms, x, y, rr));
            }
            assert((rounds - old_rounds) * per_round == (rounds - old_rounds) * (nn * (nn - 1) / 2));
        }
        Ok(())
    }

    /// Appends one match for every pair of players in round `round`, ordered
    /// as the pairing convention asks.
    fn schedule_round(&mut self, round: u16)
        requires
            old(self).player_list@.len() <= MAX_PLAYERS,
            1 <= round,
            forall|i: int| 0 <= i < old(self).player_list@.len() ==> #[trigger] old(self).player_list@[i].id == i + 1,
            forall|i: int| 0 <= i < old(self).match_list@.len() ==> (#[trigger] old(self).match_list@[i]).round != round,
            forall|i: int, j: int|
                0 <= i < j < old(self).match_list@.len() ==> #[trigger] old(self).match_list@[i].key_spec()
                    != #[trigger] old(self).match_list@[j].key_spec(),
            old(self).entries().dom() == keys_of(old(self).match_list@),
        ensures
            final(self).player_list@ == old(self).player_list@,
            final(self).rounds == old(self).rounds,
            final(self).game_mode == old(self).game_mode,
            final(self).match_list@.take(old(self).match_list@.len() as int) == old(self).match_list@,
            2 * (final(self).match_list@.len() - old(self).match_list@.len()) == old(self).player_list@.len() * (
            old(self).player_list@.len() - 1),
            forall|j: int|
                old(self).match_list@.len() <= j < final(self).match_list@.len() ==> fresh_in_round(
                    #[trigger] final(self).match_list@[j],
                    old(self).player_list@.len() as int,
                    round as int,
                ),
            forall|x: int, y: int|
                1 <= x < y <= old(self).player_list@.len() ==> #[trigger] covered_in(
                    final(self).match_list@,
                    x,
                    y,
                    round as int,
                ),
            forall|i: int, j: int|
                0 <= i < j < final(self).match_list@.len() ==> #[trigger] final(self).match_list@[i].key_spec()
                    != #[trigger] final(self).match_list@[j].key_spec(),
            final(self).entries().dom() == keys_of(final(self).match_list@),
            forall|k: MatchKey|
                old(self).entries().contains_key(k) ==> #[trigger] final(self).entries()[k]
                    == old(self).entries()[k],
            forall|q: int|
                1 <= q <= old(self).player_list@.len() ==> #[trigger] involving(
                    final(self).match_list@,
                    q,
                ) == involving(old(self).match_list@, q) + (old(self).player_list@.len() - 1),
    {
        let n = self.player_list.len();
        let ghost old_ms = self.match_list@;
        let ghost old_len = old_ms.len() as int;
        let mut b: usize = 0;
        while b < n
            invariant
                n == self.player_list@.len(),
                n <= MAX_PLAYERS,
                self.player_list@ == old(self).player_list@,
                self.rounds == old(self).rounds,
                self.game_mode == old(self).game_mode,
                old_ms == old(self).match_list@,
                old_len == old_ms.len(),
                1 <= round,
                forall|i: int| 0 <= i < n ==> #[trigger] old(self).player_list@[i].id == i + 1,
                forall|i: int| 0 <= i < old_len ==> (#[trigger] old_ms[i]).round != round,
                old(self).entries().dom() == keys_of(old_ms),
                b <= n,
                2 * (self.match_list@.len() - old_len) == b * (b - 1),
                forall|q: int|
                    1 <= q <= n ==> #[trigger] involving(self.match_list@, q) == involving(old_ms, q)
                        + round_share(q - 1, 0, b as int),
                self.match_list@.take(old_len) == old_ms,
                forall|j: int|
                    old_len <= j < self.match_list@.len() ==> fresh_in_round(
                        #[trigger] self.match_list@[j],
                        n as int,
                        round as int,
                    ) && pair_before(low_id(self.match_list@[j]), high_id(self.match_list@[j]), 0, b as int),
                forall|x: int, y: int|
                    1 <= x < y <= n && pair_before(x, y, 0, b as int) ==> #[trigger] covered_in(
                        self.match_list@,
                        x,
                        y,
                        round as int,
                    ),
                forall|i: int, j: int|
                    0 <= i < j < self.match_list@.len() ==> #[trigger] self.match_list@[i].key_spec()
                        != #[trigger] self.match_list@[j].key_spec(),
                self.entries().dom() == keys_of(self.match_list@),
                forall|k: MatchKey|
                    old(self).entries().contains_key(k) ==> #[trigger] self.entries()[k]
                        == old(self).entries()[k],
            decreases n - b,
        {
            let mut a: usize = 0;
            while a < b
                invariant
                    n == self.player_list@.len(),
                    n <= MAX_PLAYERS,
                    self.player_list@ == old(self).player_list@,
                    self.rounds == old(self).rounds,
                    self.game_mode == old(self).game_mode,
                    old_ms == old(self).match_list@,
                    old_len == old_ms.len(),
                    1 <= round,
                    forall|i: int| 0 <= i < n ==> #[trigger] old(self).player_list@[i].id == i + 1,
                    forall|i: int| 0 <= i < old_len ==> (#[trigger] old_ms[i]).round != round,
                    old(self).entries().dom() == keys_of(old_ms),
                    b < n,
                    a <= b,
                    2 * (self.match_list@.len() - old_len) == b * (b - 1) + 2 * a,
                    forall|q: int|
                        1 <= q <= n ==> #[trigger] involving(self.match_list@, q) == involving(old_ms, q)
                            + round_share(q - 1, a as int, b as int),
                    self.match_list@.take(old_len) == old_ms,
                    forall|j: int|
                        old_len <= j < self.match_list@.len() ==> fresh_in_round(
                            #[trigger] self.match_list@[j],
                            n as int,
                            round as int,
                        ) && pair_before(
                            low_id(self.match_list@[j]),
                            high_id(self.match_list@[j]),
                            a as int,
                            b as int,
                        ),
                    forall|x: int, y: int|
                        1 <= x < y <= n && pair_before(x, y, a as int, b as int) ==> #[trigger] covered_in(
                            self.match_list@,
                            x,
                            y,
                            round as int,
                        ),
                    forall|i: int, j: int|
                        0 <= i < j < self.match_list@.len() ==> #[trigger] self.match_list@[i].key_spec()
                            != #[trigger] self.match_list@[j].key_spec(),
                    self.entries().dom() == keys_of(self.match_list@),
                    forall|k: MatchKey|
                        old(self).entries().contains_key(k) ==> #[trigger] self.entries()[k]
                            == old(self).entries()[k],
                decreases b - a,
            {
                let m = if round % 2 == 1 {
                    Match::new(&self.player_list[a], &self.player_list[b], round)
                } else {
                    Match::new(&self.player_list[b], &self.player_list[a], round)
                };
                let ghost before_ms = self.match_list@;
                let ghost before = self.entries();
                proof {
                    let ps = old(self).player_list@;
                    assert(ps[a as int].id == a + 1 && ps[b as int].id == b + 1);
                    assert forall|i: int| 0 <= i < before_ms.len() implies before_ms[i].key_spec()
                        != m.key_spec() by {
                        if i < old_len {
                            assert(before_ms[i] == old_ms[i]);
                        }
                    }
                    lemma_keys_push(before_ms, m);
                    if old(self).entries().contains_key(m.key_spec()) {
                        assert(keys_of(old_ms).contains(m.key_spec()));
                        let i = choose|i: int|
                            0 <= i < old_ms.len() && old_ms[i].key_spec() == m.key_spec();
                        assert(before_ms[i] == old_ms[i]);
                    }
                }
                self.match_list.push(m);
                queue_push(&mut self.queue, m.key(), 0);
                proof {
                    let ms = self.match_list@;
                    assert(ms[ms.len() - 1] == m);
                    assert(ms.take(old_len) =~= before_ms.take(old_len));
                    assert forall|x: int, y: int|
                        1 <= x < y <= n && pair_before(x, y, a + 1, b as int) implies #[trigger] covered_in(
                            ms,
                            x,
                            y,
                            round as int,
                        ) by {
                        if x == a + 1 && y == b + 1 {
                            assert(pairs(ms[ms.len() - 1], x, y, round as int));
                        } else {
                            assert(covered_in(before_ms, x, y, round as int));
                            let i = choose|i: int|
                                0 <= i < before_ms.len() && pairs(before_ms[i], x, y, round as int);
                            assert(ms[i] == before_ms[i]);
                        }
                    }
                    assert forall|i: int, j: int|
                        0 <= i < j < ms.len() implies #[trigger] ms[i].key_spec()
                            != #[trigger] ms[j].key_spec() by {
                        if j < ms.len() - 1 {
                            assert(ms[i] == before_ms[i] && ms[j] == before_ms[j]);
                        } else {
                            assert(ms[i] == before_ms[i]);
                        }
                    }
                    assert forall|j: int| old_len <= j < ms.len() implies fresh_in_round(
                        #[trigger] ms[j],
                        n as int,
                        round as int,
                    ) && pair_before(low_id(ms[j]), high_id(ms[j]), a + 1, b as int) by {
                        if j < ms.len() - 1 {
                            assert(ms[j] == before_ms[j]);
                        }
                    }
                    assert(self.entries().dom() =~= keys_of(ms));
                    assert forall|q: int| 1 <= q <= n implies #[trigger] involving(ms, q) == involving(
                        old_ms,
                        q,
                    ) + round_share(q - 1, a + 1, b as int) by {
                        lemma_involving_push(before_ms, m, q);
                        assert(involving(before_ms, q) == involving(old_ms, q) + round_share(
                            q - 1,
                            a as int,
                            b as int,
                        ));
                    }
                }
                a = a + 1;
            }
            proof {
                let ms = self.match_list@;
                assert(b * (b - 1) + 2 * b == (b + 1) * b) by (nonlinear_arith);
                assert forall|q: int| 1 <= q <= n implies #[trigger] involving(ms, q) == involving(
                    old_ms,
                    q,
                ) + round_share(q - 1, 0, b + 1) by {
                    assert(involving(ms, q) == involving(old_ms, q) + round_share(
                        q - 1,
                        b as int,
                        b as int,
                    ));
                }
                assert forall|x: int, y: int|
                    1 <= x < y <= n && pair_before(x, y, 0, b + 1) implies #[trigger] covered_in(
                        ms,
                        x,
                        y,
                        round as int,
                    ) by {
                    assert(pair_before(x, y, b as int, b as int));
                }
                assert forall|j: int| old_len <= j < ms.len() implies fresh_in_round(
                    #[trigger] ms[j],
                    n as int,
                    round as int,
                ) && pair_before(low_id(ms[j]), high_id(ms[j]), 0, b + 1) by {
                    assert(pair_before(low_id(ms[j]), high_id(ms[j]), b as int, b as int));
                }
            }
            b = b + 1;
        }
    }

    /// Games played by a player and the points they brought, tallied over the
    /// match registry.
    fn get_score_for_player(&self, pid: u16) -> (r: (u16, u16))
        requires
            involving(self.match_list@, pid as int) <= MAX_GAMES,
        ensures
            r.0 == played_in(self.match_list@, pid as int),
            r.1 == points_in(self.match_list@, pid as int),
    {
        let ghost ms = self.match_list@;
        let mut played: u16 = 0;
        let mut score: u16 = 0;
        let mut i: usize = 0;
        while i < self.match_list.len()
            invariant
                ms == self.match_list@,
                involving(ms, pid as int) <= MAX_GAMES,
                i <= ms.len(),
                played == played_in(ms.take(i as int), pid as int),
                score == points_in(ms.take(i as int), pid as int),
            decreases ms.len() - i,
        {
            let m = &self.match_list[i];
            proof {
                assert(ms.take(i + 1).drop_last() =~= ms.take(i as int));
                lemma_tally_bounds(ms.take(i + 1), pid as int);
                lemma_involving_prefix(ms, i + 1, pid as int);
            }
            if m.result.is_some() && (m.player1 == pid || m.player2 == pid) {
                played = played + 1;
            }
            score = score + m.get_score_for_player(pid);
            i = i + 1;
        }
        assert(ms.take(i as int) =~= ms);
        (played, score)
    }

    /// Recomputes every player's games played and score from scratch over the
    /// match registry.
    pub fn update_scores(&mut self)
        requires
            old(self).shape_ok(),
        ensures
            final(self).shape_ok(),
            final(self).stats_ok(),
            final(self).players() == recomputed(old(self).players(), old(self).matches()),
            final(self).matches() == old(self).matches(),
            final(self).entries() == old(self).entries(),
            final(self).rounds_spec() == old(self).rounds_spec(),
            final(self).mode() == old(self).mode(),
            final(self).settled() == old(self).settled(),
            old(self).inv() ==> final(self).inv(),
    {
        let ghost ps = self.player_list@;
        let ghost ms = self.match_list@;
        let n = self.player_list.len();
        let mut i: usize = 0;
        while i < n
            invariant
                n == self.player_list@.len(),
                ps.len() == n,
                ms == self.match_list@,
                old(self).shape_ok(),
                ps == old(self).player_list@,
                ms == old(self).match_list@,
                self.queue == old(self).queue,
                self.rounds == old(self).rounds,
                self.game_mode == old(self).game_mode,
                i <= n,
                forall|j: int| 0 <= j < i ==> self.player_list@[j] == recomputed(ps, ms)[j],
                forall|j: int| i <= j < n ==> self.player_list@[j] == ps[j],
            decreases n - i,
        {
            let pid = self.player_list[i].id;
            proof {
                assert(ps[i as int].id == i + 1);
                assert(involving(ms, pid as int) == old(self).rounds * (n - 1));
            }
            let (played, score) = self.get_score_for_player(pid);
            proof {
                lemma_tally_bounds(ms, pid as int);
            }
            self.player_list[i].played = played;
            self.player_list[i].score = score;
            i = i + 1;
        }
        proof {
            assert(self.player_list@ =~= recomputed(ps, ms));
            lemma_recompute_idempotent(ps, ms);
            lemma_shape_same(*old(self), *self);
        }
    }

    /// Re-ranks every scheduled match: played ones sink below all pending ones,
    /// pending ones are ordered by round and by how far their players are
    /// behind their potential.
    pub fn update_priorities(&mut self)
        requires
            old(self).shape_ok(),
        ensures
            final(self).shape_ok(),
            final(self).settled(),
            final(self).reprioritized(old(self).entries()),
            final(self).players() == old(self).players(),
            final(self).matches() == old(self).matches(),
            final(self).rounds_spec() == old(self).rounds_spec(),
            final(self).mode() == old(self).mode(),
            final(self).entries().dom() == old(self).entries().dom(),
            old(self).players().len() == 0 ==> final(self).entries() == old(self).entries(),
            old(self).inv() ==> final(self).inv(),
    {
        let n = self.player_list.len();
        if n == 0 {
            proof {
                assert(self.match_list@.len() == 0) by (nonlinear_arith)
                    requires
                        2 * self.match_list@.len() == self.rounds * n * (n - 1),
                        n == 0,
                ;
            }
            return;
        }
        let completed: i64 = self.played_sum() / 2 + 1;
        assert(self.rounds * (n - 1) <= MAX_ROUNDS * MAX_PLAYERS) by (nonlinear_arith)
            requires
                self.rounds <= MAX_ROUNDS,
                1 <= n <= MAX_PLAYERS,
        ;
        let capacity: i64 = (self.rounds * (n - 1)) as i64;
        let k: i64 = self.game_mode.arity() as i64;
        let ghost prev = self.entries();
        let mut i: usize = 0;
        while i < self.match_list.len()
            invariant
                self.player_list@ == old(self).players(),
                self.match_list@ == old(self).matches(),
                self.rounds == old(self).rounds,
                self.game_mode == old(self).game_mode,
                old(self).shape_ok(),
                n == self.player_list@.len(),
                completed == self.sink(),
                1 <= completed <= 65535 * MAX_PLAYERS,
                capacity == self.capacity(),
                0 <= capacity <= MAX_ROUNDS * MAX_PLAYERS,
                k == self.game_mode.arity_spec(),
                prev == old(self).entries(),
                i <= self.match_list@.len(),
                self.entries().dom() == prev.dom(),
                forall|j: int|
                    0 <= j < i ==> self.entries()[#[trigger] self.match_list@[j].key_spec()]
                        == self.target(prev[self.match_list@[j].key_spec()], self.match_list@[j]),
                forall|j: int|
                    i <= j < self.match_list@.len() ==> self.entries()[#[trigger] self.match_list@[
                        j
                    ].key_spec()] == prev[self.match_list@[j].key_spec()],
            decreases self.match_list@.len() - i,
        {
            let m = self.match_list[i];
            let key = m.key();
            proof {
                assert(self.match_ok(self.match_list@[i as int]));
                assert(prev.contains_key(key)) by {
                    assert(keys_of(self.match_list@).contains(key));
                }
            }
            let current = queue_get_priority(&self.queue, &key);
            let new_priority: i64 = if m.result.is_some() {
                match current {
                    Some(p) if p < 0 => p,
                    _ => -completed,
                }
            } else {
                let player1 = &self.player_list[(m.player1 - 1) as usize];
                let player2 = &self.player_list[(m.player2 - 1) as usize];
                let potential1: i64 = (capacity - player1.played as i64) * k;
                let potential2: i64 = (capacity - player2.played as i64) * k;
                let score1: i64 = player1.score as i64;
                let score2: i64 = player2.score as i64;
                PENDING_BASE - ((score1 - potential1) + (score2 - potential2) + (m.round as i64)
                    * ROUND_WEIGHT)
            };
            let ghost before = self.entries();
            queue_change_priority(&mut self.queue, &key, new_priority);
            proof {
                assert forall|j: int| 0 <= j < self.match_list@.len() && j != i implies
                    self.entries()[#[trigger] self.match_list@[j].key_spec()]
                        == before[self.match_list@[j].key_spec()] by {
                    assert(self.match_list@[j].key_spec() != key);
                }
                assert(self.entries().dom() =~= prev.dom());
            }
            i = i + 1;
        }
        proof {
            assert forall|j: int| 0 <= j < self.match_list@.len() implies (
            self.entries()[#[trigger] self.match_list@[j].key_spec()] < 0)
                == self.match_list@[j].resolved() by {
                let m = self.match_list@[j];
                assert(self.match_ok(m));
                assert(self.pending_priority_of(m) > 0);
            }
            lemma_shape_same(*old(self), *self);
        }
    }
}

proof fn lemma_keys_push(ms: Seq<Match>, m: Match)
    ensures
        keys_of(ms.push(m)) == keys_of(ms).insert(m.key_spec()),
{
    let t = ms.push(m);
    assert forall|k: MatchKey| keys_of(t).contains(k) <==> keys_of(ms).insert(m.key_spec()).contains(k) by {
        if keys_of(ms).contains(k) {
            let i = choose|i: int| 0 <= i < ms.len() && ms[i].key_spec() == k;
            assert(t[i] == ms[i]);
        }
        if k == m.key_spec() {
            assert(t[ms.len() as int] == m);
        }
        if keys_of(t).contains(k) {
            let i = choose|i: int| 0 <= i < t.len() && t[i].key_spec() == k;
            if i < ms.len() {
                assert(t[i] == ms[i]);
            }
        }
    }
    assert(keys_of(t) =~= keys_of(ms).insert(m.key_spec()));
}

/// Crediting the two players of a newly played match agrees with tallying
/// the registry after the match was recorded.
proof fn lemma_credit_matches_tally(
    ps: Seq<Player>,
    ms: Seq<Match>,
    idx: int,
    new_m: Match,
    gain1: int,
    gain2: int,
)
    requires
        ps == recomputed(ps, ms),
        forall|i: int| 0 <= i < ps.len() ==> #[trigger] ps[i].id == i + 1,
        forall|pid: int| 1 <= pid <= ps.len() ==> #[trigger] involving(ms, pid) <= MAX_GAMES,
        0 <= idx < ms.len(),
        !ms[idx].resolved(),
        new_m.resolved(),
        new_m.player1 == ms[idx].player1,
        new_m.player2 == ms[idx].player2,
        new_m.player1 != new_m.player2,
        1 <= new_m.player1 <= ps.len(),
        1 <= new_m.player2 <= ps.len(),
        new_m.score_for(new_m.player1 as int) == gain1,
        new_m.score_for(new_m.player2 as int) == gain2,
        0 <= ps[new_m.player1 - 1].score + gain1 <= u16::MAX,
        0 <= ps[new_m.player2 - 1].score + gain2 <= u16::MAX,
        ps[new_m.player1 - 1].played + 1 <= u16::MAX,
        ps[new_m.player2 - 1].played + 1 <= u16::MAX,
    ensures
        ({
            let ps2 = credited(ps, new_m.player1 as int, gain1, new_m.player2 as int, gain2);
            ps2 == recomputed(ps2, ms.update(idx, new_m))
        }),
{
    let ps2 = credited(ps, new_m.player1 as int, gain1, new_m.player2 as int, gain2);
    let ms2 = ms.update(idx, new_m);
    assert forall|j: int| 0 <= j < ps2.len() implies #[trigger] ps2[j] == recomputed(ps2, ms2)[j] by {
        lemma_tally_update(ms, idx, new_m, ps[j].id as int);
        lemma_tally_bounds(ms, ps[j].id as int);
        lemma_tally_bounds(ms2, ps[j].id as int);
        lemma_involving_update(ms, idx, new_m, ps[j].id as int);
        assert(involving(ms, ps[j].id as int) <= MAX_GAMES);
        assert(ps[j] == recomputed(ps, ms)[j]);
    }
    assert(ps2 =~= recomputed(ps2, ms2));
}

proof fn lemma_count_sunk_zero(ms: Seq<Match>, e: Map<MatchKey, i64>)
    ensures
        0 <= count_sunk(ms, e) <= ms.len(),
        count_sunk(ms, e) == 0 ==> forall|i: int| 0 <= i < ms.len() ==> e[#[trigger] ms[i].key_spec()] >= 0,
    decreases ms.len(),
{
    if ms.len() > 0 {
        lemma_count_sunk_zero(ms.drop_last(), e);
        if count_sunk(ms, e) == 0 {
            assert forall|i: int| 0 <= i < ms.len() implies e[#[trigger] ms[i].key_spec()] >= 0 by {
                if i < ms.len() - 1 {
                    assert(ms.drop_last()[i] == ms[i]);
                }
            }
        }
    }
}

/// Replacing one player changes the sum of games played by the difference.
proof fn lemma_total_played_update(ps: Seq<Player>, j: int, p: Player)
    requires
        0 <= j < ps.len(),
    ensures
        total_played(ps.update(j, p)) == total_played(ps) - ps[j].played + p.played,
    decreases ps.len(),
{
    let t = ps.update(j, p);
    if j == ps.len() - 1 {
        assert(t.drop_last() =~= ps.drop_last());
    } else {
        assert(t.drop_last() =~= ps.drop_last().update(j, p));
        lemma_total_played_update(ps.drop_last(), j, p);
    }
}

/// Distinct positions below `n` number at most `n`.
proof fn lemma_distinct_bound(s: Seq<int>, n: int)
    requires
        0 <= n,
        forall|a: int, b: int| 0 <= a < b < s.len() ==> s[a] != s[b],
        forall|a: int| 0 <= a < s.len() ==> 0 <= #[trigger] s[a] < n,
    ensures
        s.len() <= n,
{
    assert(s.no_duplicates());
    s.unique_seq_to_set();
    lemma_int_range(0, n);
    assert(s.to_set().subset_of(set_int_range(0, n)));
    lemma_len_subset(s.to_set(), set_int_range(0, n));
}

/// Distinct positions below `n` that cover every position below `n` number at least `n`.
proof fn lemma_cover_bound(s: Seq<int>, n: int)
    requires
        0 <= n,
        s.no_duplicates(),
        forall|j: int| 0 <= j < n ==> s.contains(j),
    ensures
        n <= s.len(),
{
    s.unique_seq_to_set();
    lemma_int_range(0, n);
    assert(set_int_range(0, n).subset_of(s.to_set()));
    lemma_len_subset(set_int_range(0, n), s.to_set());
}

proof fn lemma_keys_update(ms: Seq<Match>, i: int, m: Match)
    requires
        0 <= i < ms.len(),
        m.key_spec() == ms[i].key_spec(),
    ensures
        keys_of(ms.update(i, m)) == keys_of(ms),
{
    let t = ms.update(i, m);
    assert forall|k: MatchKey| keys_of(t).contains(k) <==> keys_of(ms).contains(k) by {
        if keys_of(ms).contains(k) {
            let j = choose|j: int| 0 <= j < ms.len() && ms[j].key_spec() == k;
            assert(t[j].key_spec() == k);
        }
        if keys_of(t).contains(k) {
            let j = choose|j: int| 0 <= j < t.len() && t[j].key_spec() == k;
            assert(ms[j].key_spec() == k);
        }
    }
    assert(keys_of(t) =~= keys_of(ms));
}

/// Replacing the moves of one match keeps the shape of the tournament.
proof fn lemma_same_pairings(a: Game, b: Game, idx: int)
    requires
        a.shape_ok(),
        0 <= idx < a.match_list@.len(),
        b.player_list@.len() == a.player_list@.len(),
        forall|i: int|
            0 <= i < a.player_list@.len() ==> (#[trigger] b.player_list@[i]).id == a.player_list@[i].id
                && b.player_list@[i].name == a.player_list@[i].name,
        b.match_list@.len() == a.match_list@.len(),
        forall|i: int| 0 <= i < a.match_list@.len() && i != idx ==> #[trigger] b.match_list@[i] == a.match_list@[i],
        b.match_list@[idx].key_spec() == a.match_list@[idx].key_spec(),
        b.match_list@[idx].consistent(b.game_mode.arity_spec()),
        b.rounds == a.rounds,
        b.game_mode == a.game_mode,
        b.entries().dom() == a.entries().dom(),
        keys_of(b.match_list@) == keys_of(a.match_list@),
    ensures
        b.shape_ok(),
{
    assert(b.match_list@ =~= a.match_list@.update(idx, b.match_list@[idx]));
    assert forall|pid: int| 1 <= pid <= b.player_list@.len() implies #[trigger] involving(
        b.match_list@,
        pid,
    ) == b.rounds * (b.player_list@.len() - 1) by {
        lemma_involving_update(a.match_list@, idx, b.match_list@[idx], pid);
        assert(involving(a.match_list@, pid) == a.rounds * (a.player_list@.len() - 1));
    }
    assert forall|i: int, j: int| 0 <= i < b.player_list@.len() && 0 <= j < b.player_list@.len() && i < j implies #[trigger] b.player_list@[i].name@
        != #[trigger] b.player_list@[j].name@ by {
        assert(a.player_list@[i].name@ != a.player_list@[j].name@);
    }
    assert forall|i: int| 0 <= i < b.match_list@.len() implies b.match_ok(#[trigger] b.match_list@[i]) by {
        assert(a.match_ok(a.match_list@[i]));
    }
    assert forall|i: int, j: int|
        0 <= i < j < b.match_list@.len() implies #[trigger] b.match_list@[i].key_spec()
            != #[trigger] b.match_list@[j].key_spec() by {
        assert(a.match_list@[i].key_spec() != a.match_list@[j].key_spec());
    }
    assert forall|x: int, y: int, r: int|
        1 <= x < y <= b.player_list@.len() && 1 <= r <= b.rounds implies #[trigger] b.covered(x, y, r)
        by {
        assert(a.covered(x, y, r));
        let i = choose|i: int| 0 <= i < a.match_list@.len() && pairs(a.match_list@[i], x, y, r);
        assert(pairs(b.match_list@[i], x, y, r));
    }
}

proof fn lemma_tally_unplayed_suffix(s: Seq<Match>, k: int, pid: int)
    requires
        0 <= k <= s.len(),
        forall|j: int| k <= j < s.len() ==> !(#[trigger] s[j]).resolved(),
    ensures
        played_in(s, pid) == played_in(s.take(k), pid),
        points_in(s, pid) == points_in(s.take(k), pid),
    decreases s.len(),
{
    if s.len() > k {
        assert(!s[s.len() - 1].resolved());
        lemma_tally_unplayed_suffix(s.drop_last(), k, pid);
        assert(s.drop_last().take(k) =~= s.take(k));
    } else {
        assert(s.take(k) =~= s);
    }
}

proof fn lemma_tally_absent(s: Seq<Match>, pid: int)
    requires
        forall|i: int| 0 <= i < s.len() ==> !(#[trigger] s[i]).involves(pid),
    ensures
        played_in(s, pid) == 0,
        points_in(s, pid) == 0,
    decreases s.len(),
{
    if s.len() > 0 {
        assert(!s[s.len() - 1].involves(pid));
        lemma_tally_absent(s.drop_last(), pid);
    }
}

impl Default for Game {
    fn default() -> (r: Game)
        ensures
            r.inv(),
            r.players().len() == 0,
            r.matches().len() == 0,
            r.rounds_spec() == 1,
            r.mode() == GameMode::RPS,
    {
        Game::new()
    }
}

/// What the tournament's accessors stand for, in terms of its matches and
/// the queue's priorities.
pub proof fn lemma_accessors(g: Game)
    ensures
        forall|k: MatchKey|
            #[trigger] g.has_key(k) == (exists|i: int|
                0 <= i < g.matches().len() && g.matches()[i].key_spec() == k),
        forall|m: Match|
            #[trigger] g.scheduled(m) == (exists|i: int|
                0 <= i < g.matches().len() && g.matches()[i] == m),
        forall|m: Match| #[trigger] g.rank(m) == g.entries()[m.key_spec()],
        g.played_count() == count_sunk(g.matches(), g.entries()),
        forall|i: int|
            #[trigger] g.latest(i) == (0 <= i < g.matches().len() && g.matches()[i].resolved() && (
            forall|j: int|
                0 <= j < g.matches().len() && (#[trigger] g.matches()[j]).resolved() ==> g.rank(
                    g.matches()[i],
                ) <= g.rank(g.matches()[j])) && (forall|j: int|
                i < j < g.matches().len() && (#[trigger] g.matches()[j]).resolved() ==> g.rank(
                    g.matches()[i],
                ) < g.rank(g.matches()[j]))),
{
    assert forall|k: MatchKey|
        #[trigger] g.has_key(k) == (exists|i: int|
            0 <= i < g.matches().len() && g.matches()[i].key_spec() == k) by {
        if g.has_key(k) {
            let i = choose|i: int| 0 <= i < g.match_list@.len() && g.match_list@[i].key_spec() == k;
            assert(g.matches()[i].key_spec() == k);
        }
        if exists|i: int| 0 <= i < g.matches().len() && g.matches()[i].key_spec() == k {
            let i = choose|i: int| 0 <= i < g.matches().len() && g.matches()[i].key_spec() == k;
            assert(g.match_list@[i].key_spec() == k);
        }
    }
    assert forall|m: Match|
        #[trigger] g.scheduled(m) == (exists|i: int| 0 <= i < g.matches().len() && g.matches()[i] == m)
        by {
        if g.scheduled(m) {
            let i = choose|i: int| 0 <= i < g.match_list@.len() && g.match_list@[i] == m;
            assert(g.matches()[i] == m);
        }
        if exists|i: int| 0 <= i < g.matches().len() && g.matches()[i] == m {
            let i = choose|i: int| 0 <= i < g.matches().len() && g.matches()[i] == m;
            assert(g.match_list@[i] == m);
        }
    }
}

/// In a tournament that keeps its invariant, every scheduled key sits at
/// exactly one position, played matches and only they hold a negative
/// priority, and every match names two players and a configured round.
pub proof fn lemma_inv_facts(g: Game)
    requires
        g.inv(),
    ensures
        g.shape_ok(),
        forall|i: int|
            0 <= i < g.matches().len() ==> (g.rank(#[trigger] g.matches()[i]) < 0) == g.matches()[i].resolved(),
        forall|i: int|
            0 <= i < g.matches().len() ==> g.index_of(#[trigger] g.matches()[i].key_spec()) == i,
        forall|i: int|
            0 <= i < g.matches().len() ==> {
                let m = #[trigger] g.matches()[i];
                &&& 1 <= m.player1 <= g.players().len()
                &&& 1 <= m.player2 <= g.players().len()
                &&& m.player1 != m.player2
                &&& 1 <= m.round <= g.rounds_spec()
                &&& follows_convention(m)
                &&& m.consistent(g.mode().arity_spec())
            },
        forall|i: int| 0 <= i < g.players().len() ==> #[trigger] g.players()[i].id == i + 1,
{
    let ms = g.match_list@;
    assert forall|i: int| 0 <= i < ms.len() implies g.index_of(#[trigger] ms[i].key_spec()) == i by {
        let j = g.index_of(ms[i].key_spec());
        assert(0 <= j < ms.len() && ms[j].key_spec() == ms[i].key_spec());
        if j < i {
            assert(ms[j].key_spec() != ms[i].key_spec());
        } else if i < j {
            assert(ms[i].key_spec() != ms[j].key_spec());
        }
    }
    assert forall|i: int| 0 <= i < ms.len() implies {
        let m = #[trigger] ms[i];
        &&& 1 <= m.player1 <= g.players().len()
        &&& 1 <= m.player2 <= g.players().len()
        &&& m.player1 != m.player2
        &&& 1 <= m.round <= g.rounds_spec()
        &&& follows_convention(m)
        &&& m.consistent(g.mode().arity_spec())
    } by {
        assert(g.match_ok(ms[i]));
    }
}

/// After a re-ranking pass from priorities `prev`: a played match keeps a
/// negative priority it already had, or else sinks to minus (total games
/// played / 2 + 1); a pending match holds the priority given by its players'
/// scores, their potential over the games left and its round.
pub proof fn lemma_rank_after_pass(g: Game, prev: Map<MatchKey, i64>, i: int)
    requires
        g.reprioritized(prev),
        0 <= i < g.matches().len(),
    ensures
        ({
            let m = g.matches()[i];
            let k = m.key_spec();
            let p1 = g.players()[m.player1 - 1];
            let p2 = g.players()[m.player2 - 1];
            let cap = g.rounds_spec() * (g.players().len() - 1);
            let ar = g.mode().arity_spec();
            &&& m.resolved() && prev[k] < 0 ==> g.rank(m) == prev[k]
            &&& m.resolved() && prev[k] >= 0 ==> g.rank(m) == -(total_played(g.players()) / 2 + 1)
            &&& !m.resolved() ==> g.rank(m) == pending_priority(
                p1.score as int,
                (cap - p1.played) * ar,
                p2.score as int,
                (cap - p2.played) * ar,
                m.round as int,
            )
        }),
{
    assert(g.entries()[g.match_list@[i].key_spec()] == g.target(
        prev[g.match_list@[i].key_spec()],
        g.match_list@[i],
    ));
}

/// What the parts of the invariant say.
pub proof fn lemma_inv_parts(g: Game)
    ensures
        g.inv() == (g.shape_ok() && g.stats_ok() && g.settled()),
        g.stats_ok() == (g.players() == recomputed(g.players(), g.matches())),
        g.settled() ==> forall|i: int|
            0 <= i < g.matches().len() ==> (g.rank(#[trigger] g.matches()[i]) < 0)
                == g.matches()[i].resolved(),
        g.shape_ok() ==> g.entries().dom() == keys_of(g.matches()) && g.rounds_spec() >= 1,
{
}

/// What taking back the result at position `i` of `prev` did.
pub proof fn lemma_removed_parts(g: Game, prev: Game, i: int)
    requires
        g.removed_from(prev, i),
    ensures
        0 <= i < prev.matches().len(),
        g.matches() == prev.matches().update(i, cleared(prev.matches()[i])),
        g.players() == recomputed(prev.players(), g.matches()),
        g.reprioritized(prev.entries()),
        g.rounds_spec() == prev.rounds_spec(),
        g.mode() == prev.mode(),
{
}

/// A second re-ranking pass, with nothing changed in between, leaves every
/// priority as the first pass set it.
pub proof fn lemma_pass_idempotent(g1: Game, g2: Game, prev: Map<MatchKey, i64>)
    requires
        g1.shape_ok(),
        g1.settled(),
        g1.reprioritized(prev),
        g2.reprioritized(g1.entries()),
        g2.players() == g1.players(),
        g2.matches() == g1.matches(),
        g2.rounds_spec() == g1.rounds_spec(),
        g2.mode() == g1.mode(),
        g2.entries().dom() == g1.entries().dom(),
    ensures
        g2.entries() == g1.entries(),
{
    assert forall|k: MatchKey| g2.entries().contains_key(k) implies g2.entries()[k] == g1.entries()[k] by {
        assert(keys_of(g1.match_list@).contains(k));
        let i = choose|i: int| 0 <= i < g1.match_list@.len() && g1.match_list@[i].key_spec() == k;
        let m = g1.match_list@[i];
        assert(g2.match_list@[i] == m);
        assert(g1.entries()[k] == g1.target(prev[k], m));
        assert(g2.entries()[k] == g2.target(g1.entries()[k], m));
    }
    assert(g2.entries() =~= g1.entries());
}

/// After any sequence of operations the registry holds `rounds * n * (n - 1) / 2`
/// matches for `n` players, and every pair of players meets exactly once in
/// every round.
pub proof fn lemma_pairing_complete(g: Game)
    requires
        g.inv(),
    ensures
        ({
            let n = g.players().len() as int;
            g.matches().len() == g.rounds_spec() * (n * (n - 1) / 2)
        }),
        forall|a: int, b: int, r: int|
            1 <= a < b <= g.players().len() && 1 <= r <= g.rounds_spec() ==> #[trigger] covered_in(
                g.matches(),
                a,
                b,
                r,
            ),
        forall|i: int, j: int, a: int, b: int, r: int|
            0 <= i < g.matches().len() && 0 <= j < g.matches().len() && #[trigger] pairs(
                g.matches()[i],
                a,
                b,
                r,
            ) && #[trigger] pairs(g.matches()[j], a, b, r) ==> i == j,
{
    let n = g.players().len() as int;
    let ms = g.match_list@;
    let h = n / 2;
    if n % 2 == 0 {
        assert(n * (n - 1) == 2 * (h * (n - 1))) by (nonlinear_arith)
            requires
                n == 2 * h,
        ;
    } else {
        assert(n * (n - 1) == 2 * (n * h)) by (nonlinear_arith)
            requires
                n == 2 * h + 1,
        ;
    }
    assert(n * (n - 1) % 2 == 0);
    assert(g.rounds * (n * (n - 1)) == 2 * ms.len()) by (nonlinear_arith)
        requires
            2 * ms.len() == g.rounds * n * (n - 1),
    ;
    assert(ms.len() == g.rounds * (n * (n - 1) / 2)) by (nonlinear_arith)
        requires
            g.rounds * (n * (n - 1)) == 2 * ms.len(),
            n * (n - 1) % 2 == 0,
    ;
    assert forall|a: int, b: int, r: int|
        1 <= a < b <= n && 1 <= r <= g.rounds implies #[trigger] covered_in(ms, a, b, r) by {
        assert(g.covered(a, b, r));
    }
    assert forall|i: int, j: int, a: int, b: int, r: int|
        0 <= i < ms.len() && 0 <= j < ms.len() && #[trigger] pairs(ms[i], a, b, r) && #[trigger] pairs(
            ms[j],
            a,
            b,
            r,
        ) implies i == j by {
        assert(g.match_ok(ms[i]) && g.match_ok(ms[j]));
        if i < j {
            assert(ms[i].key_spec() != ms[j].key_spec());
        } else if j < i {
            assert(ms[j].key_spec() != ms[i].key_spec());
        }
    }
}

/// Player ids start at one and increase strictly in the order of creation.
pub proof fn lemma_ids_monotonic(g: Game)
    requires
        g.inv(),
    ensures
        g.players().len() > 0 ==> g.players()[0].id == 1,
        forall|i: int, j: int|
            0 <= i < j < g.players().len() ==> #[trigger] g.players()[i].id < #[trigger] g.players()[j].id,
{
    if g.players().len() > 0 {
        assert(g.player_list@[0].id == 1);
    }
    assert forall|i: int, j: int| 0 <= i < j < g.players().len() implies #[trigger] g.players()[i].id
        < #[trigger] g.players()[j].id by {
        assert(g.player_list@[i].id == i + 1);
        assert(g.player_list@[j].id == j + 1);
    }
}

/// Of two pending matches whose score and potential terms agree, the one in
/// the lower round always has the strictly higher priority.
pub proof fn lemma_round_ordering(
    score1: int,
    potential1: int,
    score2: int,
    potential2: int,
    round_a: int,
    round_b: int,
)
    requires
        round_a < round_b,
    ensures
        pending_priority(score1, potential1, score2, potential2, round_a) > pending_priority(
            score1,
            potential1,
            score2,
            potential2,
            round_b,
        ),
{
}

/// Relies on rand's `thread_rng` and `Rng::gen_range`: a number below 100.
#[verifier::external_body]
fn draw_seed() -> (r: u64)
    ensures
        r < 100,
{
    rand::thread_rng().gen_range(0..100)
}

/// Recomputing the player statistics a second time, with no change to the
/// matches in between, gives the same statistics as the first time.
pub proof fn lemma_recompute_idempotent(ps: Seq<Player>, ms: Seq<Match>)
    ensures
        recomputed(recomputed(ps, ms), ms) == recomputed(ps, ms),
{
    assert(recomputed(recomputed(ps, ms), ms) =~= recomputed(ps, ms));
}

/// The shape of a tournament depends on its registries, its rounds, its
/// variant and the keys of its queue alone.
proof fn lemma_shape_same(a: Game, b: Game)
    requires
        a.shape_ok(),
        b.player_list@.len() == a.player_list@.len(),
        forall|i: int|
            0 <= i < a.player_list@.len() ==> (#[trigger] b.player_list@[i]).id == a.player_list@[i].id
                && b.player_list@[i].name == a.player_list@[i].name,
        b.match_list@ == a.match_list@,
        b.rounds == a.rounds,
        b.game_mode == a.game_mode,
        b.entries().dom() == a.entries().dom(),
    ensures
        b.shape_ok(),
{
    assert forall|i: int, j: int| 0 <= i < j < b.player_list@.len() implies #[trigger] b.player_list@[i].name@
        != #[trigger] b.player_list@[j].name@ by {
        assert(a.player_list@[i].name@ != a.player_list@[j].name@);
    }
    assert forall|pid: int| 1 <= pid <= b.player_list@.len() implies #[trigger] involving(
        b.match_list@,
        pid,
    ) == b.rounds * (b.player_list@.len() - 1) by {
        assert(involving(a.match_list@, pid) == a.rounds * (a.player_list@.len() - 1));
    }
    assert forall|i: int| 0 <= i < b.match_list@.len() implies b.match_ok(
        #[trigger] b.match_list@[i],
    ) by {
        assert(a.match_ok(a.match_list@[i]));
    }
    assert forall|x: int, y: int, r: int|
        1 <= x < y <= b.player_list@.len() && 1 <= r <= b.rounds implies #[trigger] b.covered(
        x,
        y,
        r,
    ) by {
        assert(a.covered(x, y, r));
    }
}

} // verus!
