//! Players, scheduled matches and the tallies computed from them.
use vstd::prelude::*;
use crate::moves::{bonus, move_value, outcome, Playable, RpsResult, Rpssl};
use crate::queue::MatchKey;

verus! {

/// Points that a move brings to its player: nothing for the placeholder.
pub open spec fn play_value(m: Rpssl) -> int {
    if m.index() < 5 {
        move_value(m.index())
    } else {
        0
    }
}

/// A participant of the tournament.
pub struct Player {
    pub id: u16,
    pub name: String,
    pub score: u16,
    pub played: u16,
}

impl Player {
    /// A new player who has played nothing yet.
    pub fn new(name: &str, id: u16) -> (r: Player)
        ensures
            r.id == id,
            r.name@ == name@,
            r.score == 0,
            r.played == 0,
    {
        Player { name: name.to_owned(), id, score: 0, played: 0 }
    }
}

impl Clone for Player {
    fn clone(&self) -> (r: Player)
        ensures
            r == *self,
    {
        Player { id: self.id, name: self.name.clone(), score: self.score, played: self.played }
    }
}

/// One scheduled pairing of two players in a round, with its result once played.
#[derive(Debug, Clone, Copy, PartialEq, Eq, Structural, Hash)]
pub struct Match {
    pub player1: u16,
    pub player2: u16,
    pub play1: Rpssl,
    pub play2: Rpssl,
    pub result: Option<RpsResult>,
    pub round: u16,
}

impl Match {
    /// The key that identifies the match.
    pub open spec fn key_spec(self) -> MatchKey {
        (self.player1, self.player2, self.round)
    }

    /// Whether a result is recorded.
    pub open spec fn resolved(self) -> bool {
        self.result is Some
    }

    /// Whether the player takes part in the match.
    pub open spec fn involves(self, pid: int) -> bool {
        self.player1 == pid || self.player2 == pid
    }

    /// Moves and outcome agree, under a variant of `k` moves.
    pub open spec fn consistent(self, k: int) -> bool {
        match self.result {
            None => self.play1 == Rpssl::Unset && self.play2 == Rpssl::Unset,
            Some(r) => self.play1.index() < k && self.play2.index() < k && r == outcome(
                self.play1.index(),
                self.play2.index(),
                k,
            ),
        }
    }

    /// Points of the first and the second player: move value plus outcome bonus.
    pub open spec fn scores(self) -> (int, int) {
        match self.result {
            None => (0, 0),
            Some(r) => (play_value(self.play1) + bonus(r), play_value(self.play2) + 6 - bonus(r)),
        }
    }

    /// Points that the match brings to a player.
    pub open spec fn score_for(self, pid: int) -> int {
        if pid == self.player1 {
            self.scores().0
        } else if pid == self.player2 {
            self.scores().1
        } else {
            0
        }
    }

    /// One when the match is played and involves the player.
    pub open spec fn played_for(self, pid: int) -> int {
        if self.resolved() && self.involves(pid) {
            1
        } else {
            0
        }
    }

    /// An unplayed match between two players.
    pub fn new(player1: &Player, player2: &Player, round: u16) -> (r: Match)
        ensures
            r.player1 == player1.id,
            r.player2 == player2.id,
            r.round == round,
            r.play1 == Rpssl::Unset,
            r.play2 == Rpssl::Unset,
            r.result is None,
    {
        Match {
            player1: player1.id,
            player2: player2.id,
            play1: Rpssl::Unset,
            play2: Rpssl::Unset,
            result: None,
            round,
        }
    }

    /// The key that identifies the match.
    pub fn key(&self) -> (r: MatchKey)
        ensures
            r == self.key_spec(),
    {
        (self.player1, self.player2, self.round)
    }

    /// Points of the first and the second player; nothing for an unplayed match.
    pub fn get_score(&self) -> (r: (u16, u16))
        ensures
            r.0 == self.scores().0,
            r.1 == self.scores().1,
    {
        match &self.result {
            None => (0, 0),
            Some(res) => {
                let score = res.get_score();
                let player1_score = self.play1.get_score() + score;
                let player2_score = self.play2.get_score() + (6 - score);
                (player1_score, player2_score)
            },
        }
    }

    /// Points that the match brings to a player.
    pub fn get_score_for_player(&self, pid: u16) -> (r: u16)
        ensures
            r == self.score_for(pid as int),
            r <= 11,
    {
        let (p1_score, p2_score) = self.get_score();
        if pid == self.player1 {
            p1_score
        } else if pid == self.player2 {
            p2_score
        } else {
            0
        }
    }
}

/// In every played match the two scores add up to both move values plus six.
pub proof fn lemma_score_symmetry(m: Match, k: int)
    requires
        k == 3 || k == 5,
        m.resolved(),
        m.consistent(k),
    ensures
        m.scores().0 + m.scores().1 == move_value(m.play1.index()) + move_value(
            m.play2.index(),
        ) + 6,
{
}

/// Number of played matches in `s` that involve the player.
pub open spec fn played_in(s: Seq<Match>, pid: int) -> int
    decreases s.len(),
{
    if s.len() == 0 {
        0
    } else {
        played_in(s.drop_last(), pid) + s.last().played_for(pid)
    }
}

/// Points that the matches in `s` bring to the player.
pub open spec fn points_in(s: Seq<Match>, pid: int) -> int
    decreases s.len(),
{
    if s.len() == 0 {
        0
    } else {
        points_in(s.drop_last(), pid) + s.last().score_for(pid)
    }
}

/// Number of matches in `s` that involve the player, played or not.
pub open spec fn involving(s: Seq<Match>, pid: int) -> int
    decreases s.len(),
{
    if s.len() == 0 {
        0
    } else {
        involving(s.drop_last(), pid) + if s.last().involves(pid) {
            1int
        } else {
            0int
        }
    }
}

/// A player's tallies are bounded by the matches that involve them: eleven
/// points at most per played match.
pub proof fn lemma_tally_bounds(s: Seq<Match>, pid: int)
    ensures
        0 <= played_in(s, pid) <= involving(s, pid) <= s.len(),
        0 <= points_in(s, pid) <= 11 * played_in(s, pid),
    decreases s.len(),
{
    if s.len() > 0 {
        lemma_tally_bounds(s.drop_last(), pid);
    }
}

/// Appending a match adds one to the count of each of its players.
pub proof fn lemma_involving_push(s: Seq<Match>, m: Match, pid: int)
    ensures
        involving(s.push(m), pid) == involving(s, pid) + if m.involves(pid) {
            1int
        } else {
            0int
        },
{
    assert(s.push(m).drop_last() =~= s);
}

/// A prefix involves a player at most as often as the whole list.
pub proof fn lemma_involving_prefix(s: Seq<Match>, i: int, pid: int)
    requires
        0 <= i <= s.len(),
    ensures
        involving(s.take(i), pid) <= involving(s, pid),
    decreases s.len(),
{
    if i < s.len() {
        lemma_involving_prefix(s.drop_last(), i, pid);
        assert(s.drop_last().take(i) =~= s.take(i));
    } else {
        assert(s.take(i) =~= s);
    }
}

/// Replacing a match by one between the same players keeps every count.
pub proof fn lemma_involving_update(s: Seq<Match>, j: int, m: Match, pid: int)
    requires
        0 <= j < s.len(),
        m.player1 == s[j].player1,
        m.player2 == s[j].player2,
    ensures
        involving(s.update(j, m), pid) == involving(s, pid),
    decreases s.len(),
{
    let t = s.update(j, m);
    if j == s.len() - 1 {
        assert(t.drop_last() =~= s.drop_last());
    } else {
        assert(t.drop_last() =~= s.drop_last().update(j, m));
        lemma_involving_update(s.drop_last(), j, m, pid);
    }
}

/// A player no match involves has a count of zero.
pub proof fn lemma_involving_absent(s: Seq<Match>, pid: int)
    requires
        forall|i: int| 0 <= i < s.len() ==> !(#[trigger] s[i]).involves(pid),
    ensures
        involving(s, pid) == 0,
    decreases s.len(),
{
    if s.len() > 0 {
        assert(!s[s.len() - 1].involves(pid));
        lemma_involving_absent(s.drop_last(), pid);
    }
}

/// Replacing one match changes a player's tallies by the difference of its
/// contributions.
pub proof fn lemma_tally_update(s: Seq<Match>, j: int, m: Match, pid: int)
    requires
        0 <= j < s.len(),
    ensures
        played_in(s.update(j, m), pid) == played_in(s, pid) - s[j].played_for(pid) + m.played_for(
            pid,
        ),
        points_in(s.update(j, m), pid) == points_in(s, pid) - s[j].score_for(pid) + m.score_for(
            pid,
        ),
    decreases s.len(),
{
    let t = s.update(j, m);
    if j == s.len() - 1 {
        assert(t.drop_last() =~= s.drop_last());
    } else {
        assert(t.drop_last() =~= s.drop_last().update(j, m));
        lemma_tally_update(s.drop_last(), j, m, pid);
    }
}

} // verus!
