use vstd::prelude::*;

verus! {

/// Forward distance from move `a` to move `b` around a cycle of `k` moves.
pub open spec fn gap(a: int, b: int, k: int) -> int {
    if b >= a {
        b - a
    } else {
        b - a + k
    }
}

/// `a` loses to `b` when `b` sits an odd number of steps ahead of `a`.
pub open spec fn loses_to(a: int, b: int, k: int) -> bool {
    a != b && gap(a, b, k) % 2 == 1
}

/// The outcome of playing move `a` against move `b` in an alphabet of `k` moves.
pub open spec fn outcome(a: int, b: int, k: int) -> RpsResult {
    if a == b {
        RpsResult::Draw
    } else if loses_to(a, b, k) {
        RpsResult::Lose
    } else {
        RpsResult::Win
    }
}

/// The alphabet sizes that the game supports.
pub open spec fn valid_arity(k: int) -> bool {
    k == 3 || k == 5
}

/// Points scored for playing the move at position `i`: its position plus one.
pub open spec fn move_value(i: int) -> int {
    i + 1
}

/// Points awarded for an outcome to its owner.
pub open spec fn bonus(r: RpsResult) -> int {
    match r {
        RpsResult::Win => 6,
        RpsResult::Draw => 3,
        RpsResult::Lose => 0,
    }
}

/// The outcome seen from the other side of the table.
pub open spec fn opposite(r: RpsResult) -> RpsResult {
    match r {
        RpsResult::Win => RpsResult::Lose,
        RpsResult::Draw => RpsResult::Draw,
        RpsResult::Lose => RpsResult::Win,
    }
}

/// Outcome of one match from the point of view of one of its players.
#[derive(Debug, Clone, Copy, PartialEq, Eq, Structural, Hash)]
pub enum RpsResult {
    Win,
    Lose,
    Draw,
}

impl RpsResult {
    /// The bonus points that this outcome carries.
    pub fn get_score(&self) -> (r: u16)
        ensures
            r == bonus(*self),
    {
        match self {
            RpsResult::Win => 6,
            RpsResult::Draw => 3,
            RpsResult::Lose => 0,
        }
    }
}

/// Resolves move `a` against move `b` in an alphabet of `k` moves.
pub fn resolve(a: u8, b: u8, k: u8) -> (r: RpsResult)
    requires
        valid_arity(k as int),
        a < k,
        b < k,
    ensures
        r == outcome(a as int, b as int, k as int),
{
    if a == b {
        RpsResult::Draw
    } else {
        let d: u8 = if b >= a {
            b - a
        } else {
            b + k - a
        };
        if d % 2 == 1 {
            RpsResult::Lose
        } else {
            RpsResult::Win
        }
    }
}

/// Each pair of moves resolves to opposite outcomes from the two sides, and
/// only identical moves draw.
pub proof fn lemma_outcome_reciprocal(a: int, b: int, k: int)
    requires
        valid_arity(k),
        0 <= a < k,
        0 <= b < k,
    ensures
        (outcome(a, b, k) == RpsResult::Draw) <==> (a == b),
        outcome(b, a, k) == opposite(outcome(a, b, k)),
        (outcome(a, b, k) == RpsResult::Win) <==> (outcome(b, a, k) == RpsResult::Lose),
{
    if a != b {
        assert(gap(a, b, k) + gap(b, a, k) == k);
    }
}

/// The outcome bonuses of the two sides of a match add up to six.
pub proof fn lemma_outcome_bonus_complementary(a: int, b: int, k: int)
    requires
        valid_arity(k),
        0 <= a < k,
        0 <= b < k,
    ensures
        bonus(outcome(a, b, k)) + bonus(outcome(b, a, k)) == 6,
{
    lemma_outcome_reciprocal(a, b, k);
}

/// The two supported game variants.
#[derive(Debug, Clone, Copy, PartialEq, Eq, Structural)]
pub enum GameMode {
    RPS,
    RPSSL,
}

impl GameMode {
    /// Number of moves in the variant's alphabet.
    pub open spec fn arity_spec(&self) -> int {
        match self {
            GameMode::RPS => 3,
            GameMode::RPSSL => 5,
        }
    }

    /// Number of moves in the variant's alphabet.
    pub fn arity(&self) -> (r: u8)
        ensures
            r == self.arity_spec(),
            valid_arity(r as int),
    {
        match self {
            GameMode::RPS => 3,
            GameMode::RPSSL => 5,
        }
    }

    /// Short name of the variant.
    pub fn str(&self) -> (r: &'static str)
        ensures
            r@ == (match self {
                GameMode::RPS => "RPS"@,
                GameMode::RPSSL => "RPSSL"@,
            }),
    {
        match self {
            Self::RPS => "RPS",
            Self::RPSSL => "RPSSL",
        }
    }
}

/// Tells whether two strings hold the same text.
fn same_text(a: &str, b: &str) -> (r: bool)
    ensures
        r == (a@ == b@),
{
    a.to_owned() == b.to_owned()
}

/// A move of one game variant, including the placeholder of a move not yet made.
pub trait Playable: Sized {
    /// Number of real moves in the variant.
    spec fn arity() -> int;

    /// Position of the move in the alphabet; `arity()` for the placeholder.
    spec fn index(&self) -> int;

    /// The symbol that shows the move.
    spec fn glyph(&self) -> Seq<char>;

    /// The symbol that shows the move.
    fn str(&self) -> (r: &'static str)
        ensures
            r@ == self.glyph(),
    ;

    /// Points for playing the move: its position plus one, none for the placeholder.
    fn get_score(&self) -> (r: u16)
        ensures
            self.index() < Self::arity() ==> r == move_value(self.index()),
            self.index() == Self::arity() ==> r == 0,
    ;

    /// The move shown by a symbol, if any move is.
    fn new(inp: &str) -> (r: Option<Self>)
        ensures
            match r {
                Some(m) => m.glyph() == inp@,
                None => forall|m: Self| #[trigger] m.glyph() != inp@,
            },
    ;

    /// The outcome of playing this move against `other`.
    fn result(&self, other: &Self) -> (r: RpsResult)
        requires
            self.index() < Self::arity(),
            other.index() < Self::arity(),
        ensures
            r == outcome(self.index(), other.index(), Self::arity()),
    ;

    /// Whether this is the placeholder of a move not yet made.
    fn is_none(&self) -> (r: bool)
        ensures
            r == (self.index() == Self::arity()),
    ;

    /// Whether this is a real move.
    fn is_some(&self) -> (r: bool)
        ensures
            r == (self.index() < Self::arity()),
    ;
}

/// Moves of the five-move variant; the first three also form the three-move one.
#[derive(Debug, Clone, Copy, PartialEq, Eq, Structural, Hash)]
pub enum Rpssl {
    Rock,
    Paper,
    Scissors,
    Spock,
    Lizard,
    Unset,
}

/// Moves of the three-move variant.
#[derive(Debug, Clone, Copy, PartialEq, Eq, Structural, Hash)]
pub enum Rps {
    Rock,
    Paper,
    Scissors,
    Unset,
}

impl Rpssl {
    /// Position of the move in the five-move alphabet; 5 for the placeholder.
    pub fn ordinal(&self) -> (r: u8)
        ensures
            r == self.index(),
    {
        match self {
            Rpssl::Rock => 0,
            Rpssl::Paper => 1,
            Rpssl::Scissors => 2,
            Rpssl::Spock => 3,
            Rpssl::Lizard => 4,
            Rpssl::Unset => 5,
        }
    }

    /// The move at a position of the alphabet; the placeholder past its end.
    pub fn from_ordinal(i: u8) -> (r: Rpssl)
        ensures
            i < 5 ==> r.index() == i,
            i >= 5 ==> r == Rpssl::Unset,
    {
        if i == 0 {
            Rpssl::Rock
        } else if i == 1 {
            Rpssl::Paper
        } else if i == 2 {
            Rpssl::Scissors
        } else if i == 3 {
            Rpssl::Spock
        } else if i == 4 {
            Rpssl::Lizard
        } else {
            Rpssl::Unset
        }
    }
}

impl Playable for Rpssl {
    open spec fn arity() -> int {
        5
    }

    open spec fn index(&self) -> int {
        match self {
            Rpssl::Rock => 0,
            Rpssl::Paper => 1,
            Rpssl::Scissors => 2,
            Rpssl::Spock => 3,
            Rpssl::Lizard => 4,
            Rpssl::Unset => 5,
        }
    }

    open spec fn glyph(&self) -> Seq<char> {
        match self {
            Rpssl::Rock => "\u{1FAA8}"@,
            Rpssl::Paper => "\u{1F4DC}"@,
            Rpssl::Scissors => "\u{2702}\u{FE0F}"@,
            Rpssl::Spock => "\u{1F596}"@,
            Rpssl::Lizard => "\u{1F98E}"@,
            Rpssl::Unset => "?"@,
        }
    }

    fn str(&self) -> (r: &'static str) {
        match self {
            Rpssl::Rock => "\u{1FAA8}",
            Rpssl::Paper => "\u{1F4DC}",
            Rpssl::Scissors => "\u{2702}\u{FE0F}",
            Rpssl::Spock => "\u{1F596}",
            Rpssl::Lizard => "\u{1F98E}",
            Rpssl::Unset => "?",
        }
    }

    fn get_score(&self) -> (r: u16) {
        match self {
            Rpssl::Rock => 1,
            Rpssl::Paper => 2,
            Rpssl::Scissors => 3,
            Rpssl::Spock => 4,
            Rpssl::Lizard => 5,
            Rpssl::Unset => 0,
        }
    }

    fn new(inp: &str) -> (r: Option<Rpssl>) {
        if same_text(inp, "\u{1FAA8}") {
            Some(Rpssl::Rock)
        } else if same_text(inp, "\u{1F4DC}") {
            Some(Rpssl::Paper)
        } else if same_text(inp, "\u{2702}\u{FE0F}") {
            Some(Rpssl::Scissors)
        } else if same_text(inp, "\u{1F596}") {
            Some(Rpssl::Spock)
        } else if same_text(inp, "\u{1F98E}") {
            Some(Rpssl::Lizard)
        } else if same_text(inp, "?") {
            Some(Rpssl::Unset)
        } else {
            None
        }
    }

    fn result(&self, other: &Rpssl) -> (r: RpsResult) {
        resolve(self.ordinal(), other.ordinal(), 5)
    }

    fn is_none(&self) -> (r: bool) {
        *self == Rpssl::Unset
    }

    fn is_some(&self) -> (r: bool) {
        !self.is_none()
    }
}

impl Playable for Rps {
    open spec fn arity() -> int {
        3
    }

    open spec fn index(&self) -> int {
        match self {
            Rps::Rock => 0,
            Rps::Paper => 1,
            Rps::Scissors => 2,
            Rps::Unset => 3,
        }
    }

    open spec fn glyph(&self) -> Seq<char> {
        match self {
            Rps::Rock => "\u{1FAA8}"@,
            Rps::Paper => "\u{1F4DC}"@,
            Rps::Scissors => "\u{2702}\u{FE0F}"@,
            Rps::Unset => "?"@,
        }
    }

    fn str(&self) -> (r: &'static str) {
        match self {
            Rps::Rock => "\u{1FAA8}",
            Rps::Paper => "\u{1F4DC}",
            Rps::Scissors => "\u{2702}\u{FE0F}",
            Rps::Unset => "?",
        }
    }

    fn get_score(&self) -> (r: u16) {
        match self {
            Rps::Rock => 1,
            Rps::Paper => 2,
            Rps::Scissors => 3,
            Rps::Unset => 0,
        }
    }

    fn new(inp: &str) -> (r: Option<Rps>) {
        if same_text(inp, "\u{1FAA8}") {
            Some(Rps::Rock)
        } else if same_text(inp, "\u{1F4DC}") {
            Some(Rps::Paper)
        } else if same_text(inp, "\u{2702}\u{FE0F}") {
            Some(Rps::Scissors)
        } else if same_text(inp, "?") {
            Some(Rps::Unset)
        } else {
            None
        }
    }

    fn result(&self, other: &Rps) -> (r: RpsResult) {
        let a: u8 = match self {
            Rps::Rock => 0,
            Rps::Paper => 1,
            Rps::Scissors => 2,
            Rps::Unset => 3,
        };
        let b: u8 = match other {
            Rps::Rock => 0,
            Rps::Paper => 1,
            Rps::Scissors => 2,
            Rps::Unset => 3,
        };
        resolve(a, b, 3)
    }

    fn is_none(&self) -> (r: bool) {
        *self == Rps::Unset
    }

    fn is_some(&self) -> (r: bool) {
        !self.is_none()
    }
}

} // verus!
