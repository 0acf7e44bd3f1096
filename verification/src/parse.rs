//! Reading the game's lines: the numbers of a line, and the snapshot that
//! the lines of a turn add up to.
//!
//! The game sends lines of decimal numbers, parted by blanks. Which line
//! means what depends on the lines before it, so the reader takes the
//! lines one at a time and says after each whether the snapshot is
//! complete.

use vstd::prelude::*;
use crate::data::Dropoff;
use crate::data::Halite;
use crate::data::Ship;
use crate::data::Shipyard;
use crate::data::Snapshot;
use crate::data::State;

verus! {

/// How far the numbers of a line have been read: the numbers that are
/// complete, and of the one that is being read whether there is one, its
/// sign, whether it has a digit yet, and its size so far; and whether the
/// line has proved faulty.
pub struct Lexer {
    pub out: Seq<i64>,
    pub open: bool,
    pub negative: bool,
    pub digits: bool,
    pub value: int,
    pub bad: bool,
}

/// Whether a byte parts two numbers: a blank, a tab or an end of line.
pub open spec fn is_blank(b: u8) -> bool {
    b == 32 || (9 <= b <= 13)
}

/// Whether a byte is a decimal digit.
pub open spec fn is_digit(b: u8) -> bool {
    48 <= b <= 57
}

/// Before the first byte of a line.
pub open spec fn lex_start() -> Lexer {
    Lexer { out: Seq::empty(), open: false, negative: false, digits: false, value: 0, bad: false }
}

/// The number that is being read, complete.
pub open spec fn lex_number(l: Lexer) -> i64 {
    if l.negative {
        (-l.value) as i64
    } else {
        l.value as i64
    }
}

/// After one more byte. A digit adds to the number being read, unless the
/// number would leave the range; a sign begins a number; a blank ends the
/// number being read, which must have a digit; any other byte is a fault,
/// and so is a sign inside a number.
pub open spec fn lex_step(l: Lexer, b: u8) -> Lexer {
    if l.bad {
        l
    } else if is_digit(b) {
        let value = l.value * 10 + (b - 48);
        if value > i64::MAX {
            Lexer { bad: true, ..l }
        } else {
            Lexer { open: true, digits: true, value, ..l }
        }
    } else if b == 45 || b == 43 {
        if l.open {
            Lexer { bad: true, ..l }
        } else {
            Lexer { open: true, negative: b == 45, ..l }
        }
    } else if is_blank(b) {
        if !l.open {
            l
        } else if l.digits {
            Lexer {
                out: l.out.push(lex_number(l)),
                open: false,
                negative: false,
                digits: false,
                value: 0,
                bad: false,
            }
        } else {
            Lexer { bad: true, ..l }
        }
    } else {
        Lexer { bad: true, ..l }
    }
}

/// After all bytes of a line.
pub open spec fn lex(line: Seq<u8>) -> Lexer
    decreases line.len(),
{
    if line.len() == 0 {
        lex_start()
    } else {
        lex_step(lex(line.drop_last()), line.last())
    }
}

/// The numbers of a line: decimal, each with or without a sign, parted by
/// blanks. `None` if the line holds anything else, or a number beyond
/// `i64::MAX` in size.
pub open spec fn spec_numbers(line: Seq<u8>) -> Option<Seq<i64>> {
    let l = lex_step(lex(line), 32);
    if l.bad {
        None
    } else {
        Some(l.out)
    }
}

/// Reads the numbers of a line.
pub fn numbers(line: &[u8]) -> (row: Option<Vec<i64>>)
    ensures
        match row {
            Some(v) => spec_numbers(line@) == Some(v@),
            None => spec_numbers(line@).is_none(),
        },
{
    let mut out: Vec<i64> = Vec::new();
    let mut open = false;
    let mut negative = false;
    let mut digits = false;
    let mut value: i64 = 0;
    let mut i: usize = 0;
    while i < line.len()
        invariant
            0 <= i <= line@.len(),
            0 <= value,
            lex(line@.take(i as int)) == (Lexer {
                out: out@,
                open,
                negative,
                digits,
                value: value as int,
                bad: false,
            }),
        decreases line@.len() - i,
    {
        let b: u8 = line[i];
        proof {
            assert(line@.take(i as int + 1).drop_last() =~= line@.take(i as int));
            assert(line@.take(i as int + 1).last() == b);
        }
        let ghost before = Lexer { out: out@, open, negative, digits, value: value as int, bad: false };
        let mut bad = false;
        if 48 <= b && b <= 57 {
            let d: i64 = (b - 48) as i64;
            if value > (i64::MAX - d) / 10 {
                bad = true;
            } else {
                value = value * 10 + d;
                open = true;
                digits = true;
            }
        } else if b == 45 || b == 43 {
            if open {
                bad = true;
            } else {
                open = true;
                negative = b == 45;
            }
        } else if b == 32 || (9 <= b && b <= 13) {
            if open {
                if digits {
                    out.push(
                        if negative {
                            -value
                        } else {
                            value
                        },
                    );
                    open = false;
                    negative = false;
                    digits = false;
                    value = 0;
                } else {
                    bad = true;
                }
            }
        } else {
            bad = true;
        }
        if bad {
            proof {
                assert(lex_step(before, b).bad);
                lemma_lex_bad(line@, i as int + 1);
            }
            return None;
        }
        i += 1;
    }
    assert(line@.take(i as int) =~= line@);
    if open {
        if digits {
            out.push(
                if negative {
                    -value
                } else {
                    value
                },
            );
        } else {
            return None;
        }
    }
    Some(out)
}

/// A fault, once found, stays: a line that is faulty up to some byte is
/// faulty as a whole.
pub proof fn lemma_lex_bad(line: Seq<u8>, i: int)
    requires
        0 <= i <= line.len(),
        lex(line.take(i)).bad,
    ensures
        lex(line).bad,
        spec_numbers(line).is_none(),
    decreases line.len() - i,
{
    if i < line.len() {
        assert(line.take(i + 1).drop_last() =~= line.take(i));
        lemma_lex_bad(line, i + 1);
    } else {
        assert(line.take(i) =~= line);
    }
}

/// What the next line is expected to be.
#[derive(Copy, Clone, Debug, PartialEq, Eq, Structural)]
pub enum Stage {
    /// The number of players and the player's own identifier.
    Header,
    /// The base of a player; as many such lines are left.
    Yards(usize),
    /// The size of the grid.
    Size,
    /// A row of the field; as many such lines are left.
    Field(usize),
    /// The number of the turn.
    Round,
    /// A player's counts and score; as many such lines are left.
    Player(usize),
    /// A unit or a dropoff of a player: the players left after this one,
    /// the player, and the units and the dropoffs left of it.
    Units(usize, u8, usize, usize),
    /// The number of cells that changed.
    Count,
    /// A cell that changed; as many such lines are left.
    Updates(usize),
}

/// What a line did to the snapshot.
#[derive(Copy, Clone, Debug, PartialEq, Eq, Structural)]
pub enum Progress {
    /// The line was taken; the snapshot is not complete.
    More,
    /// The line was taken; the snapshot is complete.
    Done,
    /// The line is not what was expected; nothing has changed.
    Bad,
}

/// Whether a number is a coordinate.
pub open spec fn fits_dist(v: i64) -> bool {
    -128 <= v <= 127
}

/// Whether a number is an amount of the resource.
pub open spec fn fits_halite(v: i64) -> bool {
    -0x8000_0000 <= v <= 0x7fff_ffff
}

/// Whether every number of a row is an amount of the resource.
pub open spec fn all_fit_halite(row: Seq<i64>) -> bool {
    forall|i: int| 0 <= i < row.len() ==> fits_halite(#[trigger] row[i])
}

/// What is expected after a unit or a dropoff: the next of the player, or
/// the next player, or the changes.
pub open spec fn after_units(left: usize, player: u8, ships: usize, drops: usize) -> Stage {
    if ships > 0 || drops > 0 {
        Stage::Units(left, player, ships, drops)
    } else if left > 0 {
        Stage::Player(left)
    } else {
        Stage::Count
    }
}

/// What a line of numbers does, by what was expected: the next
/// expectation, the snapshot with the line taken in, and whether it is
/// complete. A line that is not what was expected changes nothing.
pub open spec fn spec_feed(stage: Stage, s: Snapshot, row: Seq<i64>) -> (Stage, Snapshot, Progress) {
    let bad = (stage, s, Progress::Bad);
    match stage {
        Stage::Header => if row.len() == 2 && 1 <= row[0] <= 255 && 0 <= row[1] < row[0] {
            (
                Stage::Yards(row[0] as usize),
                Snapshot {
                    id: row[1] as u8,
                    width: 0,
                    height: 0,
                    round: 0,
                    scores: Seq::new(row[0] as nat, |i: int| 0i32),
                    drops: Seq::empty(),
                    ships: Seq::empty(),
                    yards: Seq::new(row[0] as nat, |i: int| Shipyard { owner: 0, x: 0, y: 0 }),
                    halite: Seq::empty(),
                },
                Progress::More,
            )
        } else {
            bad
        },
        Stage::Yards(left) => if left >= 1 && row.len() == 3 && 0 <= row[0] < s.yards.len()
            && row[0] <= 255 && fits_dist(row[1]) && fits_dist(row[2]) {
            (
                if left == 1 {
                    Stage::Size
                } else {
                    Stage::Yards((left - 1) as usize)
                },
                Snapshot {
                    yards: s.yards.update(
                        row[0] as int,
                        Shipyard { owner: row[0] as u8, x: row[1] as i8, y: row[2] as i8 },
                    ),
                    ..s
                },
                Progress::More,
            )
        } else {
            bad
        },
        Stage::Size => if row.len() == 2 && 1 <= row[0] <= 127 && 1 <= row[1] <= 127 {
            (
                Stage::Field(row[1] as usize),
                Snapshot { width: row[0] as i8, height: row[1] as i8, halite: Seq::empty(), ..s },
                Progress::More,
            )
        } else {
            bad
        },
        Stage::Field(left) => if left >= 1 && row.len() == s.width && all_fit_halite(row) {
            (
                if left == 1 {
                    Stage::Round
                } else {
                    Stage::Field((left - 1) as usize)
                },
                Snapshot {
                    halite: s.halite + Seq::new(row.len(), |i: int| row[i] as i32),
                    ..s
                },
                if left == 1 {
                    Progress::Done
                } else {
                    Progress::More
                },
            )
        } else {
            bad
        },
        Stage::Round => if row.len() == 1 && 0 <= row[0] <= 0x7fff && s.scores.len() >= 1 {
            (
                Stage::Player(s.scores.len() as usize),
                Snapshot { round: row[0] as i16, ships: Seq::empty(), drops: Seq::empty(), ..s },
                Progress::More,
            )
        } else {
            bad
        },
        Stage::Player(left) => if left >= 1 && row.len() == 4 && 0 <= row[0] < s.scores.len()
            && row[0] <= 255 && 0 <= row[1] <= 0xffff && 0 <= row[2] <= 0xffff && fits_halite(
            row[3],
        ) {
            (
                after_units((left - 1) as usize, row[0] as u8, row[1] as usize, row[2] as usize),
                Snapshot { scores: s.scores.update(row[0] as int, row[3] as i32), ..s },
                Progress::More,
            )
        } else {
            bad
        },
        Stage::Units(left, player, ships, drops) => if ships > 0 {
            if row.len() == 4 && 0 <= row[0] <= 0xffff && fits_dist(row[1]) && fits_dist(row[2])
                && fits_halite(row[3]) {
                (
                    after_units(left, player, (ships - 1) as usize, drops),
                    Snapshot {
                        ships: s.ships.push(
                            Ship {
                                owner: player,
                                id: row[0] as u16,
                                x: row[1] as i8,
                                y: row[2] as i8,
                                halite: row[3] as i32,
                            },
                        ),
                        ..s
                    },
                    Progress::More,
                )
            } else {
                bad
            }
        } else if drops > 0 && row.len() == 3 && fits_dist(row[1]) && fits_dist(row[2]) {
            (
                after_units(left, player, 0, (drops - 1) as usize),
                Snapshot {
                    drops: s.drops.push(Dropoff { owner: player, x: row[1] as i8, y: row[2] as i8 }),
                    ..s
                },
                Progress::More,
            )
        } else {
            bad
        },
        Stage::Count => if row.len() == 1 && 0 <= row[0] <= 0xffff {
            if row[0] == 0 {
                (Stage::Round, s, Progress::Done)
            } else {
                (Stage::Updates(row[0] as usize), s, Progress::More)
            }
        } else {
            bad
        },
        Stage::Updates(left) => if left >= 1 && row.len() == 3 && 0 <= row[0] < s.width && 0
            <= row[1] < s.height && row[1] * s.width + row[0] < s.halite.len() && fits_halite(
            row[2],
        ) {
            (
                if left == 1 {
                    Stage::Round
                } else {
                    Stage::Updates((left - 1) as usize)
                },
                Snapshot {
                    halite: s.halite.update(row[1] * s.width + row[0], row[2] as i32),
                    ..s
                },
                if left == 1 {
                    Progress::Done
                } else {
                    Progress::More
                },
            )
        } else {
            bad
        },
    }
}

/// The snapshot before any line has been read: no player, no grid, no
/// unit, and every number at nothing.
pub open spec fn blank() -> Snapshot {
    Snapshot {
        id: 0,
        width: 0,
        height: 0,
        round: 0,
        scores: Seq::empty(),
        drops: Seq::empty(),
        ships: Seq::empty(),
        yards: Seq::empty(),
        halite: Seq::empty(),
    }
}

/// Decides what is expected after a unit or a dropoff.
fn next_unit(left: usize, player: u8, ships: usize, drops: usize) -> (stage: Stage)
    ensures
        stage == after_units(left, player, ships, drops),
{
    if ships > 0 || drops > 0 {
        Stage::Units(left, player, ships, drops)
    } else if left > 0 {
        Stage::Player(left)
    } else {
        Stage::Count
    }
}

/// Tells whether every number of a row is an amount of the resource.
fn row_fits(row: &Vec<i64>) -> (fits: bool)
    ensures
        fits == all_fit_halite(row@),
{
    let mut i: usize = 0;
    while i < row.len()
        invariant
            0 <= i <= row@.len(),
            forall|k: int| 0 <= k < i ==> fits_halite(#[trigger] row@[k]),
        decreases row@.len() - i,
    {
        if !(-0x8000_0000 <= row[i] && row[i] <= 0x7fff_ffff) {
            return false;
        }
        i += 1;
    }
    true
}

/// The reader of the game's lines: what it expects next, and the snapshot
/// as far as it has been read.
#[derive(Debug, Clone)]
pub struct Reader {
    stage: Stage,
    state: State,
}

impl Reader {
    /// What the next line is expected to be.
    pub closed spec fn stage(&self) -> Stage {
        self.stage
    }

    /// The snapshot as far as it has been read.
    pub closed spec fn snapshot(&self) -> Snapshot {
        self.state@
    }

    /// A reader before the first line: it expects the header, and its
    /// snapshot is blank.
    pub fn new() -> (r: Reader)
        ensures
            r.stage() == Stage::Header,
            r.snapshot() == blank(),
    {
        let r = Reader {
            stage: Stage::Header,
            state: State {
                id: 0,
                width: 0,
                height: 0,
                round: 0,
                scores: Vec::new(),
                drops: Vec::new(),
                ships: Vec::new(),
                yards: Vec::new(),
                halite: Vec::new(),
            },
        };
        assert(r.state@ =~= blank());
        r
    }

    /// The snapshot as far as it has been read. It is complete when the
    /// last line has answered `Progress::Done`.
    pub fn state(&self) -> (s: &State)
        ensures
            s@ == self.snapshot(),
    {
        &self.state
    }

    /// Takes in the numbers of the next line.
    pub fn feed(&mut self, row: &Vec<i64>) -> (p: Progress)
        ensures
            (final(self).stage(), final(self).snapshot(), p) == spec_feed(
                old(self).stage(),
                old(self).snapshot(),
                row@,
            ),
    {
        let ghost before = self.state@;
        let ghost expected = spec_feed(self.stage, before, row@);
        match self.stage {
            Stage::Header => {
                if row.len() == 2 && 1 <= row[0] && row[0] <= 255 && 0 <= row[1] && row[1] < row[0] {
                    let n = row[0] as usize;
                    let mut scores: Vec<Halite> = Vec::new();
                    let mut yards: Vec<Shipyard> = Vec::new();
                    let mut i: usize = 0;
                    while i < n
                        invariant
                            0 <= i <= n,
                            scores@ == Seq::new(i as nat, |k: int| 0i32),
                            yards@ == Seq::new(i as nat, |k: int| Shipyard { owner: 0, x: 0, y: 0 }),
                        decreases n - i,
                    {
                        scores.push(0);
                        yards.push(Shipyard { owner: 0, x: 0, y: 0 });
                        i += 1;
                        assert(scores@ =~= Seq::new(i as nat, |k: int| 0i32));
                        assert(yards@ =~= Seq::new(
                            i as nat,
                            |k: int| Shipyard { owner: 0, x: 0, y: 0 },
                        ));
                    }
                    self.state = State {
                        id: row[1] as u8,
                        width: 0,
                        height: 0,
                        round: 0,
                        scores,
                        drops: Vec::new(),
                        ships: Vec::new(),
                        yards,
                        halite: Vec::new(),
                    };
                    self.stage = Stage::Yards(n);
                    assert(self.state@ =~= expected.1);
                    return Progress::More;
                }
            },
            Stage::Yards(left) => {
                if left >= 1 && row.len() == 3 && 0 <= row[0] && row[0] <= 255 && (row[0] as usize)
                    < self.state.yards.len() && -128 <= row[1] && row[1] <= 127 && -128 <= row[2]
                    && row[2] <= 127 {
                    self.state.yards.set(
                        row[0] as usize,
                        Shipyard { owner: row[0] as u8, x: row[1] as i8, y: row[2] as i8 },
                    );
                    self.stage = if left == 1 {
                        Stage::Size
                    } else {
                        Stage::Yards(left - 1)
                    };
                    assert(self.state@ =~= expected.1);
                    return Progress::More;
                }
            },
            Stage::Size => {
                if row.len() == 2 && 1 <= row[0] && row[0] <= 127 && 1 <= row[1] && row[1] <= 127 {
                    self.state.width = row[0] as i8;
                    self.state.height = row[1] as i8;
                    self.state.halite = Vec::new();
                    self.stage = Stage::Field(row[1] as usize);
                    assert(self.state@ =~= expected.1);
                    return Progress::More;
                }
            },
            Stage::Field(left) => {
                if left >= 1 && self.state.width >= 0 && row.len() == self.state.width as usize
                    && row_fits(row) {
                    let ghost start = self.state.halite@;
                    let mut i: usize = 0;
                    while i < row.len()
                        invariant
                            0 <= i <= row@.len(),
                            all_fit_halite(row@),
                            self.state.halite@ == start + Seq::new(i as nat, |k: int| row@[k] as i32),
                            self.state@ == (Snapshot { halite: self.state.halite@, ..before }),
                            self.stage == old(self).stage,
                        decreases row@.len() - i,
                    {
                        self.state.halite.push(row[i] as i32);
                        i += 1;
                        assert(self.state.halite@ =~= start + Seq::new(
                            i as nat,
                            |k: int| row@[k] as i32,
                        ));
                    }
                    self.stage = if left == 1 {
                        Stage::Round
                    } else {
                        Stage::Field(left - 1)
                    };
                    assert(self.state@ =~= expected.1);
                    return if left == 1 {
                        Progress::Done
                    } else {
                        Progress::More
                    };
                }
            },
            Stage::Round => {
                if row.len() == 1 && 0 <= row[0] && row[0] <= 0x7fff && self.state.scores.len() >= 1 {
                    self.state.round = row[0] as i16;
                    self.state.ships = Vec::new();
                    self.state.drops = Vec::new();
                    self.stage = Stage::Player(self.state.scores.len());
                    assert(self.state@ =~= expected.1);
                    return Progress::More;
                }
            },
            Stage::Player(left) => {
                if left >= 1 && row.len() == 4 && 0 <= row[0] && row[0] <= 255 && (row[0] as usize)
                    < self.state.scores.len() && 0 <= row[1] && row[1] <= 0xffff && 0 <= row[2]
                    && row[2] <= 0xffff && -0x8000_0000 <= row[3] && row[3] <= 0x7fff_ffff {
                    self.state.scores.set(row[0] as usize, row[3] as i32);
                    self.stage = next_unit(left - 1, row[0] as u8, row[1] as usize, row[2] as usize);
                    assert(self.state@ =~= expected.1);
                    return Progress::More;
                }
            },
            Stage::Units(left, player, ships, drops) => {
                if ships > 0 {
                    if row.len() == 4 && 0 <= row[0] && row[0] <= 0xffff && -128 <= row[1] && row[1]
                        <= 127 && -128 <= row[2] && row[2] <= 127 && -0x8000_0000 <= row[3]
                        && row[3] <= 0x7fff_ffff {
                        self.state.ships.push(
                            Ship {
                                owner: player,
                                id: row[0] as u16,
                                x: row[1] as i8,
                                y: row[2] as i8,
                                halite: row[3] as i32,
                            },
                        );
                        self.stage = next_unit(left, player, ships - 1, drops);
                        assert(self.state@ =~= expected.1);
                        return Progress::More;
                    }
                } else if drops > 0 && row.len() == 3 && -128 <= row[1] && row[1] <= 127 && -128
                    <= row[2] && row[2] <= 127 {
                    self.state.drops.push(
                        Dropoff { owner: player, x: row[1] as i8, y: row[2] as i8 },
                    );
                    self.stage = next_unit(left, player, 0, drops - 1);
                    assert(self.state@ =~= expected.1);
                    return Progress::More;
                }
            },
            Stage::Count => {
                if row.len() == 1 && 0 <= row[0] && row[0] <= 0xffff {
                    if row[0] == 0 {
                        self.stage = Stage::Round;
                        return Progress::Done;
                    } else {
                        self.stage = Stage::Updates(row[0] as usize);
                        return Progress::More;
                    }
                }
            },
            Stage::Updates(left) => {
                if left >= 1 && row.len() == 3 && 0 <= row[0] && row[0] < self.state.width as i64
                    && 0 <= row[1] && row[1] < self.state.height as i64 && -0x8000_0000 <= row[2]
                    && row[2] <= 0x7fff_ffff {
                    let (x, y, w) = (row[0], row[1], self.state.width as i64);
                    assert(0 <= y * w <= 127 * 127 && 0 <= y * w + x <= 127 * 128) by (nonlinear_arith)
                        requires
                            0 <= x < w <= 127,
                            0 <= y <= 127,
                    ;
                    let at: i64 = y * w + x;
                    if (at as usize) < self.state.halite.len() {
                        self.state.halite.set(at as usize, row[2] as i32);
                        self.stage = if left == 1 {
                            Stage::Round
                        } else {
                            Stage::Updates(left - 1)
                        };
                        assert(self.state@ =~= expected.1);
                        return if left == 1 {
                            Progress::Done
                        } else {
                            Progress::More
                        };
                    }
                }
            },
        }
        Progress::Bad
    }
}

} // verus!
