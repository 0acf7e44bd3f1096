//! The orders of a game of ships and planets, and their text: a ship docks
//! at a planet, leaves it, or thrusts by a speed and an angle.

use vstd::prelude::*;
use crate::command::decimal;
use crate::command::push_decimal;

verus! {

/// What a ship is doing about a planet.
#[derive(Copy, Clone, Debug, PartialEq, Eq, Structural)]
pub enum Status {
    Docking,
    Docked,
    Undocked,
    Undocking,
}

/// A player and its ships.
#[derive(Debug)]
pub struct Player {
    pub id: usize,
    pub ships: Vec<usize>,
}

/// What a ship is set to do, and to which ship or planet.
#[derive(Copy, Clone, Debug, PartialEq, Eq, Structural)]
pub enum Strategy {
    Attack(usize),
    Assemble(usize),
    Follow(usize),
    Dock(usize),
}

/// An order to a ship.
#[derive(Copy, Clone, Debug, PartialEq, Eq, Structural)]
pub enum Command {
    /// The ship docks at the planet.
    Dock(usize, usize),
    /// The ship leaves the planet it is docked at.
    Undock(usize),
    /// The ship thrusts by a speed and an angle.
    Thrust(usize, i32, i32),
}

/// A number in decimal, with `-` before it if it is negative.
pub open spec fn signed(n: int) -> Seq<char> {
    if n < 0 {
        seq!['-'] + decimal((-n) as nat)
    } else {
        decimal(n as nat)
    }
}

/// Adds a number in decimal to a text, with `-` before it if it is
/// negative.
pub fn push_signed(text: &mut String, n: i32)
    ensures
        final(text)@ == old(text)@ + signed(n as int),
{
    proof {
        reveal_strlit("-");
    }
    if n < 0 {
        text.append("-");
        let size: u32 = (-(n as i64)) as u32;
        push_decimal(text, size as usize);
        assert(text@ =~= old(text)@ + signed(n as int));
    } else {
        push_decimal(text, n as usize);
    }
}

impl Command {
    /// The order as the game reads it: a letter for the kind of order,
    /// then the ship and what else the order names, with a blank between.
    pub open spec fn text(self) -> Seq<char> {
        match self {
            Command::Dock(ship, planet) => seq!['d', ' '] + decimal(ship as nat) + seq![' '] + decimal(
                planet as nat,
            ),
            Command::Undock(ship) => seq!['u', ' '] + decimal(ship as nat),
            Command::Thrust(ship, speed, angle) => seq!['t', ' '] + decimal(ship as nat) + seq![' ']
                + signed(speed as int) + seq![' '] + signed(angle as int),
        }
    }

    /// Adds the order, as the game reads it, to a text.
    pub fn write(&self, text: &mut String)
        ensures
            final(text)@ == old(text)@ + self.text(),
    {
        proof {
            reveal_strlit("d ");
            reveal_strlit("u ");
            reveal_strlit("t ");
            reveal_strlit(" ");
        }
        match self {
            Command::Dock(ship, planet) => {
                text.append("d ");
                push_decimal(text, *ship);
                text.append(" ");
                push_decimal(text, *planet);
                assert(text@ =~= old(text)@ + self.text());
            },
            Command::Undock(ship) => {
                text.append("u ");
                push_decimal(text, *ship);
                assert(text@ =~= old(text)@ + self.text());
            },
            Command::Thrust(ship, speed, angle) => {
                text.append("t ");
                push_decimal(text, *ship);
                text.append(" ");
                push_signed(text, *speed);
                text.append(" ");
                push_signed(text, *angle);
                assert(text@ =~= old(text)@ + self.text());
            },
        }
    }
}

/// The orders of a turn, as the text that goes to the game: each order is
/// followed by a blank.
#[derive(Default, Debug)]
pub struct CommandQueue {
    commands: String,
}

impl CommandQueue {
    /// The text gathered so far.
    pub closed spec fn text(&self) -> Seq<char> {
        self.commands@
    }

    /// A queue with no order in it.
    pub fn new() -> (q: CommandQueue)
        ensures
            q.text() == Seq::<char>::empty(),
    {
        CommandQueue { commands: String::new() }
    }

    /// Adds an order to the text.
    pub fn push(&mut self, command: &Command)
        ensures
            final(self).text() == old(self).text() + command.text() + seq![' '],
    {
        proof {
            reveal_strlit(" ");
        }
        command.write(&mut self.commands);
        self.commands.append(" ");
        assert(self.commands@ =~= old(self).text() + command.text() + seq![' ']);
    }

    /// Hands the text out and leaves the queue empty. The caller sends
    /// it, as one line.
    pub fn flush(&mut self) -> (line: String)
        ensures
            line@ == old(self).text(),
            final(self).text() == Seq::<char>::empty(),
    {
        let mut line = String::new();
        std::mem::swap(&mut self.commands, &mut line);
        line
    }
}

} // verus!
