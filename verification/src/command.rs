//! The orders that a turn ends with, and their text.

use vstd::prelude::*;
use crate::torus::Dir;

verus! {

/// An order to the game: for the fleet, or for the unit with the given
/// identifier.
#[derive(Copy, Clone, Debug, PartialEq, Eq, Structural)]
pub enum Command {
    /// Spawn a new unit at the base.
    Spawn,
    /// Turn the unit into a dropoff.
    Transform(usize),
    /// Move the unit one step; `Dir::O` keeps it where it is.
    Move(usize, Dir),
}

/// The character of a decimal digit.
pub open spec fn digit(d: int) -> char {
    if d == 0 {
        '0'
    } else if d == 1 {
        '1'
    } else if d == 2 {
        '2'
    } else if d == 3 {
        '3'
    } else if d == 4 {
        '4'
    } else if d == 5 {
        '5'
    } else if d == 6 {
        '6'
    } else if d == 7 {
        '7'
    } else if d == 8 {
        '8'
    } else {
        '9'
    }
}

/// A number in decimal, without leading zeros.
pub open spec fn decimal(n: nat) -> Seq<char>
    decreases n,
{
    if n < 10 {
        seq![digit(n as int)]
    } else {
        decimal(n / 10).push(digit((n % 10) as int))
    }
}

/// The text of a decimal digit.
fn digit_text(d: usize) -> (text: &'static str)
    requires
        d < 10,
    ensures
        text@ == seq![digit(d as int)],
{
    proof {
        reveal_strlit("0");
        reveal_strlit("1");
        reveal_strlit("2");
        reveal_strlit("3");
        reveal_strlit("4");
        reveal_strlit("5");
        reveal_strlit("6");
        reveal_strlit("7");
        reveal_strlit("8");
        reveal_strlit("9");
    }
    let text = if d == 0 {
        "0"
    } else if d == 1 {
        "1"
    } else if d == 2 {
        "2"
    } else if d == 3 {
        "3"
    } else if d == 4 {
        "4"
    } else if d == 5 {
        "5"
    } else if d == 6 {
        "6"
    } else if d == 7 {
        "7"
    } else if d == 8 {
        "8"
    } else {
        "9"
    };
    assert(text@ =~= seq![digit(d as int)]);
    text
}

/// Adds a number in decimal to a text.
pub fn push_decimal(text: &mut String, n: usize)
    ensures
        final(text)@ == old(text)@ + decimal(n as nat),
    decreases n,
{
    if n >= 10 {
        push_decimal(text, n / 10);
    }
    text.append(digit_text(n % 10));
    assert(text@ =~= old(text)@ + decimal(n as nat));
}

impl Dir {
    /// The letter that stands for the direction.
    pub open spec fn text(self) -> Seq<char> {
        match self {
            Dir::N => seq!['n'],
            Dir::S => seq!['s'],
            Dir::E => seq!['e'],
            Dir::W => seq!['w'],
            Dir::O => seq!['o'],
        }
    }

    /// The letter that stands for the direction.
    pub fn as_text(self) -> (text: &'static str)
        ensures
            text@ == self.text(),
    {
        proof {
            reveal_strlit("n");
            reveal_strlit("s");
            reveal_strlit("e");
            reveal_strlit("w");
            reveal_strlit("o");
        }
        let text = match self {
            Dir::N => "n",
            Dir::S => "s",
            Dir::E => "e",
            Dir::W => "w",
            Dir::O => "o",
        };
        assert(text@ =~= self.text());
        text
    }

    /// The letter that stands for the direction.
    pub fn to_string(&self) -> (text: String)
        ensures
            text@ == self.text(),
    {
        String::from_str(self.as_text())
    }
}

impl Command {
    /// The order as the game reads it: a letter for the kind of order,
    /// then the unit and the direction where the order has them, with a
    /// blank between.
    pub open spec fn text(self) -> Seq<char> {
        match self {
            Command::Spawn => seq!['g'],
            Command::Transform(id) => seq!['c', ' '] + decimal(id as nat),
            Command::Move(id, dir) => seq!['m', ' '] + decimal(id as nat) + seq![' '] + dir.text(),
        }
    }

    /// Adds the order, as the game reads it, to a text.
    pub fn write(&self, text: &mut String)
        ensures
            final(text)@ == old(text)@ + self.text(),
    {
        proof {
            reveal_strlit("g");
            reveal_strlit("c ");
            reveal_strlit("m ");
            reveal_strlit(" ");
        }
        match self {
            Command::Spawn => {
                text.append("g");
                assert(text@ =~= old(text)@ + self.text());
            },
            Command::Transform(id) => {
                text.append("c ");
                push_decimal(text, *id);
                assert(text@ =~= old(text)@ + self.text());
            },
            Command::Move(id, dir) => {
                text.append("m ");
                push_decimal(text, *id);
                text.append(" ");
                text.append(dir.as_text());
                assert(text@ =~= old(text)@ + self.text());
            },
        }
    }

    /// The order as the game reads it.
    pub fn to_string(&self) -> (text: String)
        ensures
            text@ == self.text(),
    {
        let mut text = String::new();
        self.write(&mut text);
        assert(text@ =~= self.text());
        text
    }
}

/// The orders of a turn, as the text that goes to the game: each order is
/// followed by a blank.
#[derive(Default, Debug)]
pub struct Queue {
    commands: String,
}

impl Queue {
    /// The text gathered so far.
    pub closed spec fn text(&self) -> Seq<char> {
        self.commands@
    }

    /// A queue with no order in it.
    pub fn new() -> (q: Queue)
        ensures
            q.text() == Seq::<char>::empty(),
    {
        Queue { commands: String::new() }
    }

    /// Adds an order to the text.
    pub fn push(&mut self, command: &Command)
        ensures
            final(self).text() == old(self).text() + command.text() + seq![' '],
    {
        proof {
            reveal_strlit(" ");
        }
        command.write(&mut self.commands);
        self.commands.append(" ");
        assert(self.commands@ =~= old(self).text() + command.text() + seq![' ']);
    }

    /// Hands the text out and leaves the queue empty. The caller sends
    /// it, as one line.
    pub fn flush(&mut self) -> (line: String)
        ensures
            line@ == old(self).text(),
            final(self).text() == Seq::<char>::empty(),
    {
        let mut line = String::new();
        std::mem::swap(&mut self.commands, &mut line);
        line
    }
}

} // verus!
