//! Board coordinates: a pair `(x, y)` addressing the 8x8 grid, with an
//! explicit bounds predicate. An out-of-range pair is representable but
//! invalid; validity is checked, not enforced by construction, so that
//! candidate coordinates may be formed and tested before being accepted.

use vstd::prelude::*;

verus! {

/// The side length of the square board.
pub const BOARD_SIZE: usize = 8;

/// A coordinate pair lies on the board iff both components are in `[0, 8)`.
pub open spec fn in_bounds(x: int, y: int) -> bool {
    0 <= x < 8 && 0 <= y < 8
}

/// The character for the decimal digit `d`.
pub open spec fn digit_char(d: nat) -> char {
    if d == 0 {
        '0'
    } else if d == 1 {
        '1'
    } else if d == 2 {
        '2'
    } else if d == 3 {
        '3'
    } else if d == 4 {
        '4'
    } else if d == 5 {
        '5'
    } else if d == 6 {
        '6'
    } else if d == 7 {
        '7'
    } else if d == 8 {
        '8'
    } else {
        '9'
    }
}

/// The decimal digits of `n`, most significant first, with no leading
/// zeroes (a single `'0'` for zero).
pub open spec fn dec_rep(n: nat) -> Seq<char>
    decreases n,
{
    if n < 10 {
        seq![digit_char(n)]
    } else {
        dec_rep(n / 10).push(digit_char(n % 10))
    }
}

/// The diagnostic rendering of a coordinate pair: `x: <x>, y: <y>`.
pub open spec fn position_text(x: nat, y: nat) -> Seq<char> {
    "x: "@ + dec_rep(x) + ", y: "@ + dec_rep(y)
}

/// Relies on String::push: appends exactly the given character.
#[verifier::external_body]
fn push_char(s: &mut String, c: char)
    ensures
        final(s)@ == old(s)@.push(c),
{
    s.push(c)
}

/// The character for a decimal digit, as executable code.
fn digit_to_char(d: usize) -> (c: char)
    requires
        d < 10,
    ensures
        c == digit_char(d as nat),
{
    match d {
        0 => '0',
        1 => '1',
        2 => '2',
        3 => '3',
        4 => '4',
        5 => '5',
        6 => '6',
        7 => '7',
        8 => '8',
        _ => '9',
    }
}

/// Appends the decimal rendering of `n` to `s`.
fn push_dec(s: &mut String, n: usize)
    ensures
        final(s)@ == old(s)@ + dec_rep(n as nat),
    decreases n,
{
    if n >= 10 {
        push_dec(s, n / 10);
    }
    let c = digit_to_char(n % 10);
    push_char(s, c);
    proof {
        if n >= 10 {
            assert(dec_rep(n as nat) == dec_rep(n as nat / 10).push(digit_char(n as nat % 10)));
        }
        assert(s@ =~= old(s)@ + dec_rep(n as nat));
    }
}

/// A coordinate pair into the 8x8 grid. Plain transient value; may hold
/// out-of-range coordinates, which `validate` reports as invalid.
pub struct Position {
    pub x: usize,
    pub y: usize,
}

impl Position {
    /// True iff `(x, y)` lies on the board. Total over all inputs,
    /// including negative coordinates.
    pub fn validate_int(x: isize, y: isize) -> (r: bool)
        ensures
            r == in_bounds(x as int, y as int),
    {
        if x < 0 || x >= 8 || y < 0 || y >= 8 {
            false
        } else {
            true
        }
    }

    /// True iff this position lies on the board.
    pub fn validate(&self) -> (r: bool)
        ensures
            r == in_bounds(self.x as int, self.y as int),
    {
        self.x < BOARD_SIZE && self.y < BOARD_SIZE
    }

    /// The deterministic diagnostic rendering `x: <x>, y: <y>`; used in
    /// messages only, never by the game logic.
    pub fn to_string(&self) -> (r: String)
        ensures
            r@ == position_text(self.x as nat, self.y as nat),
    {
        let mut s = "x: ".to_owned();
        push_dec(&mut s, self.x);
        push_char(&mut s, ',');
        push_char(&mut s, ' ');
        push_char(&mut s, 'y');
        push_char(&mut s, ':');
        push_char(&mut s, ' ');
        push_dec(&mut s, self.y);
        proof {
            reveal_strlit(", y: ");
            assert(", y: "@ =~= seq![',', ' ', 'y', ':', ' ']);
            assert(s@ =~= position_text(self.x as nat, self.y as nat));
        }
        s
    }
}

} // verus!
