use vstd::prelude::*;
use vstd::string::StringSliceAdditionalSpecFns;

verus! {

/// A cell of the grid: `(x, y)`, with `x` across and `y` up.
pub type Pos = (usize, usize);

/// One of the four compass directions.
#[derive(Clone, Copy, Debug, PartialEq, Eq, Structural)]
pub enum Dir {
    N,
    E,
    S,
    W,
}

/// A position as a pair of mathematical integers.
pub open spec fn pos_int(p: Pos) -> (int, int) {
    (p.0 as int, p.1 as int)
}

/// The neighbour of `p` in direction `d`, with no bound on either side.
pub open spec fn step(p: (int, int), d: Dir) -> (int, int) {
    match d {
        Dir::N => (p.0, p.1 + 1),
        Dir::E => (p.0 + 1, p.1),
        Dir::S => (p.0, p.1 - 1),
        Dir::W => (p.0 - 1, p.1),
    }
}

/// The direction that points back.
pub open spec fn opposite(d: Dir) -> Dir {
    match d {
        Dir::N => Dir::S,
        Dir::E => Dir::W,
        Dir::S => Dir::N,
        Dir::W => Dir::E,
    }
}

/// Whether both coordinates fit in a `usize`.
pub open spec fn fits(p: (int, int)) -> bool {
    0 <= p.0 <= usize::MAX && 0 <= p.1 <= usize::MAX
}

/// What a one-line command means: a single direction letter, in either case.
pub open spec fn command_dir(b: Seq<u8>) -> Option<Dir> {
    if b.len() != 1 {
        None
    } else if b[0] == 78u8 || b[0] == 110u8 {
        Some(Dir::N)
    } else if b[0] == 69u8 || b[0] == 101u8 {
        Some(Dir::E)
    } else if b[0] == 83u8 || b[0] == 115u8 {
        Some(Dir::S)
    } else if b[0] == 87u8 || b[0] == 119u8 {
        Some(Dir::W)
    } else {
        None
    }
}

/// Taking a step and then a step back returns to the start, for every direction.
pub proof fn lemma_step_back(p: (int, int), d: Dir)
    ensures
        step(step(p, d), opposite(d)) == p,
{
}

impl Dir {
    /// The neighbouring cell in this direction, or `None` where a coordinate would
    /// leave the range of `usize` (a step south or west from zero).
    pub fn move_pos(self, pos: Pos) -> (r: Option<Pos>)
        ensures
            match r {
                Some(q) => pos_int(q) == step(pos_int(pos), self),
                None => !fits(step(pos_int(pos), self)),
            },
    {
        let (x, y) = pos;
        match self {
            Dir::N => if y < usize::MAX { Some((x, y + 1)) } else { None },
            Dir::E => if x < usize::MAX { Some((x + 1, y)) } else { None },
            Dir::S => if y > 0 { Some((x, y - 1)) } else { None },
            Dir::W => if x > 0 { Some((x - 1, y)) } else { None },
        }
    }

    /// The direction that points back.
    pub fn opposite(self) -> (r: Dir)
        ensures
            r == opposite(self),
    {
        match self {
            Dir::N => Dir::S,
            Dir::E => Dir::W,
            Dir::S => Dir::N,
            Dir::W => Dir::E,
        }
    }

    /// Reads a command: `N`, `E`, `S` or `W`, in either case, and nothing else.
    pub fn from_str(s: &str) -> (r: Option<Dir>)
        ensures
            r == command_dir(s.spec_bytes()),
    {
        let b = s.as_bytes();
        if b.len() != 1 {
            return None;
        }
        let c = b[0];
        if c == 78u8 || c == 110u8 {
            Some(Dir::N)
        } else if c == 69u8 || c == 101u8 {
            Some(Dir::E)
        } else if c == 83u8 || c == 115u8 {
            Some(Dir::S)
        } else if c == 87u8 || c == 119u8 {
            Some(Dir::W)
        } else {
            None
        }
    }

    /// The letter that names this direction.
    pub fn letter(self) -> (r: u8)
        ensures
            r == present_token(PresentLocation::InDir(self)),
            command_dir(seq![r]) == Some(self),
    {
        match self {
            Dir::N => 78u8,
            Dir::E => 69u8,
            Dir::S => 83u8,
            Dir::W => 87u8,
        }
    }
}

/// Where the present lies, as far as the compass can tell.
#[derive(Clone, Copy, Debug, PartialEq, Eq, Structural)]
pub enum PresentLocation {
    Unknown,
    Here,
    InDir(Dir),
}

/// A reading of the compass at one cell: the free run in each direction and the
/// present hint.
#[derive(Clone, Copy, Debug, PartialEq, Eq, Structural)]
pub struct Compass {
    pub north: usize,
    pub east: usize,
    pub south: usize,
    pub west: usize,
    pub present: PresentLocation,
}

/// The decimal digits of `n`, most significant first, as ASCII bytes.
pub open spec fn decimal(n: nat) -> Seq<u8>
    decreases n,
{
    if n < 10 {
        seq![(48 + n) as u8]
    } else {
        decimal(n / 10).push((48 + n % 10) as u8)
    }
}

/// The token that stands for a present hint: `?`, `X`, or a direction letter.
pub open spec fn present_token(p: PresentLocation) -> u8 {
    match p {
        PresentLocation::Unknown => 63u8,
        PresentLocation::Here => 88u8,
        PresentLocation::InDir(Dir::N) => 78u8,
        PresentLocation::InDir(Dir::E) => 69u8,
        PresentLocation::InDir(Dir::S) => 83u8,
        PresentLocation::InDir(Dir::W) => 87u8,
    }
}

/// The line that reports a reading: `N<n> E<e> S<s> W<w> P<token>`.
pub open spec fn compass_line(c: Compass) -> Seq<u8> {
    seq![78u8] + decimal(c.north as nat) + seq![32u8, 69u8] + decimal(c.east as nat)
        + seq![32u8, 83u8] + decimal(c.south as nat) + seq![32u8, 87u8]
        + decimal(c.west as nat) + seq![32u8, 80u8, present_token(c.present)]
}

/// Appends the decimal digits of `n` to `out`.
fn push_decimal(out: &mut Vec<u8>, n: usize)
    ensures
        final(out)@ == old(out)@ + decimal(n as nat),
    decreases n,
{
    if n >= 10 {
        push_decimal(out, n / 10);
    }
    out.push((48 + n % 10) as u8);
    assert(final(out)@ =~= old(out)@ + decimal(n as nat));
}

impl Compass {
    /// The reading as one line of text, without the newline.
    pub fn to_line(&self) -> (r: Vec<u8>)
        ensures
            r@ == compass_line(*self),
    {
        let mut out: Vec<u8> = Vec::new();
        out.push(78u8);
        push_decimal(&mut out, self.north);
        assert(out@ =~= seq![78u8] + decimal(self.north as nat));
        out.push(32u8);
        out.push(69u8);
        push_decimal(&mut out, self.east);
        assert(out@ =~= seq![78u8] + decimal(self.north as nat) + seq![32u8, 69u8] + decimal(
            self.east as nat,
        ));
        out.push(32u8);
        out.push(83u8);
        push_decimal(&mut out, self.south);
        assert(out@ =~= seq![78u8] + decimal(self.north as nat) + seq![32u8, 69u8] + decimal(
            self.east as nat,
        ) + seq![32u8, 83u8] + decimal(self.south as nat));
        out.push(32u8);
        out.push(87u8);
        push_decimal(&mut out, self.west);
        assert(out@ =~= seq![78u8] + decimal(self.north as nat) + seq![32u8, 69u8] + decimal(
            self.east as nat,
        ) + seq![32u8, 83u8] + decimal(self.south as nat) + seq![32u8, 87u8] + decimal(
            self.west as nat,
        ));
        out.push(32u8);
        out.push(80u8);
        let t: u8 = match self.present {
            PresentLocation::Unknown => 63u8,
            PresentLocation::Here => 88u8,
            PresentLocation::InDir(d) => d.letter(),
        };
        assert(t == present_token(self.present));
        out.push(t);
        assert(out@ =~= compass_line(*self));
        out
    }
}

} // verus!
