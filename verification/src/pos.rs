//! Integer 2D vectors, used both for plot-grid and character-grid coordinates.
use vstd::prelude::*;
use crate::strutil;

verus! {

/// A position on the grid: an immutable pair of integer coordinates.
/// Division and remainder are Euclidean, so modular wrapping behaves
/// correctly for negative coordinates.
#[derive(Debug, Hash, PartialEq, Eq, Structural, Clone, Copy)]
pub struct Pos {
    pub x: i64,
    pub y: i64,
}

/// The position a line of text denotes: exactly two whitespace-separated
/// tokens, each a well-formed 64-bit integer.
pub open spec fn pos_from_text_spec(s: Seq<char>) -> Option<Pos> {
    match strutil::split_ws_once_spec(s) {
        None => None,
        Some(parts) => {
            let xs = strutil::parse_i64_spec(parts.0);
            let ys = strutil::parse_i64_spec(parts.1);
            if xs is Some && ys is Some {
                Some(Pos { x: xs->0, y: ys->0 })
            } else {
                None
            }
        },
    }
}

impl Pos {
    pub fn new(x: i64, y: i64) -> (p: Pos)
        ensures
            p == (Pos { x, y }),
    {
        Pos { x, y }
    }

    pub fn zero() -> (p: Pos)
        ensures
            p == (Pos { x: 0i64, y: 0i64 }),
    {
        Pos { x: 0, y: 0 }
    }

    pub fn from_tuple(t: (i64, i64)) -> (p: Pos)
        ensures
            p == (Pos { x: t.0, y: t.1 }),
    {
        let (x, y) = t;
        Pos { x, y }
    }

    /// Parses "x y": two whitespace-separated integers.
    pub fn from_space_separated(input: &str) -> (r: Option<Pos>)
        ensures
            r == pos_from_text_spec(input@),
    {
        let cs = strutil::chars_of(input);
        Pos::from_chars(&cs)
    }

    /// As `from_space_separated`, for a line already split into characters.
    pub fn from_chars(v: &Vec<char>) -> (r: Option<Pos>)
        ensures
            r == pos_from_text_spec(v@),
    {
        let t = strutil::trim_vec(v);
        match strutil::split_first_token_chars(&t) {
            None => None,
            Some((xs, ys)) => {
                let xv = strutil::parse_i64_chars(&xs);
                let yv = strutil::parse_i64_chars(&ys);
                match (xv, yv) {
                    (Some(x), Some(y)) => Some(Pos { x, y }),
                    _ => None,
                }
            },
        }
    }

    pub fn abs(&self) -> (p: Pos)
        requires
            self.x != i64::MIN,
            self.y != i64::MIN,
        ensures
            p.x == if self.x < 0 { -self.x as int } else { self.x as int },
            p.y == if self.y < 0 { -self.y as int } else { self.y as int },
    {
        Pos {
            x: if self.x < 0 { -self.x } else { self.x },
            y: if self.y < 0 { -self.y } else { self.y },
        }
    }

    /// The larger of the two components.
    pub fn max(&self) -> (r: i64)
        ensures
            r == if self.x > self.y { self.x } else { self.y },
    {
        if self.x > self.y {
            self.x
        } else {
            self.y
        }
    }

    /// The smaller of the two components.
    pub fn min(&self) -> (r: i64)
        ensures
            r == if self.x < self.y { self.x } else { self.y },
    {
        if self.x < self.y {
            self.x
        } else {
            self.y
        }
    }

    /// The taxicab norm: |x| + |y|.
    pub fn size(&self) -> (r: i64)
        requires
            self.x != i64::MIN,
            self.y != i64::MIN,
            abs_int(self.x as int) + abs_int(self.y as int) <= i64::MAX,
        ensures
            r == abs_int(self.x as int) + abs_int(self.y as int),
    {
        let ax = if self.x < 0 { -self.x } else { self.x };
        let ay = if self.y < 0 { -self.y } else { self.y };
        ax + ay
    }

    pub fn is_zero(&self) -> (r: bool)
        ensures
            r == (self.x == 0 && self.y == 0),
    {
        self.x == 0 && self.y == 0
    }

    /// The taxicab distance to the other position.
    pub fn distance_to(&self, other: Pos) -> (r: i64)
        requires
            i64::MIN <= other.x - self.x <= i64::MAX,
            i64::MIN <= other.y - self.y <= i64::MAX,
            other.x - self.x != i64::MIN,
            other.y - self.y != i64::MIN,
            abs_int(other.x - self.x) + abs_int(other.y - self.y) <= i64::MAX,
        ensures
            r == abs_int(other.x - self.x) + abs_int(other.y - self.y),
    {
        let d = other - *self;
        d.size()
    }

    /// Each component replaced by its sign: -1, 0 or 1.
    pub fn normalize(&self) -> (p: Pos)
        ensures
            p.x == sign_int(self.x as int),
            p.y == sign_int(self.y as int),
    {
        Pos { x: sign_of(self.x), y: sign_of(self.y) }
    }
}

/// Absolute value of an integer.
pub open spec fn abs_int(n: int) -> int {
    if n < 0 {
        -n
    } else {
        n
    }
}

/// Sign of an integer: -1, 0 or 1.
pub open spec fn sign_int(n: int) -> int {
    if n < 0 {
        -1
    } else if n == 0 {
        0
    } else {
        1
    }
}

fn sign_of(n: i64) -> (r: i64)
    ensures
        r == sign_int(n as int),
{
    if n < 0 {
        -1
    } else if n == 0 {
        0
    } else {
        1
    }
}

impl core::ops::Add<Pos> for Pos {
    type Output = Pos;

    fn add(self, other: Pos) -> Pos {
        Pos { x: self.x + other.x, y: self.y + other.y }
    }
}

impl vstd::std_specs::ops::AddSpecImpl<Pos> for Pos {
    open spec fn obeys_add_spec() -> bool {
        true
    }

    open spec fn add_req(self, rhs: Pos) -> bool {
        &&& i64::MIN <= self.x + rhs.x <= i64::MAX
        &&& i64::MIN <= self.y + rhs.y <= i64::MAX
    }

    open spec fn add_spec(self, rhs: Pos) -> Pos {
        Pos { x: (self.x + rhs.x) as i64, y: (self.y + rhs.y) as i64 }
    }
}

impl core::ops::Add<(i64, i64)> for Pos {
    type Output = Pos;

    fn add(self, other: (i64, i64)) -> Pos {
        Pos { x: self.x + other.0, y: self.y + other.1 }
    }
}

impl vstd::std_specs::ops::AddSpecImpl<(i64, i64)> for Pos {
    open spec fn obeys_add_spec() -> bool {
        true
    }

    open spec fn add_req(self, rhs: (i64, i64)) -> bool {
        &&& i64::MIN <= self.x + rhs.0 <= i64::MAX
        &&& i64::MIN <= self.y + rhs.1 <= i64::MAX
    }

    open spec fn add_spec(self, rhs: (i64, i64)) -> Pos {
        Pos { x: (self.x + rhs.0) as i64, y: (self.y + rhs.1) as i64 }
    }
}

impl core::ops::Sub<Pos> for Pos {
    type Output = Pos;

    fn sub(self, other: Pos) -> Pos {
        Pos { x: self.x - other.x, y: self.y - other.y }
    }
}

impl vstd::std_specs::ops::SubSpecImpl<Pos> for Pos {
    open spec fn obeys_sub_spec() -> bool {
        true
    }

    open spec fn sub_req(self, rhs: Pos) -> bool {
        &&& i64::MIN <= self.x - rhs.x <= i64::MAX
        &&& i64::MIN <= self.y - rhs.y <= i64::MAX
    }

    open spec fn sub_spec(self, rhs: Pos) -> Pos {
        Pos { x: (self.x - rhs.x) as i64, y: (self.y - rhs.y) as i64 }
    }
}

impl core::ops::Neg for Pos {
    type Output = Pos;

    fn neg(self) -> Pos {
        Pos { x: -self.x, y: -self.y }
    }
}

impl vstd::std_specs::ops::NegSpecImpl for Pos {
    open spec fn obeys_neg_spec() -> bool {
        true
    }

    open spec fn neg_req(self) -> bool {
        self.x != i64::MIN && self.y != i64::MIN
    }

    open spec fn neg_spec(self) -> Pos {
        Pos { x: (-self.x) as i64, y: (-self.y) as i64 }
    }
}

impl core::ops::Mul<i64> for Pos {
    type Output = Pos;

    fn mul(self, n: i64) -> Pos {
        Pos { x: self.x * n, y: self.y * n }
    }
}

impl vstd::std_specs::ops::MulSpecImpl<i64> for Pos {
    open spec fn obeys_mul_spec() -> bool {
        true
    }

    open spec fn mul_req(self, rhs: i64) -> bool {
        &&& i64::MIN <= self.x * rhs <= i64::MAX
        &&& i64::MIN <= self.y * rhs <= i64::MAX
    }

    open spec fn mul_spec(self, rhs: i64) -> Pos {
        Pos { x: (self.x * rhs) as i64, y: (self.y * rhs) as i64 }
    }
}

impl core::ops::Div<i64> for Pos {
    type Output = Pos;

    /// Componentwise Euclidean division: rounds toward negative infinity
    /// for positive divisors, so `(-3, -3) / 2 == (-2, -2)`.
    fn div(self, n: i64) -> Pos {
        let qx = self.x.checked_div_euclid(n);
        let qy = self.y.checked_div_euclid(n);
        Pos { x: qx.unwrap(), y: qy.unwrap() }
    }
}

impl vstd::std_specs::ops::DivSpecImpl<i64> for Pos {
    open spec fn obeys_div_spec() -> bool {
        true
    }

    open spec fn div_req(self, rhs: i64) -> bool {
        &&& rhs != 0
        &&& i64::MIN <= self.x as int / rhs as int <= i64::MAX
        &&& i64::MIN <= self.y as int / rhs as int <= i64::MAX
    }

    open spec fn div_spec(self, rhs: i64) -> Pos {
        Pos { x: (self.x as int / rhs as int) as i64, y: (self.y as int / rhs as int) as i64 }
    }
}

impl core::ops::Rem<i64> for Pos {
    type Output = Pos;

    /// Componentwise Euclidean remainder: always non-negative.
    fn rem(self, n: i64) -> Pos {
        let rx = self.x.checked_rem_euclid(n);
        let ry = self.y.checked_rem_euclid(n);
        Pos { x: rx.unwrap(), y: ry.unwrap() }
    }
}

impl vstd::std_specs::ops::RemSpecImpl<i64> for Pos {
    open spec fn obeys_rem_spec() -> bool {
        true
    }

    open spec fn rem_req(self, rhs: i64) -> bool {
        &&& rhs != 0
        &&& !(self.x == i64::MIN && rhs == -1)
        &&& !(self.y == i64::MIN && rhs == -1)
        &&& i64::MIN <= self.x as int % rhs as int <= i64::MAX
        &&& i64::MIN <= self.y as int % rhs as int <= i64::MAX
    }

    open spec fn rem_spec(self, rhs: i64) -> Pos {
        Pos { x: (self.x as int % rhs as int) as i64, y: (self.y as int % rhs as int) as i64 }
    }
}

} // verus!
