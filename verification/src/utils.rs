//! Small general helpers: pluralising nouns, squaring, wrapping a value
//! into a range, choosing by a boolean, counters, verification hooks, the
//! wall clock as integers, and spreadsheet-style column keys.
use vstd::prelude::*;
use vstd::string::StringExecFns;

verus! {

/// Nouns that can name one thing or many.
pub trait Plural: Sized {
    /// The form to use with `count` things, adding an "s" for anything but
    /// exactly one.
    fn plural(&self, count: u32) -> Self;

    /// The form to use with `count` things, with an irregular plural.
    fn plural_irregular(&self, plural: Self, count: u32) -> Self;
}

impl Plural for String {
    fn plural(&self, count: u32) -> (r: String)
        ensures
            r@ == if count == 1 {
                self@
            } else {
                self@ + "s"@
            },
    {
        if count == 1 {
            self.clone()
        } else {
            self.clone().concat("s")
        }
    }

    fn plural_irregular(&self, plural: String, count: u32) -> (r: String)
        ensures
            r@ == if count == 1 {
                self@
            } else {
                plural@
            },
    {
        if count == 1 {
            self.clone()
        } else {
            plural
        }
    }
}

/// A number times itself.
pub trait Square: Sized {
    /// Whether the square stays in range.
    spec fn square_fits(self) -> bool;

    /// The square, as a mathematical integer.
    spec fn squared(self) -> int;

    fn square(self) -> (r: Self)
        requires
            self.square_fits(),
        ensures
            r.squared_result() == self.squared(),
    ;

    /// The returned value read back as a mathematical integer.
    spec fn squared_result(self) -> int;
}

impl Square for u32 {
    open spec fn square_fits(self) -> bool {
        u32::MIN <= self * self <= u32::MAX
    }

    open spec fn squared(self) -> int {
        self * self
    }

    open spec fn squared_result(self) -> int {
        self as int
    }

    fn square(self) -> (r: u32) {
        self * self
    }
}

impl Square for u64 {
    open spec fn square_fits(self) -> bool {
        u64::MIN <= self * self <= u64::MAX
    }

    open spec fn squared(self) -> int {
        self * self
    }

    open spec fn squared_result(self) -> int {
        self as int
    }

    fn square(self) -> (r: u64) {
        self * self
    }
}

impl Square for i32 {
    open spec fn square_fits(self) -> bool {
        i32::MIN <= self * self <= i32::MAX
    }

    open spec fn squared(self) -> int {
        self * self
    }

    open spec fn squared_result(self) -> int {
        self as int
    }

    fn square(self) -> (r: i32) {
        self * self
    }
}

impl Square for i64 {
    open spec fn square_fits(self) -> bool {
        i64::MIN <= self * self <= i64::MAX
    }

    open spec fn squared(self) -> int {
        self * self
    }

    open spec fn squared_result(self) -> int {
        self as int
    }

    fn square(self) -> (r: i64) {
        self * self
    }
}

/// Folding a value back into a closed range, wrapping around either end.
pub trait Overlap: Sized {
    /// When the fold is defined: an ordered range, with everything far
    /// enough from the type's ends that the arithmetic stays in bounds.
    spec fn overlap_ok(self, min: Self, max: Self) -> bool;

    /// Where the fold lands.
    spec fn overlapped(self, min: Self, max: Self) -> int;

    fn overlap(self, min: Self, max: Self) -> (r: Self)
        requires
            self.overlap_ok(min, max),
        ensures
            r.overlap_result() == self.overlapped(min, max),
    ;

    /// The returned value read back as a mathematical integer.
    spec fn overlap_result(self) -> int;
}

impl Overlap for i64 {
    open spec fn overlap_ok(self, min: i64, max: i64) -> bool {
        &&& min <= max
        &&& max - min < i64::MAX
        &&& min > i64::MIN / 2
        &&& max < i64::MAX / 2
        &&& self > i64::MIN / 2
        &&& self < i64::MAX / 2
    }

    open spec fn overlapped(self, min: i64, max: i64) -> int {
        if self > max {
            min + (self - max - 1) % (max - min + 1)
        } else if self < min {
            max - (min - self - 1) % (max - min + 1)
        } else {
            self as int
        }
    }

    open spec fn overlap_result(self) -> int {
        self as int
    }

    fn overlap(self, min: i64, max: i64) -> (r: i64) {
        proof {
            vstd::arithmetic::div_mod::lemma_mod_bound(
                if self > max {
                    self - max - 1
                } else {
                    min - self - 1
                },
                max - min + 1,
            );
        }
        if self > max {
            min + (self - max - 1) % (max - min + 1)
        } else if self < min {
            max - (min - self - 1) % (max - min + 1)
        } else {
            self
        }
    }
}

/// Choosing one of two values by a condition, written postfix.
pub trait TetrahedronOp {
    fn yn<T>(self, yes: T, no: T) -> T;
}

impl TetrahedronOp for bool {
    fn yn<T>(self, yes: T, no: T) -> (r: T)
        ensures
            r == if self {
                yes
            } else {
                no
            },
    {
        if self {
            yes
        } else {
            no
        }
    }
}

/// Pre- and post-increment and -decrement, as methods. `inc` and `dec`
/// return the new value, their `post_` forms the old one.
pub trait IncDec: Sized {
    /// Room to count up.
    spec fn can_inc(&self) -> bool;

    /// Room to count down.
    spec fn can_dec(&self) -> bool;

    /// The value read as a mathematical integer.
    spec fn reading(&self) -> int;

    fn inc(&mut self) -> (r: Self)
        requires
            old(self).can_inc(),
        ensures
            final(self).reading() == old(self).reading() + 1,
            r.reading() == final(self).reading(),
    ;

    fn post_inc(&mut self) -> (r: Self)
        requires
            old(self).can_inc(),
        ensures
            final(self).reading() == old(self).reading() + 1,
            r.reading() == old(self).reading(),
    ;

    fn dec(&mut self) -> (r: Self)
        requires
            old(self).can_dec(),
        ensures
            final(self).reading() == old(self).reading() - 1,
            r.reading() == final(self).reading(),
    ;

    fn post_dec(&mut self) -> (r: Self)
        requires
            old(self).can_dec(),
        ensures
            final(self).reading() == old(self).reading() - 1,
            r.reading() == old(self).reading(),
    ;
}

impl IncDec for u64 {
    open spec fn can_inc(&self) -> bool {
        *self < u64::MAX
    }

    open spec fn can_dec(&self) -> bool {
        *self > 0
    }

    open spec fn reading(&self) -> int {
        *self as int
    }

    fn inc(&mut self) -> (r: u64) {
        *self = *self + 1;
        *self
    }

    fn post_inc(&mut self) -> (r: u64) {
        let ret = *self;
        *self = *self + 1;
        ret
    }

    fn dec(&mut self) -> (r: u64) {
        *self = *self - 1;
        *self
    }

    fn post_dec(&mut self) -> (r: u64) {
        let ret = *self;
        *self = *self - 1;
        ret
    }
}

impl IncDec for i64 {
    open spec fn can_inc(&self) -> bool {
        *self < i64::MAX
    }

    open spec fn can_dec(&self) -> bool {
        *self > i64::MIN
    }

    open spec fn reading(&self) -> int {
        *self as int
    }

    fn inc(&mut self) -> (r: i64) {
        *self = *self + 1;
        *self
    }

    fn post_inc(&mut self) -> (r: i64) {
        let ret = *self;
        *self = *self + 1;
        ret
    }

    fn dec(&mut self) -> (r: i64) {
        *self = *self - 1;
        *self
    }

    fn post_dec(&mut self) -> (r: i64) {
        let ret = *self;
        *self = *self - 1;
        ret
    }
}

impl IncDec for usize {
    open spec fn can_inc(&self) -> bool {
        *self < usize::MAX
    }

    open spec fn can_dec(&self) -> bool {
        *self > 0
    }

    open spec fn reading(&self) -> int {
        *self as int
    }

    fn inc(&mut self) -> (r: usize) {
        *self = *self + 1;
        *self
    }

    fn post_inc(&mut self) -> (r: usize) {
        let ret = *self;
        *self = *self + 1;
        ret
    }

    fn dec(&mut self) -> (r: usize) {
        *self = *self - 1;
        *self
    }

    fn post_dec(&mut self) -> (r: usize) {
        let ret = *self;
        *self = *self - 1;
        ret
    }
}

/// Values that can check themselves.
pub trait Verify {
    fn verify(&self) -> bool;
}

/// The wall clock as a plain integer.
pub trait Time: Sized {
    fn time_millis() -> Self;

    fn time_nanos() -> Self;
}

/// Relies on SystemTime::now and duration_since(UNIX_EPOCH): the wall
/// clock's reading, which no contract can pin down.
#[verifier::external_body]
pub(crate) fn wall_clock_millis_nanos() -> (u128, u128) {
    match std::time::SystemTime::now().duration_since(std::time::UNIX_EPOCH) {
        Ok(d) => (d.as_millis(), d.as_nanos()),
        Err(_) => (0, 0),
    }
}

impl Time for u128 {
    fn time_millis() -> u128 {
        let (millis, _) = wall_clock_millis_nanos();
        millis
    }

    fn time_nanos() -> u128 {
        let (_, nanos) = wall_clock_millis_nanos();
        nanos
    }
}

/// How a deployment wants failures surfaced.
pub enum PanicStyle {
    Normal,
    ForceExit,
    Abort,
}


/// The decimal digits of a number, most significant first.
pub open spec fn dec_digits(n: nat) -> Seq<char>
    decreases n,
{
    if n < 10 {
        seq![dec_digit(n)]
    } else {
        dec_digits(n / 10) + seq![dec_digit(n % 10)]
    }
}

/// The character of one decimal digit.
pub open spec fn dec_digit(d: nat) -> char {
    if d == 0 {
        '0'
    } else if d == 1 {
        '1'
    } else if d == 2 {
        '2'
    } else if d == 3 {
        '3'
    } else if d == 4 {
        '4'
    } else if d == 5 {
        '5'
    } else if d == 6 {
        '6'
    } else if d == 7 {
        '7'
    } else if d == 8 {
        '8'
    } else {
        '9'
    }
}

fn dec_digit_str(d: u32) -> (r: &'static str)
    requires
        d < 10,
    ensures
        r@ == seq![dec_digit(d as nat)],
{
    let s = match d {
        0 => "0",
        1 => "1",
        2 => "2",
        3 => "3",
        4 => "4",
        5 => "5",
        6 => "6",
        7 => "7",
        8 => "8",
        _ => "9",
    };
    proof {
        reveal_strlit("0");
        reveal_strlit("1");
        reveal_strlit("2");
        reveal_strlit("3");
        reveal_strlit("4");
        reveal_strlit("5");
        reveal_strlit("6");
        reveal_strlit("7");
        reveal_strlit("8");
        reveal_strlit("9");
        assert(s@ =~= seq![dec_digit(d as nat)]);
    }
    s
}

/// A number written out in decimal.
pub fn dec_string(n: u32) -> (r: String)
    ensures
        r@ == dec_digits(n as nat),
{
    let mut out = String::new();
    let mut v = n;
    proof {
        assert(out@ =~= Seq::<char>::empty());
    }
    loop
        invariant
            dec_digits(n as nat) == dec_digits(v as nat) + out@,
        decreases v,
    {
        let ghost prev = out@;
        let d = dec_digit_str(v % 10);
        let next = d.to_owned().concat(out.as_str());
        out = next;
        if v < 10 {
            proof {
                assert(dec_digits(v as nat) == seq![dec_digit(v as nat)]);
                assert(dec_digits(v as nat) + prev =~= out@);
            }
            return out;
        }
        proof {
            assert(dec_digits(v as nat) == dec_digits((v as nat) / 10) + seq![
                dec_digit((v as nat) % 10),
            ]);
            assert((dec_digits((v as nat) / 10) + seq![dec_digit((v as nat) % 10)]) + prev
                =~= dec_digits((v as nat) / 10) + out@);
            assert((v / 10) as nat == (v as nat) / 10);
        }
        v = v / 10;
    }
}

/// The letters of a bijective base-26 column key, most significant first:
/// 0 is "a", 25 is "z", 26 is "aa".
pub open spec fn key_letters(n: nat) -> Seq<char>
    decreases n,
{
    if n < 26 {
        seq![key_letter(n)]
    } else {
        key_letters((n / 26 - 1) as nat) + seq![key_letter(n % 26)]
    }
}

/// The letter of one base-26 digit.
pub open spec fn key_letter(d: nat) -> char {
    if d == 0 {
        'a'
    } else if d == 1 {
        'b'
    } else if d == 2 {
        'c'
    } else if d == 3 {
        'd'
    } else if d == 4 {
        'e'
    } else if d == 5 {
        'f'
    } else if d == 6 {
        'g'
    } else if d == 7 {
        'h'
    } else if d == 8 {
        'i'
    } else if d == 9 {
        'j'
    } else if d == 10 {
        'k'
    } else if d == 11 {
        'l'
    } else if d == 12 {
        'm'
    } else if d == 13 {
        'n'
    } else if d == 14 {
        'o'
    } else if d == 15 {
        'p'
    } else if d == 16 {
        'q'
    } else if d == 17 {
        'r'
    } else if d == 18 {
        's'
    } else if d == 19 {
        't'
    } else if d == 20 {
        'u'
    } else if d == 21 {
        'v'
    } else if d == 22 {
        'w'
    } else if d == 23 {
        'x'
    } else if d == 24 {
        'y'
    } else {
        'z'
    }
}

fn key_letter_str(d: u32) -> (r: &'static str)
    requires
        d < 26,
    ensures
        r@ == seq![key_letter(d as nat)],
{
    let s = match d {
        0 => "a",
        1 => "b",
        2 => "c",
        3 => "d",
        4 => "e",
        5 => "f",
        6 => "g",
        7 => "h",
        8 => "i",
        9 => "j",
        10 => "k",
        11 => "l",
        12 => "m",
        13 => "n",
        14 => "o",
        15 => "p",
        16 => "q",
        17 => "r",
        18 => "s",
        19 => "t",
        20 => "u",
        21 => "v",
        22 => "w",
        23 => "x",
        24 => "y",
        _ => "z",
    };
    proof {
        reveal_strlit("a");
        reveal_strlit("b");
        reveal_strlit("c");
        reveal_strlit("d");
        reveal_strlit("e");
        reveal_strlit("f");
        reveal_strlit("g");
        reveal_strlit("h");
        reveal_strlit("i");
        reveal_strlit("j");
        reveal_strlit("k");
        reveal_strlit("l");
        reveal_strlit("m");
        reveal_strlit("n");
        reveal_strlit("o");
        reveal_strlit("p");
        reveal_strlit("q");
        reveal_strlit("r");
        reveal_strlit("s");
        reveal_strlit("t");
        reveal_strlit("u");
        reveal_strlit("v");
        reveal_strlit("w");
        reveal_strlit("x");
        reveal_strlit("y");
        reveal_strlit("z");
        assert(s@ =~= seq![key_letter(d as nat)]);
    }
    s
}

/// The bijective base-26 key for a column number: "a", "b", ..., "z",
/// "aa", "ab", and so on.
pub fn key(n: u32) -> (r: String)
    ensures
        r@ == key_letters(n as nat),
{
    let mut out = String::new();
    let mut v = n;
    proof {
        assert(out@ =~= Seq::<char>::empty());
    }
    loop
        invariant
            key_letters(n as nat) == key_letters(v as nat) + out@,
        decreases v,
    {
        let ghost prev = out@;
        let d = key_letter_str(v % 26);
        let next = d.to_owned().concat(out.as_str());
        out = next;
        if v < 26 {
            proof {
                assert(key_letters(v as nat) == seq![key_letter(v as nat)]);
                assert(key_letters(v as nat) + prev =~= out@);
            }
            return out;
        }
        proof {
            assert(key_letters(v as nat) == key_letters(((v as nat) / 26 - 1) as nat) + seq![
                key_letter((v as nat) % 26),
            ]);
            assert((key_letters(((v as nat) / 26 - 1) as nat) + seq![key_letter((v as nat) % 26)]) + prev
                =~= key_letters(((v as nat) / 26 - 1) as nat) + out@);
            assert((v / 26 - 1) as nat == ((v as nat) / 26 - 1) as nat);
        }
        v = v / 26 - 1;
    }
}

} // verus!
