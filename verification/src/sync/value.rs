//! The values that atomics hold and channels carry: how they are compared and shown.

use vstd::prelude::*;

verus! {

/// A value with a printed form, which is what labels show.
pub trait Render: Sized {
    /// The printed form.
    spec fn text(&self) -> Seq<char>;

    /// The printed form.
    fn render(&self) -> (s: String)
        ensures
            s@ == self.text(),
    ;
}

/// A value that an atomic cell can hold: copyable, comparable and printable.
pub trait Value: Render + Copy {
    /// Whether two values are equal.
    fn same(&self, other: &Self) -> (b: bool)
        ensures
            b == (*self == *other),
    ;
}

/// The decimal digit `d`.
pub open spec fn digit(d: nat) -> Seq<char> {
    if d == 0 {
        "0"@
    } else if d == 1 {
        "1"@
    } else if d == 2 {
        "2"@
    } else if d == 3 {
        "3"@
    } else if d == 4 {
        "4"@
    } else if d == 5 {
        "5"@
    } else if d == 6 {
        "6"@
    } else if d == 7 {
        "7"@
    } else if d == 8 {
        "8"@
    } else {
        "9"@
    }
}

/// The decimal form of a natural number.
pub open spec fn decimal(n: nat) -> Seq<char>
    decreases n,
{
    if n < 10 {
        digit(n)
    } else {
        decimal(n / 10) + digit(n % 10)
    }
}

/// The decimal form of an integer.
pub open spec fn signed_decimal(n: int) -> Seq<char> {
    if n < 0 {
        "-"@ + decimal((-n) as nat)
    } else {
        decimal(n as nat)
    }
}

fn digit_str(d: u64) -> (s: &'static str)
    requires
        d < 10,
    ensures
        s@ == digit(d as nat),
{
    match d {
        0 => "0",
        1 => "1",
        2 => "2",
        3 => "3",
        4 => "4",
        5 => "5",
        6 => "6",
        7 => "7",
        8 => "8",
        _ => "9",
    }
}

/// Appends the decimal form of `n` to `s`.
pub fn append_decimal(s: &mut String, n: u64)
    ensures
        final(s)@ == old(s)@ + decimal(n as nat),
    decreases n,
{
    if n < 10 {
        s.append(digit_str(n));
    } else {
        append_decimal(s, n / 10);
        s.append(digit_str(n % 10));
        assert(s@ =~= old(s)@ + (decimal(n as nat / 10) + digit(n as nat % 10)));
    }
}

fn unsigned(n: u64) -> (s: String)
    ensures
        s@ == decimal(n as nat),
{
    let mut s = String::from_str("");
    append_decimal(&mut s, n);
    proof {
        reveal_strlit("");
        assert(s@ =~= decimal(n as nat));
    }
    s
}

fn signed(n: i64) -> (s: String)
    ensures
        s@ == signed_decimal(n as int),
{
    if n < 0 {
        let mut s = String::from_str("-");
        if n == i64::MIN {
            append_decimal(&mut s, 9223372036854775808u64);
        } else {
            append_decimal(&mut s, (-n) as u64);
        }
        s
    } else {
        unsigned(n as u64)
    }
}

impl Render for u8 {
    open spec fn text(&self) -> Seq<char> {
        decimal(*self as nat)
    }

    fn render(&self) -> (s: String) {
        unsigned(*self as u64)
    }
}

impl Value for u8 {
    fn same(&self, other: &Self) -> (b: bool) {
        *self == *other
    }
}

impl Render for u16 {
    open spec fn text(&self) -> Seq<char> {
        decimal(*self as nat)
    }

    fn render(&self) -> (s: String) {
        unsigned(*self as u64)
    }
}

impl Value for u16 {
    fn same(&self, other: &Self) -> (b: bool) {
        *self == *other
    }
}

impl Render for u32 {
    open spec fn text(&self) -> Seq<char> {
        decimal(*self as nat)
    }

    fn render(&self) -> (s: String) {
        unsigned(*self as u64)
    }
}

impl Value for u32 {
    fn same(&self, other: &Self) -> (b: bool) {
        *self == *other
    }
}

impl Render for u64 {
    open spec fn text(&self) -> Seq<char> {
        decimal(*self as nat)
    }

    fn render(&self) -> (s: String) {
        unsigned(*self)
    }
}

impl Value for u64 {
    fn same(&self, other: &Self) -> (b: bool) {
        *self == *other
    }
}

impl Render for usize {
    open spec fn text(&self) -> Seq<char> {
        decimal(*self as nat)
    }

    fn render(&self) -> (s: String) {
        unsigned(*self as u64)
    }
}

impl Value for usize {
    fn same(&self, other: &Self) -> (b: bool) {
        *self == *other
    }
}

impl Render for i8 {
    open spec fn text(&self) -> Seq<char> {
        signed_decimal(*self as int)
    }

    fn render(&self) -> (s: String) {
        signed(*self as i64)
    }
}

impl Value for i8 {
    fn same(&self, other: &Self) -> (b: bool) {
        *self == *other
    }
}

impl Render for i16 {
    open spec fn text(&self) -> Seq<char> {
        signed_decimal(*self as int)
    }

    fn render(&self) -> (s: String) {
        signed(*self as i64)
    }
}

impl Value for i16 {
    fn same(&self, other: &Self) -> (b: bool) {
        *self == *other
    }
}

impl Render for i32 {
    open spec fn text(&self) -> Seq<char> {
        signed_decimal(*self as int)
    }

    fn render(&self) -> (s: String) {
        signed(*self as i64)
    }
}

impl Value for i32 {
    fn same(&self, other: &Self) -> (b: bool) {
        *self == *other
    }
}

impl Render for i64 {
    open spec fn text(&self) -> Seq<char> {
        signed_decimal(*self as int)
    }

    fn render(&self) -> (s: String) {
        signed(*self)
    }
}

impl Value for i64 {
    fn same(&self, other: &Self) -> (b: bool) {
        *self == *other
    }
}

impl Render for isize {
    open spec fn text(&self) -> Seq<char> {
        signed_decimal(*self as int)
    }

    fn render(&self) -> (s: String) {
        signed(*self as i64)
    }
}

impl Value for isize {
    fn same(&self, other: &Self) -> (b: bool) {
        *self == *other
    }
}

impl Render for bool {
    open spec fn text(&self) -> Seq<char> {
        if *self {
            "true"@
        } else {
            "false"@
        }
    }

    fn render(&self) -> (s: String) {
        if *self {
            String::from_str("true")
        } else {
            String::from_str("false")
        }
    }
}

impl Value for bool {
    fn same(&self, other: &Self) -> (b: bool) {
        *self == *other
    }
}

impl Render for () {
    open spec fn text(&self) -> Seq<char> {
        "()"@
    }

    fn render(&self) -> (s: String) {
        String::from_str("()")
    }
}

/// The quoted form of a text: what the `Debug` implementation of `str` prints of it.
pub uninterp spec fn quoted(text: Seq<char>) -> Seq<char>;

/// Prints `s` with `{:?}`, that is with the `Debug` implementation of `str`. Nothing is claimed but
/// that what it prints depends on the characters of `s` alone; which characters it escapes, and how,
/// is left unsaid.
#[verifier::external_body]
fn debug_str(s: &str) -> (r: String)
    ensures
        r@ == quoted(s@),
{
    format!("{:?}", s)
}

/// A string prints in quotes.
impl Render for String {
    open spec fn text(&self) -> Seq<char> {
        quoted(self@)
    }

    fn render(&self) -> (s: String) {
        debug_str(self.as_str())
    }
}

/// A pair prints as `(a, b)`.
impl<A: Render, B: Render> Render for (A, B) {
    open spec fn text(&self) -> Seq<char> {
        "("@ + self.0.text() + ", "@ + self.1.text() + ")"@
    }

    fn render(&self) -> (s: String) {
        let mut s = String::from_str("(");
        s.append(self.0.render().as_str());
        s.append(", ");
        s.append(self.1.render().as_str());
        s.append(")");
        s
    }
}

} // verus!
