//! Keys of virtual nodes, and the decimal text that integer keys are made of.

use vstd::prelude::*;
use vstd::string::StringExecFns;

verus! {

/// The decimal digit character of `d` (0 to 9).
pub open spec fn digit_char(d: nat) -> char {
    if d == 0 {
        '0'
    } else if d == 1 {
        '1'
    } else if d == 2 {
        '2'
    } else if d == 3 {
        '3'
    } else if d == 4 {
        '4'
    } else if d == 5 {
        '5'
    } else if d == 6 {
        '6'
    } else if d == 7 {
        '7'
    } else if d == 8 {
        '8'
    } else {
        '9'
    }
}

/// The decimal text of a natural number, most significant digit first and
/// without leading zeros.
pub open spec fn decimal(n: nat) -> Seq<char>
    decreases n,
{
    if n < 10 {
        seq![digit_char(n)]
    } else {
        decimal(n / 10).push(digit_char(n % 10))
    }
}

/// The decimal text of an integer: a leading `-` for negative numbers.
pub open spec fn signed_decimal(i: int) -> Seq<char> {
    if i < 0 {
        seq!['-'] + decimal((-i) as nat)
    } else {
        decimal(i as nat)
    }
}

fn digit_str(d: u128) -> (s: &'static str)
    requires
        d < 10,
    ensures
        s@ == seq![digit_char(d as nat)],
{
    proof {
        reveal_strlit("0");
        reveal_strlit("1");
        reveal_strlit("2");
        reveal_strlit("3");
        reveal_strlit("4");
        reveal_strlit("5");
        reveal_strlit("6");
        reveal_strlit("7");
        reveal_strlit("8");
        reveal_strlit("9");
    }
    if d == 0 {
        "0"
    } else if d == 1 {
        "1"
    } else if d == 2 {
        "2"
    } else if d == 3 {
        "3"
    } else if d == 4 {
        "4"
    } else if d == 5 {
        "5"
    } else if d == 6 {
        "6"
    } else if d == 7 {
        "7"
    } else if d == 8 {
        "8"
    } else {
        "9"
    }
}

/// The decimal text of an unsigned integer, as `to_string` writes it.
pub fn decimal_string(n: u128) -> (s: String)
    ensures
        s@ == decimal(n as nat),
    decreases n,
{
    if n < 10 {
        String::from_str(digit_str(n))
    } else {
        let mut s = decimal_string(n / 10);
        s.append(digit_str(n % 10));
        s
    }
}

/// The decimal text of a signed integer, as `to_string` writes it.
pub fn signed_decimal_string(i: i128) -> (s: String)
    ensures
        s@ == signed_decimal(i as int),
{
    if i < 0 {
        let magnitude: u128 = ((-(i + 1)) as u128) + 1;
        proof {
            reveal_strlit("-");
        }
        let s = String::from_str("-");
        s.concat(decimal_string(magnitude).as_str())
    } else {
        decimal_string(i as u128)
    }
}

/// Represents the (optional) key of virtual nodes.
#[derive(Debug, Eq, Hash, PartialOrd, Ord)]
pub struct Key {
    key: String,
}

impl View for Key {
    type V = Seq<char>;

    closed spec fn view(&self) -> Seq<char> {
        self.key@
    }
}

impl Clone for Key {
    fn clone(&self) -> (r: Self)
        ensures
            r@ == self@,
    {
        Key { key: self.key.clone() }
    }
}

impl PartialEq for Key {
    fn eq(&self, other: &Self) -> (r: bool) {
        self.key == other.key
    }
}

impl vstd::std_specs::cmp::PartialEqSpecImpl for Key {
    open spec fn obeys_eq_spec() -> bool {
        true
    }

    open spec fn eq_spec(&self, other: &Self) -> bool {
        self@ == other@
    }
}

impl Key {
    /// A key with the given text.
    pub fn from_str(key: &str) -> (k: Key)
        ensures
            k@ == key@,
    {
        Key { key: key.to_owned() }
    }

    /// A key that takes over the given string.
    pub fn from_string(key: String) -> (k: Key)
        ensures
            k@ == key@,
    {
        Key { key }
    }

    /// A key made of the decimal text of an unsigned integer.
    pub fn from_unsigned(key: u128) -> (k: Key)
        ensures
            k@ == decimal(key as nat),
    {
        Key { key: decimal_string(key) }
    }

    /// A key made of the decimal text of a signed integer.
    pub fn from_signed(key: i128) -> (k: Key)
        ensures
            k@ == signed_decimal(key as int),
    {
        Key { key: signed_decimal_string(key) }
    }

    /// The key text.
    pub fn as_str(&self) -> (s: &str)
        ensures
            s@ == self@,
    {
        self.key.as_str()
    }

    /// The key text as an owned string.
    pub fn to_string(&self) -> (s: String)
        ensures
            s@ == self@,
    {
        self.key.clone()
    }
}

/// Compares two keys by their text.
pub fn key_eq(a: &Key, b: &Key) -> (r: bool)
    ensures
        r == (a@ == b@),
{
    a.key == b.key
}

/// A key with the text of a string slice (see [`Key::from_str`]).
impl From<&str> for Key {
    fn from(key: &str) -> (k: Key)
        ensures
            k@ == key@,
    {
        Key::from_str(key)
    }
}

impl vstd::std_specs::convert::FromSpecImpl<&str> for Key {
    open spec fn obeys_from_spec() -> bool {
        false
    }

    open spec fn from_spec(v: &str) -> Key {
        vstd::pervasive::arbitrary()
    }
}

/// A key that takes over a string (see [`Key::from_string`]).
impl From<String> for Key {
    fn from(key: String) -> (k: Key)
        ensures
            k@ == key@,
    {
        Key::from_string(key)
    }
}

impl vstd::std_specs::convert::FromSpecImpl<String> for Key {
    open spec fn obeys_from_spec() -> bool {
        false
    }

    open spec fn from_spec(v: String) -> Key {
        vstd::pervasive::arbitrary()
    }
}

/// A key made of the decimal text of a `u8` (see [`Key::from_unsigned`]).
impl From<u8> for Key {
    fn from(key: u8) -> (k: Key)
        ensures
            k@ == decimal(key as nat),
    {
        Key::from_unsigned(key as u128)
    }
}

impl vstd::std_specs::convert::FromSpecImpl<u8> for Key {
    open spec fn obeys_from_spec() -> bool {
        false
    }

    open spec fn from_spec(v: u8) -> Key {
        vstd::pervasive::arbitrary()
    }
}

/// A key made of the decimal text of a `u16` (see [`Key::from_unsigned`]).
impl From<u16> for Key {
    fn from(key: u16) -> (k: Key)
        ensures
            k@ == decimal(key as nat),
    {
        Key::from_unsigned(key as u128)
    }
}

impl vstd::std_specs::convert::FromSpecImpl<u16> for Key {
    open spec fn obeys_from_spec() -> bool {
        false
    }

    open spec fn from_spec(v: u16) -> Key {
        vstd::pervasive::arbitrary()
    }
}

/// A key made of the decimal text of a `u32` (see [`Key::from_unsigned`]).
impl From<u32> for Key {
    fn from(key: u32) -> (k: Key)
        ensures
            k@ == decimal(key as nat),
    {
        Key::from_unsigned(key as u128)
    }
}

impl vstd::std_specs::convert::FromSpecImpl<u32> for Key {
    open spec fn obeys_from_spec() -> bool {
        false
    }

    open spec fn from_spec(v: u32) -> Key {
        vstd::pervasive::arbitrary()
    }
}

/// A key made of the decimal text of a `u64` (see [`Key::from_unsigned`]).
impl From<u64> for Key {
    fn from(key: u64) -> (k: Key)
        ensures
            k@ == decimal(key as nat),
    {
        Key::from_unsigned(key as u128)
    }
}

impl vstd::std_specs::convert::FromSpecImpl<u64> for Key {
    open spec fn obeys_from_spec() -> bool {
        false
    }

    open spec fn from_spec(v: u64) -> Key {
        vstd::pervasive::arbitrary()
    }
}

/// A key made of the decimal text of a `u128` (see [`Key::from_unsigned`]).
impl From<u128> for Key {
    fn from(key: u128) -> (k: Key)
        ensures
            k@ == decimal(key as nat),
    {
        Key::from_unsigned(key)
    }
}

impl vstd::std_specs::convert::FromSpecImpl<u128> for Key {
    open spec fn obeys_from_spec() -> bool {
        false
    }

    open spec fn from_spec(v: u128) -> Key {
        vstd::pervasive::arbitrary()
    }
}

/// A key made of the decimal text of a `usize` (see [`Key::from_unsigned`]).
impl From<usize> for Key {
    fn from(key: usize) -> (k: Key)
        ensures
            k@ == decimal(key as nat),
    {
        Key::from_unsigned(key as u128)
    }
}

impl vstd::std_specs::convert::FromSpecImpl<usize> for Key {
    open spec fn obeys_from_spec() -> bool {
        false
    }

    open spec fn from_spec(v: usize) -> Key {
        vstd::pervasive::arbitrary()
    }
}

/// A key made of the decimal text of an `i8` (see [`Key::from_signed`]).
impl From<i8> for Key {
    fn from(key: i8) -> (k: Key)
        ensures
            k@ == signed_decimal(key as int),
    {
        Key::from_signed(key as i128)
    }
}

impl vstd::std_specs::convert::FromSpecImpl<i8> for Key {
    open spec fn obeys_from_spec() -> bool {
        false
    }

    open spec fn from_spec(v: i8) -> Key {
        vstd::pervasive::arbitrary()
    }
}

/// A key made of the decimal text of an `i16` (see [`Key::from_signed`]).
impl From<i16> for Key {
    fn from(key: i16) -> (k: Key)
        ensures
            k@ == signed_decimal(key as int),
    {
        Key::from_signed(key as i128)
    }
}

impl vstd::std_specs::convert::FromSpecImpl<i16> for Key {
    open spec fn obeys_from_spec() -> bool {
        false
    }

    open spec fn from_spec(v: i16) -> Key {
        vstd::pervasive::arbitrary()
    }
}

/// A key made of the decimal text of an `i32` (see [`Key::from_signed`]).
impl From<i32> for Key {
    fn from(key: i32) -> (k: Key)
        ensures
            k@ == signed_decimal(key as int),
    {
        Key::from_signed(key as i128)
    }
}

impl vstd::std_specs::convert::FromSpecImpl<i32> for Key {
    open spec fn obeys_from_spec() -> bool {
        false
    }

    open spec fn from_spec(v: i32) -> Key {
        vstd::pervasive::arbitrary()
    }
}

/// A key made of the decimal text of an `i64` (see [`Key::from_signed`]).
impl From<i64> for Key {
    fn from(key: i64) -> (k: Key)
        ensures
            k@ == signed_decimal(key as int),
    {
        Key::from_signed(key as i128)
    }
}

impl vstd::std_specs::convert::FromSpecImpl<i64> for Key {
    open spec fn obeys_from_spec() -> bool {
        false
    }

    open spec fn from_spec(v: i64) -> Key {
        vstd::pervasive::arbitrary()
    }
}

/// A key made of the decimal text of an `i128` (see [`Key::from_signed`]).
impl From<i128> for Key {
    fn from(key: i128) -> (k: Key)
        ensures
            k@ == signed_decimal(key as int),
    {
        Key::from_signed(key)
    }
}

impl vstd::std_specs::convert::FromSpecImpl<i128> for Key {
    open spec fn obeys_from_spec() -> bool {
        false
    }

    open spec fn from_spec(v: i128) -> Key {
        vstd::pervasive::arbitrary()
    }
}

/// A key made of the decimal text of an `isize` (see [`Key::from_signed`]).
impl From<isize> for Key {
    fn from(key: isize) -> (k: Key)
        ensures
            k@ == signed_decimal(key as int),
    {
        Key::from_signed(key as i128)
    }
}

impl vstd::std_specs::convert::FromSpecImpl<isize> for Key {
    open spec fn obeys_from_spec() -> bool {
        false
    }

    open spec fn from_spec(v: isize) -> Key {
        vstd::pervasive::arbitrary()
    }
}

} // verus!
