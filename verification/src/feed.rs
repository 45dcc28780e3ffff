//! The ticket feed.
//!
//! Mints a strictly increasing sequence of tickets.  Each ticket's uid is
//! the feed's counter rendered as lowercase hexadecimal, zero-padded on
//! the left to at least eight digits; the collection itself never relies
//! on the uid's shape, only on its being a display string.

use vstd::prelude::*;
use crate::collection::TicketItem;

verus! {

/// The character for one hexadecimal digit value, lowercase.
pub open spec fn hex_digit(d: int) -> char {
    if d == 0 {
        '0'
    } else if d == 1 {
        '1'
    } else if d == 2 {
        '2'
    } else if d == 3 {
        '3'
    } else if d == 4 {
        '4'
    } else if d == 5 {
        '5'
    } else if d == 6 {
        '6'
    } else if d == 7 {
        '7'
    } else if d == 8 {
        '8'
    } else if d == 9 {
        '9'
    } else if d == 10 {
        'a'
    } else if d == 11 {
        'b'
    } else if d == 12 {
        'c'
    } else if d == 13 {
        'd'
    } else if d == 14 {
        'e'
    } else {
        'f'
    }
}

/// The hexadecimal digits of `n`, most significant first, without leading
/// zeros (`0` itself is one zero digit).
pub open spec fn hex_digits(n: nat) -> Seq<char>
    decreases n,
{
    if n < 16 {
        seq![hex_digit(n as int)]
    } else {
        hex_digits(n / 16).push(hex_digit((n % 16) as int))
    }
}

/// `n` rendered as the feed prints a uid: lowercase hexadecimal digits,
/// zero-padded on the left to at least eight characters.
pub open spec fn uid_chars(n: nat) -> Seq<char> {
    let d = hex_digits(n);
    if d.len() >= 8 {
        d
    } else {
        Seq::new((8 - d.len()) as nat, |i: int| '0') + d
    }
}

/// The numeric value of one lowercase hexadecimal digit character; any
/// other character counts as zero.
pub open spec fn hex_digit_val(c: char) -> nat {
    if c == '1' {
        1
    } else if c == '2' {
        2
    } else if c == '3' {
        3
    } else if c == '4' {
        4
    } else if c == '5' {
        5
    } else if c == '6' {
        6
    } else if c == '7' {
        7
    } else if c == '8' {
        8
    } else if c == '9' {
        9
    } else if c == 'a' {
        10
    } else if c == 'b' {
        11
    } else if c == 'c' {
        12
    } else if c == 'd' {
        13
    } else if c == 'e' {
        14
    } else if c == 'f' {
        15
    } else {
        0
    }
}

/// The number a sequence of hexadecimal digit characters denotes, most
/// significant digit first.
pub open spec fn hex_val(s: Seq<char>) -> nat
    decreases s.len(),
{
    if s.len() == 0 {
        0
    } else {
        hex_val(s.drop_last()) * 16 + hex_digit_val(s.last())
    }
}

/// Rendering and reading back are inverse: the digits of `n` denote `n`.
proof fn lemma_hex_digits_val(n: nat)
    ensures
        hex_val(hex_digits(n)) == n,
    decreases n,
{
    if n < 16 {
        assert(hex_digits(n).drop_last() =~= Seq::<char>::empty());
        assert(hex_val(Seq::<char>::empty()) == 0);
        assert(hex_digits(n).last() == hex_digit(n as int));
        assert(hex_digit_val(hex_digit(n as int)) == n);
    } else {
        lemma_hex_digits_val(n / 16);
        assert(hex_digits(n).drop_last() =~= hex_digits(n / 16));
        assert(hex_digits(n).last() == hex_digit((n % 16) as int));
        assert(hex_digit_val(hex_digit((n % 16) as int)) == n % 16);
        assert(n / 16 * 16 + n % 16 == n) by (nonlinear_arith);
    }
}

/// A run of zero characters denotes zero.
proof fn lemma_hex_val_zeros(z: Seq<char>)
    requires
        forall|i: int| 0 <= i < z.len() ==> z[i] == '0',
    ensures
        hex_val(z) == 0,
    decreases z.len(),
{
    if z.len() > 0 {
        lemma_hex_val_zeros(z.drop_last());
    }
}

/// Zero-padding on the left does not change what the digits denote.
proof fn lemma_hex_val_padded(z: Seq<char>, d: Seq<char>)
    requires
        forall|i: int| 0 <= i < z.len() ==> z[i] == '0',
    ensures
        hex_val(z + d) == hex_val(d),
    decreases d.len(),
{
    if d.len() == 0 {
        assert(z + d =~= z);
        lemma_hex_val_zeros(z);
    } else {
        lemma_hex_val_padded(z, d.drop_last());
        assert((z + d).drop_last() =~= z + d.drop_last());
        assert((z + d).last() == d.last());
    }
}

/// The padded uid denotes its counter value.
proof fn lemma_uid_chars_val(n: nat)
    ensures
        hex_val(uid_chars(n)) == n,
{
    lemma_hex_digits_val(n);
    if hex_digits(n).len() < 8 {
        lemma_hex_val_padded(
            Seq::new((8 - hex_digits(n).len()) as nat, |i: int| '0'),
            hex_digits(n),
        );
    }
}

/// Uids are unique: two different counter values never render as the same
/// uid, so a feed whose counter only moves up never repeats one.
pub proof fn lemma_uid_chars_injective(a: nat, b: nat)
    requires
        uid_chars(a) == uid_chars(b),
    ensures
        a == b,
{
    lemma_uid_chars_val(a);
    lemma_uid_chars_val(b);
}

/// Relies on String::push: appends the one character at the end of the
/// string.
#[verifier::external_body]
fn push_char(s: &mut String, c: char)
    ensures
        final(s)@ == old(s)@.push(c),
{
    s.push(c);
}

/// The character for one hexadecimal digit, executable side.
fn hex_digit_char(d: u64) -> (c: char)
    requires
        d < 16,
    ensures
        c == hex_digit(d as int),
{
    match d {
        0 => '0',
        1 => '1',
        2 => '2',
        3 => '3',
        4 => '4',
        5 => '5',
        6 => '6',
        7 => '7',
        8 => '8',
        9 => '9',
        10 => 'a',
        11 => 'b',
        12 => 'c',
        13 => 'd',
        14 => 'e',
        _ => 'f',
    }
}

/// Renders `n` as a lowercase hexadecimal string, zero-padded on the left
/// to at least eight digits.
pub fn hex_uid(n: u64) -> (s: String)
    ensures
        s@ == uid_chars(n as nat),
{
    let mut digits: Vec<char> = Vec::new();
    digits.push(hex_digit_char(n % 16));
    let mut m = n / 16;
    proof {
        assert(digits@.reverse() =~= seq![hex_digit((n % 16) as int)]);
        if m == 0 {
            assert(hex_digits(n as nat) == digits@.reverse());
        } else {
            assert(hex_digits(n as nat) == hex_digits(m as nat).push(hex_digit((n % 16) as int)));
            assert(hex_digits(m as nat).push(hex_digit((n % 16) as int)) =~= hex_digits(m as nat)
                + digits@.reverse());
        }
    }
    while m > 0
        invariant
            digits@.len() >= 1,
            m == 0 ==> hex_digits(n as nat) == digits@.reverse(),
            m > 0 ==> hex_digits(n as nat) == hex_digits(m as nat) + digits@.reverse(),
        decreases m,
    {
        let ghost dprev = digits@;
        let ghost mprev = m;
        let c = hex_digit_char(m % 16);
        digits.push(c);
        m = m / 16;
        proof {
            assert(digits@.reverse() =~= seq![c] + dprev.reverse());
            if m == 0 {
                assert(hex_digits(mprev as nat) == seq![hex_digit((mprev % 16) as int)]);
                assert(hex_digits(n as nat) =~= digits@.reverse());
            } else {
                assert(hex_digits(mprev as nat) == hex_digits(m as nat).push(c));
                assert(hex_digits(m as nat).push(c) =~= hex_digits(m as nat) + seq![c]);
                assert(hex_digits(n as nat) =~= hex_digits(m as nat) + digits@.reverse());
            }
        }
    }
    while digits.len() < 8
        invariant
            digits@.len() >= 1,
            ({
                if digits@.len() as int >= 8 {
                    uid_chars(n as nat) == digits@.reverse()
                } else {
                    uid_chars(n as nat) == Seq::new((8 - digits@.len()) as nat, |i: int| '0')
                        + digits@.reverse()
                }
            }),
        decreases 8 - digits@.len(),
    {
        let ghost dprev = digits@;
        digits.push('0');
        proof {
            assert(digits@.reverse() =~= seq!['0'] + dprev.reverse());
            if digits@.len() as int >= 8 {
                assert(uid_chars(n as nat) =~= digits@.reverse());
            } else {
                assert(uid_chars(n as nat) =~= Seq::new((8 - digits@.len()) as nat, |i: int| '0')
                    + digits@.reverse());
            }
        }
    }
    let mut s = String::new();
    let mut i = digits.len();
    while i > 0
        invariant
            i <= digits@.len(),
            s@.len() == digits@.len() - i,
            forall|j: int| 0 <= j < s@.len() ==> s@[j] == digits@[digits@.len() - 1 - j],
        decreases i,
    {
        i = i - 1;
        push_char(&mut s, digits[i]);
    }
    proof {
        assert(s@ =~= digits@.reverse());
    }
    s
}

/// Mints tickets: one fresh, unselected item per call, each uid derived
/// from a counter that only ever moves up.
pub struct TicketFeed {
    counter: u64,
}

impl TicketFeed {
    /// How many tickets have been minted: the value the next uid encodes.
    pub closed spec fn counter_spec(&self) -> u64 {
        self.counter
    }

    /// A fresh feed, starting at zero.
    pub fn new() -> (f: TicketFeed)
        ensures
            f.counter_spec() == 0,
    {
        TicketFeed { counter: 0 }
    }

    /// The counter as a value: the number the next uid will encode.
    pub fn counter(&self) -> (n: u64)
        ensures
            n == self.counter_spec(),
    {
        self.counter
    }

    /// Mints the next ticket: unselected, its uid the counter in padded
    /// lowercase hexadecimal.  The counter moves strictly up, so no two
    /// tickets of one feed ever carry the same uid.
    pub fn mint(&mut self) -> (t: TicketItem)
        requires
            old(self).counter_spec() < u64::MAX,
        ensures
            final(self).counter_spec() == old(self).counter_spec() + 1,
            t@.uid == uid_chars(old(self).counter_spec() as nat),
            !t@.selected,
    {
        let uid = hex_uid(self.counter);
        self.counter = self.counter + 1;
        TicketItem { uid, selected: false }
    }
}

} // verus!
