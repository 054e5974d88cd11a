use vstd::prelude::*;
use crate::lcd::{last_write, Lcd, LcdWord, LcdWrite};
use vstd::utf8::{encode_scalar, encode_utf8, is_ascii_chars};

verus! {

/// The segment pattern that shows character `c` on one display position.
/// Letters are shown alike in either case; every other character is blank.
pub open spec fn char_segments(c: char) -> u16 {
    match c {
        'a' | 'A' => 0x00EF,
        'b' | 'B' => 0x50F1,
        'c' | 'C' => 0x009C,
        'd' | 'D' => 0x50F0,
        'e' | 'E' => 0x009F,
        'f' | 'F' => 0x008F,
        'g' | 'G' => 0x00BD,
        'h' | 'H' => 0x006F,
        'i' | 'I' => 0x5090,
        'j' | 'J' => 0x0078,
        'k' | 'K' => 0x22E0,
        'l' | 'L' => 0x001C,
        'm' | 'M' => 0xA06C,
        'n' | 'N' => 0x826C,
        'o' | 'O' => 0x00F3,
        'p' | 'P' => 0x00CF,
        'q' | 'Q' => 0x02FC,
        'r' | 'R' => 0x02CF,
        's' | 'S' => 0x00B7,
        't' | 'T' => 0x5080,
        'u' | 'U' => 0x007C,
        'v' | 'V' => 0x280C,
        'w' | 'W' => 0x0A6C,
        'x' | 'X' => 0xAA00,
        'y' | 'Y' => 0xB000,
        'z' | 'Z' => 0x2890,
        _ => 0x0000,
    }
}

/// The segment pattern that shows the decimal digit `n`; blank for `n > 9`.
pub open spec fn digit_segments(n: u16) -> u16 {
    if n == 0 {
        0x28FC
    } else if n == 1 {
        0x2060
    } else if n == 2 {
        0x00DB
    } else if n == 3 {
        0x00F3
    } else if n == 4 {
        0x0067
    } else if n == 5 {
        0x00B7
    } else if n == 6 {
        0x00BF
    } else if n == 7 {
        0x00E0
    } else if n == 8 {
        0x00FF
    } else if n == 9 {
        0x00F7
    } else {
        0x0000
    }
}

/// The LCD memory word behind display position `pos`, counted 1 to 6 from
/// the left; other positions do not exist.
pub open spec fn position_word(pos: int) -> Option<LcdWord> {
    if pos == 1 {
        Some(LcdWord::M4)
    } else if pos == 2 {
        Some(LcdWord::M6)
    } else if pos == 3 {
        Some(LcdWord::M8)
    } else if pos == 4 {
        Some(LcdWord::M10)
    } else if pos == 5 {
        Some(LcdWord::M2)
    } else if pos == 6 {
        Some(LcdWord::M18)
    } else {
        None
    }
}

/// The writes that put `bits` on display position `pos`: one write to the
/// position's word, or none when there is no such position.
pub open spec fn place(pos: int, bits: u16) -> Seq<LcdWrite> {
    match position_word(pos) {
        Some(word) => seq![LcdWrite { word, bits }],
        None => Seq::empty(),
    }
}

/// Looks up the segment pattern of a character.
pub fn lookup_char(c: char) -> (r: u16)
    ensures
        r == char_segments(c),
{
    match c {
        'a' | 'A' => 0x00EF,
        'b' | 'B' => 0x50F1,
        'c' | 'C' => 0x009C,
        'd' | 'D' => 0x50F0,
        'e' | 'E' => 0x009F,
        'f' | 'F' => 0x008F,
        'g' | 'G' => 0x00BD,
        'h' | 'H' => 0x006F,
        'i' | 'I' => 0x5090,
        'j' | 'J' => 0x0078,
        'k' | 'K' => 0x22E0,
        'l' | 'L' => 0x001C,
        'm' | 'M' => 0xA06C,
        'n' | 'N' => 0x826C,
        'o' | 'O' => 0x00F3,
        'p' | 'P' => 0x00CF,
        'q' | 'Q' => 0x02FC,
        'r' | 'R' => 0x02CF,
        's' | 'S' => 0x00B7,
        't' | 'T' => 0x5080,
        'u' | 'U' => 0x007C,
        'v' | 'V' => 0x280C,
        'w' | 'W' => 0x0A6C,
        'x' | 'X' => 0xAA00,
        'y' | 'Y' => 0xB000,
        'z' | 'Z' => 0x2890,
        _ => 0x0000,
    }
}

/// Looks up the segment pattern of a decimal digit.
pub fn lookup_number(n: u16) -> (r: u16)
    ensures
        r == digit_segments(n),
{
    match n {
        0 => 0x28FC,
        1 => 0x2060,
        2 => 0x00DB,
        3 => 0x00F3,
        4 => 0x0067,
        5 => 0x00B7,
        6 => 0x00BF,
        7 => 0x00E0,
        8 => 0x00FF,
        9 => 0x00F7,
        _ => 0x0000,
    }
}

/// Finds the LCD memory word behind a display position.
fn word_for_position(pos: u8) -> (r: Option<LcdWord>)
    ensures
        r == position_word(pos as int),
{
    match pos {
        1 => Some(LcdWord::M4),
        2 => Some(LcdWord::M6),
        3 => Some(LcdWord::M8),
        4 => Some(LcdWord::M10),
        5 => Some(LcdWord::M2),
        6 => Some(LcdWord::M18),
        _ => None,
    }
}

/// Shows character `c` at display position `pos` (1 to 6); any other
/// position leaves the display as it is.
pub fn write_char_pos(c: char, pos: u8, lcd: &mut Lcd)
    ensures
        final(lcd)@ == old(lcd)@ + place(pos as int, char_segments(c)),
{
    let c = lookup_char(c);
    match word_for_position(pos) {
        Some(word) => lcd.set_word(word, c),
        None => {},
    }
    proof {
        assert(lcd@ =~= old(lcd)@ + place(pos as int, c));
    }
}

/// Shows digit `dig` at display position `pos` (1 to 6); any other
/// position leaves the display as it is.
pub fn write_dig_pos(dig: u16, pos: u8, lcd: &mut Lcd)
    ensures
        final(lcd)@ == old(lcd)@ + place(pos as int, digit_segments(dig)),
{
    let d = lookup_number(dig);
    match word_for_position(pos) {
        Some(word) => lcd.set_word(word, d),
        None => {},
    }
    proof {
        assert(lcd@ =~= old(lcd)@ + place(pos as int, d));
    }
}


/// `10` to the power `k`.
pub open spec fn pow10(k: nat) -> nat
    decreases k,
{
    if k == 0 {
        1
    } else {
        10 * pow10((k - 1) as nat)
    }
}

/// The divisor with which `Digits::new(n)` starts: the smallest power of ten
/// from 10 to 100000 that is at least `n`, and 1 for larger `n`. (This takes
/// `usize` to have at least 32 bits; with 16 bits the literal 100000 would
/// wrap to 34464.)
pub open spec fn initial_mask(n: nat) -> nat {
    if n <= 10 {
        10
    } else if n <= 100 {
        100
    } else if n <= 1000 {
        1000
    } else if n <= 10_000 {
        10_000
    } else if n <= 100_000 {
        100_000
    } else {
        1
    }
}

/// The digits that a `Digits` iterator with divisor `mask` and number `num`
/// still yields: digit `num / mask % 10`, then those of `mask / 10`, until
/// the divisor reaches 0.
pub open spec fn digit_seq(mask: nat, num: nat) -> Seq<u16>
    decreases mask,
{
    if mask == 0 {
        Seq::empty()
    } else {
        seq![(num / mask % 10) as u16] + digit_seq(mask / 10, num)
    }
}

/// The number that a sequence of decimal digits spells, most significant first.
pub open spec fn decimal_value(digits: Seq<u16>) -> nat
    decreases digits.len(),
{
    if digits.len() == 0 {
        0
    } else {
        digits[0] as nat * pow10((digits.len() - 1) as nat) + decimal_value(digits.drop_first())
    }
}

/// Yields the decimal digits of a number, most significant first.
///
/// Its state is a divisor `mask` and the number `num`; the view is the pair
/// `(mask, num)`.
pub struct Digits {
    mask: usize,
    num: usize,
}

impl View for Digits {
    type V = (nat, nat);

    closed spec fn view(&self) -> (nat, nat) {
        (self.mask as nat, self.num as nat)
    }
}

impl Digits {
    /// The digits this iterator still yields through `next`.
    pub open spec fn remaining(self) -> Seq<u16> {
        digit_seq(self@.0, self@.1)
    }

    /// Starts the digits of `n`.
    pub fn new(n: usize) -> (d: Digits)
        ensures
            d@ == (initial_mask(n as nat), n as nat),
    {
        Digits {
            mask: if n <= 10 {
                10
            } else if n <= 100 {
                100
            } else if n <= 1000 {
                1000
            } else if n <= 10_000 {
                10_000
            } else if n <= 100_000 {
                100_000
            } else {
                1
            },
            num: n,
        }
    }

    /// Yields the next digit, or `None` once the divisor has reached 0, after
    /// which it stays `None`.
    pub fn next(&mut self) -> (r: Option<u16>)
        ensures
            old(self)@.0 == 0 ==> r is None && final(self)@ == old(self)@,
            old(self)@.0 != 0 ==> r == Some((old(self)@.1 / old(self)@.0 % 10) as u16)
                && final(self)@ == (old(self)@.0 / 10, old(self)@.1),
            old(self).remaining() == match r {
                None => Seq::<u16>::empty(),
                Some(d) => seq![d] + final(self).remaining(),
            },
    {
        if self.mask == 0 {
            return None;
        }
        let d: usize = self.num / self.mask % 10;
        self.mask = self.mask / 10;
        Some(d as u16)
    }

    /// Whether `next` still yields a digit.
    pub fn has_next(&self) -> (b: bool)
        ensures
            b == (self.remaining().len() > 0),
    {
        self.mask != 0
    }

    /// Yields the number itself, taken modulo 2^16, and counts it down by one.
    pub fn next_back(&mut self) -> (r: Option<u16>)
        requires
            old(self)@.1 >= 1,
        ensures
            r == Some((old(self)@.1 % 0x1_0000) as u16),
            final(self)@ == (old(self)@.0, (old(self)@.1 - 1) as nat),
    {
        let result: usize = self.num;
        self.num = self.num - 1;
        Some((result % 0x1_0000) as u16)
    }
}

/// The number of decimal places that `initial_mask(n)` stands for.
pub open spec fn mask_exponent(n: nat) -> nat {
    if n <= 10 {
        1
    } else if n <= 100 {
        2
    } else if n <= 1000 {
        3
    } else if n <= 10_000 {
        4
    } else if n <= 100_000 {
        5
    } else {
        0
    }
}

proof fn lemma_pow10_div(k: nat)
    requires
        k >= 1,
    ensures
        pow10(k) / 10 == pow10((k - 1) as nat),
{
    let p = pow10((k - 1) as nat);
    assert(pow10(k) == 10 * p);
    assert((10 * p) / 10 == p) by (nonlinear_arith);
}

proof fn lemma_initial_mask(n: nat)
    ensures
        initial_mask(n) == pow10(mask_exponent(n)),
        mask_exponent(n) <= 5,
        n <= 100_000 ==> n <= pow10(mask_exponent(n)),
{
    reveal_with_fuel(pow10, 6);
}

proof fn lemma_digit_seq_len(k: nat, num: nat)
    ensures
        digit_seq(pow10(k), num).len() == k + 1,
        forall|i: int| 0 <= i < k + 1 ==> #[trigger] digit_seq(pow10(k), num)[i] < 10,
    decreases k,
{
    if k == 0 {
        assert(pow10(0) == 1);
        assert(digit_seq(0, num) == Seq::<u16>::empty());
    } else {
        lemma_pow10_div(k);
        lemma_digit_seq_len((k - 1) as nat, num);
        assert(pow10(k) > 0);
    }
}

proof fn lemma_digit_seq_value(k: nat, num: nat)
    ensures
        decimal_value(digit_seq(pow10(k), num)) == num % pow10(k + 1),
    decreases k,
{
    let m = pow10(k);
    let s = digit_seq(m, num);
    lemma_digit_seq_len(k, num);
    assert(m > 0) by {
        lemma_pow10_positive(k);
    }
    let rest = digit_seq(m / 10, num);
    assert(s == seq![(num / m % 10) as u16] + rest);
    assert(s.drop_first() =~= rest);
    let d = num / m % 10;
    assert(d < 10);
    assert(s[0] as nat == d);
    assert(decimal_value(s) == d * m + decimal_value(rest));
    if k == 0 {
        assert(rest == Seq::<u16>::empty());
        assert(decimal_value(rest) == 0);
        assert(pow10(1) == 10);
        assert(m == 1);
        assert(num / 1 == num);
        assert(d * m == d) by (nonlinear_arith)
            requires
                m == 1,
        ;
        assert(decimal_value(s) == num % 10);
    } else {
        lemma_pow10_div(k);
        lemma_digit_seq_value((k - 1) as nat, num);
        vstd::arithmetic::div_mod::lemma_breakdown(num as int, m as int, 10);
        assert(pow10(k + 1) == 10 * m);
        assert(m * ((num / m) % 10) == ((num / m) % 10) * m) by (nonlinear_arith);
        assert(m * 10 == 10 * m);
        assert((((k - 1) as nat) + 1) as nat == k);
        assert(decimal_value(rest) == num % m);
        assert(num % (m * 10) == m * d + num % m);
        assert(decimal_value(s) == num % (m * 10));
    }
}

proof fn lemma_pow10_positive(k: nat)
    ensures
        pow10(k) > 0,
    decreases k,
{
    if k > 0 {
        lemma_pow10_positive((k - 1) as nat);
    }
}

/// `Digits::new(n)` spells `n` in decimal: for `n` up to 100000 it yields
/// between 2 and 6 digits, each below 10, that read as `n` (a leading zero
/// pads any `n` that is not a power of ten); for larger `n` it yields the
/// last digit of `n` alone.
pub proof fn lemma_digits_spell_number(n: nat)
    ensures
        n <= 100_000 ==> {
            let ds = digit_seq(initial_mask(n), n);
            &&& 2 <= ds.len() <= 6
            &&& forall|i: int| 0 <= i < ds.len() ==> #[trigger] ds[i] < 10
            &&& decimal_value(ds) == n
        },
        n > 100_000 ==> digit_seq(initial_mask(n), n) == seq![(n % 10) as u16],
{
    lemma_initial_mask(n);
    let k = mask_exponent(n);
    lemma_digit_seq_len(k, n);
    if n <= 100_000 {
        lemma_digit_seq_value(k, n);
        lemma_pow10_positive(k);
        assert(pow10(k + 1) == 10 * pow10(k));
        vstd::arithmetic::div_mod::lemma_small_mod(n, pow10(k + 1));
    } else {
        assert(digit_seq(0, n) == Seq::<u16>::empty());
        assert(digit_seq(1, n) =~= seq![(n % 10) as u16]);
    }
}


/// The decimal digits of `n`, most significant first, without leading
/// zeros (`[0]` for 0).
pub open spec fn decimal_digits(n: nat) -> Seq<u16>
    decreases n,
{
    if n < 10 {
        seq![n as u16]
    } else {
        decimal_digits(n / 10).push((n % 10) as u16)
    }
}

/// `ds` without its leading zeros, keeping at least one digit.
pub open spec fn strip_leading_zeros(ds: Seq<u16>) -> Seq<u16>
    decreases ds.len(),
{
    if ds.len() > 1 && ds[0] == 0 {
        strip_leading_zeros(ds.drop_first())
    } else {
        ds
    }
}

/// The writes that put digit `ds[j]` on display position `j + 1`, for `j < k`.
pub open spec fn digits_placed(ds: Seq<u16>, k: nat) -> Seq<LcdWrite>
    decreases k,
{
    if k == 0 {
        Seq::empty()
    } else {
        digits_placed(ds, (k - 1) as nat) + place(k as int, digit_segments(ds[k - 1]))
    }
}

proof fn lemma_digit_seq_shift(k: nat, n: nat)
    ensures
        digit_seq(pow10(k + 1), n) == digit_seq(pow10(k), n / 10).push((n % 10) as u16),
    decreases k,
{
    lemma_pow10_positive(k);
    lemma_pow10_div(k + 1);
    assert(pow10(k + 1) == 10 * pow10(k));
    vstd::arithmetic::div_mod::lemma_div_denominator(n as int, 10, pow10(k) as int);
    if k == 0 {
        assert(pow10(0) == 1);
        assert(digit_seq(0, n) == Seq::<u16>::empty());
        assert(digit_seq(0, n / 10) == Seq::<u16>::empty());
        assert(n / 1 == n);
        assert((n / 10) / 1 == n / 10);
        assert(digit_seq(1, n) =~= seq![(n % 10) as u16]);
        assert(digit_seq(1, n / 10) =~= seq![((n / 10) % 10) as u16]);
        assert(digit_seq(10, n) =~= seq![(n / 10 % 10) as u16] + digit_seq(1, n));
        assert(digit_seq(pow10(1), n) =~= digit_seq(pow10(0), n / 10).push((n % 10) as u16));
    } else {
        lemma_pow10_div(k);
        lemma_digit_seq_shift((k - 1) as nat, n);
        assert((((k - 1) as nat) + 1) as nat == k);
        let first = (n / pow10(k + 1) % 10) as u16;
        assert(digit_seq(pow10(k + 1), n) =~= seq![first] + digit_seq(pow10(k), n));
        assert(digit_seq(pow10(k), n / 10) =~= seq![first] + digit_seq(pow10((k - 1) as nat), n / 10));
        assert(digit_seq(pow10(k + 1), n) =~= digit_seq(pow10(k), n / 10).push((n % 10) as u16));
    }
}

proof fn lemma_digit_seq_is_decimal(k: nat, n: nat)
    requires
        pow10(k) <= n < pow10(k + 1),
    ensures
        digit_seq(pow10(k), n) == decimal_digits(n),
    decreases k,
{
    lemma_pow10_positive(k);
    if k == 0 {
        assert(pow10(1) == 10);
        assert(digit_seq(0, n) == Seq::<u16>::empty());
        assert(n / 1 == n);
        assert(digit_seq(1, n) =~= seq![(n % 10) as u16]);
    } else {
        let p = pow10((k - 1) as nat);
        assert(pow10(k) == 10 * p);
        assert(pow10(k + 1) == 10 * (10 * p));
        assert(n / 10 >= p) by {
            vstd::arithmetic::div_mod::lemma_div_is_ordered((10 * p) as int, n as int, 10);
            assert((10 * p) / 10 == p) by (nonlinear_arith);
        }
        assert(n / 10 < 10 * p) by {
            vstd::arithmetic::div_mod::lemma_multiply_divide_lt(n as int, 10, (10 * p) as int);
        }
        assert((((k - 1) as nat) + 1) as nat == k);
        lemma_digit_seq_is_decimal((k - 1) as nat, n / 10);
        lemma_digit_seq_shift((k - 1) as nat, n);
    }
}

proof fn lemma_strip_digit_seq(k: nat, n: nat)
    requires
        n < pow10(k + 1),
    ensures
        strip_leading_zeros(digit_seq(pow10(k), n)) == decimal_digits(n),
    decreases k,
{
    lemma_pow10_positive(k);
    if n >= pow10(k) {
        lemma_digit_seq_is_decimal(k, n);
        vstd::arithmetic::div_mod::lemma_div_non_zero(n as int, pow10(k) as int);
        vstd::arithmetic::div_mod::lemma_multiply_divide_lt(n as int, pow10(k) as int, 10);
        assert(pow10(k + 1) == pow10(k) * 10) by (nonlinear_arith)
            requires
                pow10(k + 1) == 10 * pow10(k),
        ;
        let ds = digit_seq(pow10(k), n);
        assert(ds[0] as nat == n / pow10(k) % 10);
        assert(ds[0] != 0);
        assert(strip_leading_zeros(ds) == ds);
    } else if k == 0 {
        assert(pow10(0) == 1);
        assert(n == 0);
        assert(digit_seq(0, n) == Seq::<u16>::empty());
        assert(digit_seq(1, n) =~= seq![0u16]);
        assert(decimal_digits(0) =~= seq![0u16]);
    } else {
        lemma_pow10_div(k);
        lemma_digit_seq_len(k, n);
        let ds = digit_seq(pow10(k), n);
        assert(n / pow10(k) == 0) by {
            vstd::arithmetic::div_mod::lemma_basic_div(n as int, pow10(k) as int);
        }
        assert(ds.drop_first() =~= digit_seq(pow10((k - 1) as nat), n));
        assert((((k - 1) as nat) + 1) as nat == k);
        lemma_strip_digit_seq((k - 1) as nat, n);
        assert(ds[0] == 0);
        assert(ds.len() > 1);
        assert(strip_leading_zeros(ds) == strip_leading_zeros(ds.drop_first()));
    }
}

proof fn lemma_decimal_digits_len(n: nat, m: nat)
    requires
        m >= 1,
        n < pow10(m),
    ensures
        1 <= decimal_digits(n).len() <= m,
        forall|j: int| 0 <= j < decimal_digits(n).len() ==> #[trigger] decimal_digits(n)[j] < 10,
    decreases n,
{
    if n >= 10 {
        let p = pow10((m - 1) as nat);
        assert(pow10(m) == 10 * p);
        if m == 1 {
            assert(pow10(0) == 1);
        } else {
            assert(n / 10 < p) by {
                vstd::arithmetic::div_mod::lemma_multiply_divide_lt(n as int, 10, p as int);
            }
            lemma_decimal_digits_len(n / 10, (m - 1) as nat);
        }
    }
}

/// Shows the number `temp` on the display, its most significant digit at
/// position 1, without leading zeros.
pub fn write_temp(temp: u16, lcd: &mut Lcd)
    ensures
        final(lcd)@ == old(lcd)@ + digits_placed(
            decimal_digits(temp as nat),
            decimal_digits(temp as nat).len(),
        ),
{
    let n: usize = temp as usize;
    let mut iter = Digits::new(n);
    let ghost ds = iter.remaining();
    let ghost digits = decimal_digits(n as nat);
    proof {
        lemma_initial_mask(n as nat);
        let k = mask_exponent(n as nat);
        reveal_with_fuel(pow10, 7);
        lemma_digit_seq_len(k, n as nat);
        lemma_strip_digit_seq(k, n as nat);
        lemma_decimal_digits_len(n as nat, 5);
        assert(lcd@ =~= old(lcd)@ + digits_placed(digits, 0));
    }
    let mut pos: u8 = 1;
    let mut leading: bool = true;
    loop
        invariant
            digits == decimal_digits(temp as nat),
            digits.len() <= 5,
            1 <= pos,
            leading ==> pos == 1 && iter.remaining().len() >= 1 && strip_leading_zeros(
                iter.remaining(),
            ) == digits && lcd@ == old(lcd)@,
            !leading ==> pos - 1 <= digits.len() && iter.remaining() == digits.skip(pos - 1)
                && lcd@ == old(lcd)@ + digits_placed(digits, (pos - 1) as nat),
        ensures
            lcd@ == old(lcd)@ + digits_placed(digits, digits.len()),
        decreases iter@.0,
    {
        let ghost before = iter.remaining();
        match iter.next() {
            None => {
                assert(!leading);
                assert(digits.skip(pos - 1).len() == 0);
                break;
            },
            Some(i) => {
                assert(before[0] == i);
                assert(before.drop_first() =~= iter.remaining());
                let more = iter.has_next();
                if leading && i == 0 && more {
                    assert(strip_leading_zeros(before) == strip_leading_zeros(before.drop_first()));
                } else {
                    if leading {
                        assert(strip_leading_zeros(before) == before);
                        assert(digits.skip(0) =~= digits);
                        leading = false;
                    }
                    assert(pos - 1 < digits.len());
                    assert(digits[pos - 1] == i);
                    assert(digits.skip(pos as int) =~= before.drop_first());
                    let ghost prev = lcd@;
                    assert(prev == old(lcd)@ + digits_placed(digits, (pos - 1) as nat));
                    write_dig_pos(i, pos, lcd);
                    assert(digits_placed(digits, pos as nat) == digits_placed(
                        digits,
                        (pos - 1) as nat,
                    ) + place(pos as int, digit_segments(i)));
                    assert(lcd@ =~= old(lcd)@ + digits_placed(digits, pos as nat));
                    pos = pos + 1;
                }
            },
        }
    }
}

/// The segment pattern of the degree symbol, kept in the word of position 5.
pub const DEGREE_SYMBOL: u16 = 0x0400;

/// Shows a temperature reading `temp_c` in tenths of a degree: its digits
/// from position 1 on, a `C` at position 6, then the degree symbol written
/// into the word of position 5.
pub fn show_temperature(temp_c: u16, lcd: &mut Lcd)
    ensures
        final(lcd)@ == old(lcd)@ + digits_placed(
            decimal_digits(temp_c as nat),
            decimal_digits(temp_c as nat).len(),
        ) + place(6, char_segments('C')) + seq![LcdWrite { word: LcdWord::M2, bits: DEGREE_SYMBOL }],
{
    write_temp(temp_c, lcd);
    write_char_pos('C', 6, lcd);
    lcd.set_word(LcdWord::M2, DEGREE_SYMBOL);
}

/// Shows the number `num` as `write_temp` does when it is not negative.
/// A negative `num` shows nothing: it converts to a number above 100000,
/// whose single digit goes to a position that does not exist.
pub fn write_digit(num: i16, lcd: &mut Lcd)
    ensures
        num < 0 ==> final(lcd)@ == old(lcd)@,
        num >= 0 ==> final(lcd)@ == old(lcd)@ + digits_placed(
            decimal_digits(num as nat),
            decimal_digits(num as nat).len(),
        ),
{
    if num < 0 {
        return ;
    }
    write_temp(num as u16, lcd);
}

/// The byte offset at which character `i` of `chars` starts in their UTF-8
/// encoding, as `str::char_indices` reports it.
pub open spec fn byte_offset(chars: Seq<char>, i: int) -> nat {
    encode_utf8(chars.take(i)).len()
}

/// From `i` on, the end of the run of characters whose byte offset is below 6.
pub open spec fn visible_from(chars: Seq<char>, i: int) -> int
    decreases chars.len() - i,
{
    if 0 <= i < chars.len() && byte_offset(chars, i) < 6 {
        visible_from(chars, i + 1)
    } else {
        i
    }
}

/// The number of leading characters of `chars` that `write_string` shows:
/// those that start within the first 6 bytes.
pub open spec fn visible_chars(chars: Seq<char>) -> nat {
    visible_from(chars, 0) as nat
}

/// The writes that show `chars[j]`, for `j < k`, at display position
/// `char_position(chars, j)`.
pub open spec fn string_placed(chars: Seq<char>, k: nat) -> Seq<LcdWrite>
    decreases k,
{
    if k == 0 {
        Seq::empty()
    } else {
        string_placed(chars, (k - 1) as nat) + place(
            char_position(chars, k - 1),
            char_segments(chars[k - 1]),
        )
    }
}

/// The length of the UTF-8 encoding of `c`.
fn utf8_width(c: char) -> (w: usize)
    ensures
        w == encode_scalar(c as u32).len(),
        1 <= w <= 4,
{
    proof {
        vstd::utf8::char_is_scalar(c);
    }
    let u: u32 = c as u32;
    if u <= 0x7F {
        1
    } else if u <= 0x7FF {
        2
    } else if u <= 0xFFFF {
        3
    } else {
        4
    }
}

proof fn lemma_encode_utf8_push(a: Seq<char>, c: char)
    ensures
        encode_utf8(a.push(c)) == encode_utf8(a) + encode_scalar(c as u32),
    decreases a.len(),
{
    if a.len() == 0 {
        assert(a.push(c).drop_first() =~= Seq::<char>::empty());
        assert(encode_utf8(Seq::<char>::empty()) == Seq::<u8>::empty());
        assert(encode_utf8(a) == Seq::<u8>::empty());
        assert(encode_utf8(a.push(c)) =~= encode_scalar(c as u32) + Seq::<u8>::empty());
        assert(encode_utf8(a.push(c)) =~= encode_utf8(a) + encode_scalar(c as u32));
    } else {
        assert(a.push(c).drop_first() =~= a.drop_first().push(c));
        lemma_encode_utf8_push(a.drop_first(), c);
        assert(encode_utf8(a.push(c)) =~= encode_scalar(a[0] as u32) + (encode_utf8(
            a.drop_first(),
        ) + encode_scalar(c as u32)));
        assert(encode_utf8(a.push(c)) =~= encode_utf8(a) + encode_scalar(c as u32));
    }
}

proof fn lemma_byte_offset_step(chars: Seq<char>, i: int)
    requires
        0 <= i < chars.len(),
    ensures
        byte_offset(chars, i + 1) == byte_offset(chars, i) + encode_scalar(chars[i] as u32).len(),
{
    assert(chars.take(i + 1) =~= chars.take(i).push(chars[i]));
    lemma_encode_utf8_push(chars.take(i), chars[i]);
}

/// Shows the characters of `s` from display position 1 on, each at the
/// position one past its byte offset in `s`; characters that start at byte
/// offset 6 or later are not shown (the display does not scroll).
pub fn write_string(s: &str, lcd: &mut Lcd)
    ensures
        final(lcd)@ == old(lcd)@ + string_placed(s@, visible_chars(s@)),
{
    let n: usize = s.unicode_len();
    let mut i: usize = 0;
    let mut offset: usize = 0;
    proof {
        assert(s@.take(0) =~= Seq::<char>::empty());
        assert(encode_utf8(Seq::<char>::empty()) == Seq::<u8>::empty());
        assert(lcd@ =~= old(lcd)@ + string_placed(s@, 0));
    }
    while i < n
        invariant
            n == s@.len(),
            i <= n,
            offset == byte_offset(s@, i as int),
            visible_from(s@, i as int) == visible_from(s@, 0),
            lcd@ == old(lcd)@ + string_placed(s@, i as nat),
        decreases n - i,
    {
        if offset > 5 {
            return ;
        }
        let c = s.get_char(i);
        write_char_pos(c, (offset + 1) as u8, lcd);
        let w: usize = utf8_width(c);
        proof {
            lemma_byte_offset_step(s@, i as int);
            assert(lcd@ =~= old(lcd)@ + string_placed(s@, (i + 1) as nat));
        }
        offset = offset + w;
        i = i + 1;
    }
}


/// The display position at which `write_string` puts character `i` of `chars`.
pub open spec fn char_position(chars: Seq<char>, i: int) -> int {
    (byte_offset(chars, i) + 1) as int
}

proof fn lemma_last_write_place(a: Seq<LcdWrite>, pos: int, bits: u16, w: LcdWord)
    ensures
        last_write(a + place(pos, bits), w) == if position_word(pos) == Some(w) {
            Some(bits)
        } else {
            last_write(a, w)
        },
{
    match position_word(pos) {
        Some(x) => {
            let b = a + seq![LcdWrite { word: x, bits }];
            assert(b.drop_last() =~= a);
        },
        None => {
            assert(a + Seq::<LcdWrite>::empty() =~= a);
        },
    }
}

proof fn lemma_encode_scalar_nonempty(c: char)
    ensures
        encode_scalar(c as u32).len() >= 1,
{
}

proof fn lemma_byte_offset_increasing(chars: Seq<char>, i: int, j: int)
    requires
        0 <= i < j <= chars.len(),
    ensures
        byte_offset(chars, i) < byte_offset(chars, j),
    decreases j - i,
{
    lemma_byte_offset_step(chars, j - 1);
    lemma_encode_scalar_nonempty(chars[j - 1]);
    if i < j - 1 {
        lemma_byte_offset_increasing(chars, i, j - 1);
    }
}

proof fn lemma_visible_from(chars: Seq<char>, i: int)
    requires
        0 <= i <= chars.len(),
    ensures
        i <= visible_from(chars, i) <= chars.len(),
        forall|j: int| i <= j < visible_from(chars, i) ==> #[trigger] byte_offset(chars, j) < 6,
        visible_from(chars, i) < chars.len() ==> byte_offset(chars, visible_from(chars, i)) >= 6,
    decreases chars.len() - i,
{
    if i < chars.len() && byte_offset(chars, i) < 6 {
        lemma_visible_from(chars, i + 1);
    }
}

proof fn lemma_string_placed_shown(before: Seq<LcdWrite>, chars: Seq<char>, k: nat, w: LcdWord)
    requires
        k <= chars.len(),
        forall|j: int| 0 <= j < k ==> #[trigger] byte_offset(chars, j) < 6,
    ensures
        forall|i: int|
            0 <= i < k && #[trigger] position_word(char_position(chars, i)) == Some(w)
                ==> last_write(before + string_placed(chars, k), w) == Some(char_segments(chars[i])),
        (forall|i: int| 0 <= i < k ==> #[trigger] position_word(char_position(chars, i)) != Some(w))
            ==> last_write(before + string_placed(chars, k), w) == last_write(before, w),
    decreases k,
{
    if k == 0 {
        assert(before + string_placed(chars, 0) =~= before);
    } else {
        let k1 = (k - 1) as nat;
        let pos = char_position(chars, k1 as int);
        let bits = char_segments(chars[k1 as int]);
        lemma_string_placed_shown(before, chars, k1, w);
        assert(before + string_placed(chars, k) =~= (before + string_placed(chars, k1)) + place(
            pos,
            bits,
        ));
        lemma_last_write_place(before + string_placed(chars, k1), pos, bits, w);
        assert forall|i: int|
            0 <= i < k && #[trigger] position_word(char_position(chars, i)) == Some(w) implies last_write(
            before + string_placed(chars, k),
            w,
        ) == Some(char_segments(chars[i])) by {
            if i < k1 {
                lemma_byte_offset_increasing(chars, i, k1 as int);
                assert(byte_offset(chars, i) < 6);
                assert(byte_offset(chars, k1 as int) < 6);
                assert(position_word(pos) != Some(w));
            }
        }
    }
}

/// What the display shows after `write_string` wrote the characters `s`
/// onto a display that had the writes `before`: at most 6 characters are
/// kept, each at its own position from 1 to 6; the word at a kept
/// character's position shows that character, every other word keeps what
/// it showed; the first character left out starts at byte offset 6 or later.
/// For ASCII text, character `i` goes to position `i + 1` and the first
/// `min(len, 6)` characters are kept.
pub proof fn lemma_write_string_shows(before: Seq<LcdWrite>, s: Seq<char>, w: LcdWord)
    ensures
        ({
            let k = visible_chars(s);
            let after = before + string_placed(s, k);
            &&& k <= s.len()
            &&& k <= 6
            &&& forall|i: int| 0 <= i < k ==> 1 <= #[trigger] char_position(s, i) <= 6
            &&& k < s.len() ==> byte_offset(s, k as int) >= 6
            &&& forall|i: int|
                0 <= i < k && #[trigger] position_word(char_position(s, i)) == Some(w)
                    ==> last_write(after, w) == Some(char_segments(s[i]))
            &&& (forall|i: int| 0 <= i < k ==> #[trigger] position_word(char_position(s, i)) != Some(w))
                ==> last_write(after, w) == last_write(before, w)
        }),
        is_ascii_chars(s) ==> visible_chars(s) == if s.len() < 6 {
            s.len()
        } else {
            6
        } && forall|i: int| 0 <= i < s.len() ==> #[trigger] char_position(s, i) == i + 1,
{
    let k = visible_chars(s);
    lemma_visible_from(s, 0);
    lemma_string_placed_shown(before, s, k, w);
    if k > 6 {
        lemma_byte_offset_increasing(s, 0, 6);
        assert(byte_offset(s, 6) < 6);
        assert(s.take(0) =~= Seq::<char>::empty());
        assert(byte_offset(s, 0) == 0);
        assert(false) by {
            lemma_byte_offset_chain(s, 6);
        }
    }
    if is_ascii_chars(s) {
        assert forall|i: int| 0 <= i <= s.len() implies byte_offset(s, i) == i by {
            let t = s.take(i);
            assert(is_ascii_chars(t));
            vstd::utf8::is_ascii_chars_encode_utf8(t);
        }
        assert forall|i: int| 0 <= i < s.len() implies #[trigger] char_position(s, i) == i + 1 by {
            assert(byte_offset(s, i) == i);
        }
        if k < s.len() {
            assert(byte_offset(s, k as int) == k);
        }
    }
}

proof fn lemma_byte_offset_chain(s: Seq<char>, j: int)
    requires
        0 <= j <= s.len(),
    ensures
        byte_offset(s, j) >= j,
    decreases j,
{
    if j == 0 {
    } else {
        lemma_byte_offset_chain(s, j - 1);
        lemma_byte_offset_step(s, j - 1);
        lemma_encode_scalar_nonempty(s[j - 1]);
    }
}


proof fn lemma_digits_placed_shown(before: Seq<LcdWrite>, ds: Seq<u16>, k: nat, w: LcdWord)
    requires
        k <= ds.len(),
    ensures
        forall|j: int|
            1 <= j <= k && #[trigger] position_word(j) == Some(w)
                ==> last_write(before + digits_placed(ds, k), w) == Some(digit_segments(ds[j - 1])),
        (forall|j: int| 1 <= j <= k ==> #[trigger] position_word(j) != Some(w))
            ==> last_write(before + digits_placed(ds, k), w) == last_write(before, w),
    decreases k,
{
    if k == 0 {
        assert(before + digits_placed(ds, 0) =~= before);
    } else {
        let k1 = (k - 1) as nat;
        lemma_digits_placed_shown(before, ds, k1, w);
        assert(before + digits_placed(ds, k) =~= (before + digits_placed(ds, k1)) + place(
            k as int,
            digit_segments(ds[k1 as int]),
        ));
        lemma_last_write_place(before + digits_placed(ds, k1), k as int, digit_segments(ds[k1 as int]), w);
    }
}

proof fn lemma_strip_keeps_value(ds: Seq<u16>)
    ensures
        decimal_value(strip_leading_zeros(ds)) == decimal_value(ds),
    decreases ds.len(),
{
    if ds.len() > 1 && ds[0] == 0 {
        lemma_strip_keeps_value(ds.drop_first());
    }
}

/// The digits of `n`: at most 5 of them for a 16-bit `n`, each below 10,
/// the first one not 0 unless `n` is 0, and they read as `n`; they are the
/// digits of `Digits::new(n)` without the padding zeros.
pub proof fn lemma_decimal_digits(n: u16)
    ensures
        ({
            let s = decimal_digits(n as nat);
            &&& 1 <= s.len() <= 5
            &&& forall|j: int| 0 <= j < s.len() ==> #[trigger] s[j] < 10
            &&& s[0] == 0 ==> n == 0
            &&& decimal_value(s) == n
            &&& s == strip_leading_zeros(digit_seq(initial_mask(n as nat), n as nat))
        }),
{
    let k = mask_exponent(n as nat);
    lemma_initial_mask(n as nat);
    reveal_with_fuel(pow10, 7);
    lemma_decimal_digits_len(n as nat, 5);
    lemma_strip_digit_seq(k, n as nat);
    lemma_digits_spell_number(n as nat);
    lemma_strip_keeps_value(digit_seq(initial_mask(n as nat), n as nat));
    lemma_decimal_digits_first(n as nat);
}

proof fn lemma_decimal_digits_first(n: nat)
    ensures
        decimal_digits(n)[0] == 0 ==> n == 0,
    decreases n,
{
    if n >= 10 {
        lemma_decimal_digits_first(n / 10);
        assert(decimal_digits(n)[0] == decimal_digits(n / 10)[0]);
    }
}

/// What the display shows after `write_digit(num, ..)` onto a display that
/// had the writes `before`. A negative `num` changes nothing. Otherwise,
/// with `s` the decimal digits of `num` without leading zeros, the word at
/// position `j`, for `1 <= j <= s.len()`, shows digit `s[j - 1]`, and every
/// other word keeps what it showed.
pub proof fn lemma_write_digit_shows(before: Seq<LcdWrite>, num: i16, w: LcdWord)
    requires
        num >= 0,
    ensures
        ({
            let s = decimal_digits(num as nat);
            let after = before + digits_placed(s, s.len());
            &&& 1 <= s.len() <= 5
            &&& forall|j: int|
                1 <= j <= s.len() && #[trigger] position_word(j) == Some(w)
                    ==> last_write(after, w) == Some(digit_segments(s[j - 1]))
            &&& (forall|j: int| 1 <= j <= s.len() ==> #[trigger] position_word(j) != Some(w))
                ==> last_write(after, w) == last_write(before, w)
        }),
{
    let s = decimal_digits(num as nat);
    lemma_decimal_digits(num as u16);
    lemma_digits_placed_shown(before, s, s.len(), w);
}


/// The segment pattern of every letter, in either case, on the display
/// (bit `n` of the 16-bit word lights segment `n` of the position).
pub proof fn lemma_letter_patterns()
    ensures
        char_segments('a') == 0x00EF && char_segments('A') == 0x00EF,
        char_segments('b') == 0x50F1 && char_segments('B') == 0x50F1,
        char_segments('c') == 0x009C && char_segments('C') == 0x009C,
        char_segments('d') == 0x50F0 && char_segments('D') == 0x50F0,
        char_segments('e') == 0x009F && char_segments('E') == 0x009F,
        char_segments('f') == 0x008F && char_segments('F') == 0x008F,
        char_segments('g') == 0x00BD && char_segments('G') == 0x00BD,
        char_segments('h') == 0x006F && char_segments('H') == 0x006F,
        char_segments('i') == 0x5090 && char_segments('I') == 0x5090,
        char_segments('j') == 0x0078 && char_segments('J') == 0x0078,
        char_segments('k') == 0x22E0 && char_segments('K') == 0x22E0,
        char_segments('l') == 0x001C && char_segments('L') == 0x001C,
        char_segments('m') == 0xA06C && char_segments('M') == 0xA06C,
        char_segments('n') == 0x826C && char_segments('N') == 0x826C,
        char_segments('o') == 0x00F3 && char_segments('O') == 0x00F3,
        char_segments('p') == 0x00CF && char_segments('P') == 0x00CF,
        char_segments('q') == 0x02FC && char_segments('Q') == 0x02FC,
        char_segments('r') == 0x02CF && char_segments('R') == 0x02CF,
        char_segments('s') == 0x00B7 && char_segments('S') == 0x00B7,
        char_segments('t') == 0x5080 && char_segments('T') == 0x5080,
        char_segments('u') == 0x007C && char_segments('U') == 0x007C,
        char_segments('v') == 0x280C && char_segments('V') == 0x280C,
        char_segments('w') == 0x0A6C && char_segments('W') == 0x0A6C,
        char_segments('x') == 0xAA00 && char_segments('X') == 0xAA00,
        char_segments('y') == 0xB000 && char_segments('Y') == 0xB000,
        char_segments('z') == 0x2890 && char_segments('Z') == 0x2890,
{
}

/// The segment pattern of every decimal digit on the display.
pub proof fn lemma_digit_patterns()
    ensures
        digit_segments(0) == 0x28FC,
        digit_segments(1) == 0x2060,
        digit_segments(2) == 0x00DB,
        digit_segments(3) == 0x00F3,
        digit_segments(4) == 0x0067,
        digit_segments(5) == 0x00B7,
        digit_segments(6) == 0x00BF,
        digit_segments(7) == 0x00E0,
        digit_segments(8) == 0x00FF,
        digit_segments(9) == 0x00F7,
{
}

/// `Digits::new(n)`, for `n` up to 100000, starts from the smallest power of
/// ten from 10 to 100000 that is at least `n`, so the digits it yields are
/// the decimal digits of `n` after exactly one padding zero, except for the
/// powers of ten 10 to 100000, which get none.
pub proof fn lemma_digits_padding(n: nat)
    requires
        n <= 100_000,
    ensures
        initial_mask(n) == 10 || initial_mask(n) == 100 || initial_mask(n) == 1000
            || initial_mask(n) == 10_000 || initial_mask(n) == 100_000,
        n <= initial_mask(n),
        n <= 10 ==> initial_mask(n) == 10,
        n > 10 ==> initial_mask(n) / 10 < n,
        digit_seq(initial_mask(n), n) == if n == 10 || n == 100 || n == 1000 || n == 10_000 || n
            == 100_000 {
            decimal_digits(n)
        } else {
            seq![0u16] + decimal_digits(n)
        },
{
    lemma_initial_mask(n);
    let k = mask_exponent(n);
    reveal_with_fuel(pow10, 7);
    lemma_pow10_positive(k);
    let m = pow10(k);
    assert(pow10(k + 1) == 10 * m);
    if n == m {
        lemma_digit_seq_is_decimal(k, n);
    } else {
        lemma_pow10_div(k);
        let ds = digit_seq(m, n);
        vstd::arithmetic::div_mod::lemma_basic_div(n as int, m as int);
        assert(n / m == 0);
        assert(ds == seq![(n / m % 10) as u16] + digit_seq(pow10((k - 1) as nat), n));
        if n == 0 {
            assert(k == 1);
            assert(pow10(0) == 1);
            assert(digit_seq(0, 0) == Seq::<u16>::empty());
            assert(digit_seq(1, 0) =~= seq![0u16]);
            assert(decimal_digits(0) =~= seq![0u16]);
        } else {
            assert((((k - 1) as nat) + 1) as nat == k);
            lemma_digit_seq_is_decimal((k - 1) as nat, n);
        }
        assert(ds =~= seq![0u16] + decimal_digits(n));
    }
}

/// The display positions 1 to 6, left to right, are the LCD memory words
/// LCDM4W, LCDM6W, LCDM8W, LCDM10W, LCDM2W and LCDM18W; there are no other
/// positions. The degree symbol is the pattern 0x0400.
pub proof fn lemma_display_words(pos: int)
    ensures
        position_word(1) == Some(LcdWord::M4),
        position_word(2) == Some(LcdWord::M6),
        position_word(3) == Some(LcdWord::M8),
        position_word(4) == Some(LcdWord::M10),
        position_word(5) == Some(LcdWord::M2),
        position_word(6) == Some(LcdWord::M18),
        (pos < 1 || pos > 6) ==> position_word(pos) is None,
        DEGREE_SYMBOL == 0x0400,
{
}

/// A letter shows alike in lower and upper case.
pub proof fn lemma_char_case_insensitive(lower: char, upper: char)
    requires
        'a' <= lower <= 'z',
        upper as u32 + 32 == lower as u32,
    ensures
        char_segments(lower) == char_segments(upper),
{
}

/// Exactly the ASCII letters light segments; every other character is blank.
pub proof fn lemma_only_letters_lit(c: char)
    ensures
        char_segments(c) != 0 <==> ('a' <= c <= 'z' || 'A' <= c <= 'Z'),
{
}

/// Exactly the decimal digits 0 to 9 light segments.
pub proof fn lemma_only_digits_lit(n: u16)
    ensures
        digit_segments(n) != 0 <==> n <= 9,
{
}

} // verus!
