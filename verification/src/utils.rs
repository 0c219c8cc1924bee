//! Sizes in bytes, written for people to read.

use vstd::arithmetic::div_mod::lemma_div_nonincreasing;
use vstd::prelude::*;
use vstd::string::*;

verus! {

/// Up to this magnitude every whole number of bytes is held exactly by
/// binary floating point of double precision.
pub const EXACT_LIMIT: i128 = 0x20_0000_0000_0000;

/// Below this magnitude a size in decimal units, rounded to thousandths, is
/// the same whether it is divided exactly or in binary floating point of
/// double precision, unless it lies halfway between two thousandths.
pub const DECIMAL_LIMIT: i128 = 1_000_000_000_000_000;

/// The names of the units that grow by the factor 1024.
pub const BINARY_PREFIXES: [&'static str; 7] = ["", "Ki", "Mi", "Gi", "Ti", "Pi", "Ei"];

/// The bytes in each unit that grows by the factor 1024.
pub const BINARY_THRESHOLDS: [u128; 7] = [
    1,
    1024,
    1048576,
    1073741824,
    1099511627776,
    1125899906842624,
    1152921504606846976,
];

/// The names of the units that grow by the factor 1000.
pub const DECIMAL_PREFIXES: [&'static str; 7] = ["", "K", "M", "G", "T", "P", "E"];

/// The bytes in each unit that grows by the factor 1000.
pub const DECIMAL_THRESHOLDS: [u128; 7] = [
    1,
    1_000,
    1_000_000,
    1_000_000_000,
    1_000_000_000_000,
    1_000_000_000_000_000,
    1_000_000_000_000_000_000,
];

/// The character of one decimal digit.
pub open spec fn digit_char(digit: nat) -> char {
    if digit == 0 {
        '0'
    } else if digit == 1 {
        '1'
    } else if digit == 2 {
        '2'
    } else if digit == 3 {
        '3'
    } else if digit == 4 {
        '4'
    } else if digit == 5 {
        '5'
    } else if digit == 6 {
        '6'
    } else if digit == 7 {
        '7'
    } else if digit == 8 {
        '8'
    } else {
        '9'
    }
}

/// `n` in decimal digits, without leading zeros.
pub open spec fn decimal(n: nat) -> Seq<char>
    decreases n,
{
    if n < 10 {
        seq![digit_char(n)]
    } else {
        decimal(n / 10).push(digit_char(n % 10))
    }
}

/// The three digits of `thousandths`, which is below a thousand.
pub open spec fn fraction(thousandths: nat) -> Seq<char> {
    seq![
        digit_char(thousandths / 100),
        digit_char((thousandths / 10) % 10),
        digit_char(thousandths % 10),
    ]
}

/// The whole number nearest to `numerator / denominator`; of two that are
/// equally near, the even one.
pub open spec fn nearest(numerator: nat, denominator: nat) -> nat {
    let quotient = numerator / denominator;
    let twice = 2 * (numerator % denominator);
    if twice > denominator || (twice == denominator && quotient % 2 == 1) {
        quotient + 1
    } else {
        quotient
    }
}

/// The first unit at or after `from` whose next threshold lies above
/// `magnitude`; the last but one unit where none does.
pub open spec fn unit_from(magnitude: nat, thresholds: Seq<u128>, from: nat) -> nat
    decreases thresholds.len() - from,
{
    if from + 2 >= thresholds.len() || magnitude < thresholds[from as int + 1] {
        from
    } else {
        unit_from(magnitude, thresholds, from + 1)
    }
}

/// A number of `thousandths` with its unit: without a point where `exact`,
/// else with three digits behind it.
pub open spec fn display(
    negative: bool,
    thousandths: nat,
    exact: bool,
    prefix: Seq<char>,
) -> Seq<char> {
    let sign = if negative {
        seq!['-']
    } else {
        Seq::<char>::empty()
    };
    let number = if exact {
        decimal(thousandths / 1000)
    } else {
        decimal(thousandths / 1000) + seq!['.'] + fraction(thousandths % 1000)
    };
    sign + number + seq![' '] + prefix + seq!['B']
}

/// `value` bytes in the largest unit that does not exceed it.
///
/// The unit is the first whose next threshold lies above the magnitude of
/// `value`. A multiple of the unit is written as a whole number. Any other
/// value is rounded to the nearest thousandth of the unit, halves to the even
/// side, and written with three digits behind the point.
pub open spec fn prefixed(value: int, prefixes: Seq<Seq<char>>, thresholds: Seq<u128>) -> Seq<
    char,
> {
    let magnitude = magnitude_of(value);
    let unit = unit_from(magnitude, thresholds, 0);
    let size = thresholds[unit as int] as nat;
    if magnitude % size == 0 {
        display(value < 0, (magnitude / size) * 1000, true, prefixes[unit as int])
    } else {
        display(value < 0, nearest(magnitude * 1000, size), false, prefixes[unit as int])
    }
}

/// The magnitude of `value`.
pub open spec fn magnitude_of(value: int) -> nat {
    if value < 0 {
        (-value) as nat
    } else {
        value as nat
    }
}

/// `value` lies halfway between two thousandths of its unit.
pub open spec fn is_half(value: int, thresholds: Seq<u128>) -> bool {
    let magnitude = magnitude_of(value);
    let size = thresholds[unit_from(magnitude, thresholds, 0) as int] as nat;
    2 * ((magnitude * 1000) % size) == size
}

/// The sizes that [`to_binary_prefix`] writes: those that binary floating
/// point of double precision holds exactly, so that dividing them by a power
/// of two and rounding the quotient gives the same text in either arithmetic.
pub open spec fn binary_in_reach(value: int) -> bool {
    -EXACT_LIMIT <= value <= EXACT_LIMIT
}

/// The sizes that [`to_decimal_prefix`] writes: those below [`DECIMAL_LIMIT`]
/// that do not lie halfway between two thousandths of their unit. On these
/// the exact quotient is far enough from every point where the rounding
/// turns that binary floating point of double precision gives the same text.
pub open spec fn decimal_in_reach(value: int) -> bool {
    -DECIMAL_LIMIT < value < DECIMAL_LIMIT && !is_half(value, DECIMAL_THRESHOLDS@)
}

/// The tables and sizes that [`to_prefix`] writes: the two tables of this
/// module, each with the sizes on which exact arithmetic and binary floating
/// point of double precision give the same text.
pub open spec fn in_reach(value: int, thresholds: Seq<u128>) -> bool {
    ||| thresholds == BINARY_THRESHOLDS@ && binary_in_reach(value)
    ||| thresholds == DECIMAL_THRESHOLDS@ && decimal_in_reach(value)
}

/// [`BINARY_PREFIXES`] as plain values.
pub open spec fn binary_prefixes() -> Seq<Seq<char>> {
    seq![
        Seq::<char>::empty(),
        seq!['K', 'i'],
        seq!['M', 'i'],
        seq!['G', 'i'],
        seq!['T', 'i'],
        seq!['P', 'i'],
        seq!['E', 'i'],
    ]
}

/// [`DECIMAL_PREFIXES`] as plain values.
pub open spec fn decimal_prefixes() -> Seq<Seq<char>> {
    seq![
        Seq::<char>::empty(),
        seq!['K'],
        seq!['M'],
        seq!['G'],
        seq!['T'],
        seq!['P'],
        seq!['E'],
    ]
}

/// The prefixes of a table as plain values.
pub open spec fn prefix_views<const COUNT: usize>(prefixes: [&str; COUNT]) -> Seq<Seq<char>> {
    Seq::new(COUNT as nat, |i: int| prefixes@[i]@)
}

fn digit(value: u128) -> (text: &'static str)
    requires
        value < 10,
    ensures
        text@ == seq![digit_char(value as nat)],
{
    proof {
        reveal_strlit("0");
        reveal_strlit("1");
        reveal_strlit("2");
        reveal_strlit("3");
        reveal_strlit("4");
        reveal_strlit("5");
        reveal_strlit("6");
        reveal_strlit("7");
        reveal_strlit("8");
        reveal_strlit("9");
    }
    let text = if value == 0 {
        "0"
    } else if value == 1 {
        "1"
    } else if value == 2 {
        "2"
    } else if value == 3 {
        "3"
    } else if value == 4 {
        "4"
    } else if value == 5 {
        "5"
    } else if value == 6 {
        "6"
    } else if value == 7 {
        "7"
    } else if value == 8 {
        "8"
    } else {
        "9"
    };
    assert(text@ =~= seq![digit_char(value as nat)]);
    text
}

/// Writes `n` in decimal digits behind `text`.
fn push_decimal(text: &mut String, n: u128)
    ensures
        final(text)@ == old(text)@ + decimal(n as nat),
    decreases n,
{
    if n >= 10 {
        push_decimal(text, n / 10);
    }
    text.append(digit(n % 10));
    assert(text@ =~= old(text)@ + decimal(n as nat));
}

/// Writes a number of `thousandths` and its unit; see [`display`].
pub fn display_bytes(negative: bool, thousandths: u128, exact: bool, prefix: &str) -> (text: String)
    ensures
        text@ == display(negative, thousandths as nat, exact, prefix@),
{
    proof {
        reveal_strlit("-");
        reveal_strlit(".");
        reveal_strlit(" ");
        reveal_strlit("B");
    }
    let mut text = String::new();
    if negative {
        text.append("-");
    }
    push_decimal(&mut text, thousandths / 1000);
    if !exact {
        let rest = thousandths % 1000;
        text.append(".");
        text.append(digit(rest / 100));
        text.append(digit((rest / 10) % 10));
        text.append(digit(rest % 10));
    }
    text.append(" ");
    text.append(prefix);
    text.append("B");
    assert(text@ =~= display(negative, thousandths as nat, exact, prefix@));
    text
}

/// The magnitude of a size that is not the smallest of its type.
fn magnitude(value: i128) -> (size: u128)
    requires
        value > i128::MIN,
    ensures
        size == magnitude_of(value as int),
{
    if value < 0 {
        (0 - value) as u128
    } else {
        value as u128
    }
}

/// The unit in which a size of `magnitude` bytes is written.
fn unit_of<const COUNT: usize>(magnitude: u128, thresholds: &[u128; COUNT]) -> (unit: usize)
    requires
        COUNT >= 2,
    ensures
        unit == unit_from(magnitude as nat, thresholds@, 0),
        unit + 2 <= COUNT,
{
    let mut unit: usize = 0;
    while unit + 2 < COUNT && magnitude >= thresholds[unit + 1]
        invariant
            COUNT >= 2,
            unit + 2 <= COUNT,
            unit_from(magnitude as nat, thresholds@, unit as nat) == unit_from(
                magnitude as nat,
                thresholds@,
                0,
            ),
        decreases COUNT - unit,
    {
        unit = unit + 1;
    }
    unit
}

proof fn lemma_tables()
    ensures
        BINARY_THRESHOLDS@.len() == 7,
        DECIMAL_THRESHOLDS@.len() == 7,
        forall|i: int| 0 <= i < 7 ==> 0 < #[trigger] BINARY_THRESHOLDS@[i] <= 0x1000_0000_0000_0000,
        forall|i: int| 0 <= i < 7 ==> 0 < #[trigger] DECIMAL_THRESHOLDS@[i] <= 0x1000_0000_0000_0000,
{
    assert(BINARY_THRESHOLDS@[0] == 1 && BINARY_THRESHOLDS@[1] == 1024 && BINARY_THRESHOLDS@[2]
        == 1048576 && BINARY_THRESHOLDS@[3] == 1073741824 && BINARY_THRESHOLDS@[4]
        == 1099511627776 && BINARY_THRESHOLDS@[5] == 1125899906842624 && BINARY_THRESHOLDS@[6]
        == 1152921504606846976);
    assert(DECIMAL_THRESHOLDS@[0] == 1 && DECIMAL_THRESHOLDS@[1] == 1_000 && DECIMAL_THRESHOLDS@[2]
        == 1_000_000 && DECIMAL_THRESHOLDS@[3] == 1_000_000_000 && DECIMAL_THRESHOLDS@[4]
        == 1_000_000_000_000 && DECIMAL_THRESHOLDS@[5] == 1_000_000_000_000_000
        && DECIMAL_THRESHOLDS@[6] == 1_000_000_000_000_000_000);
}

/// Writes `value` bytes in the unit that suits it; see [`prefixed`] for the
/// text and [`in_reach`] for the tables and sizes that are written.
fn to_prefix<const COUNT: usize>(
    value: i128,
    prefixes: [&str; COUNT],
    thresholds: [u128; COUNT],
) -> (text: String)
    requires
        in_reach(value as int, thresholds@),
    ensures
        text@ == prefixed(value as int, prefix_views(prefixes), thresholds@),
{
    proof {
        lemma_tables();
        assert(thresholds@.len() == COUNT);
        assert(COUNT == 7);
        assert forall|i: int| 0 <= i < COUNT implies 0 < #[trigger] thresholds@[i]
            <= 0x1000_0000_0000_0000 by {
            if thresholds@ == BINARY_THRESHOLDS@ {
                assert(thresholds@[i] == BINARY_THRESHOLDS@[i]);
            } else {
                assert(thresholds@[i] == DECIMAL_THRESHOLDS@[i]);
            }
        }
    }
    let magnitude = magnitude(value);
    let unit = unit_of(magnitude, &thresholds);
    let size = thresholds[unit];
    let prefix = prefixes[unit];
    assert(prefix_views(prefixes)[unit as int] == prefix@);
    if magnitude % size == 0 {
        proof {
            lemma_div_nonincreasing(magnitude as int, size as int);
        }
        display_bytes(value < 0, (magnitude / size) * 1000, true, prefix)
    } else {
        let scaled = magnitude * 1000;
        let quotient = scaled / size;
        let twice = 2 * (scaled % size);
        proof {
            lemma_div_nonincreasing(scaled as int, size as int);
        }
        let rounded = if twice > size || (twice == size && quotient % 2 == 1) {
            quotient + 1
        } else {
            quotient
        };
        display_bytes(value < 0, rounded, false, prefix)
    }
}

/// Writes a size in bytes, KiB, MiB and so on up to PiB; see [`prefixed`]
/// for the text and [`binary_in_reach`] for the sizes that are written.
pub fn to_binary_prefix(size_in_bytes: i128) -> (text: String)
    requires
        binary_in_reach(size_in_bytes as int),
    ensures
        text@ == prefixed(size_in_bytes as int, binary_prefixes(), BINARY_THRESHOLDS@),
{
    proof {
        reveal_strlit("");
        reveal_strlit("Ki");
        reveal_strlit("Mi");
        reveal_strlit("Gi");
        reveal_strlit("Ti");
        reveal_strlit("Pi");
        reveal_strlit("Ei");
        let views = prefix_views(BINARY_PREFIXES);
        assert(views[0] =~= binary_prefixes()[0]);
        assert(views[1] =~= binary_prefixes()[1]);
        assert(views[2] =~= binary_prefixes()[2]);
        assert(views[3] =~= binary_prefixes()[3]);
        assert(views[4] =~= binary_prefixes()[4]);
        assert(views[5] =~= binary_prefixes()[5]);
        assert(views[6] =~= binary_prefixes()[6]);
        assert(views =~= binary_prefixes());
    }
    to_prefix(size_in_bytes, BINARY_PREFIXES, BINARY_THRESHOLDS)
}

/// Writes a size in bytes, KB, MB and so on up to TB; see [`prefixed`] for
/// the text and [`decimal_in_reach`] for the sizes that are written.
pub fn to_decimal_prefix(size_in_bytes: i128) -> (text: String)
    requires
        decimal_in_reach(size_in_bytes as int),
    ensures
        text@ == prefixed(size_in_bytes as int, decimal_prefixes(), DECIMAL_THRESHOLDS@),
{
    proof {
        reveal_strlit("");
        reveal_strlit("K");
        reveal_strlit("M");
        reveal_strlit("G");
        reveal_strlit("T");
        reveal_strlit("P");
        reveal_strlit("E");
        let views = prefix_views(DECIMAL_PREFIXES);
        assert(views[0] =~= decimal_prefixes()[0]);
        assert(views[1] =~= decimal_prefixes()[1]);
        assert(views[2] =~= decimal_prefixes()[2]);
        assert(views[3] =~= decimal_prefixes()[3]);
        assert(views[4] =~= decimal_prefixes()[4]);
        assert(views[5] =~= decimal_prefixes()[5]);
        assert(views[6] =~= decimal_prefixes()[6]);
        assert(views =~= decimal_prefixes());
    }
    to_prefix(size_in_bytes, DECIMAL_PREFIXES, DECIMAL_THRESHOLDS)
}

/// Writes a size as [`to_binary_prefix`] does where it is within its reach,
/// and nothing where it is not.
pub fn checked_binary_prefix(size_in_bytes: i128) -> (text: Option<String>)
    ensures
        text is Some <==> binary_in_reach(size_in_bytes as int),
        text is Some ==> text->0@ == prefixed(
            size_in_bytes as int,
            binary_prefixes(),
            BINARY_THRESHOLDS@,
        ),
{
    if -EXACT_LIMIT <= size_in_bytes && size_in_bytes <= EXACT_LIMIT {
        Some(to_binary_prefix(size_in_bytes))
    } else {
        None
    }
}

/// Writes a size as [`to_decimal_prefix`] does where it is within its
/// reach, and nothing where it is not.
pub fn checked_decimal_prefix(size_in_bytes: i128) -> (text: Option<String>)
    ensures
        text is Some <==> decimal_in_reach(size_in_bytes as int),
        text is Some ==> text->0@ == prefixed(
            size_in_bytes as int,
            decimal_prefixes(),
            DECIMAL_THRESHOLDS@,
        ),
{
    if -DECIMAL_LIMIT < size_in_bytes && size_in_bytes < DECIMAL_LIMIT {
        proof {
            lemma_tables();
        }
        let magnitude = magnitude(size_in_bytes);
        let unit = unit_of(magnitude, &DECIMAL_THRESHOLDS);
        let size = DECIMAL_THRESHOLDS[unit];
        if 2 * ((magnitude * 1000) % size) == size {
            None
        } else {
            Some(to_decimal_prefix(size_in_bytes))
        }
    } else {
        None
    }
}

} // verus!
