//! Generation numbers and the file names of segments.
//!
//! A segment's file is named by its generation number in hexadecimal, padded
//! with zeros to eight digits.
use vstd::prelude::*;
use vstd::string::{StrSliceExecFns, StringExecFns};

verus! {

/// The number of digits that a segment's name has at least.
pub const NAME_WIDTH: usize = 8;

/// The value of a hexadecimal digit, in either case.
pub open spec fn digit_value(c: char) -> Option<nat> {
    if '0' <= c <= '9' {
        Some((c as u32 - '0' as u32) as nat)
    } else if 'a' <= c <= 'f' {
        Some((c as u32 - 'a' as u32 + 10) as nat)
    } else if 'A' <= c <= 'F' {
        Some((c as u32 - 'A' as u32 + 10) as nat)
    } else {
        None
    }
}

/// The lower-case digit for a value below 16.
pub open spec fn digit_char(value: nat) -> char {
    if value == 0 {
        '0'
    } else if value == 1 {
        '1'
    } else if value == 2 {
        '2'
    } else if value == 3 {
        '3'
    } else if value == 4 {
        '4'
    } else if value == 5 {
        '5'
    } else if value == 6 {
        '6'
    } else if value == 7 {
        '7'
    } else if value == 8 {
        '8'
    } else if value == 9 {
        '9'
    } else if value == 10 {
        'a'
    } else if value == 11 {
        'b'
    } else if value == 12 {
        'c'
    } else if value == 13 {
        'd'
    } else if value == 14 {
        'e'
    } else {
        'f'
    }
}

/// Every character is a hexadecimal digit.
pub open spec fn all_digits(text: Seq<char>) -> bool {
    forall|i: int| 0 <= i < text.len() ==> digit_value(#[trigger] text[i]) is Some
}

/// The number that a sequence of hexadecimal digits denotes.
pub open spec fn hex_value(text: Seq<char>) -> nat
    decreases text.len(),
{
    if text.len() == 0 {
        0
    } else {
        match digit_value(text.last()) {
            Some(digit) => 16 * hex_value(text.drop_last()) + digit,
            None => 0,
        }
    }
}

/// The generation that a file name denotes: the name is one or more
/// hexadecimal digits and their value fits in 64 bits.
pub open spec fn generation_of(name: Seq<char>) -> Option<u64> {
    if name.len() > 0 && all_digits(name) && hex_value(name) <= u64::MAX {
        Some(hex_value(name) as u64)
    } else {
        None
    }
}

/// The digits of `value` in hexadecimal, padded with zeros to `width`.
pub open spec fn hex_text(value: nat, width: nat) -> Seq<char>
    decreases value, width,
{
    if value < 16 && width <= 1 {
        seq![digit_char(value)]
    } else {
        hex_text(value / 16, one_less(width)).push(digit_char(value % 16))
    }
}

/// `width - 1`, or 0 for 0.
pub open spec fn one_less(width: nat) -> nat {
    if width == 0 {
        0
    } else {
        (width - 1) as nat
    }
}

/// The file name of the segment of a generation.
pub open spec fn name_of(generation: u64) -> Seq<char> {
    hex_text(generation as nat, NAME_WIDTH as nat)
}

/// A longer sequence of digits denotes a larger number or the same.
pub proof fn lemma_hex_value_grows(text: Seq<char>, cut: int)
    requires
        0 <= cut <= text.len(),
        all_digits(text),
    ensures
        hex_value(text.subrange(0, cut)) <= hex_value(text),
    decreases text.len(),
{
    if cut == text.len() {
        assert(text.subrange(0, cut) =~= text);
    } else {
        assert(digit_value(text[text.len() - 1]) is Some);
        assert forall|i: int| 0 <= i < text.drop_last().len() implies digit_value(
            #[trigger] text.drop_last()[i],
        ) is Some by {
            assert(text.drop_last()[i] == text[i]);
        }
        lemma_hex_value_grows(text.drop_last(), cut);
        assert(text.drop_last().subrange(0, cut) =~= text.subrange(0, cut));
    }
}

/// The text of a number consists of digits and denotes the number.
pub proof fn lemma_hex_text(value: nat, width: nat)
    ensures
        hex_text(value, width).len() > 0,
        all_digits(hex_text(value, width)),
        hex_value(hex_text(value, width)) == value,
    decreases value, width,
{
    let text = hex_text(value, width);
    if value < 16 && width <= 1 {
        assert(text.drop_last() =~= Seq::<char>::empty());
        assert(text.last() == digit_char(value));
        assert(digit_value(digit_char(value)) == Some(value));
        assert(hex_value(text.drop_last()) == 0);
    } else {
        let shorter = hex_text(value / 16, one_less(width));
        lemma_hex_text(value / 16, one_less(width));
        assert(text.drop_last() =~= shorter);
        assert(text.last() == digit_char(value % 16));
        assert(digit_value(digit_char(value % 16)) == Some(value % 16));
        assert forall|i: int| 0 <= i < text.len() implies digit_value(#[trigger] text[i])
            is Some by {
            if i < shorter.len() {
                assert(text[i] == shorter[i]);
            }
        }
    }
}

/// A segment's name denotes the generation it was made from.
pub proof fn lemma_name_round_trip(generation: u64)
    ensures
        generation_of(name_of(generation)) == Some(generation),
{
    lemma_hex_text(generation as nat, NAME_WIDTH as nat);
}

/// The value of one hexadecimal digit.
fn digit_of(c: char) -> (r: Option<u64>)
    ensures
        match r {
            Some(d) => digit_value(c) == Some(d as nat) && d < 16,
            None => digit_value(c) is None,
        },
{
    if '0' <= c && c <= '9' {
        Some((c as u32 - '0' as u32) as u64)
    } else if 'a' <= c && c <= 'f' {
        Some((c as u32 - 'a' as u32 + 10) as u64)
    } else if 'A' <= c && c <= 'F' {
        Some((c as u32 - 'A' as u32 + 10) as u64)
    } else {
        None
    }
}

/// Reads a generation number from a segment's file name.
pub fn parse_generation(name: &str) -> (r: Option<u64>)
    ensures
        r == generation_of(name@),
{
    let len = name.unicode_len();
    if len == 0 {
        return None;
    }
    let mut value: u64 = 0;
    let mut i: usize = 0;
    while i < len
        invariant
            i <= len,
            len == name@.len(),
            all_digits(name@.subrange(0, i as int)),
            value == hex_value(name@.subrange(0, i as int)),
        decreases len - i,
    {
        let c = name.get_char(i);
        let ghost before = name@.subrange(0, i as int);
        let ghost after = name@.subrange(0, i + 1);
        assert(after.drop_last() =~= before);
        assert(after.last() == c);
        match digit_of(c) {
            Some(digit) => {
                assert forall|j: int| 0 <= j < after.len() implies digit_value(#[trigger] after[j])
                    is Some by {
                    if j < i {
                        assert(after[j] == before[j]);
                    }
                }
                if value > (u64::MAX - digit) / 16 {
                    proof {
                        assert(hex_value(after) > u64::MAX);
                        if all_digits(name@) {
                            lemma_hex_value_grows(name@, i + 1);
                        }
                    }
                    return None;
                }
                value = value * 16 + digit;
            },
            None => {
                assert(name@[i as int] == c);
                return None;
            },
        }
        i += 1;
    }
    assert(name@.subrange(0, i as int) =~= name@);
    Some(value)
}

/// The text of one hexadecimal digit.
fn digit_text(value: u64) -> (r: &'static str)
    requires
        value < 16,
    ensures
        r@ == seq![digit_char(value as nat)],
{
    proof {
        reveal_strlit("0");
        reveal_strlit("1");
        reveal_strlit("2");
        reveal_strlit("3");
        reveal_strlit("4");
        reveal_strlit("5");
        reveal_strlit("6");
        reveal_strlit("7");
        reveal_strlit("8");
        reveal_strlit("9");
        reveal_strlit("a");
        reveal_strlit("b");
        reveal_strlit("c");
        reveal_strlit("d");
        reveal_strlit("e");
        reveal_strlit("f");
    }
    let r = if value == 0 {
        "0"
    } else if value == 1 {
        "1"
    } else if value == 2 {
        "2"
    } else if value == 3 {
        "3"
    } else if value == 4 {
        "4"
    } else if value == 5 {
        "5"
    } else if value == 6 {
        "6"
    } else if value == 7 {
        "7"
    } else if value == 8 {
        "8"
    } else if value == 9 {
        "9"
    } else if value == 10 {
        "a"
    } else if value == 11 {
        "b"
    } else if value == 12 {
        "c"
    } else if value == 13 {
        "d"
    } else if value == 14 {
        "e"
    } else {
        "f"
    };
    assert(r@ =~= seq![digit_char(value as nat)]);
    r
}

/// Writes `value` in hexadecimal, padded with zeros to `width` digits.
fn hex_string(value: u64, width: usize) -> (r: String)
    ensures
        r@ == hex_text(value as nat, width as nat),
    decreases value, width,
{
    if value < 16 && width <= 1 {
        String::from_str(digit_text(value))
    } else {
        let shorter = if width == 0 {
            0
        } else {
            width - 1
        };
        let mut text = hex_string(value / 16, shorter);
        text.append(digit_text(value % 16));
        assert(text@ =~= hex_text(value as nat / 16, one_less(width as nat)).push(
            digit_char(value as nat % 16),
        ));
        text
    }
}

/// The file name of the segment of a generation.
pub fn segment_name(generation: u64) -> (r: String)
    ensures
        r@ == name_of(generation),
        generation_of(r@) == Some(generation),
{
    proof {
        lemma_name_round_trip(generation);
    }
    hex_string(generation, NAME_WIDTH)
}

} // verus!
