use vstd::prelude::*;
use vstd::string::StrSliceExecFns;

verus! {

/// Whether a UTF-16 code unit is the first half of a surrogate pair.
pub open spec fn is_high_surrogate(unit: u16) -> bool {
    0xd800 <= unit <= 0xdbff
}

/// Whether a UTF-16 code unit is the second half of a surrogate pair.
pub open spec fn is_low_surrogate(unit: u16) -> bool {
    0xdc00 <= unit <= 0xdfff
}

/// Whether the code units start with a well-formed surrogate pair.
pub open spec fn starts_with_pair(units: Seq<u16>) -> bool {
    units.len() >= 2 && is_high_surrogate(units[0]) && is_low_surrogate(units[1])
}

/// How many code units the first character of a non-empty text takes.
pub open spec fn first_len(units: Seq<u16>) -> int {
    if starts_with_pair(units) {
        2
    } else {
        1
    }
}

/// The scalar value of the first character of a non-empty text. A surrogate without
/// its partner reads as the replacement character.
pub open spec fn first_scalar(units: Seq<u16>) -> u32 {
    if starts_with_pair(units) {
        (0x10000 + (units[0] - 0xd800) * 0x400 + (units[1] - 0xdc00)) as u32
    } else if is_high_surrogate(units[0]) || is_low_surrogate(units[0]) {
        0xfffd
    } else {
        units[0] as u32
    }
}

/// The characters that UTF-16 code units spell, with the replacement character in
/// place of each surrogate that has no partner.
pub open spec fn utf16_chars(units: Seq<u16>) -> Seq<char>
    decreases units.len(),
{
    if units.len() == 0 {
        Seq::empty()
    } else {
        seq![first_scalar(units) as char] + utf16_chars(units.skip(first_len(units)))
    }
}

/// The number of bytes a scalar value takes in UTF-8.
pub open spec fn utf8_width(scalar: u32) -> int {
    if scalar < 0x80 {
        1
    } else if scalar < 0x800 {
        2
    } else if scalar < 0x10000 {
        3
    } else {
        4
    }
}

/// The number of bytes the text takes in UTF-8.
pub open spec fn utf8_len(units: Seq<u16>) -> int
    decreases units.len(),
{
    if units.len() == 0 {
        0
    } else {
        utf8_width(first_scalar(units)) + utf8_len(units.skip(first_len(units)))
    }
}

/// The number of code units that a bulk write into `capacity` bytes takes in: whole
/// characters from the front, until the next one does not fit.
pub open spec fn units_written(units: Seq<u16>, capacity: int) -> int
    decreases units.len(),
{
    if units.len() == 0 || utf8_width(first_scalar(units)) > capacity {
        0
    } else {
        first_len(units) + units_written(
            units.skip(first_len(units)),
            capacity - utf8_width(first_scalar(units)),
        )
    }
}

/// The room the optimistic conversion allows: the text's length and a fifth more.
pub open spec fn fast_capacity(len: int) -> int {
    len + len / 5
}

/// Calls `String::from_utf16_lossy` of the standard library. The contract takes from
/// its documentation that the code units are decoded as UTF-16 and that each
/// surrogate without a partner becomes the replacement character U+FFFD.
#[verifier::external_body]
fn string_from_utf16(units: &Vec<u16>) -> (res: String)
    ensures
        res@ == utf16_chars(units@),
{
    String::from_utf16_lossy(units)
}

/// The width in UTF-8 of the character at `at`, and the number of code units it takes.
fn width_at(units: &Vec<u16>, at: usize) -> (r: (u8, u8))
    requires
        at < units.len(),
    ensures
        r.0 as int == utf8_width(first_scalar(units@.skip(at as int))),
        r.1 as int == first_len(units@.skip(at as int)),
{
    let unit = units[at];
    if unit < 0x80 {
        (1, 1)
    } else if unit < 0x800 {
        (2, 1)
    } else if 0xd800 <= unit && unit <= 0xdbff && at + 1 < units.len() && 0xdc00 <= units[at + 1]
        && units[at + 1] <= 0xdfff {
        (4, 2)
    } else {
        (3, 1)
    }
}

/// The number of code units a bulk write into `capacity` bytes takes in.
fn bulk_count(units: &Vec<u16>, capacity: u128) -> (nchars: usize)
    ensures
        nchars as int == units_written(units@, capacity as int),
        nchars <= units.len(),
{
    let mut at: usize = 0;
    let mut room: u128 = capacity;
    assert(units@.skip(0) == units@);
    while at < units.len()
        invariant
            at <= units.len(),
            units_written(units@, capacity as int) == at + units_written(
                units@.skip(at as int),
                room as int,
            ),
        decreases units.len() - at,
    {
        let (width, len) = width_at(units, at);
        if width as u128 > room {
            return at;
        }
        assert(units@.skip(at as int).skip(len as int) == units@.skip(at + len));
        room = room - width as u128;
        at = at + len as usize;
    }
    at
}

/// The optimistic conversion to UTF-8: one bulk write into room for the text's length
/// and a fifth more. It gives up where that room does not hold the whole text.
pub fn to_utf8_fast(s: &Vec<u16>) -> (r: Option<String>)
    ensures
        r is Some <==> units_written(s@, fast_capacity(s@.len() as int)) == s@.len(),
        r is Some ==> r->0@ == utf16_chars(s@),
{
    let str_chars = s.len();
    let capacity: u128 = str_chars as u128 + (str_chars as u128) / 5;
    let nchars = bulk_count(s, capacity);
    if nchars < str_chars {
        return None;
    }
    Some(string_from_utf16(s))
}

/// The number of bytes the text takes in UTF-8.
pub fn utf8_length(s: &Vec<u16>) -> (n: u128)
    ensures
        n as int == utf8_len(s@),
{
    let mut at: usize = 0;
    let mut n: u128 = 0;
    assert(s@.skip(0) == s@);
    while at < s.len()
        invariant
            at <= s.len(),
            n <= 4 * at,
            utf8_len(s@) == n + utf8_len(s@.skip(at as int)),
        decreases s.len() - at,
    {
        let (width, len) = width_at(s, at);
        assert(s@.skip(at as int).skip(len as int) == s@.skip(at + len));
        n = n + width as u128;
        at = at + len as usize;
    }
    n
}

/// The exact conversion to UTF-8: the text is measured, then written once into room
/// of exactly that size.
pub fn to_utf8_slow(s: &Vec<u16>) -> (r: String)
    ensures
        r@ == utf16_chars(s@),
{
    let capacity = utf8_length(s);
    let nchars = bulk_count(s, capacity);
    proof {
        lemma_written_all(s@, capacity as int);
    }
    assert(nchars == s.len());
    string_from_utf16(s)
}

/// The text of an engine string as a native string: the optimistic conversion, and
/// the exact one where that gave up.
pub fn to_utf8(s: &Vec<u16>) -> (r: String)
    ensures
        r@ == utf16_chars(s@),
{
    match to_utf8_fast(s) {
        Some(text) => text,
        None => to_utf8_slow(s),
    }
}

/// The UTF-8 length of a text is not negative.
pub proof fn lemma_utf8_len_nonnegative(units: Seq<u16>)
    ensures
        utf8_len(units) >= 0,
    decreases units.len(),
{
    if units.len() != 0 {
        lemma_utf8_len_nonnegative(units.skip(first_len(units)));
    }
}

/// A bulk write takes in the whole text exactly when its room holds the text's
/// UTF-8 length.
pub proof fn lemma_written_all(units: Seq<u16>, capacity: int)
    requires
        capacity >= 0,
    ensures
        0 <= units_written(units, capacity) <= units.len(),
        units_written(units, capacity) == units.len() <==> utf8_len(units) <= capacity,
    decreases units.len(),
{
    if units.len() != 0 {
        let rest = units.skip(first_len(units));
        let width = utf8_width(first_scalar(units));
        lemma_utf8_len_nonnegative(rest);
        if width <= capacity {
            lemma_written_all(rest, capacity - width);
        }
    }
}

/// The optimistic conversion and the exact one agree wherever the optimistic one
/// answers, and the optimistic one answers exactly when the text's UTF-8 length is
/// within the room it allows.
pub proof fn lemma_fast_agrees_with_slow(units: Seq<u16>)
    ensures
        units_written(units, fast_capacity(units.len() as int)) == units.len() <==> utf8_len(units)
            <= fast_capacity(units.len() as int),
{
    lemma_written_all(units, fast_capacity(units.len() as int));
}

/// Whether every surrogate in the code units has its partner.
pub open spec fn well_formed(units: Seq<u16>) -> bool
    decreases units.len(),
{
    if units.len() == 0 {
        true
    } else if starts_with_pair(units) {
        well_formed(units.skip(2))
    } else if is_high_surrogate(units[0]) || is_low_surrogate(units[0]) {
        false
    } else {
        well_formed(units.skip(1))
    }
}

/// Whether every surrogate in the code units has its partner.
pub fn is_well_formed(units: &Vec<u16>) -> (r: bool)
    ensures
        r == well_formed(units@),
{
    let mut at: usize = 0;
    assert(units@.skip(0) == units@);
    while at < units.len()
        invariant
            at <= units.len(),
            well_formed(units@) == well_formed(units@.skip(at as int)),
        decreases units.len() - at,
    {
        let unit = units[at];
        if 0xd800 <= unit && unit <= 0xdbff {
            if at + 1 < units.len() && 0xdc00 <= units[at + 1] && units[at + 1] <= 0xdfff {
                assert(units@.skip(at as int).skip(2) == units@.skip(at + 2));
                at = at + 2;
            } else {
                return false;
            }
        } else if 0xdc00 <= unit && unit <= 0xdfff {
            return false;
        } else {
            assert(units@.skip(at as int).skip(1) == units@.skip(at + 1));
            at = at + 1;
        }
    }
    true
}

/// Whether the code units are exactly the UTF-16 spelling of `name`: they are
/// well-formed and spell its characters.
pub open spec fn spells(units: Seq<u16>, name: Seq<char>) -> bool {
    well_formed(units) && utf16_chars(units) == name
}

/// Whether the code units are exactly the UTF-16 spelling of `name`.
pub fn is_spelling_of(units: &Vec<u16>, name: &String) -> (r: bool)
    ensures
        r == spells(units@, name@),
{
    if !is_well_formed(units) {
        return false;
    }
    let text = to_utf8(units);
    text == *name
}

/// The first `max_chars` characters of `s`, or all of `s` where it has no more.
pub fn truncate(s: &str, max_chars: usize) -> (r: &str)
    ensures
        r@ == s@.take(if max_chars <= s@.len() {
            max_chars as int
        } else {
            s@.len() as int
        }),
{
    if s.unicode_len() > max_chars {
        s.substring_char(0, max_chars)
    } else {
        assert(s@.take(s@.len() as int) == s@);
        s
    }
}

} // verus!
