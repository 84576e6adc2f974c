//! Character-level helpers shared by the document printer and the package model.
use vstd::prelude::*;
use vstd::string::StringSliceAdditionalSpecFns;

verus! {

/// The characters of `s`, in order.
pub fn chars_of(s: &str) -> (result: Vec<char>)
    ensures
        result@ == s@,
{
    broadcast use vstd::string::group_string_axioms;

    let mut result: Vec<char> = Vec::new();
    for c in it: s.chars()
        invariant
            result@ == it.seq().take(it.index() as int),
            it.seq() == s@,
    {
        result.push(c);
    }
    result
}

/// Collects characters into a `String` (`FromIterator<char>` for `String`).
/// Trusted: the resulting string holds exactly the given characters, in order.
#[verifier::external_body]
pub(crate) fn string_from_chars(chars: &Vec<char>) -> (result: String)
    ensures
        result@ == chars@,
{
    chars.iter().collect()
}

/// `char::is_control`: the general category `Cc`, which is exactly
/// U+0000..=U+001F and U+007F..=U+009F.
pub open spec fn is_control(c: char) -> bool {
    (c as u32) <= 0x1f || (0x7f <= (c as u32) && (c as u32) <= 0x9f)
}

pub fn char_is_control(c: char) -> (result: bool)
    ensures
        result == is_control(c),
{
    let code = c as u32;
    code <= 0x1f || (0x7f <= code && code <= 0x9f)
}

/// The number of bytes of the UTF-8 encoding of `c` (`char::len_utf8`).
pub open spec fn utf8_width(c: char) -> nat {
    if (c as u32) < 0x80 {
        1
    } else if (c as u32) < 0x800 {
        2
    } else if (c as u32) < 0x10000 {
        3
    } else {
        4
    }
}

/// The number of bytes of the UTF-8 encoding of `s` (`str::len`).
pub open spec fn utf8_len(s: Seq<char>) -> nat
    decreases s.len(),
{
    if s.len() == 0 {
        0
    } else {
        utf8_len(s.drop_last()) + utf8_width(s.last())
    }
}

pub fn char_utf8_width(c: char) -> (result: usize)
    ensures
        result == utf8_width(c),
        1 <= result <= 4,
{
    let code = c as u32;
    if code < 0x80 {
        1
    } else if code < 0x800 {
        2
    } else if code < 0x10000 {
        3
    } else {
        4
    }
}

pub proof fn lemma_utf8_len_concat(a: Seq<char>, b: Seq<char>)
    ensures
        utf8_len(a + b) == utf8_len(a) + utf8_len(b),
    decreases b.len(),
{
    if b.len() == 0 {
        assert(a + b =~= a);
    } else {
        lemma_utf8_len_concat(a, b.drop_last());
        assert((a + b).drop_last() =~= a + b.drop_last());
    }
}

pub proof fn lemma_utf8_len_push(s: Seq<char>, c: char)
    ensures
        utf8_len(s.push(c)) == utf8_len(s) + utf8_width(c),
{
    assert(s.push(c).drop_last() =~= s);
}

/// The UTF-8 length of `value`, saturated at `usize::MAX`.
pub fn utf8_length(value: &Vec<char>) -> (result: usize)
    ensures
        result == sat(utf8_len(value@) as int),
{
    let mut total: usize = 0;
    let mut i: usize = 0;
    while i < value.len()
        invariant
            i <= value.len(),
            total == sat(utf8_len(value@.take(i as int)) as int),
        decreases value.len() - i,
    {
        proof {
            assert(value@.take(i + 1).drop_last() =~= value@.take(i as int));
        }
        total = total.saturating_add(char_utf8_width(value[i]));
        i += 1;
    }
    assert(value@.take(i as int) =~= value@);
    total
}

/// The capacity of `s` (`String::capacity`). Trusted: the capacity is at
/// least the length in bytes; its exact value is the allocator's choice.
#[verifier::external_body]
pub(crate) fn string_capacity(s: &String) -> (result: usize)
    ensures
        result >= utf8_len(s@),
{
    s.capacity()
}

pub proof fn lemma_utf8_len_bounds(s: Seq<char>)
    ensures
        s.len() <= utf8_len(s) <= 4 * s.len(),
    decreases s.len(),
{
    if s.len() > 0 {
        lemma_utf8_len_bounds(s.drop_last());
    }
}

/// An ASCII-only sequence takes one byte per character.
pub proof fn lemma_utf8_len_all_ascii(s: Seq<char>)
    requires
        forall|i: int| 0 <= i < s.len() ==> (#[trigger] s[i] as u32) < 0x80,
    ensures
        utf8_len(s) == s.len(),
    decreases s.len(),
{
    if s.len() > 0 {
        lemma_utf8_len_all_ascii(s.drop_last());
    }
}

/// The UTF-8 encoding of `s` has `utf8_len(s)` bytes.
pub proof fn lemma_encode_utf8_len(s: Seq<char>)
    ensures
        vstd::utf8::encode_utf8(s).len() == utf8_len(s),
    decreases s.len(),
{
    if s.len() > 0 {
        lemma_encode_utf8_len(s.drop_first());
        vstd::utf8::char_is_scalar(s[0]);
        lemma_utf8_len_concat(seq![s[0]], s.drop_first());
        assert(seq![s[0]] + s.drop_first() =~= s);
        assert(seq![s[0]].drop_last() =~= Seq::<char>::empty());
        assert(vstd::utf8::encode_utf8(s) == vstd::utf8::encode_scalar(s[0] as u32)
            + vstd::utf8::encode_utf8(s.drop_first()));
        assert(vstd::utf8::encode_scalar(s[0] as u32).len() == utf8_width(s[0]));
        let single = seq![s[0]];
        assert(single.last() == s[0]);
        assert(utf8_len(single.drop_last()) == 0);
        assert(utf8_len(single) == utf8_width(s[0]));
    }
}

/// `n` spaces.
pub open spec fn spaces(n: nat) -> Seq<char> {
    Seq::new(n, |i: int| ' ')
}

/// Saturation at `usize::MAX`, as `usize::saturating_add` does.
pub open spec fn sat(x: int) -> int {
    if x > usize::MAX {
        usize::MAX as int
    } else {
        x
    }
}

/// The decimal digit for `d`.
pub open spec fn digit_char(d: nat) -> char {
    if d == 0 { '0' }
    else if d == 1 { '1' }
    else if d == 2 { '2' }
    else if d == 3 { '3' }
    else if d == 4 { '4' }
    else if d == 5 { '5' }
    else if d == 6 { '6' }
    else if d == 7 { '7' }
    else if d == 8 { '8' }
    else { '9' }
}

/// The decimal notation of `n`, without leading zeros.
pub open spec fn decimal(n: nat) -> Seq<char>
    decreases n,
{
    if n < 10 {
        seq![digit_char(n)]
    } else {
        decimal(n / 10).push(digit_char(n % 10))
    }
}

fn digit(d: u64) -> (result: char)
    requires
        d < 10,
    ensures
        result == digit_char(d as nat),
{
    if d == 0 { '0' }
    else if d == 1 { '1' }
    else if d == 2 { '2' }
    else if d == 3 { '3' }
    else if d == 4 { '4' }
    else if d == 5 { '5' }
    else if d == 6 { '6' }
    else if d == 7 { '7' }
    else if d == 8 { '8' }
    else { '9' }
}

/// Appends the decimal notation of `n` to `out`.
pub fn push_decimal(out: &mut Vec<char>, n: u64)
    ensures
        final(out)@ == old(out)@ + decimal(n as nat),
    decreases n,
{
    if n < 10 {
        out.push(digit(n));
        assert(decimal(n as nat) =~= seq![digit_char(n as nat)]);
    } else {
        push_decimal(out, n / 10);
        out.push(digit(n % 10));
    }
}

/// Appends the characters of `s` to `out`.
pub fn push_text(out: &mut Vec<char>, s: &str)
    ensures
        final(out)@ == old(out)@ + s@,
{
    let chars = chars_of(s);
    let mut i: usize = 0;
    while i < chars.len()
        invariant
            i <= chars.len(),
            chars@ == s@,
            out@ == old(out)@ + chars@.take(i as int),
        decreases chars.len() - i,
    {
        out.push(chars[i]);
        i += 1;
        assert(chars@.take(i as int) =~= chars@.take(i - 1).push(chars@[i - 1]));
    }
    assert(chars@.take(i as int) =~= chars@);
}

} // verus!
