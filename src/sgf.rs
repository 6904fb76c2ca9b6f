use vstd::prelude::*;
use vstd::string::*;

verus! {

/// The digit character for `d`, with `d < 10`.
pub open spec fn digit_char(d: int) -> char {
    seq!['0', '1', '2', '3', '4', '5', '6', '7', '8', '9'][d]
}

/// The lowercase letter at position `n` of the alphabet, with `n < 19`.
pub open spec fn coord_char(n: int) -> char {
    seq!['a', 'b', 'c', 'd', 'e', 'f', 'g', 'h', 'i', 'j', 'k', 'l', 'm', 'n', 'o', 'p', 'q', 'r', 's'][n]
}

/// The position in the alphabet of a lowercase letter up to `s`; -1 for any other character.
pub open spec fn coord_index(c: char) -> int {
    if c == 'a' { 0 } else if c == 'b' { 1 } else if c == 'c' { 2 } else if c == 'd' { 3 } else if c == 'e' { 4 }
    else if c == 'f' { 5 } else if c == 'g' { 6 } else if c == 'h' { 7 } else if c == 'i' { 8 } else if c == 'j' { 9 }
    else if c == 'k' { 10 } else if c == 'l' { 11 } else if c == 'm' { 12 } else if c == 'n' { 13 } else if c == 'o' { 14 }
    else if c == 'p' { 15 } else if c == 'q' { 16 } else if c == 'r' { 17 } else if c == 's' { 18 } else { -1 }
}

/// A coordinate letter reads back as its position.
pub proof fn lemma_coord_index(n: int)
    requires
        0 <= n < 19,
    ensures
        coord_index(coord_char(n)) == n,
{
    let table = seq!['a', 'b', 'c', 'd', 'e', 'f', 'g', 'h', 'i', 'j', 'k', 'l', 'm', 'n', 'o', 'p', 'q', 'r', 's'];
    assert(coord_char(n) == table[n]);
}

/// Decimal digits of `n`, most significant first.
pub open spec fn digits(n: nat) -> Seq<char>
    decreases n,
{
    if n < 10 {
        seq![digit_char(n as int)]
    } else {
        digits(n / 10).push(digit_char((n % 10) as int))
    }
}

/// No digit character is a closing bracket.
pub proof fn lemma_digit_not_close(d: int)
    requires
        0 <= d < 10,
    ensures
        digit_char(d) != ']',
{
    let table = seq!['0', '1', '2', '3', '4', '5', '6', '7', '8', '9'];
    assert(digit_char(d) == table[d]);
}

/// Decimal digits hold no closing bracket.
pub proof fn lemma_digits_no_close(n: nat)
    ensures
        forall|k: int| 0 <= k < digits(n).len() ==> digits(n)[k] != ']',
    decreases n,
{
    lemma_digit_not_close((n % 10) as int);
    if n >= 10 {
        lemma_digits_no_close(n / 10);
        let d = digits(n / 10);
        assert forall|k: int| 0 <= k < digits(n).len() implies digits(n)[k] != ']' by {
            if k < d.len() {
                assert(digits(n)[k] == d[k]);
            }
        }
    }
}

/// The text of a value in tenths holds no closing bracket.
pub proof fn lemma_tenths_no_close(v: int)
    ensures
        forall|k: int| 0 <= k < tenths_text(v).len() ==> tenths_text(v)[k] != ']',
{
    let m = if v < 0 { -v } else { v };
    lemma_digits_no_close((m / 10) as nat);
    lemma_digit_not_close(m % 10);
    let sign = if v < 0 { seq!['-'] } else { Seq::<char>::empty() };
    let frac = if m % 10 != 0 { seq!['.', digit_char(m % 10)] } else { Seq::<char>::empty() };
    let dg = digits((m / 10) as nat);
    assert forall|k: int| 0 <= k < tenths_text(v).len() implies tenths_text(v)[k] != ']' by {
        let t = tenths_text(v);
        assert(t == sign + dg + frac);
        if k < sign.len() {
        } else if k < sign.len() + dg.len() {
            assert(t[k] == dg[k - sign.len()]);
        } else {
            assert(t[k] == frac[k - sign.len() - dg.len()]);
        }
    }
}

/// A value given in tenths, written as a decimal number: the tenths digit
/// only when it is not zero, a minus sign only for a negative value.
pub open spec fn tenths_text(v: int) -> Seq<char> {
    let m = if v < 0 { -v } else { v };
    let sign = if v < 0 { seq!['-'] } else { Seq::<char>::empty() };
    let frac = if m % 10 != 0 { seq!['.', digit_char(m % 10)] } else { Seq::<char>::empty() };
    sign + digits((m / 10) as nat) + frac
}

pub fn digit(d: u32) -> (r: char)
    requires
        d < 10,
    ensures
        r == digit_char(d as int),
{
    let table = ['0', '1', '2', '3', '4', '5', '6', '7', '8', '9'];
    assert(table@ =~= seq!['0', '1', '2', '3', '4', '5', '6', '7', '8', '9']);
    table[d as usize]
}

pub fn coord(n: u8) -> (r: char)
    requires
        n < 19,
    ensures
        r == coord_char(n as int),
{
    let table = ['a', 'b', 'c', 'd', 'e', 'f', 'g', 'h', 'i', 'j', 'k', 'l', 'm', 'n', 'o', 'p', 'q', 'r', 's'];
    assert(table@ =~= seq!['a', 'b', 'c', 'd', 'e', 'f', 'g', 'h', 'i', 'j', 'k', 'l', 'm', 'n', 'o', 'p', 'q', 'r', 's']);
    table[n as usize]
}

/// Appends the decimal digits of `n`.
pub fn push_digits(out: &mut Vec<char>, n: u32)
    ensures
        final(out)@ == old(out)@ + digits(n as nat),
    decreases n,
{
    if n >= 10 {
        push_digits(out, n / 10);
    }
    out.push(digit(n % 10));
    proof {
        if n >= 10 {
            assert(final(out)@ =~= old(out)@ + digits(n as nat));
        } else {
            assert(final(out)@ =~= old(out)@ + digits(n as nat));
        }
    }
}

/// Appends `tenths_text(v)`.
pub fn push_tenths(out: &mut Vec<char>, v: i32)
    ensures
        final(out)@ == old(out)@ + tenths_text(v as int),
{
    let m: u32 = if v < 0 { (0 - (v as i64)) as u32 } else { v as u32 };
    let ghost start = out@;
    if v < 0 {
        out.push('-');
    }
    let ghost signed = out@;
    push_digits(out, m / 10);
    let ghost whole = out@;
    if m % 10 != 0 {
        out.push('.');
        out.push(digit(m % 10));
    }
    proof {
        let mi = if v < 0 { -(v as int) } else { v as int };
        assert(m as int == mi);
        let sign = if v < 0 { seq!['-'] } else { Seq::<char>::empty() };
        let frac = if mi % 10 != 0 { seq!['.', digit_char(mi % 10)] } else { Seq::<char>::empty() };
        assert(signed =~= start + sign);
        assert(out@ =~= start + sign + digits((mi / 10) as nat) + frac);
    }
}

/// Relies on std's `FromIterator<char>` for `String` (`collect`): the string
/// holds the given characters in order.
#[verifier::external_body]
pub(crate) fn chars_to_string(v: &Vec<char>) -> (r: String)
    ensures
        r@ == v@,
{
    v.iter().collect()
}

/// `prefix` followed by the characters of `rest`.
pub fn join_text(prefix: &str, rest: &Vec<char>) -> (r: String)
    ensures
        r@ == prefix@ + rest@,
{
    let mut s = String::from_str(prefix);
    let tail = chars_to_string(rest);
    s.append(tail.as_str());
    s
}

} // verus!
