use vstd::prelude::*;
use crate::board::Location;

verus! {

/// A line that does not read as a column letter and a row number.
#[derive(Debug, Copy, Clone, PartialEq, Eq, Structural)]
pub struct ParseTwoIntError {}

/// The fields of `s` from position `i` on, given the field `cur` being read:
/// maximal runs of bytes other than a space.
pub open spec fn fields_from(s: Seq<u8>, i: int, cur: Seq<u8>) -> Seq<Seq<u8>>
    decreases s.len() - i,
{
    let done = if cur.len() > 0 { seq![cur] } else { Seq::<Seq<u8>>::empty() };
    if i >= s.len() {
        done
    } else if s[i] == 32u8 {
        done + fields_from(s, i + 1, Seq::empty())
    } else {
        fields_from(s, i + 1, cur.push(s[i]))
    }
}

/// The space-separated fields of `s`.
pub open spec fn fields(s: Seq<u8>) -> Seq<Seq<u8>> {
    fields_from(s, 0, Seq::empty())
}

pub open spec fn is_digit(b: u8) -> bool {
    48 <= b <= 57
}

/// The number written by the decimal digits `d`.
pub open spec fn decimal_value(d: Seq<u8>) -> int
    decreases d.len(),
{
    if d.len() == 0 {
        0
    } else {
        decimal_value(d.drop_last()) * 10 + (d.last() - 48)
    }
}

/// A field without its leading `+`, if any.
pub open spec fn unsigned_part(t: Seq<u8>) -> Seq<u8> {
    if t.len() > 0 && t[0] == 43u8 {
        t.drop_first()
    } else {
        t
    }
}

pub open spec fn all_digits(d: Seq<u8>) -> bool {
    forall|k: int| 0 <= k < d.len() ==> is_digit(#[trigger] d[k])
}

/// The number a field reads as, as for a `u8`: an optional `+`, then at
/// least one digit, worth at most 255.
pub open spec fn byte_value(t: Seq<u8>) -> Option<int> {
    let d = unsigned_part(t);
    if d.len() > 0 && all_digits(d) && decimal_value(d) <= 255 {
        Some(decimal_value(d))
    } else {
        None
    }
}

/// The column of a capital letter; `I` is not a column letter.
pub open spec fn column_of(b: u8) -> Option<int> {
    if 65 <= b <= 90 && b != 73 {
        Some(b - 65)
    } else {
        None
    }
}

/// The location a line names: a column letter and a row number from 1,
/// as two space-separated fields.
pub open spec fn parsed(s: Seq<u8>) -> Option<Location> {
    let f = fields(s);
    if f.len() == 2 && f[0].len() == 1 && column_of(f[0][0]).is_some() && byte_value(f[1]).is_some()
        && byte_value(f[1]).unwrap() >= 1 {
        Some(Location { alphabet: column_of(f[0][0]).unwrap() as u8, digit: (byte_value(f[1]).unwrap() - 1) as u8 })
    } else {
        None
    }
}

proof fn lemma_value_grows(d: Seq<u8>, k: int)
    requires
        0 <= k <= d.len(),
        forall|j: int| 0 <= j < d.len() ==> is_digit(#[trigger] d[j]),
    ensures
        decimal_value(d) >= decimal_value(d.take(k)),
    decreases d.len(),
{
    if k < d.len() {
        let init = d.drop_last();
        assert(init.take(k) =~= d.take(k));
        assert forall|j: int| 0 <= j < init.len() implies is_digit(#[trigger] init[j]) by {
            assert(init[j] == d[j]);
        }
        lemma_value_grows(init, k);
        lemma_value_nonneg(init);
    } else {
        assert(d.take(k) =~= d);
    }
}

proof fn lemma_value_nonneg(d: Seq<u8>)
    requires
        forall|j: int| 0 <= j < d.len() ==> is_digit(#[trigger] d[j]),
    ensures
        decimal_value(d) >= 0,
    decreases d.len(),
{
    if d.len() > 0 {
        let init = d.drop_last();
        assert forall|j: int| 0 <= j < init.len() implies is_digit(#[trigger] init[j]) by {
            assert(init[j] == d[j]);
        }
        lemma_value_nonneg(init);
    }
}

/// Reads a field as a `u8` number.
fn read_byte(t: &Vec<u8>) -> (r: Option<u8>)
    ensures
        r.is_some() == byte_value(t@).is_some(),
        r.is_some() ==> r.unwrap() as int == byte_value(t@).unwrap(),
{
    let start: usize = if t.len() > 0 && t[0] == 43u8 { 1 } else { 0 };
    let ghost d = unsigned_part(t@);
    if start >= t.len() {
        return None;
    }
    assert(d =~= t@.skip(start as int));
    let mut v: u32 = 0;
    let mut i: usize = start;
    while i < t.len()
        invariant
            start <= i <= t@.len(),
            start == 0 || start == 1,
            d == t@.skip(start as int),
            d == unsigned_part(t@),
            forall|k: int| 0 <= k < i - start ==> is_digit(#[trigger] d[k]),
            v as int == decimal_value(d.take(i - start)),
            v <= 255,
        decreases t@.len() - i,
    {
        let b = t[i];
        if b < 48 || b > 57 {
            proof {
                assert(d[i - start] == b);
                assert(!is_digit(d[i - start]));
                assert(!all_digits(d));
            }
            return None;
        }
        proof {
            let k = i - start;
            assert(d.take(k + 1).drop_last() =~= d.take(k));
            assert(d.take(k + 1).last() == b);
        }
        v = v * 10 + (b - 48) as u32;
        i = i + 1;
        if v > 255 {
            proof {
                if all_digits(d) {
                    lemma_value_grows(d, i - start);
                    assert(decimal_value(d) > 255);
                }
            }
            return None;
        }
    }
    assert(d.take(d.len() as int) =~= d);
    assert(all_digits(d));
    Some(v as u8)
}

/// Reads a location from a line such as `D 4`: column `D` is 3, row 4 is 3.
pub fn parse_location(line: &[u8]) -> (r: Result<Location, ParseTwoIntError>)
    ensures
        r is Ok <==> parsed(line@).is_some(),
        r is Ok ==> r.unwrap() == parsed(line@).unwrap(),
{
    let mut count: usize = 0;
    let mut first: Vec<u8> = Vec::new();
    let mut second: Vec<u8> = Vec::new();
    let mut cur: Vec<u8> = Vec::new();
    let ghost mut done: Seq<Seq<u8>> = Seq::empty();
    assert(done + fields_from(line@, 0, cur@) =~= fields(line@));
    let mut i: usize = 0;
    while i < line.len()
        invariant
            i <= line@.len(),
            count == done.len(),
            count + cur@.len() <= i,
            done + fields_from(line@, i as int, cur@) == fields(line@),
            count >= 1 ==> first@ == done[0],
            count >= 2 ==> second@ == done[1],
        decreases line@.len() - i,
    {
        let b = line[i];
        let ghost c = cur@;
        let ghost dn = done;
        if b == 32u8 {
            if cur.len() > 0 {
                if count == 0 {
                    first = cur;
                } else if count == 1 {
                    second = cur;
                }
                cur = Vec::new();
                proof {
                    done = done.push(c);
                }
                count = count + 1;
            }
            proof {
                let rest = fields_from(line@, (i + 1) as int, Seq::empty());
                assert(cur@ =~= Seq::<u8>::empty());
                if c.len() > 0 {
                    assert(fields_from(line@, i as int, c) == seq![c] + rest);
                    assert(dn + (seq![c] + rest) =~= dn.push(c) + rest);
                } else {
                    assert(fields_from(line@, i as int, c) == Seq::<Seq<u8>>::empty() + rest);
                    assert(dn + (Seq::<Seq<u8>>::empty() + rest) =~= dn + rest);
                }
            }
        } else {
            cur.push(b);
            assert(fields_from(line@, i as int, c) == fields_from(line@, i + 1, c.push(b)));
        }
        i = i + 1;
    }
    let ghost c = cur@;
    assert(fields_from(line@, i as int, c) == (if c.len() > 0 { seq![c] } else { Seq::<Seq<u8>>::empty() }));
    if cur.len() > 0 {
        if count == 0 {
            first = cur;
        } else if count == 1 {
            second = cur;
        }
        proof {
            done = done.push(c);
        }
        count = count + 1;
    }
    assert(done =~= fields(line@));
    if count != 2 || first.len() != 1 {
        return Err(ParseTwoIntError {});
    }
    let letter = first[0];
    if letter < 65 || letter > 90 || letter == 73 {
        return Err(ParseTwoIntError {});
    }
    match read_byte(&second) {
        Some(v) => {
            if v == 0 {
                Err(ParseTwoIntError {})
            } else {
                Ok(Location { alphabet: letter - 65, digit: v - 1 })
            }
        },
        None => Err(ParseTwoIntError {}),
    }
}

} // verus!
