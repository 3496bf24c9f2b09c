//! OCC-style option symbols, e.g. "SPY260930P00696000":
//! root + YYMMDD + C/P + strike*1000 (8 digits).
//!
//! The strike is kept exactly, as an integer number of thousandths.

use vstd::prelude::*;
use vstd::string::StringSliceAdditionalSpecFns;
use crate::calendar::{Date, valid_ymd};
use crate::models::OptionKind;

verus! {

pub open spec fn is_digit(b: u8) -> bool {
    48 <= b <= 57
}

pub open spec fn all_digits(s: Seq<u8>) -> bool {
    forall|i: int| 0 <= i < s.len() ==> is_digit(#[trigger] s[i])
}

/// The number an ASCII decimal numeral denotes (most significant digit first).
pub open spec fn decimal_value(s: Seq<u8>) -> int
    decreases s.len(),
{
    if s.len() == 0 {
        0
    } else {
        decimal_value(s.drop_last()) * 10 + (s.last() - 48)
    }
}

/// 'C' (67) is a call, 'P' (80) a put.
pub open spec fn kind_of_letter(b: u8) -> Option<OptionKind> {
    if b == 67 {
        Some(OptionKind::Call)
    } else if b == 80 {
        Some(OptionKind::Put)
    } else {
        None
    }
}

/// What a symbol's bytes denote: `None` unless it has at least 16 bytes, its
/// last 8 bytes are digits (the strike in thousandths), the byte before them
/// is 'C' or 'P', and the 6 bytes before that are digits YYMMDD naming an
/// existing day of 20YY.
pub open spec fn spec_parse_occ(b: Seq<u8>) -> Option<(OptionKind, (int, int, int), int)> {
    let n = b.len() as int;
    if n < 16 {
        None
    } else {
        let strike = b.subrange(n - 8, n);
        let date = b.subrange(n - 15, n - 9);
        let year = 2000 + decimal_value(date.subrange(0, 2));
        let month = decimal_value(date.subrange(2, 4));
        let day = decimal_value(date.subrange(4, 6));
        if all_digits(strike) && all_digits(date) && kind_of_letter(b[n - 9]) is Some && valid_ymd(
            year,
            month,
            day,
        ) {
            Some((kind_of_letter(b[n - 9]).unwrap(), (year, month, day), decimal_value(strike)))
        } else {
            None
        }
    }
}

pub open spec fn pow10(n: nat) -> int
    decreases n,
{
    if n == 0 {
        1
    } else {
        10 * pow10((n - 1) as nat)
    }
}

/// The value of the numeral `bytes[start..end]`, or `None` if some byte there
/// is not an ASCII digit.
fn digits_value(bytes: &[u8], start: usize, end: usize) -> (r: Option<u32>)
    requires
        start <= end <= bytes@.len(),
        end - start <= 8,
    ensures
        r is Some <==> all_digits(bytes@.subrange(start as int, end as int)),
        r matches Some(v) ==> v as int == decimal_value(bytes@.subrange(start as int, end as int)),
{
    let mut acc: u32 = 0;
    let mut i = start;
    while i < end
        invariant
            start <= i <= end <= bytes@.len(),
            end - start <= 8,
            all_digits(bytes@.subrange(start as int, i as int)),
            acc as int == decimal_value(bytes@.subrange(start as int, i as int)),
            acc < pow10((i - start) as nat),
        decreases end - i,
    {
        let c = bytes[i];
        if c < 48 || c > 57 {
            assert(bytes@.subrange(start as int, end as int)[i - start] == c);
            return None;
        }
        let ghost prev = bytes@.subrange(start as int, i as int);
        assert(bytes@.subrange(start as int, i + 1).drop_last() =~= prev);
        proof {
            lemma_pow10_at_most_eight((i + 1 - start) as nat);
        }
        acc = acc * 10 + (c - 48) as u32;
        i = i + 1;
    }
    Some(acc)
}

/// Parse an OCC-style symbol into (kind, expiry, strike in thousandths).
pub fn parse_occ(sym: &str) -> (r: Option<(OptionKind, Date, u32)>)
    ensures
        match r {
            None => spec_parse_occ(sym.spec_bytes()) is None,
            Some(t) => spec_parse_occ(sym.spec_bytes()) == Some((t.0, t.1@, t.2 as int)),
        },
{
    let b = sym.as_bytes();
    let n = b.len();
    if n < 16 {
        return None;
    }
    let ghost bs = b@;
    let ghost date = bs.subrange(n - 15, n - 9);
    assert(date.subrange(0, 2) =~= bs.subrange(n - 15, n - 13));
    assert(date.subrange(2, 4) =~= bs.subrange(n - 13, n - 11));
    assert(date.subrange(4, 6) =~= bs.subrange(n - 11, n - 9));
    assert(all_digits(date) <==> (all_digits(bs.subrange(n - 15, n - 13)) && all_digits(
        bs.subrange(n - 13, n - 11),
    ) && all_digits(bs.subrange(n - 11, n - 9)))) by {
        if all_digits(bs.subrange(n - 15, n - 13)) && all_digits(bs.subrange(n - 13, n - 11))
            && all_digits(bs.subrange(n - 11, n - 9)) {
            assert forall|i: int| 0 <= i < date.len() implies is_digit(#[trigger] date[i]) by {
                if i < 2 {
                    assert(date[i] == bs.subrange(n - 15, n - 13)[i]);
                } else if i < 4 {
                    assert(date[i] == bs.subrange(n - 13, n - 11)[i - 2]);
                } else {
                    assert(date[i] == bs.subrange(n - 11, n - 9)[i - 4]);
                }
            }
        }
        if all_digits(date) {
            assert forall|i: int| 0 <= i < 2 implies is_digit(
                #[trigger] bs.subrange(n - 15, n - 13)[i],
            ) by {
                assert(date[i] == bs.subrange(n - 15, n - 13)[i]);
            }
            assert forall|i: int| 0 <= i < 2 implies is_digit(
                #[trigger] bs.subrange(n - 13, n - 11)[i],
            ) by {
                assert(date[i + 2] == bs.subrange(n - 13, n - 11)[i]);
            }
            assert forall|i: int| 0 <= i < 2 implies is_digit(
                #[trigger] bs.subrange(n - 11, n - 9)[i],
            ) by {
                assert(date[i + 4] == bs.subrange(n - 11, n - 9)[i]);
            }
        }
    }

    let strike = match digits_value(b, n - 8, n) {
        Some(v) => v,
        None => return None,
    };
    let letter = b[n - 9];
    let kind = if letter == 67 {
        OptionKind::Call
    } else if letter == 80 {
        OptionKind::Put
    } else {
        return None;
    };
    let yy = match digits_value(b, n - 15, n - 13) {
        Some(v) => v,
        None => return None,
    };
    let mm = match digits_value(b, n - 13, n - 11) {
        Some(v) => v,
        None => return None,
    };
    let dd = match digits_value(b, n - 11, n - 9) {
        Some(v) => v,
        None => return None,
    };
    proof {
        lemma_two_digits_bound(bs.subrange(n - 15, n - 13));
    }
    match Date::from_ymd_opt(2000 + yy as i32, mm, dd) {
        Some(expiry) => Some((kind, expiry, strike)),
        None => None,
    }
}

proof fn lemma_pow10_at_most_eight(k: nat)
    requires
        k <= 8,
    ensures
        pow10(k) <= 100_000_000,
        k >= 1 ==> pow10(k) == 10 * pow10((k - 1) as nat),
{
    reveal_with_fuel(pow10, 9);
}

proof fn lemma_two_digits_bound(s: Seq<u8>)
    requires
        s.len() == 2,
        all_digits(s),
    ensures
        0 <= decimal_value(s) <= 99,
{
    reveal_with_fuel(decimal_value, 3);
    assert(s.drop_last().drop_last() =~= Seq::<u8>::empty());
    assert(s.drop_last().last() == s[0]);
    assert(is_digit(s[0]) && is_digit(s[1]));
}

/// The `width`-digit zero-padded ASCII numeral of `v`.
pub open spec fn numeral(v: int, width: nat) -> Seq<u8>
    decreases width,
{
    if width == 0 {
        Seq::empty()
    } else {
        numeral(v / 10, (width - 1) as nat).push((48 + v % 10) as u8)
    }
}

pub open spec fn kind_letter(kind: OptionKind) -> u8 {
    match kind {
        OptionKind::Call => 67,
        OptionKind::Put => 80,
    }
}

/// The 15 bytes that follow the root: YYMMDD, the kind letter, and the
/// strike in thousandths as 8 digits.
pub open spec fn occ_tail(kind: OptionKind, date: (int, int, int), strike: int) -> Seq<u8> {
    numeral(date.0 - 2000, 2) + numeral(date.1, 2) + numeral(date.2, 2) + seq![kind_letter(kind)]
        + numeral(strike, 8)
}

proof fn lemma_numeral(v: int, width: nat)
    requires
        0 <= v < pow10(width),
    ensures
        numeral(v, width).len() == width,
        all_digits(numeral(v, width)),
        decimal_value(numeral(v, width)) == v,
    decreases width,
{
    if width > 0 {
        lemma_numeral(v / 10, (width - 1) as nat);
        let s = numeral(v, width);
        assert(s.drop_last() =~= numeral(v / 10, (width - 1) as nat));
    }
}

proof fn lemma_numeral_of_digits(s: Seq<u8>)
    requires
        all_digits(s),
    ensures
        0 <= decimal_value(s) < pow10(s.len()),
        numeral(decimal_value(s), s.len()) =~= s,
    decreases s.len(),
{
    if s.len() > 0 {
        let p = s.drop_last();
        assert(all_digits(p)) by {
            assert forall|i: int| 0 <= i < p.len() implies is_digit(#[trigger] p[i]) by {
                assert(p[i] == s[i]);
            }
        }
        lemma_numeral_of_digits(p);
        assert(is_digit(s[s.len() - 1]));
        let v = decimal_value(s);
        assert(v / 10 == decimal_value(p));
        assert(v % 10 == s.last() - 48);
        assert(s =~= p.push(s.last()));
    }
}

/// Every well-formed symbol parses: for any non-empty root, a kind, an
/// existing day of 2000-2099 and a strike of at most 8 digits (in
/// thousandths), root + YYMMDD + C/P + strike parses back to exactly them.
pub proof fn lemma_occ_round_trip(
    root: Seq<u8>,
    kind: OptionKind,
    date: (int, int, int),
    strike: int,
)
    requires
        root.len() >= 1,
        2000 <= date.0 <= 2099,
        valid_ymd(date.0, date.1, date.2),
        0 <= strike < 100_000_000,
    ensures
        spec_parse_occ(root + occ_tail(kind, date, strike)) == Some((kind, date, strike)),
{
    reveal_with_fuel(pow10, 9);
    lemma_numeral(date.0 - 2000, 2);
    lemma_numeral(date.1, 2);
    lemma_numeral(date.2, 2);
    lemma_numeral(strike, 8);
    let yy = numeral(date.0 - 2000, 2);
    let mm = numeral(date.1, 2);
    let dd = numeral(date.2, 2);
    let st = numeral(strike, 8);
    let b = root + occ_tail(kind, date, strike);
    let n = b.len() as int;
    let d = b.subrange(n - 15, n - 9);
    assert(b.subrange(n - 8, n) =~= st);
    assert(d =~= yy + mm + dd);
    assert(d.subrange(0, 2) =~= yy);
    assert(d.subrange(2, 4) =~= mm);
    assert(d.subrange(4, 6) =~= dd);
    assert(b[n - 9] == kind_letter(kind));
    assert(all_digits(d)) by {
        assert forall|i: int| 0 <= i < d.len() implies is_digit(#[trigger] d[i]) by {
            if i < 2 {
                assert(d[i] == yy[i]);
            } else if i < 4 {
                assert(d[i] == mm[i - 2]);
            } else {
                assert(d[i] == dd[i - 4]);
            }
        }
    }
}

/// A symbol that parses is its root followed by the canonical tail of what
/// it parsed to: nothing else in the last 15 bytes is accepted.
pub proof fn lemma_occ_parse_is_exact(b: Seq<u8>)
    requires
        spec_parse_occ(b) is Some,
    ensures
        ({
            let (kind, date, strike) = spec_parse_occ(b).unwrap();
            b =~= b.subrange(0, b.len() - 15) + occ_tail(kind, date, strike)
        }),
{
    let n = b.len() as int;
    let (kind, date, strike) = spec_parse_occ(b).unwrap();
    let d = b.subrange(n - 15, n - 9);
    let yy = d.subrange(0, 2);
    let mm = d.subrange(2, 4);
    let dd = d.subrange(4, 6);
    let st = b.subrange(n - 8, n);
    assert forall|i: int| 0 <= i < 2 implies is_digit(#[trigger] yy[i]) && is_digit(mm[i])
        && is_digit(dd[i]) by {
        assert(yy[i] == d[i]);
        assert(mm[i] == d[i + 2]);
        assert(dd[i] == d[i + 4]);
    }
    assert(all_digits(yy) && all_digits(mm) && all_digits(dd));
    lemma_numeral_of_digits(yy);
    lemma_numeral_of_digits(mm);
    lemma_numeral_of_digits(dd);
    lemma_numeral_of_digits(st);
    assert(date.0 - 2000 == decimal_value(yy));
    assert(d =~= yy + mm + dd);
    assert(b =~= b.subrange(0, n - 15) + (yy + mm + dd) + seq![b[n - 9]] + st);
}

/// The root plays no part in parsing: two symbols with the same last 15
/// bytes and non-empty roots parse to the same result.
pub proof fn lemma_occ_root_is_ignored(root1: Seq<u8>, root2: Seq<u8>, tail: Seq<u8>)
    requires
        root1.len() >= 1,
        root2.len() >= 1,
        tail.len() == 15,
    ensures
        spec_parse_occ(root1 + tail) == spec_parse_occ(root2 + tail),
{
    let b1 = root1 + tail;
    let b2 = root2 + tail;
    let n1 = b1.len() as int;
    let n2 = b2.len() as int;
    assert(b1.subrange(n1 - 8, n1) =~= tail.subrange(7, 15));
    assert(b2.subrange(n2 - 8, n2) =~= tail.subrange(7, 15));
    assert(b1.subrange(n1 - 15, n1 - 9) =~= tail.subrange(0, 6));
    assert(b2.subrange(n2 - 15, n2 - 9) =~= tail.subrange(0, 6));
    assert(b1[n1 - 9] == tail[6]);
    assert(b2[n2 - 9] == tail[6]);
}

} // verus!
