//! Front-expiry selection for a delayed-quotes option chain.
//!
//! Every quote row is parsed; a row counts when its quote is usable (positive
//! implied vol and open interest), its symbol parses, and its expiry is still
//! alive. Of those, only the nearest expiry is kept: same-day contracts count
//! until the 16:00 New York close, because the same-day chain is the tenor
//! the desk trades.

use vstd::prelude::*;
use vstd::utf8::encode_utf8;
use crate::calendar::{Date, date_le, date_lt};
use crate::clock::{NANOS_PER_SEC, UtcTime, alive, close_timestamp, is_alive, valid_instant};
use crate::models::OptionKind;
use crate::occ::{parse_occ, spec_parse_occ};

verus! {

/// One quote row of a provider's chain: the OCC symbol, and whether the quote
/// carries positive implied vol and positive open interest.
pub struct QuoteRow {
    pub symbol: String,
    pub usable: bool,
}

/// A contract of the front expiry: the quote row it came from and what its
/// symbol says (strike in thousandths).
#[derive(Debug, Clone, Copy, PartialEq, Eq, Structural)]
pub struct FrontContract {
    pub row: usize,
    pub kind: OptionKind,
    pub expiry: Date,
    pub strike_millis: u32,
}

impl View for FrontContract {
    type V = (int, OptionKind, (int, int, int), int);

    open spec fn view(&self) -> (int, OptionKind, (int, int, int), int) {
        (self.row as int, self.kind, self.expiry@, self.strike_millis as int)
    }
}

#[derive(Debug, Clone, Copy, PartialEq, Eq, Structural)]
pub enum ChainError {
    /// No row is usable, parses and is still alive.
    NoUsableContracts,
}

/// What a row contributes: its parsed symbol when the quote is usable, the
/// symbol parses and the expiry is alive at `now`.
pub open spec fn candidate(row: QuoteRow, now: (int, int)) -> Option<
    (OptionKind, (int, int, int), int),
> {
    if row.usable {
        match spec_parse_occ(encode_utf8(row.symbol@)) {
            Some(p) => if is_alive(p.1, now) {
                Some(p)
            } else {
                None
            },
            None => None,
        }
    } else {
        None
    }
}

/// The contributing rows in order, each with its row index.
pub open spec fn candidates(rows: Seq<QuoteRow>, now: (int, int)) -> Seq<
    (int, OptionKind, (int, int, int), int),
>
    decreases rows.len(),
{
    if rows.len() == 0 {
        Seq::empty()
    } else {
        let prev = candidates(rows.drop_last(), now);
        match candidate(rows.last(), now) {
            Some(p) => prev.push(((rows.len() - 1) as int, p.0, p.1, p.2)),
            None => prev,
        }
    }
}

/// The earliest expiry among `cs`, if any.
pub open spec fn earliest_expiry(cs: Seq<(int, OptionKind, (int, int, int), int)>) -> Option<
    (int, int, int),
>
    decreases cs.len(),
{
    if cs.len() == 0 {
        None
    } else {
        let e = cs.last().2;
        match earliest_expiry(cs.drop_last()) {
            None => Some(e),
            Some(m) => if date_lt(e, m) {
                Some(e)
            } else {
                Some(m)
            },
        }
    }
}

/// The members of `cs` that expire on `expiry`, in order.
pub open spec fn with_expiry(
    cs: Seq<(int, OptionKind, (int, int, int), int)>,
    expiry: (int, int, int),
) -> Seq<(int, OptionKind, (int, int, int), int)>
    decreases cs.len(),
{
    if cs.len() == 0 {
        Seq::empty()
    } else {
        let prev = with_expiry(cs.drop_last(), expiry);
        if cs.last().2 == expiry {
            prev.push(cs.last())
        } else {
            prev
        }
    }
}

/// The front chain: the contributing rows of the earliest contributing
/// expiry, or `None` when no row contributes.
pub open spec fn front_chain(rows: Seq<QuoteRow>, now: (int, int)) -> Option<
    Seq<(int, OptionKind, (int, int, int), int)>,
> {
    let cs = candidates(rows, now);
    match earliest_expiry(cs) {
        Some(e) => Some(with_expiry(cs, e)),
        None => None,
    }
}

pub open spec fn contract_views(v: Seq<FrontContract>) -> Seq<(int, OptionKind, (int, int, int), int)> {
    v.map_values(|c: FrontContract| c@)
}

/// Keep the nearest expiry that is still alive at `now`, and every usable
/// contract of it.
pub fn select_front_chain(rows: &Vec<QuoteRow>, now: &UtcTime) -> (r: Result<
    Vec<FrontContract>,
    ChainError,
>)
    ensures
        match r {
            Ok(v) => front_chain(rows@, now@) == Some(contract_views(v@)),
            Err(_) => front_chain(rows@, now@) is None,
        },
{
    let mut parsed: Vec<FrontContract> = Vec::new();
    let mut i: usize = 0;
    while i < rows.len()
        invariant
            i <= rows@.len(),
            contract_views(parsed@) =~= candidates(rows@.take(i as int), now@),
        decreases rows@.len() - i,
    {
        assert(rows@.take(i + 1).drop_last() =~= rows@.take(i as int));
        let row = &rows[i];
        if row.usable {
            let sym = row.symbol.as_str();
            if let Some(p) = parse_occ(sym) {
                if alive(&p.1, now) {
                    parsed.push(FrontContract { row: i, kind: p.0, expiry: p.1, strike_millis: p.2 });
                }
            }
        }
        i = i + 1;
    }
    assert(rows@.take(rows@.len() as int) =~= rows@);
    let ghost cs = contract_views(parsed@);

    let mut front: Option<Date> = None;
    let mut j: usize = 0;
    while j < parsed.len()
        invariant
            j <= parsed@.len(),
            cs == contract_views(parsed@),
            match front {
                Some(d) => earliest_expiry(cs.take(j as int)) == Some(d@),
                None => earliest_expiry(cs.take(j as int)) is None,
            },
        decreases parsed@.len() - j,
    {
        assert(cs.take(j + 1).drop_last() =~= cs.take(j as int));
        let e = parsed[j].expiry;
        front = match front {
            None => Some(e),
            Some(m) => if e.is_before(&m) {
                Some(e)
            } else {
                Some(m)
            },
        };
        j = j + 1;
    }
    assert(cs.take(parsed@.len() as int) =~= cs);
    let front = match front {
        Some(d) => d,
        None => return Err(ChainError::NoUsableContracts),
    };

    let mut out: Vec<FrontContract> = Vec::new();
    let mut k: usize = 0;
    while k < parsed.len()
        invariant
            k <= parsed@.len(),
            cs == contract_views(parsed@),
            contract_views(out@) =~= with_expiry(cs.take(k as int), front@),
        decreases parsed@.len() - k,
    {
        assert(cs.take(k + 1).drop_last() =~= cs.take(k as int));
        let c = parsed[k];
        if c.expiry.same_day(&front) {
            out.push(c);
        }
        k = k + 1;
    }
    Ok(out)
}

proof fn lemma_candidates(rows: Seq<QuoteRow>, now: (int, int))
    ensures
        forall|k: int|
            0 <= k < candidates(rows, now).len() ==> {
                let c = #[trigger] candidates(rows, now)[k];
                &&& 0 <= c.0 < rows.len()
                &&& candidate(rows[c.0], now) == Some((c.1, c.2, c.3))
            },
        forall|j: int|
            0 <= j < rows.len() && (#[trigger] candidate(rows[j], now)) is Some ==> exists|k: int|
                0 <= k < candidates(rows, now).len() && (#[trigger] candidates(rows, now)[k]).0
                    == j,
    decreases rows.len(),
{
    if rows.len() > 0 {
        let prev_rows = rows.drop_last();
        lemma_candidates(prev_rows, now);
        let cs = candidates(rows, now);
        let prev = candidates(prev_rows, now);
        assert forall|k: int| 0 <= k < cs.len() implies {
            let c = #[trigger] cs[k];
            &&& 0 <= c.0 < rows.len()
            &&& candidate(rows[c.0], now) == Some((c.1, c.2, c.3))
        } by {
            if k < prev.len() {
                assert(cs[k] == prev[k]);
                assert(rows[prev[k].0] == prev_rows[prev[k].0]);
            }
        }
        assert forall|j: int|
            0 <= j < rows.len() && (#[trigger] candidate(rows[j], now)) is Some implies exists|
                k: int,
            | 0 <= k < cs.len() && (#[trigger] cs[k]).0 == j by {
            if j < rows.len() - 1 {
                assert(rows[j] == prev_rows[j]);
                let k = choose|k: int| 0 <= k < prev.len() && (#[trigger] prev[k]).0 == j;
                assert(cs[k] == prev[k]);
            } else {
                assert(cs[cs.len() - 1].0 == j);
            }
        }
    }
}

proof fn lemma_earliest(cs: Seq<(int, OptionKind, (int, int, int), int)>)
    ensures
        earliest_expiry(cs) is Some <==> cs.len() > 0,
        earliest_expiry(cs) matches Some(e) ==> {
            &&& exists|k: int| 0 <= k < cs.len() && (#[trigger] cs[k]).2 == e
            &&& forall|k: int| 0 <= k < cs.len() ==> date_le(e, (#[trigger] cs[k]).2)
        },
    decreases cs.len(),
{
    if cs.len() > 0 {
        let prev = cs.drop_last();
        lemma_earliest(prev);
        let e = earliest_expiry(cs).unwrap();
        assert forall|k: int| 0 <= k < cs.len() implies date_le(e, (#[trigger] cs[k]).2) by {
            if k < prev.len() {
                assert(cs[k] == prev[k]);
            }
        }
        if e == cs.last().2 {
            assert(cs[cs.len() - 1].2 == e);
        } else {
            let k = choose|k: int| 0 <= k < prev.len() && (#[trigger] prev[k]).2 == e;
            assert(cs[k] == prev[k]);
        }
    }
}

proof fn lemma_with_expiry(cs: Seq<(int, OptionKind, (int, int, int), int)>, e: (int, int, int))
    ensures
        forall|i: int|
            0 <= i < with_expiry(cs, e).len() ==> (#[trigger] with_expiry(cs, e)[i]).2 == e
                && exists|k: int| 0 <= k < cs.len() && cs[k] == with_expiry(cs, e)[i],
        forall|k: int|
            0 <= k < cs.len() && (#[trigger] cs[k]).2 == e ==> exists|i: int|
                0 <= i < with_expiry(cs, e).len() && with_expiry(cs, e)[i] == cs[k],
    decreases cs.len(),
{
    if cs.len() > 0 {
        let prev = cs.drop_last();
        lemma_with_expiry(prev, e);
        let w = with_expiry(cs, e);
        let pw = with_expiry(prev, e);
        assert forall|i: int| 0 <= i < w.len() implies (#[trigger] w[i]).2 == e && exists|k: int|
            0 <= k < cs.len() && cs[k] == w[i] by {
            if i < pw.len() {
                assert(w[i] == pw[i]);
                let k = choose|k: int| 0 <= k < prev.len() && prev[k] == pw[i];
                assert(cs[k] == prev[k]);
            } else {
                assert(cs[cs.len() - 1] == w[i]);
            }
        }
        assert forall|k: int| 0 <= k < cs.len() && (#[trigger] cs[k]).2 == e implies exists|i: int|
            0 <= i < w.len() && w[i] == cs[k] by {
            if k < prev.len() {
                assert(cs[k] == prev[k]);
                let i = choose|i: int| 0 <= i < pw.len() && pw[i] == prev[k];
                assert(w[i] == pw[i]);
            } else {
                assert(w[w.len() - 1] == cs[k]);
            }
        }
    }
}

/// What the front chain is: non-empty; every member comes from a usable row
/// whose symbol parses to it and whose expiry, the same for all members, is
/// alive; that expiry is no later than any contributing row's; and every
/// contributing row of that expiry is a member.
pub proof fn lemma_front_chain(rows: Seq<QuoteRow>, now: (int, int))
    requires
        front_chain(rows, now) is Some,
    ensures
        ({
            let v = front_chain(rows, now).unwrap();
            let e = earliest_expiry(candidates(rows, now)).unwrap();
            &&& v.len() > 0
            &&& is_alive(e, now)
            &&& forall|i: int|
                0 <= i < v.len() ==> {
                    let c = #[trigger] v[i];
                    &&& c.2 == e
                    &&& 0 <= c.0 < rows.len()
                    &&& rows[c.0].usable
                    &&& candidate(rows[c.0], now) == Some((c.1, c.2, c.3))
                }
            &&& forall|j: int|
                0 <= j < rows.len() && (#[trigger] candidate(rows[j], now)) is Some ==> date_le(
                    e,
                    candidate(rows[j], now).unwrap().1,
                )
            &&& forall|j: int|
                0 <= j < rows.len() && (#[trigger] candidate(rows[j], now)) is Some
                    && candidate(rows[j], now).unwrap().1 == e ==> exists|i: int|
                    0 <= i < v.len() && (#[trigger] v[i]).0 == j
        }),
{
    let cs = candidates(rows, now);
    lemma_candidates(rows, now);
    lemma_earliest(cs);
    let e = earliest_expiry(cs).unwrap();
    lemma_with_expiry(cs, e);
    let v = with_expiry(cs, e);
    let k0 = choose|k: int| 0 <= k < cs.len() && (#[trigger] cs[k]).2 == e;
    let i0 = choose|i: int| 0 <= i < v.len() && v[i] == cs[k0];
    assert(candidate(rows[cs[k0].0], now) == Some((cs[k0].1, cs[k0].2, cs[k0].3)));
    assert forall|i: int| 0 <= i < v.len() implies {
        let c = #[trigger] v[i];
        &&& c.2 == e
        &&& 0 <= c.0 < rows.len()
        &&& rows[c.0].usable
        &&& candidate(rows[c.0], now) == Some((c.1, c.2, c.3))
    } by {
        let k = choose|k: int| 0 <= k < cs.len() && cs[k] == v[i];
        assert(cs[k] == v[i]);
    }
    assert forall|j: int|
        0 <= j < rows.len() && (#[trigger] candidate(rows[j], now)) is Some implies date_le(
        e,
        candidate(rows[j], now).unwrap().1,
    ) by {
        let k = choose|k: int| 0 <= k < cs.len() && (#[trigger] cs[k]).0 == j;
        assert(candidate(rows[cs[k].0], now) == Some((cs[k].1, cs[k].2, cs[k].3)));
    }
    assert forall|j: int|
        0 <= j < rows.len() && (#[trigger] candidate(rows[j], now)) is Some && candidate(
            rows[j],
            now,
        ).unwrap().1 == e implies exists|i: int| 0 <= i < v.len() && (#[trigger] v[i]).0 == j by {
        let k = choose|k: int| 0 <= k < cs.len() && (#[trigger] cs[k]).0 == j;
        assert(candidate(rows[cs[k].0], now) == Some((cs[k].1, cs[k].2, cs[k].3)));
        assert(cs[k].2 == e);
        let i = choose|i: int| 0 <= i < v.len() && v[i] == cs[k];
        assert(v[i].0 == j);
    }
}

proof fn lemma_candidates_ascend(rows: Seq<QuoteRow>, now: (int, int))
    ensures
        forall|a: int, b: int|
            0 <= a < b < candidates(rows, now).len() ==> (#[trigger] candidates(rows, now)[a]).0
                < (#[trigger] candidates(rows, now)[b]).0,
    decreases rows.len(),
{
    if rows.len() > 0 {
        let prev_rows = rows.drop_last();
        lemma_candidates_ascend(prev_rows, now);
        lemma_candidates(prev_rows, now);
        let cs = candidates(rows, now);
        let prev = candidates(prev_rows, now);
        assert forall|a: int, b: int| 0 <= a < b < cs.len() implies (#[trigger] cs[a]).0
            < (#[trigger] cs[b]).0 by {
            assert(cs[a] == prev[a]);
            if b < prev.len() {
                assert(cs[b] == prev[b]);
            }
        }
    }
}

proof fn lemma_with_expiry_ascends(cs: Seq<(int, OptionKind, (int, int, int), int)>, e: (int, int, int))
    requires
        forall|a: int, b: int| 0 <= a < b < cs.len() ==> (#[trigger] cs[a]).0 < (#[trigger] cs[b]).0,
    ensures
        forall|a: int, b: int|
            0 <= a < b < with_expiry(cs, e).len() ==> (#[trigger] with_expiry(cs, e)[a]).0
                < (#[trigger] with_expiry(cs, e)[b]).0,
    decreases cs.len(),
{
    if cs.len() > 0 {
        let prev = cs.drop_last();
        lemma_with_expiry_ascends(prev, e);
        lemma_with_expiry(prev, e);
        let w = with_expiry(cs, e);
        let pw = with_expiry(prev, e);
        assert forall|a: int, b: int| 0 <= a < b < w.len() implies (#[trigger] w[a]).0
            < (#[trigger] w[b]).0 by {
            assert(w[a] == pw[a]);
            if b < pw.len() {
                assert(w[b] == pw[b]);
            } else {
                let k = choose|k: int| 0 <= k < prev.len() && prev[k] == pw[a];
                assert(cs[k] == prev[k]);
                assert(w[b] == cs[cs.len() - 1]);
            }
        }
    }
}

/// The front chain lists its rows in the order they came, each row once.
pub proof fn lemma_front_chain_keeps_row_order(rows: Seq<QuoteRow>, now: (int, int))
    requires
        front_chain(rows, now) is Some,
    ensures
        forall|a: int, b: int|
            0 <= a < b < front_chain(rows, now).unwrap().len() ==> (#[trigger] front_chain(
                rows,
                now,
            ).unwrap()[a]).0 < (#[trigger] front_chain(rows, now).unwrap()[b]).0,
{
    let cs = candidates(rows, now);
    lemma_candidates_ascend(rows, now);
    lemma_with_expiry_ascends(cs, earliest_expiry(cs).unwrap());
}

/// A row counts exactly when its quote is usable, its symbol parses, and
/// `now` is before the parsed expiry's close; it then counts with what its
/// symbol says.
pub proof fn lemma_candidate_exact(row: QuoteRow, now: (int, int))
    ensures
        candidate(row, now) is Some <==> {
            &&& row.usable
            &&& spec_parse_occ(encode_utf8(row.symbol@)) is Some
            &&& now.0 * NANOS_PER_SEC + now.1 < close_timestamp(
                spec_parse_occ(encode_utf8(row.symbol@)).unwrap().1,
            ) * NANOS_PER_SEC
        },
        candidate(row, now) is Some ==> candidate(row, now) == spec_parse_occ(
            encode_utf8(row.symbol@),
        ),
{
}

/// The front chain is the nearest alive expiry: it exists exactly when some
/// row is usable, parses and is before its close at `now`; its expiry is no
/// later than any such row's; its members are such rows, carrying what their
/// symbols say; and every such row of that expiry is a member.
pub proof fn lemma_front_chain_is_nearest_alive(rows: Seq<QuoteRow>, now: (int, int))
    requires
        valid_instant(now.0, now.1),
    ensures
        front_chain(rows, now) is Some <==> exists|j: int|
            0 <= j < rows.len() && rows[j].usable && (#[trigger] spec_parse_occ(
                encode_utf8(rows[j].symbol@),
            )) is Some && now.0 * NANOS_PER_SEC + now.1 < close_timestamp(
                spec_parse_occ(encode_utf8(rows[j].symbol@)).unwrap().1,
            ) * NANOS_PER_SEC,
        front_chain(rows, now) is Some ==> ({
            let v = front_chain(rows, now).unwrap();
            let e = v[0].2;
            &&& v.len() > 0
            &&& forall|i: int|
                0 <= i < v.len() ==> {
                    let c = #[trigger] v[i];
                    &&& c.2 == e
                    &&& 0 <= c.0 < rows.len()
                    &&& rows[c.0].usable
                    &&& spec_parse_occ(encode_utf8(rows[c.0].symbol@)) == Some((c.1, c.2, c.3))
                    &&& now.0 * NANOS_PER_SEC + now.1 < close_timestamp(c.2) * NANOS_PER_SEC
                }
            &&& forall|j: int|
                0 <= j < rows.len() && rows[j].usable && (#[trigger] spec_parse_occ(
                    encode_utf8(rows[j].symbol@),
                )) is Some && now.0 * NANOS_PER_SEC + now.1 < close_timestamp(
                    spec_parse_occ(encode_utf8(rows[j].symbol@)).unwrap().1,
                ) * NANOS_PER_SEC ==> {
                    let p = spec_parse_occ(encode_utf8(rows[j].symbol@)).unwrap();
                    &&& date_le(e, p.1)
                    &&& p.1 == e ==> exists|i: int| 0 <= i < v.len() && (#[trigger] v[i]).0 == j
                }
        }),
{
    assert forall|j: int| 0 <= j < rows.len() implies (#[trigger] candidate(rows[j], now)) is Some
        <==> (rows[j].usable && spec_parse_occ(encode_utf8(rows[j].symbol@)) is Some && now.0
        * NANOS_PER_SEC + now.1 < close_timestamp(
        spec_parse_occ(encode_utf8(rows[j].symbol@)).unwrap().1,
    ) * NANOS_PER_SEC) by {
        lemma_candidate_exact(rows[j], now);
    }
    let cs = candidates(rows, now);
    lemma_candidates(rows, now);
    lemma_earliest(cs);
    if front_chain(rows, now) is Some {
        lemma_front_chain(rows, now);
        let v = front_chain(rows, now).unwrap();
        assert forall|j: int|
            0 <= j < rows.len() && rows[j].usable && (#[trigger] spec_parse_occ(
                encode_utf8(rows[j].symbol@),
            )) is Some && now.0 * NANOS_PER_SEC + now.1 < close_timestamp(
                spec_parse_occ(encode_utf8(rows[j].symbol@)).unwrap().1,
            ) * NANOS_PER_SEC implies {
            let p = spec_parse_occ(encode_utf8(rows[j].symbol@)).unwrap();
            &&& date_le(v[0].2, p.1)
            &&& p.1 == v[0].2 ==> exists|i: int| 0 <= i < v.len() && (#[trigger] v[i]).0 == j
        } by {
            assert(candidate(rows[j], now) is Some);
        }
        assert forall|i: int| 0 <= i < v.len() implies {
            let c = #[trigger] v[i];
            &&& rows[c.0].usable
            &&& spec_parse_occ(encode_utf8(rows[c.0].symbol@)) == Some((c.1, c.2, c.3))
            &&& now.0 * NANOS_PER_SEC + now.1 < close_timestamp(c.2) * NANOS_PER_SEC
        } by {
            lemma_candidate_exact(rows[v[i].0], now);
        }
    } else {
        if exists|j: int|
            0 <= j < rows.len() && rows[j].usable && (#[trigger] spec_parse_occ(
                encode_utf8(rows[j].symbol@),
            )) is Some && now.0 * NANOS_PER_SEC + now.1 < close_timestamp(
                spec_parse_occ(encode_utf8(rows[j].symbol@)).unwrap().1,
            ) * NANOS_PER_SEC {
            let j = choose|j: int|
                0 <= j < rows.len() && rows[j].usable && (#[trigger] spec_parse_occ(
                    encode_utf8(rows[j].symbol@),
                )) is Some && now.0 * NANOS_PER_SEC + now.1 < close_timestamp(
                    spec_parse_occ(encode_utf8(rows[j].symbol@)).unwrap().1,
                ) * NANOS_PER_SEC;
            assert(candidate(rows[j], now) is Some);
        }
    }
}

} // verus!
