//! Collector settings read from text: the ticker list and the polling
//! interval.

use vstd::prelude::*;
use vstd::string::StrSliceExecFns;

verus! {

/// Polling interval used when the configured one does not parse.
pub const DEFAULT_INTERVAL_SECS: u64 = 60;

/// The characters with the Unicode White_Space property.
pub open spec fn is_white_space(c: char) -> bool {
    let u = c as int;
    ||| 0x09 <= u <= 0x0D
    ||| u == 0x20
    ||| u == 0x85
    ||| u == 0xA0
    ||| u == 0x1680
    ||| 0x2000 <= u <= 0x200A
    ||| u == 0x2028
    ||| u == 0x2029
    ||| u == 0x202F
    ||| u == 0x205F
    ||| u == 0x3000
}

/// The text without its leading white space.
pub open spec fn trim_start(s: Seq<char>) -> Seq<char>
    decreases s.len(),
{
    if s.len() > 0 && is_white_space(s[0]) {
        trim_start(s.drop_first())
    } else {
        s
    }
}

/// The text without its trailing white space.
pub open spec fn trim_end(s: Seq<char>) -> Seq<char>
    decreases s.len(),
{
    if s.len() > 0 && is_white_space(s.last()) {
        trim_end(s.drop_last())
    } else {
        s
    }
}

/// The text without leading and trailing white space.
pub open spec fn trimmed(s: Seq<char>) -> Seq<char> {
    trim_end(trim_start(s))
}

/// `str::to_uppercase`: the Unicode upper-case form of the text.
pub uninterp spec fn uppercased(s: Seq<char>) -> Seq<char>;

/// The pieces of `s` between commas, as `str::split(',')` yields them: one
/// more piece than there are commas, empty pieces included.
pub open spec fn split_commas(s: Seq<char>) -> Seq<Seq<char>>
    decreases s.len(),
{
    if s.len() == 0 {
        seq![Seq::empty()]
    } else {
        let p = split_commas(s.drop_last());
        if s.last() == ',' {
            p.push(Seq::empty())
        } else {
            p.update(p.len() - 1, p.last().push(s.last()))
        }
    }
}

pub open spec fn ticker_of(piece: Seq<char>) -> Seq<char> {
    uppercased(trimmed(piece))
}

/// Each piece trimmed and upper-cased, empty results dropped, order kept.
pub open spec fn tickers_of(pieces: Seq<Seq<char>>) -> Seq<Seq<char>>
    decreases pieces.len(),
{
    if pieces.len() == 0 {
        Seq::empty()
    } else {
        let prev = tickers_of(pieces.drop_last());
        let t = ticker_of(pieces.last());
        if t.len() > 0 {
            prev.push(t)
        } else {
            prev
        }
    }
}

pub open spec fn string_views(v: Seq<String>) -> Seq<Seq<char>> {
    v.map_values(|t: String| t@)
}

pub open spec fn is_ascii_digit(c: char) -> bool {
    48 <= (c as int) <= 57
}

pub open spec fn decimal_chars_value(s: Seq<char>) -> int
    decreases s.len(),
{
    if s.len() == 0 {
        0
    } else {
        decimal_chars_value(s.drop_last()) * 10 + ((s.last() as int) - 48)
    }
}

/// What `u64::from_str` accepts: an optional '+' followed by one or more
/// ASCII digits whose value fits in a `u64`.
pub open spec fn u64_literal(s: Seq<char>) -> Option<int> {
    let body = if s.len() > 0 && s[0] == '+' {
        s.drop_first()
    } else {
        s
    };
    if body.len() > 0 && (forall|i: int| 0 <= i < body.len() ==> is_ascii_digit(#[trigger] body[i]))
        && decimal_chars_value(body) <= u64::MAX {
        Some(decimal_chars_value(body))
    } else {
        None
    }
}

/// `str::trim`: the text with leading and trailing white space removed,
/// white space being the Unicode White_Space property, as std documents.
#[verifier::external_body]
fn std_trim(s: &str) -> (r: &str)
    ensures
        r@ == trimmed(s@),
{
    s.trim()
}

/// `str::to_uppercase`; the case mapping is left to the name `uppercased`.
#[verifier::external_body]
fn std_to_uppercase(s: &str) -> (r: String)
    ensures
        r@ == uppercased(s@),
{
    s.to_uppercase()
}

/// `str::parse::<u64>`, which the standard library documents as accepting an
/// optional '+' sign followed by digits only, and failing on overflow.
#[verifier::external_body]
fn std_parse_u64(s: &str) -> (r: Option<u64>)
    ensures
        match r {
            Some(v) => u64_literal(s@) == Some(v as int),
            None => u64_literal(s@) is None,
        },
{
    s.parse::<u64>().ok()
}

/// Comma-separated tickers, each trimmed and upper-cased, empty ones dropped.
pub fn parse_tickers(text: &str) -> (r: Vec<String>)
    ensures
        string_views(r@) == tickers_of(split_commas(text@)),
{
    let n = text.unicode_len();
    let mut out: Vec<String> = Vec::new();
    let mut start: usize = 0;
    let mut i: usize = 0;
    let ghost mut done: Seq<Seq<char>> = Seq::empty();
    assert(text@.take(0) =~= Seq::<char>::empty());
    assert(split_commas(text@.take(0)) =~= done.push(text@.subrange(0, 0)));
    while i < n
        invariant
            n == text@.len(),
            start <= i <= n,
            split_commas(text@.take(i as int)) =~= done.push(text@.subrange(start as int, i as int)),
            string_views(out@) =~= tickers_of(done),
        decreases n - i,
    {
        let c = text.get_char(i);
        let ghost cur = text@.subrange(start as int, i as int);
        let ghost prefix = text@.take(i + 1);
        assert(prefix.drop_last() =~= text@.take(i as int));
        assert(prefix.last() == c);
        assert(split_commas(prefix) == if c == ',' {
            done.push(cur).push(Seq::empty())
        } else {
            done.push(cur).update(done.len() as int, cur.push(c))
        });
        if c == ',' {
            let piece = text.substring_char(start, i);
            let ticker = std_to_uppercase(std_trim(piece));
            if ticker.unicode_len() > 0 {
                out.push(ticker);
            }
            proof {
                assert(done.push(piece@).drop_last() =~= done);
                done = done.push(piece@);
                assert(text@.subrange(i + 1, i + 1) =~= Seq::<char>::empty());
                assert(split_commas(prefix) =~= done.push(text@.subrange(i + 1, i + 1)));
            }
            start = i + 1;
        } else {
            assert(text@.subrange(start as int, i + 1) =~= cur.push(c));
            assert(done.push(cur).update(done.len() as int, cur.push(c)) =~= done.push(cur.push(c)));
        }
        i = i + 1;
    }
    let piece = text.substring_char(start, n);
    let ticker = std_to_uppercase(std_trim(piece));
    if ticker.unicode_len() > 0 {
        out.push(ticker);
    }
    proof {
        assert(text@.take(n as int) =~= text@);
        assert(done.push(piece@).drop_last() =~= done);
    }
    out
}

/// The polling interval in seconds: the text as a `u64`, or 60 when it does
/// not parse.
pub fn parse_interval_secs(text: &str) -> (r: u64)
    ensures
        r == match u64_literal(text@) {
            Some(v) => v,
            None => DEFAULT_INTERVAL_SECS as int,
        },
        u64_literal(text@) is None ==> r == 60,
{
    match std_parse_u64(text) {
        Some(v) => v,
        None => DEFAULT_INTERVAL_SECS,
    }
}

proof fn lemma_trim_start(s: Seq<char>)
    ensures
        exists|k: int| 0 <= k <= s.len() && trim_start(s) == #[trigger] s.skip(k),
        trim_start(s).len() > 0 ==> !is_white_space(trim_start(s)[0]),
    decreases s.len(),
{
    if s.len() > 0 && is_white_space(s[0]) {
        lemma_trim_start(s.drop_first());
        let k = choose|k: int|
            0 <= k <= s.drop_first().len() && trim_start(s.drop_first()) == #[trigger] s.drop_first().skip(k);
        assert(s.drop_first().skip(k) =~= s.skip(k + 1));
    } else {
        assert(s.skip(0) =~= s);
    }
}

proof fn lemma_trim_end(s: Seq<char>)
    ensures
        exists|k: int| 0 <= k <= s.len() && trim_end(s) == #[trigger] s.take(k),
        trim_end(s).len() > 0 ==> !is_white_space(trim_end(s).last()),
    decreases s.len(),
{
    if s.len() > 0 && is_white_space(s.last()) {
        lemma_trim_end(s.drop_last());
        let k = choose|k: int|
            0 <= k <= s.drop_last().len() && trim_end(s.drop_last()) == #[trigger] s.drop_last().take(k);
        assert(s.drop_last().take(k) =~= s.take(k));
    } else {
        assert(s.take(s.len() as int) =~= s);
    }
}

/// Trimming keeps a contiguous stretch of the text that neither starts nor
/// ends with white space.
pub proof fn lemma_trimmed(s: Seq<char>)
    ensures
        exists|i: int, j: int| 0 <= i <= j <= s.len() && trimmed(s) == #[trigger] s.subrange(i, j),
        trimmed(s).len() > 0 ==> !is_white_space(trimmed(s)[0]) && !is_white_space(
            trimmed(s).last(),
        ),
{
    let t = trim_start(s);
    lemma_trim_start(s);
    lemma_trim_end(t);
    let i = choose|k: int| 0 <= k <= s.len() && t == #[trigger] s.skip(k);
    let k = choose|k: int| 0 <= k <= t.len() && trim_end(t) == #[trigger] t.take(k);
    assert(t.take(k) =~= s.subrange(i, i + k));
    if trimmed(s).len() > 0 {
        assert(trimmed(s)[0] == t[0]);
    }
}

/// The pieces joined back together with commas between them.
pub open spec fn join_commas(pieces: Seq<Seq<char>>) -> Seq<char>
    decreases pieces.len(),
{
    if pieces.len() <= 1 {
        if pieces.len() == 1 {
            pieces[0]
        } else {
            Seq::empty()
        }
    } else {
        join_commas(pieces.drop_last()) + seq![','] + pieces.last()
    }
}

/// Splitting at commas loses nothing and cuts at every comma: there is at
/// least one piece, no piece holds a comma, and joining the pieces with commas
/// gives the text back.
pub proof fn lemma_split_commas(s: Seq<char>)
    ensures
        split_commas(s).len() >= 1,
        forall|k: int| 0 <= k < split_commas(s).len() ==> !(#[trigger] split_commas(s)[k]).contains(','),
        join_commas(split_commas(s)) =~= s,
    decreases s.len(),
{
    if s.len() > 0 {
        let t = s.drop_last();
        lemma_split_commas(t);
        let p = split_commas(t);
        let c = s.last();
        let q = split_commas(s);
        if c == ',' {
            assert(q =~= p.push(Seq::empty()));
            assert(q.drop_last() =~= p);
            assert forall|k: int| 0 <= k < q.len() implies !(#[trigger] q[k]).contains(',') by {
                if k < p.len() {
                    assert(q[k] == p[k]);
                } else {
                    assert(q[k] =~= Seq::<char>::empty());
                }
            }
            assert(s =~= t + seq![','] + Seq::<char>::empty());
        } else {
            let last = p.last().push(c);
            assert(q =~= p.update(p.len() - 1, last));
            assert forall|k: int| 0 <= k < q.len() implies !(#[trigger] q[k]).contains(',') by {
                if k < p.len() - 1 {
                    assert(q[k] == p[k]);
                } else {
                    assert(!p[p.len() - 1].contains(','));
                    if last.contains(',') {
                        let w = choose|w: int| 0 <= w < last.len() && last[w] == ',';
                        if w < p.last().len() {
                            assert(p.last()[w] == ',');
                        }
                    }
                }
            }
            if p.len() == 1 {
                assert(join_commas(p) == p[0]);
                assert(join_commas(q) == q[0]);
                assert(s =~= t.push(c));
            } else {
                assert(q.drop_last() =~= p.drop_last());
                assert(join_commas(p) == join_commas(p.drop_last()) + seq![','] + p.last());
                assert(join_commas(q) == join_commas(q.drop_last()) + seq![','] + q.last());
                assert(s =~= t.push(c));
                assert(join_commas(q) =~= join_commas(p).push(c));
            }
        }
    }
}

/// The tickers are, in piece order, exactly the pieces whose trimmed,
/// upper-cased form is non-empty, each trimmed and upper-cased whole: the
/// returned `src` names, for each ticker, the piece it came from; those
/// piece positions strictly ascend and include every such piece.
pub proof fn lemma_tickers_in_piece_order(pieces: Seq<Seq<char>>) -> (src: Seq<int>)
    ensures
        src.len() == tickers_of(pieces).len(),
        forall|i: int|
            0 <= i < src.len() ==> {
                &&& 0 <= #[trigger] src[i] < pieces.len()
                &&& tickers_of(pieces)[i] == uppercased(trimmed(pieces[src[i]]))
                &&& uppercased(trimmed(pieces[src[i]])).len() > 0
            },
        forall|a: int, b: int| 0 <= a < b < src.len() ==> #[trigger] src[a] < #[trigger] src[b],
        forall|k: int|
            0 <= k < pieces.len() && (#[trigger] uppercased(trimmed(pieces[k]))).len() > 0
                ==> src.contains(k),
    decreases pieces.len(),
{
    if pieces.len() == 0 {
        Seq::empty()
    } else {
        let p = pieces.drop_last();
        let prev = lemma_tickers_in_piece_order(p);
        let last = pieces.len() - 1;
        let src = if uppercased(trimmed(pieces[last])).len() > 0 {
            prev.push(last)
        } else {
            prev
        };
        assert(pieces.last() == pieces[last]);
        assert forall|i: int| 0 <= i < src.len() implies {
            &&& 0 <= #[trigger] src[i] < pieces.len()
            &&& tickers_of(pieces)[i] == uppercased(trimmed(pieces[src[i]]))
            &&& uppercased(trimmed(pieces[src[i]])).len() > 0
        } by {
            if i < prev.len() {
                assert(src[i] == prev[i]);
                assert(pieces[prev[i]] == p[prev[i]]);
            }
        }
        assert forall|k: int|
            0 <= k < pieces.len() && (#[trigger] uppercased(trimmed(pieces[k]))).len() > 0 implies src.contains(
            k,
        ) by {
            if k < last {
                assert(pieces[k] == p[k]);
                assert(prev.contains(k));
                let i = choose|i: int| 0 <= i < prev.len() && prev[i] == k;
                assert(src[i] == k);
            } else {
                assert(src[src.len() - 1] == k);
            }
        }
        src
    }
}

/// Text without commas is a single ticker: the whole text, trimmed and
/// upper-cased, or nothing when that is empty.
pub proof fn lemma_single_ticker(s: Seq<char>)
    requires
        !s.contains(','),
    ensures
        tickers_of(split_commas(s)) =~= if uppercased(trimmed(s)).len() > 0 {
            seq![uppercased(trimmed(s))]
        } else {
            Seq::<Seq<char>>::empty()
        },
{
    lemma_split_commas(s);
    lemma_no_comma_is_one_piece(s);
    let pieces = split_commas(s);
    assert(pieces.drop_last() =~= Seq::<Seq<char>>::empty());
    assert(pieces.last() == s);
    assert(tickers_of(pieces.drop_last()) == Seq::<Seq<char>>::empty());
}

proof fn lemma_no_comma_is_one_piece(s: Seq<char>)
    requires
        !s.contains(','),
    ensures
        split_commas(s) == seq![s],
    decreases s.len(),
{
    if s.len() > 0 {
        let t = s.drop_last();
        assert(!t.contains(',')) by {
            if t.contains(',') {
                let w = choose|w: int| 0 <= w < t.len() && t[w] == ',';
                assert(s[w] == ',');
            }
        }
        lemma_no_comma_is_one_piece(t);
        assert(s.last() != ',') by {
            assert(s[s.len() - 1] == s.last());
        }
        assert(split_commas(s) =~= seq![t.push(s.last())]);
        assert(t.push(s.last()) =~= s);
    } else {
        assert(s =~= Seq::<char>::empty());
        assert(split_commas(s) =~= seq![s]);
    }
}

} // verus!
