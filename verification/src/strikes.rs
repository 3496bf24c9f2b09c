//! Per-strike aggregation skeleton: which contracts share a strike bucket,
//! and the ascending order of the buckets (the order the gamma-flip scan
//! walks them in). Buckets are keyed by an integer strike key and gathered
//! in a `BTreeMap`, whose keys come out in ascending order.

use vstd::prelude::*;
use std::collections::BTreeMap;
use vstd::std_specs::iter::IteratorSpec;
use vstd::std_specs::cmp::OrdSpec;

verus! {

broadcast use {vstd::laws_cmp::group_laws_cmp, vstd::std_specs::btree::group_btree_axioms};

pub open spec fn strictly_ascending(s: Seq<i64>) -> bool {
    forall|i: int, j: int| 0 <= i < j < s.len() ==> s[i] < s[j]
}

/// The distinct strike keys in ascending order, and for each input contract
/// the position of its key among them.
pub struct StrikeGroups {
    pub keys: Vec<i64>,
    pub group_of: Vec<usize>,
}

/// `keys` and `group_of` describe the buckets of `strikes`: the keys ascend
/// strictly, each contract's bucket holds its key, and every key is some
/// contract's.
pub open spec fn groups_of(strikes: Seq<i64>, keys: Seq<i64>, group_of: Seq<usize>) -> bool {
    &&& strictly_ascending(keys)
    &&& group_of.len() == strikes.len()
    &&& forall|i: int|
        0 <= i < strikes.len() ==> {
            &&& (#[trigger] group_of[i]) < keys.len()
            &&& keys[group_of[i] as int] == strikes[i]
        }
    &&& forall|g: int| 0 <= g < keys.len() ==> strikes.contains(#[trigger] keys[g])
}

/// Keys that a `BTreeMap` hands out in increasing order strictly ascend.
proof fn lemma_increasing_keys(rem: Seq<&i64>)
    requires
        vstd::std_specs::btree::increasing_seq(rem),
    ensures
        forall|i: int, j: int| 0 <= i < j < rem.len() ==> *rem[i] < *rem[j],
{
    assert(vstd::laws_cmp::obeys_cmp::<i64>());
    assert(vstd::laws_cmp::obeys_cmp::<&i64>());
    vstd::std_specs::btree::axiom_increasing_seq_meaning::<&i64>(rem);
    assert forall|i: int, j: int| 0 <= i < j < rem.len() implies *rem[i] < *rem[j] by {
        assert((&rem[i]).cmp_spec(&&rem[j]) is Less);
    }
}

/// First position in the ascending `keys` whose key is not below `x`.
fn lower_bound(keys: &Vec<i64>, x: i64) -> (r: usize)
    requires
        strictly_ascending(keys@),
    ensures
        r <= keys@.len(),
        forall|j: int| 0 <= j < r ==> keys@[j] < x,
        forall|j: int| r <= j < keys@.len() ==> x <= keys@[j],
{
    let mut lo: usize = 0;
    let mut hi: usize = keys.len();
    while lo < hi
        invariant
            lo <= hi <= keys@.len(),
            strictly_ascending(keys@),
            forall|j: int| 0 <= j < lo ==> keys@[j] < x,
            forall|j: int| hi <= j < keys@.len() ==> x <= keys@[j],
        decreases hi - lo,
    {
        let mid = lo + (hi - lo) / 2;
        if keys[mid] < x {
            lo = mid + 1;
        } else {
            hi = mid;
        }
    }
    lo
}

/// Bucket contracts by integer strike, buckets in ascending strike order.
pub fn group_strikes(strikes: &Vec<i64>) -> (r: StrikeGroups)
    ensures
        groups_of(strikes@, r.keys@, r.group_of@),
{
    let mut buckets: BTreeMap<i64, ()> = BTreeMap::new();
    let mut i: usize = 0;
    while i < strikes.len()
        invariant
            i <= strikes@.len(),
            buckets@.dom() =~= strikes@.take(i as int).to_set(),
        decreases strikes@.len() - i,
    {
        buckets.insert(strikes[i], ());
        assert(strikes@.take(i + 1) =~= strikes@.take(i as int).push(strikes@[i as int]));
        proof {
            strikes@.take(i as int).lemma_push_to_set_commute(strikes@[i as int]);
        }
        i = i + 1;
    }
    assert(strikes@.take(strikes@.len() as int) =~= strikes@);

    let mut keys: Vec<i64> = Vec::new();
    for k in it: buckets.keys()
        invariant
            keys@ == it.seq().take(it.index() as int).map_values(|r: &i64| *r),
    {
        keys.push(*k);
    }
    let ghost rem = vstd::std_specs::btree::spec_keys_iter(&buckets).remaining();
    assert(keys@ =~= rem.map_values(|r: &i64| *r));
    let ghost members = rem.unref();
    proof {
        lemma_increasing_keys(rem);
        assert(members =~= keys@);
        assert forall|k: int| 0 <= k < strikes@.len() implies keys@.contains(#[trigger] strikes@[k]) by {
            assert(strikes@.to_set().contains(strikes@[k]));
            assert(members.to_set().contains(strikes@[k]));
        }
        assert forall|g: int| 0 <= g < keys@.len() implies strikes@.contains(#[trigger] keys@[g]) by {
            assert(members.to_set().contains(members[g]));
            assert(strikes@.to_set().contains(keys@[g]));
        }
    }
    let mut group_of: Vec<usize> = Vec::new();
    let mut i: usize = 0;
    while i < strikes.len()
        invariant
            i <= strikes@.len(),
            strictly_ascending(keys@),
            forall|k: int| 0 <= k < strikes@.len() ==> keys@.contains(#[trigger] strikes@[k]),
            forall|g: int| 0 <= g < keys@.len() ==> strikes@.contains(#[trigger] keys@[g]),
            group_of@.len() == i,
            forall|k: int|
                0 <= k < i ==> {
                    &&& (#[trigger] group_of@[k]) < keys@.len()
                    &&& keys@[group_of@[k] as int] == strikes@[k]
                },
        decreases strikes@.len() - i,
    {
        let x = strikes[i];
        let pos = lower_bound(&keys, x);
        proof {
            assert(keys@.contains(strikes@[i as int]));
            let j = choose|j: int| 0 <= j < keys@.len() && keys@[j] == x;
            if j > pos {
                assert(keys@[pos as int] < keys@[j]);
                assert(x <= keys@[pos as int]);
            }
            assert(j >= pos);
        }
        group_of.push(pos);
        i = i + 1;
    }
    StrikeGroups { keys, group_of }
}

/// Two contracts land in the same bucket exactly when their strikes agree.
pub proof fn lemma_same_bucket_iff_same_strike(
    strikes: Seq<i64>,
    keys: Seq<i64>,
    group_of: Seq<usize>,
    i: int,
    j: int,
)
    requires
        groups_of(strikes, keys, group_of),
        0 <= i < strikes.len(),
        0 <= j < strikes.len(),
    ensures
        group_of[i] == group_of[j] <==> strikes[i] == strikes[j],
{
    assert(group_of[i] < keys.len() && group_of[j] < keys.len());
    if group_of[i] < group_of[j] {
        assert(keys[group_of[i] as int] < keys[group_of[j] as int]);
    } else if group_of[j] < group_of[i] {
        assert(keys[group_of[j] as int] < keys[group_of[i] as int]);
    }
}

proof fn lemma_ascending_same_members(a: Seq<i64>, b: Seq<i64>)
    requires
        strictly_ascending(a),
        strictly_ascending(b),
        forall|x: i64| a.contains(x) <==> b.contains(x),
    ensures
        a == b,
    decreases a.len(),
{
    if a.len() == 0 {
        if b.len() > 0 {
            assert(b.contains(b[0]));
        }
        assert(a =~= b);
    } else {
        assert(a.contains(a[0]));
        let x = a.last();
        let y = b.last();
        assert(a.contains(x));
        assert(b.contains(y));
        let i = choose|i: int| 0 <= i < a.len() && a[i] == y;
        let j = choose|j: int| 0 <= j < b.len() && b[j] == x;
        if i < a.len() - 1 {
            assert(a[i] < a[a.len() - 1]);
        }
        if j < b.len() - 1 {
            assert(b[j] < b[b.len() - 1]);
        }
        assert(x == y);
        let a0 = a.drop_last();
        let b0 = b.drop_last();
        assert forall|z: i64| a0.contains(z) <==> b0.contains(z) by {
            if a0.contains(z) {
                let k = choose|k: int| 0 <= k < a0.len() && a0[k] == z;
                assert(a[k] == z && a[k] < x);
                assert(b.contains(z));
                let m = choose|m: int| 0 <= m < b.len() && b[m] == z;
                assert(m != b.len() - 1);
                assert(b0[m] == z);
            }
            if b0.contains(z) {
                let k = choose|k: int| 0 <= k < b0.len() && b0[k] == z;
                assert(b[k] == z && b[k] < y);
                assert(a.contains(z));
                let m = choose|m: int| 0 <= m < a.len() && a[m] == z;
                assert(m != a.len() - 1);
                assert(a0[m] == z);
            }
        }
        lemma_ascending_same_members(a0, b0);
        assert(a =~= a0.push(x));
        assert(b =~= b0.push(y));
    }
}

/// The buckets are a function of the strikes alone: any two descriptions of
/// the buckets of the same strikes agree on the keys and on every contract's
/// bucket.
pub proof fn lemma_groups_are_determined(
    strikes: Seq<i64>,
    keys1: Seq<i64>,
    group_of1: Seq<usize>,
    keys2: Seq<i64>,
    group_of2: Seq<usize>,
)
    requires
        groups_of(strikes, keys1, group_of1),
        groups_of(strikes, keys2, group_of2),
    ensures
        keys1 == keys2,
        group_of1 == group_of2,
{
    assert forall|x: i64| keys1.contains(x) <==> keys2.contains(x) by {
        if keys1.contains(x) {
            let g = choose|g: int| 0 <= g < keys1.len() && keys1[g] == x;
            assert(strikes.contains(keys1[g]));
            let i = choose|i: int| 0 <= i < strikes.len() && strikes[i] == x;
            assert(keys2[group_of2[i] as int] == x);
        }
        if keys2.contains(x) {
            let g = choose|g: int| 0 <= g < keys2.len() && keys2[g] == x;
            assert(strikes.contains(keys2[g]));
            let i = choose|i: int| 0 <= i < strikes.len() && strikes[i] == x;
            assert(keys1[group_of1[i] as int] == x);
        }
    }
    lemma_ascending_same_members(keys1, keys2);
    assert forall|i: int| 0 <= i < strikes.len() implies group_of1[i] == group_of2[i] by {
        let g1 = group_of1[i] as int;
        let g2 = group_of2[i] as int;
        assert(keys1[g1] == strikes[i] && keys2[g2] == strikes[i]);
        if g1 < g2 {
            assert(keys1[g1] < keys1[g2]);
        } else if g2 < g1 {
            assert(keys1[g2] < keys1[g1]);
        }
    }
    assert(group_of1 =~= group_of2);
}

} // verus!
