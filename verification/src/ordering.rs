//! Ranking: texts in the order of their UTF-8 bytes, entries by falling
//! count and then by name, and the order in which a list of entries is to
//! be read to have them so.

use vstd::prelude::*;
use vstd::relations::{
    antisymmetric, reflexive, sorted_by, strongly_connected, total_ordering, transitive,
};
use vstd::seq_lib::lemma_multiset_commutative;
use vstd::seq_lib::to_multiset_build;
use vstd::utf8::encode_utf8;

verus! {

/// Whether `a` stands before `b`, or is `b`, in lexicographic order.
pub open spec fn bytes_le(a: Seq<u8>, b: Seq<u8>) -> bool
    decreases a.len(),
{
    if a.len() == 0 {
        true
    } else if b.len() == 0 {
        false
    } else if a[0] != b[0] {
        a[0] < b[0]
    } else {
        bytes_le(a.drop_first(), b.drop_first())
    }
}

/// Whether text `a` stands before text `b`, or is `b`, in the order of
/// their UTF-8 bytes.
pub open spec fn text_le(a: Seq<char>, b: Seq<char>) -> bool {
    bytes_le(encode_utf8(a), encode_utf8(b))
}

/// What an entry is ranked by.
pub struct SortKey {
    pub count: u64,
    pub name: String,
}

/// Whether an entry of count and name `a` ranks before one of `b`, or
/// with it: the higher count first, and among equal counts the name that
/// stands first.
pub open spec fn ranks_before(a: (u64, Seq<char>), b: (u64, Seq<char>)) -> bool {
    a.0 > b.0 || (a.0 == b.0 && text_le(a.1, b.1))
}

/// The counts and names of the keys.
pub open spec fn keys_view(keys: Seq<SortKey>) -> Seq<(u64, Seq<char>)> {
    Seq::new(keys.len(), |i: int| (keys[i].count, keys[i].name@))
}

/// Whether position `p` is read before position `q`, or is `q`: the key
/// that ranks before the other first, of two keys that rank with each
/// other the one that stands first; positions without a key come last.
pub open spec fn position_leq(keys: Seq<(u64, Seq<char>)>, p: usize, q: usize) -> bool {
    if p < keys.len() && q < keys.len() {
        let forth = ranks_before(keys[p as int], keys[q as int]);
        let back = ranks_before(keys[q as int], keys[p as int]);
        (forth && !back) || (forth && back && p <= q)
    } else if p < keys.len() {
        true
    } else if q < keys.len() {
        false
    } else {
        p <= q
    }
}

/// The order of the positions of `keys`.
pub open spec fn position_order(keys: Seq<(u64, Seq<char>)>) -> spec_fn(usize, usize) -> bool {
    |p: usize, q: usize| position_leq(keys, p, q)
}

/// The positions `0..n`, in order.
pub open spec fn positions(n: nat) -> Seq<usize> {
    Seq::new(n, |i: int| i as usize)
}

/// The positions of `keys` in rank: the higher count first, among equal
/// counts the name that stands first in the order of its UTF-8 bytes, and
/// of equal keys the one that stands first.
pub open spec fn ranking(keys: Seq<(u64, Seq<char>)>) -> Seq<usize> {
    positions(keys.len()).sort_by(position_order(keys))
}

pub proof fn lemma_bytes_le_total(a: Seq<u8>, b: Seq<u8>)
    ensures
        bytes_le(a, b) || bytes_le(b, a),
    decreases a.len(),
{
    if a.len() > 0 && b.len() > 0 && a[0] == b[0] {
        lemma_bytes_le_total(a.drop_first(), b.drop_first());
    }
}

pub proof fn lemma_bytes_le_transitive(a: Seq<u8>, b: Seq<u8>, c: Seq<u8>)
    requires
        bytes_le(a, b),
        bytes_le(b, c),
    ensures
        bytes_le(a, c),
    decreases a.len(),
{
    if a.len() > 0 && b.len() > 0 && c.len() > 0 && a[0] == b[0] && b[0] == c[0] {
        lemma_bytes_le_transitive(a.drop_first(), b.drop_first(), c.drop_first());
    }
}

/// Of two entries one ranks before the other, or each with the other.
pub proof fn lemma_ranks_total(a: (u64, Seq<char>), b: (u64, Seq<char>))
    ensures
        ranks_before(a, b) || ranks_before(b, a),
{
    lemma_bytes_le_total(encode_utf8(a.1), encode_utf8(b.1));
}

/// Rank carries over: before one that is before a third is before the third.
pub proof fn lemma_ranks_transitive(a: (u64, Seq<char>), b: (u64, Seq<char>), c: (u64, Seq<char>))
    requires
        ranks_before(a, b),
        ranks_before(b, c),
    ensures
        ranks_before(a, c),
{
    if a.0 == b.0 && b.0 == c.0 {
        lemma_bytes_le_transitive(encode_utf8(a.1), encode_utf8(b.1), encode_utf8(c.1));
    }
}

/// Whether text `a` stands before text `b`, or is `b`.
pub fn text_precedes(a: &str, b: &str) -> (r: bool)
    ensures
        r == text_le(a@, b@),
{
    let x = a.as_bytes();
    let y = b.as_bytes();
    let n: usize = x.len();
    let m: usize = y.len();
    let mut i: usize = 0;
    assert(x@.skip(0) =~= x@);
    assert(y@.skip(0) =~= y@);
    while i < n && i < m
        invariant
            n == x@.len(),
            m == y@.len(),
            x@ == encode_utf8(a@),
            y@ == encode_utf8(b@),
            0 <= i <= n,
            i <= m,
            bytes_le(x@, y@) == bytes_le(x@.skip(i as int), y@.skip(i as int)),
        decreases n - i,
    {
        proof {
            assert(x@.skip(i as int)[0] == x@[i as int]);
            assert(y@.skip(i as int)[0] == y@[i as int]);
            assert(x@.skip(i as int).drop_first() =~= x@.skip(i + 1));
            assert(y@.skip(i as int).drop_first() =~= y@.skip(i + 1));
        }
        if x[i] != y[i] {
            return x[i] < y[i];
        }
        i += 1;
    }
    n <= m
}

/// The positions among the first `n` that are wanted, ascending.
pub open spec fn picked(wanted: Seq<bool>, n: nat) -> Seq<usize>
    decreases n,
{
    if n == 0 || n > wanted.len() {
        Seq::empty()
    } else if wanted[n - 1] {
        picked(wanted, (n - 1) as nat).push((n - 1) as usize)
    } else {
        picked(wanted, (n - 1) as nat)
    }
}

/// What the picked positions are ranked by.
pub open spec fn picked_keys(names: Seq<Seq<char>>, counts: Seq<u64>, picked: Seq<usize>) -> Seq<
    (u64, Seq<char>),
> {
    Seq::new(picked.len(), |k: int| (counts[picked[k] as int], names[picked[k] as int]))
}

/// The wanted positions in rank: by falling count, then by name.
pub open spec fn arranged_by(names: Seq<Seq<char>>, wanted: Seq<bool>, counts: Seq<u64>) -> Seq<
    usize,
> {
    let chosen = picked(wanted, wanted.len());
    let order = ranking(picked_keys(names, counts, chosen));
    Seq::new(chosen.len(), |k: int| chosen[order[k] as int])
}

/// The picked positions are wanted positions.
pub proof fn lemma_picked(wanted: Seq<bool>, n: nat)
    requires
        n <= wanted.len(),
        wanted.len() <= usize::MAX,
    ensures
        picked(wanted, n).len() <= n,
        forall|k: int|
            0 <= k < picked(wanted, n).len() ==> (#[trigger] picked(wanted, n)[k]) < n
                && wanted[picked(wanted, n)[k] as int],
    decreases n,
{
    if n > 0 {
        let earlier = picked(wanted, (n - 1) as nat);
        let now = picked(wanted, n);
        lemma_picked(wanted, (n - 1) as nat);
        assert forall|k: int| 0 <= k < now.len() implies (#[trigger] now[k]) < n && wanted[now[k] as int] by {
            if k < earlier.len() {
                assert(now[k] == earlier[k]);
            }
        }
    }
}

/// The order of positions is a total order.
pub proof fn lemma_position_order_total(keys: Seq<(u64, Seq<char>)>)
    ensures
        total_ordering(position_order(keys)),
{
    let leq = position_order(keys);
    assert forall|p: usize| #[trigger] leq(p, p) by {
        if p < keys.len() {
            lemma_ranks_total(keys[p as int], keys[p as int]);
        }
    }
    assert(reflexive(leq));
    assert forall|p: usize, q: usize| #[trigger] leq(p, q) && #[trigger] leq(q, p) implies p
        == q by {}
    assert(antisymmetric(leq));
    assert forall|p: usize, q: usize| #[trigger] leq(p, q) || #[trigger] leq(q, p) by {
        if p < keys.len() && q < keys.len() {
            lemma_ranks_total(keys[p as int], keys[q as int]);
        }
    }
    assert(strongly_connected(leq));
    assert forall|p: usize, q: usize, r: usize| #[trigger]
        leq(p, q) && #[trigger] leq(q, r) implies leq(p, r) by {
        if p < keys.len() && q < keys.len() && r < keys.len() {
            let a = keys[p as int];
            let b = keys[q as int];
            let c = keys[r as int];
            lemma_ranks_transitive(a, b, c);
            if ranks_before(c, a) {
                lemma_ranks_transitive(c, a, b);
                lemma_ranks_transitive(b, c, a);
            }
        }
    }
    assert(transitive(leq));
}

/// Whether position `p` is read before position `q`, or is `q`.
fn position_precedes(keys: &Vec<SortKey>, p: usize, q: usize) -> (r: bool)
    requires
        p < keys.len(),
        q < keys.len(),
    ensures
        r == position_leq(keys_view(keys@), p, q),
{
    if keys[p].count != keys[q].count {
        keys[p].count > keys[q].count
    } else {
        let forth: bool = text_precedes(keys[p].name.as_str(), keys[q].name.as_str());
        let back: bool = text_precedes(keys[q].name.as_str(), keys[p].name.as_str());
        (forth && !back) || (forth && back && p <= q)
    }
}

proof fn lemma_skip_multiset(s: Seq<usize>, i: int)
    requires
        0 <= i < s.len(),
    ensures
        s.skip(i).to_multiset() =~= s.skip(i + 1).to_multiset().insert(s[i]),
{
    let head = seq![s[i]];
    assert(s.skip(i) =~= head + s.skip(i + 1));
    lemma_multiset_commutative(head, s.skip(i + 1));
    assert(head =~= Seq::<usize>::empty().push(s[i]));
    to_multiset_build(Seq::<usize>::empty(), s[i]);
    assert(Seq::<usize>::empty().to_multiset() =~= vstd::multiset::Multiset::<usize>::empty()) by {
        broadcast use vstd::seq_lib::group_to_multiset_ensures;

    }
}

/// Whether `run` names positions of `keys` only.
pub open spec fn in_range(run: Seq<usize>, keys: Seq<(u64, Seq<char>)>) -> bool {
    forall|i: int| 0 <= i < run.len() ==> (#[trigger] run[i]) < keys.len()
}

/// Merges two ordered runs of positions into one.
fn merge(keys: &Vec<SortKey>, a: &Vec<usize>, b: &Vec<usize>) -> (out: Vec<usize>)
    requires
        in_range(a@, keys_view(keys@)),
        in_range(b@, keys_view(keys@)),
        sorted_by(a@, position_order(keys_view(keys@))),
        sorted_by(b@, position_order(keys_view(keys@))),
    ensures
        in_range(out@, keys_view(keys@)),
        sorted_by(out@, position_order(keys_view(keys@))),
        out@.to_multiset() == a@.to_multiset().add(b@.to_multiset()),
{
    let ghost ks = keys_view(keys@);
    let ghost leq = position_order(ks);
    let mut out: Vec<usize> = Vec::new();
    let n: usize = a.len();
    let m: usize = b.len();
    let mut i: usize = 0;
    let mut j: usize = 0;
    proof {
        lemma_position_order_total(ks);
        assert(a@.skip(0) =~= a@);
        assert(b@.skip(0) =~= b@);
        assert(out@.to_multiset() =~= vstd::multiset::Multiset::<usize>::empty()) by {
            broadcast use vstd::seq_lib::group_to_multiset_ensures;

        }
        assert(out@.to_multiset().add(a@.to_multiset()).add(b@.to_multiset())
            =~= a@.to_multiset().add(b@.to_multiset()));
    }
    while i < n || j < m
        invariant
            ks == keys_view(keys@),
            leq == position_order(ks),
            total_ordering(leq),
            n == a@.len(),
            m == b@.len(),
            0 <= i <= n,
            0 <= j <= m,
            in_range(a@, ks),
            in_range(b@, ks),
            sorted_by(a@, leq),
            sorted_by(b@, leq),
            in_range(out@, ks),
            sorted_by(out@, leq),
            forall|p: int, q: int|
                0 <= p < out@.len() && i <= q < n ==> #[trigger] leq(out@[p], a@[q]),
            forall|p: int, q: int|
                0 <= p < out@.len() && j <= q < m ==> #[trigger] leq(out@[p], b@[q]),
            out@.to_multiset().add(a@.skip(i as int).to_multiset()).add(
                b@.skip(j as int).to_multiset(),
            ) == a@.to_multiset().add(b@.to_multiset()),
        decreases (n - i) + (m - j),
    {
        let take_left: bool = if i < n && j < m {
            position_precedes(keys, a[i], b[j])
        } else {
            i < n
        };
        let ghost before = out@;
        if take_left {
            let x: usize = a[i];
            proof {
                lemma_skip_multiset(a@, i as int);
                to_multiset_build(before, x);
                assert forall|q: int| j <= q < m implies #[trigger] leq(x, b@[q]) by {
                    if q > j {
                        assert(leq(b@[j as int], b@[q]));
                        assert(leq(x, b@[j as int]));
                    }
                }
                assert forall|q: int| i + 1 <= q < n implies #[trigger] leq(x, a@[q]) by {
                    assert(leq(a@[i as int], a@[q]));
                }
            }
            out.push(x);
            i += 1;
            proof {
                assert(out@.to_multiset().add(a@.skip(i as int).to_multiset()).add(
                    b@.skip(j as int).to_multiset(),
                ) =~= before.to_multiset().add(a@.skip(i - 1).to_multiset()).add(
                    b@.skip(j as int).to_multiset(),
                ));
                assert forall|p: int, q: int| 0 <= p < q < out@.len() implies #[trigger] leq(
                    out@[p],
                    out@[q],
                ) by {
                    if q < before.len() {
                        assert(leq(before[p], before[q]));
                    } else {
                        assert(leq(before[p], a@[i - 1]));
                    }
                }
            }
        } else {
            let y: usize = b[j];
            proof {
                lemma_skip_multiset(b@, j as int);
                to_multiset_build(before, y);
                assert forall|q: int| i <= q < n implies #[trigger] leq(y, a@[q]) by {
                    assert(leq(y, a@[i as int]) || leq(a@[i as int], y));
                    if q > i {
                        assert(leq(a@[i as int], a@[q]));
                    }
                }
                assert forall|q: int| j + 1 <= q < m implies #[trigger] leq(y, b@[q]) by {
                    assert(leq(b@[j as int], b@[q]));
                }
            }
            out.push(y);
            j += 1;
            proof {
                assert(out@.to_multiset().add(a@.skip(i as int).to_multiset()).add(
                    b@.skip(j as int).to_multiset(),
                ) =~= before.to_multiset().add(a@.skip(i as int).to_multiset()).add(
                    b@.skip(j - 1).to_multiset(),
                ));
                assert forall|p: int, q: int| 0 <= p < q < out@.len() implies #[trigger] leq(
                    out@[p],
                    out@[q],
                ) by {
                    if q < before.len() {
                        assert(leq(before[p], before[q]));
                    } else {
                        assert(leq(before[p], b@[j - 1]));
                    }
                }
            }
        }
    }
    proof {
        assert(a@.skip(n as int) =~= Seq::<usize>::empty());
        assert(b@.skip(m as int) =~= Seq::<usize>::empty());
        assert(Seq::<usize>::empty().to_multiset() =~= vstd::multiset::Multiset::<usize>::empty()) by {
            broadcast use vstd::seq_lib::group_to_multiset_ensures;

        }
        assert(out@.to_multiset() =~= out@.to_multiset().add(a@.skip(n as int).to_multiset()).add(
            b@.skip(m as int).to_multiset(),
        ));
    }
    out
}

/// Brings a run of positions into order.
fn merge_sort(keys: &Vec<SortKey>, run: Vec<usize>) -> (out: Vec<usize>)
    requires
        in_range(run@, keys_view(keys@)),
    ensures
        in_range(out@, keys_view(keys@)),
        sorted_by(out@, position_order(keys_view(keys@))),
        out@.to_multiset() == run@.to_multiset(),
    decreases run@.len(),
{
    let n: usize = run.len();
    if n <= 1 {
        return run;
    }
    let mut left = run;
    let ghost whole = left@;
    let right = left.split_off(n / 2);
    proof {
        assert(whole =~= left@ + right@);
        lemma_multiset_commutative(left@, right@);
        assert forall|i: int| 0 <= i < left@.len() implies (#[trigger] left@[i]) < keys_view(
            keys@,
        ).len() by {
            assert(left@[i] == whole[i]);
        }
        assert forall|i: int| 0 <= i < right@.len() implies (#[trigger] right@[i]) < keys_view(
            keys@,
        ).len() by {
            assert(right@[i] == whole[i + n / 2]);
        }
    }
    let sorted_left = merge_sort(keys, left);
    let sorted_right = merge_sort(keys, right);
    merge(keys, &sorted_left, &sorted_right)
}

/// The order in which to read `keys` to have them in rank.
pub fn rank_order(keys: &Vec<SortKey>) -> (order: Vec<usize>)
    ensures
        order@ == ranking(keys_view(keys@)),
        order@.len() == keys@.len(),
        in_range(order@, keys_view(keys@)),
{
    let mut run: Vec<usize> = Vec::new();
    let n: usize = keys.len();
    let mut i: usize = 0;
    while i < n
        invariant
            n == keys.len(),
            0 <= i <= n,
            run@ == positions(i as nat),
        decreases n - i,
    {
        run.push(i);
        assert(run@ =~= positions((i + 1) as nat));
        i += 1;
    }
    let order = merge_sort(keys, run);
    proof {
        let ks = keys_view(keys@);
        let leq = position_order(ks);
        lemma_position_order_total(ks);
        positions(n as nat).lemma_sort_by_ensures(leq);
        vstd::seq_lib::lemma_sorted_unique(order@, ranking(ks), leq);
        vstd::seq_lib::to_multiset_len(order@);
        vstd::seq_lib::to_multiset_len(positions(n as nat));
    }
    order
}

} // verus!
