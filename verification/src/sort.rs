//! Stable ordering of listings: one group of entries first, then by name.
use vstd::prelude::*;
use std::collections::VecDeque;

use crate::text::{lemma_lex_le_total, lemma_lex_le_trans, lex_le, lex_le_exec};

verus! {

/// The order key of a listing entry. Entries whose `first` flag is set come
/// before the others; within each group, names compare by code point.
pub struct SortKey {
    pub first: bool,
    pub name: Vec<char>,
}

pub type KeyView = (bool, Seq<char>);

pub open spec fn key_view(k: SortKey) -> KeyView {
    (k.first, k.name@)
}

pub open spec fn key_le(a: KeyView, b: KeyView) -> bool {
    (a.0 && !b.0) || (a.0 == b.0 && lex_le(a.1, b.1))
}

/// `p` lists each of `0..n` exactly once.
pub open spec fn is_permutation(p: Seq<int>, n: int) -> bool {
    &&& p.len() == n
    &&& forall|i: int| 0 <= i < n ==> 0 <= #[trigger] p[i] < n
    &&& forall|i: int, j: int| 0 <= i < j < n ==> p[i] != p[j]
}

pub open spec fn sorted_by_key<T>(s: Seq<(KeyView, T)>) -> bool {
    forall|i: int, j: int| 0 <= i < j < s.len() ==> key_le(s[i].0, s[j].0)
}

/// `p` says where each element of `out` came from in `input`, and elements
/// with equal keys keep their input order.
pub open spec fn stable_witness<T>(out: Seq<(KeyView, T)>, input: Seq<(KeyView, T)>, p: Seq<int>) -> bool {
    &&& is_permutation(p, input.len() as int)
    &&& forall|i: int| 0 <= i < out.len() ==> out[i] == input[#[trigger] p[i]]
    &&& forall|i: int, j: int|
        0 <= i < j < out.len() && out[i].0 == out[j].0 ==> #[trigger] p[i] < #[trigger] p[j]
}

/// `out` is what a stable sort by `key_le` makes of `input`: the same
/// elements, ordered by key, and equal keys in their input order.
pub open spec fn is_stable_sort<T>(out: Seq<(KeyView, T)>, input: Seq<(KeyView, T)>) -> bool {
    &&& out.len() == input.len()
    &&& sorted_by_key(out)
    &&& exists|p: Seq<int>| stable_witness(out, input, p)
}

pub open spec fn keyed_view<T>(s: Seq<(SortKey, T)>) -> Seq<(KeyView, T)> {
    s.map_values(|e: (SortKey, T)| (key_view(e.0), e.1))
}

pub proof fn lemma_key_le_total(a: KeyView, b: KeyView)
    ensures
        key_le(a, b) || key_le(b, a),
{
    lemma_lex_le_total(a.1, b.1);
}

pub proof fn lemma_key_le_trans(a: KeyView, b: KeyView, c: KeyView)
    requires
        key_le(a, b),
        key_le(b, c),
    ensures
        key_le(a, c),
{
    if a.0 == b.0 && b.0 == c.0 {
        lemma_lex_le_trans(a.1, b.1, c.1);
    }
}

/// Compares two keys.
pub fn key_le_exec(a: &SortKey, b: &SortKey) -> (r: bool)
    ensures
        r == key_le(key_view(*a), key_view(*b)),
{
    (a.first && !b.first) || (a.first == b.first && lex_le_exec(&a.name, &b.name))
}

/// The elements of a vector, front to back, as a double-ended queue.
pub fn to_deque<T>(v: Vec<T>) -> (d: VecDeque<T>)
    ensures
        d@ == v@,
{
    let ghost orig = v@;
    let mut v = v;
    let mut d: VecDeque<T> = VecDeque::new();
    while v.len() > 0
        invariant
            v@ + d@ == orig,
        decreases v.len(),
    {
        let ghost before = v@;
        let ghost dbefore = d@;
        let x = v.pop().unwrap();
        d.push_front(x);
        assert(v@ + d@ =~= before + dbefore);
    }
    assert(d@ =~= orig);
    d
}

/// A list of at most one element is its own stable sort.
proof fn lemma_short_is_sorted<T>(s: Seq<(KeyView, T)>)
    requires
        s.len() <= 1,
    ensures
        is_stable_sort(s, s),
{
    let p = Seq::new(s.len(), |i: int| i);
    assert(stable_witness(s, s, p));
}

/// `q` records, for each element of `out`, where it came from in `a`
/// (positions below `a.len()`) or in `b` (above): the elements of each side
/// keep their order, and of two equal keys none from `b` comes before one
/// from `a`.
pub open spec fn merge_witness<T>(
    out: Seq<(KeyView, T)>,
    a: Seq<(KeyView, T)>,
    b: Seq<(KeyView, T)>,
    q: Seq<int>,
) -> bool {
    let na = a.len() as int;
    &&& q.len() == out.len()
    &&& forall|t: int| 0 <= t < out.len() ==> 0 <= #[trigger] q[t] < na + b.len()
    &&& forall|t: int|
        0 <= t < out.len() ==> #[trigger] out[t] == if q[t] < na {
            a[q[t]]
        } else {
            b[q[t] - na]
        }
    &&& forall|t: int, u: int|
        0 <= t < u < out.len() && #[trigger] q[t] < na && #[trigger] q[u] < na ==> q[t] < q[u]
    &&& forall|t: int, u: int|
        0 <= t < u < out.len() && #[trigger] q[t] >= na && #[trigger] q[u] >= na ==> q[t] < q[u]
    &&& forall|t: int, u: int|
        0 <= t < u < out.len() && out[t].0 == out[u].0 ==> !(#[trigger] q[t] >= na && #[trigger] q[u] < na)
}

proof fn lemma_key_le_refl(a: KeyView)
    ensures
        key_le(a, a),
{
    lemma_key_le_total(a, a);
}

/// Merging stable sorts of two lists, the left one first where keys tie,
/// stably sorts their concatenation.
proof fn lemma_merge_stable<T>(
    out: Seq<(KeyView, T)>,
    a: Seq<(KeyView, T)>,
    b: Seq<(KeyView, T)>,
    ain: Seq<(KeyView, T)>,
    bin: Seq<(KeyView, T)>,
    q: Seq<int>,
)
    requires
        is_stable_sort(a, ain),
        is_stable_sort(b, bin),
        merge_witness(out, a, b, q),
        out.len() == a.len() + b.len(),
        sorted_by_key(out),
    ensures
        is_stable_sort(out, ain + bin),
{
    let na = a.len() as int;
    let n = out.len() as int;
    let pa = choose|p: Seq<int>| stable_witness(a, ain, p);
    let pb = choose|p: Seq<int>| stable_witness(b, bin, p);
    assert(stable_witness(a, ain, pa));
    assert(stable_witness(b, bin, pb));
    let input = ain + bin;
    let p = Seq::new(out.len(), |t: int| if q[t] < na { pa[q[t]] } else { na + pb[q[t] - na] });
    assert forall|t: int| 0 <= t < n implies 0 <= #[trigger] p[t] < n && out[t] == input[p[t]] by {
        assert(0 <= q[t] < n);
        if q[t] < na {
            assert(out[t] == a[q[t]]);
        } else {
            assert(out[t] == b[q[t] - na]);
        }
    }
    assert forall|t: int, u: int| 0 <= t < u < n implies p[t] != p[u] by {
        if q[t] < na && q[u] < na {
            assert(q[t] < q[u]);
        } else if q[t] >= na && q[u] >= na {
            assert(q[t] < q[u]);
        }
    }
    assert forall|t: int, u: int| 0 <= t < u < n && out[t].0 == out[u].0 implies #[trigger] p[t] < #[trigger] p[u] by {
        assert(0 <= q[t] < n);
        assert(0 <= q[u] < n);
        if q[t] < na && q[u] < na {
            assert(q[t] < q[u]);
            assert(a[q[t]].0 == a[q[u]].0);
            assert(pa[q[t]] < pa[q[u]]);
        } else if q[t] >= na && q[u] >= na {
            assert(q[t] < q[u]);
            assert(b[q[t] - na].0 == b[q[u] - na].0);
            assert(pb[q[t] - na] < pb[q[u] - na]);
        } else {
            assert(!(q[t] >= na && q[u] < na));
        }
    }
    assert(stable_witness(out, input, p));
}

/// Merges two lists sorted by key, taking from the left one first where
/// keys tie.
fn merge<T>(a: VecDeque<(SortKey, T)>, b: VecDeque<(SortKey, T)>) -> (r: VecDeque<(SortKey, T)>)
    requires
        sorted_by_key(keyed_view(a@)),
        sorted_by_key(keyed_view(b@)),
        a@.len() + b@.len() <= usize::MAX,
    ensures
        r@.len() == a@.len() + b@.len(),
        sorted_by_key(keyed_view(r@)),
        exists|q: Seq<int>| merge_witness(keyed_view(r@), keyed_view(a@), keyed_view(b@), q),
{
    let ghost a0 = a@;
    let ghost b0 = b@;
    let ghost sa = keyed_view(a@);
    let ghost sb = keyed_view(b@);
    let ghost na = sa.len() as int;
    let ghost nb = sb.len() as int;
    assert(na == a0.len() && nb == b0.len());
    let mut a = a;
    let mut b = b;
    let mut out: VecDeque<(SortKey, T)> = VecDeque::new();
    let ghost mut i: int = 0;
    let ghost mut j: int = 0;
    let ghost mut q: Seq<int> = Seq::empty();
    while a.len() > 0 || b.len() > 0
        invariant
            0 <= i <= na,
            0 <= j <= nb,
            na == a0.len(),
            nb == b0.len(),
            sa == keyed_view(a0),
            sb == keyed_view(b0),
            a@ == a0.skip(i),
            b@ == b0.skip(j),
            sorted_by_key(sa),
            sorted_by_key(sb),
            out@.len() == i + j,
            sorted_by_key(keyed_view(out@)),
            i < na ==> forall|t: int| 0 <= t < out@.len() ==> key_le(#[trigger] keyed_view(out@)[t].0, sa[i].0),
            j < nb ==> forall|t: int| 0 <= t < out@.len() ==> key_le(#[trigger] keyed_view(out@)[t].0, sb[j].0),
            merge_witness(keyed_view(out@), sa, sb, q),
            forall|t: int| 0 <= t < out@.len() ==> (#[trigger] q[t] < na ==> q[t] < i) && (q[t] >= na ==> q[t] < na + j),
            i < na ==> forall|t: int|
                0 <= t < out@.len() && #[trigger] q[t] >= na ==> !key_le(sa[i].0, keyed_view(out@)[t].0),
        decreases na + nb - i - j,
    {
        let ghost o = keyed_view(out@);
        let take_a = if a.len() == 0 {
            false
        } else if b.len() == 0 {
            true
        } else {
            key_le_exec(&a[0].0, &b[0].0)
        };
        proof {
            if i < na {
                assert(a@[0] == a0[i]);
                assert(sa[i] == (key_view(a0[i].0), a0[i].1));
            }
            if j < nb {
                assert(b@[0] == b0[j]);
                assert(sb[j] == (key_view(b0[j].0), b0[j].1));
            }
        }
        if take_a {
            let x = a.pop_front().unwrap();
            proof {
                assert(a@ =~= a0.skip(i + 1));
            }
            let ghost ox = out@;
            out.push_back(x);
            proof {
                let on = keyed_view(out@);
                assert(on =~= keyed_view(ox).push(sa[i]));
                let qn = q.push(i);
                lemma_key_le_refl(sa[i].0);
                if i + 1 < na {
                    assert forall|t: int| 0 <= t < on.len() implies key_le(#[trigger] on[t].0, sa[i + 1].0) by {
                        if t < o.len() {
                            lemma_key_le_trans(on[t].0, sa[i].0, sa[i + 1].0);
                        }
                    }
                    assert forall|t: int| 0 <= t < on.len() && #[trigger] qn[t] >= na implies !key_le(sa[i + 1].0, on[t].0) by {
                        if t < o.len() {
                            if key_le(sa[i + 1].0, on[t].0) {
                                lemma_key_le_trans(sa[i].0, sa[i + 1].0, on[t].0);
                            }
                        }
                    }
                }
                if j < nb {
                    assert(key_le(sa[i].0, sb[j].0));
                }
                assert forall|t: int, u: int|
                    0 <= t < u < on.len() && on[t].0 == on[u].0 implies !(#[trigger] qn[t] >= na && #[trigger] qn[u] < na) by {
                    if u == o.len() && qn[t] >= na {
                        assert(!key_le(sa[i].0, o[t].0));
                    }
                }
                assert forall|t: int, u: int|
                    0 <= t < u < on.len() && #[trigger] qn[t] < na && #[trigger] qn[u] < na implies qn[t] < qn[u] by {
                    if u == o.len() {
                        assert(q[t] < i);
                    }
                }
                assert forall|t: int| 0 <= t < on.len() implies #[trigger] on[t] == if qn[t] < na {
                    sa[qn[t]]
                } else {
                    sb[qn[t] - na]
                } by {
                    if t < o.len() {
                        assert(o[t] == if q[t] < na { sa[q[t]] } else { sb[q[t] - na] });
                    }
                }
                q = qn;
                i = i + 1;
            }
        } else {
            let x = b.pop_front().unwrap();
            proof {
                assert(b@ =~= b0.skip(j + 1));
                if i < na {
                    lemma_key_le_total(sa[i].0, sb[j].0);
                }
            }
            let ghost ox = out@;
            out.push_back(x);
            proof {
                let on = keyed_view(out@);
                assert(on =~= keyed_view(ox).push(sb[j]));
                let qn = q.push(na + j);
                lemma_key_le_refl(sb[j].0);
                if j + 1 < nb {
                    assert forall|t: int| 0 <= t < on.len() implies key_le(#[trigger] on[t].0, sb[j + 1].0) by {
                        if t < o.len() {
                            lemma_key_le_trans(on[t].0, sb[j].0, sb[j + 1].0);
                        }
                    }
                }
                if i < na {
                    assert forall|t: int| 0 <= t < on.len() && #[trigger] qn[t] >= na implies !key_le(sa[i].0, on[t].0) by {
                    }
                }
                assert forall|t: int, u: int|
                    0 <= t < u < on.len() && #[trigger] qn[t] >= na && #[trigger] qn[u] >= na implies qn[t] < qn[u] by {
                    if u == o.len() {
                        assert(q[t] < na + j);
                    }
                }
                assert forall|t: int, u: int|
                    0 <= t < u < on.len() && on[t].0 == on[u].0 implies !(#[trigger] qn[t] >= na && #[trigger] qn[u] < na) by {
                }
                assert forall|t: int| 0 <= t < on.len() implies #[trigger] on[t] == if qn[t] < na {
                    sa[qn[t]]
                } else {
                    sb[qn[t] - na]
                } by {
                    if t < o.len() {
                        assert(o[t] == if q[t] < na { sa[q[t]] } else { sb[q[t] - na] });
                    }
                }
                q = qn;
                j = j + 1;
            }
        }
    }
    proof {
        assert(merge_witness(keyed_view(out@), sa, sb, q));
    }
    out
}

/// Sorts `items` stably by key (a merge sort): entries whose key has
/// `first` set come first, and within each group names ascend by code point.
fn merge_sort<T>(items: VecDeque<(SortKey, T)>) -> (r: VecDeque<(SortKey, T)>)
    ensures
        is_stable_sort(keyed_view(r@), keyed_view(items@)),
    decreases items@.len(),
{
    let n = items.len();
    if n <= 1 {
        proof {
            lemma_short_is_sorted(keyed_view(items@));
        }
        return items;
    }
    let ghost all = items@;
    let mut left = items;
    let right = left.split_off(n / 2);
    let ghost lin = keyed_view(left@);
    let ghost rin = keyed_view(right@);
    proof {
        assert(keyed_view(all) =~= lin + rin);
    }
    let ls = merge_sort(left);
    let rs = merge_sort(right);
    let ghost la = keyed_view(ls@);
    let ghost ra = keyed_view(rs@);
    let m = merge(ls, rs);
    proof {
        let q = choose|q: Seq<int>| merge_witness(keyed_view(m@), la, ra, q);
        lemma_merge_stable(keyed_view(m@), la, ra, lin, rin, q);
    }
    m
}

/// Applying a function to the elements of both lists keeps one a stable sort
/// of the other.
pub proof fn lemma_stable_sort_map<T, U>(
    out: Seq<(KeyView, T)>,
    input: Seq<(KeyView, T)>,
    f: spec_fn(T) -> U,
)
    requires
        is_stable_sort(out, input),
    ensures
        is_stable_sort(
            out.map_values(|e: (KeyView, T)| (e.0, f(e.1))),
            input.map_values(|e: (KeyView, T)| (e.0, f(e.1))),
        ),
{
    let g = |e: (KeyView, T)| (e.0, f(e.1));
    let mo = out.map_values(g);
    let mi = input.map_values(g);
    let p = choose|p: Seq<int>| stable_witness(out, input, p);
    assert(stable_witness(mo, mi, p)) by {
        assert forall|i: int| 0 <= i < mo.len() implies mo[i] == mi[#[trigger] p[i]] by {
            assert(out[i] == input[p[i]]);
        }
    }
}

/// Listing items that know their order key.
pub trait Keyed: Sized {
    spec fn key_spec(&self) -> KeyView;

    fn sort_key(&self) -> (k: SortKey)
        ensures
            key_view(k) == self.key_spec(),
    ;
}

pub open spec fn keyed_items<T: Keyed>(s: Seq<T>) -> Seq<(KeyView, T)> {
    s.map_values(|t: T| (t.key_spec(), t))
}

/// Sorts items stably by their keys.
pub fn sort_by_keys<T: Keyed>(items: Vec<T>) -> (r: Vec<T>)
    ensures
        is_stable_sort(keyed_items(r@), keyed_items(items@)),
{
    let ghost orig = items@;
    let mut rest = to_deque(items);
    let mut pairs: VecDeque<(SortKey, T)> = VecDeque::new();
    let ghost mut k: int = 0;
    assert(keyed_view(pairs@) =~= keyed_items(orig.take(0)));
    assert(rest@ == orig.skip(0));
    while rest.len() > 0
        invariant
            0 <= k <= orig.len(),
            rest@ == orig.skip(k),
            pairs@.len() == k,
            keyed_view(pairs@) == keyed_items(orig.take(k)),
        decreases rest.len(),
    {
        let item = rest.pop_front().unwrap();
        proof {
            assert(item == orig[k]);
            assert(rest@ =~= orig.skip(k + 1));
        }
        let key = item.sort_key();
        let ghost before = pairs@;
        pairs.push_back((key, item));
        proof {
            assert(keyed_view(pairs@) =~= keyed_view(before).push((key_view(key), orig[k])));
            assert(keyed_items(orig.take(k + 1)) =~= keyed_items(orig.take(k)).push(
                (orig[k].key_spec(), orig[k]),
            ));
            k = k + 1;
        }
    }
    assert(orig.take(k) == orig);
    let ghost keyed_in = keyed_view(pairs@);
    let mut sorted = merge_sort(pairs);
    let ghost keyed_out = keyed_view(sorted@);
    let ghost sorted_all = sorted@;
    let mut r: Vec<T> = Vec::new();
    let ghost mut m: int = 0;
    while sorted.len() > 0
        invariant
            0 <= m <= sorted_all.len(),
            sorted@ == sorted_all.skip(m),
            r@ == sorted_all.take(m).map_values(|e: (SortKey, T)| e.1),
        decreases sorted.len(),
    {
        let e = sorted.pop_front().unwrap();
        let ghost before = r@;
        proof {
            assert(e == sorted_all[m]);
            assert(sorted@ =~= sorted_all.skip(m + 1));
        }
        r.push(e.1);
        proof {
            assert(sorted_all.take(m + 1) =~= sorted_all.take(m).push(sorted_all[m]));
            assert(r@ =~= sorted_all.take(m + 1).map_values(|e: (SortKey, T)| e.1));
            m = m + 1;
        }
    }
    proof {
        assert(sorted_all.take(m) =~= sorted_all);
        let p = choose|p: Seq<int>| stable_witness(keyed_out, keyed_in, p);
        assert(stable_witness(keyed_out, keyed_in, p));
        assert forall|t: int| 0 <= t < keyed_out.len() implies keyed_out[t] == (
        keyed_out[t].1.key_spec(),
        keyed_out[t].1,
        ) by {
            assert(keyed_out[t] == keyed_in[p[t]]);
        }
        assert(keyed_out =~= keyed_items(r@));
    }
    r
}

/// A stable sort by the keys that items know of themselves, read through a
/// view `f` of the items whose own key function `key` agrees with theirs,
/// is a stable sort of the views.
pub proof fn lemma_keyed_sort_views<T: Keyed, V>(
    out: Seq<T>,
    input: Seq<T>,
    f: spec_fn(T) -> V,
    key: spec_fn(V) -> KeyView,
)
    requires
        is_stable_sort(keyed_items(out), keyed_items(input)),
        forall|t: T| #[trigger] t.key_spec() == key(f(t)),
    ensures
        is_stable_sort(with_keys(out.map_values(f), key), with_keys(input.map_values(f), key)),
{
    lemma_stable_sort_map(keyed_items(out), keyed_items(input), f);
    assert(keyed_items(out).map_values(|e: (KeyView, T)| (e.0, f(e.1))) =~= with_keys(out.map_values(f), key));
    assert(keyed_items(input).map_values(|e: (KeyView, T)| (e.0, f(e.1))) =~= with_keys(
        input.map_values(f),
        key,
    ));
}

/// Pairs each element with its key.
pub open spec fn with_keys<U>(s: Seq<U>, key: spec_fn(U) -> KeyView) -> Seq<(KeyView, U)> {
    s.map_values(|u: U| (key(u), u))
}

} // verus!
