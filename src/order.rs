//! Ordering of the priority list: a stable sort by priority index.

use vstd::prelude::*;

use crate::device::{DeviceInfo, ListEvent, is_output, on_list_event, outputs};

verus! {

/// The devices of `s` whose index is `k`, in their order in `s`.
pub open spec fn with_index(s: Seq<DeviceInfo>, k: u32) -> Seq<DeviceInfo>
    decreases s.len(),
{
    if s.len() == 0 {
        Seq::empty()
    } else if s.last().index == k {
        with_index(s.drop_last(), k).push(s.last())
    } else {
        with_index(s.drop_last(), k)
    }
}

/// Indices never decrease along `s`.
pub open spec fn sorted_by_index(s: Seq<DeviceInfo>) -> bool {
    forall|i: int, j: int| 0 <= i < j < s.len() ==> s[i].index <= s[j].index
}

/// `r` is `s` sorted by index, where devices of equal index keep their order
/// in `s`.
pub open spec fn stable_sorted(r: Seq<DeviceInfo>, s: Seq<DeviceInfo>) -> bool {
    &&& sorted_by_index(r)
    &&& forall|k: u32| #[trigger] with_index(r, k) == with_index(s, k)
}

proof fn lemma_with_index_add(a: Seq<DeviceInfo>, b: Seq<DeviceInfo>, k: u32)
    ensures
        with_index(a + b, k) == with_index(a, k) + with_index(b, k),
    decreases b.len(),
{
    if b.len() == 0 {
        assert(a + b =~= a);
        assert(with_index(a, k) + with_index(b, k) =~= with_index(a, k));
    } else {
        lemma_with_index_add(a, b.drop_last(), k);
        assert((a + b).drop_last() =~= a + b.drop_last());
        assert((a + b).last() == b.last());
        if b.last().index == k {
            assert(with_index(a, k) + with_index(b.drop_last(), k).push(b.last()) =~= (
            with_index(a, k) + with_index(b.drop_last(), k)).push(b.last()));
        }
    }
}

proof fn lemma_with_index_none(s: Seq<DeviceInfo>, k: u32)
    requires
        forall|i: int| 0 <= i < s.len() ==> s[i].index != k,
    ensures
        with_index(s, k) == Seq::<DeviceInfo>::empty(),
    decreases s.len(),
{
    if s.len() > 0 {
        lemma_with_index_none(s.drop_last(), k);
    }
}

/// Inserting `x` after every device of index at most `x.index`, and before
/// the rest, keeps a stable sort stable.
proof fn lemma_insert_stable(out: Seq<DeviceInfo>, done: Seq<DeviceInfo>, x: DeviceInfo, p: int)
    requires
        stable_sorted(out, done),
        0 <= p <= out.len(),
        forall|i: int| 0 <= i < p ==> out[i].index <= x.index,
        forall|i: int| p <= i < out.len() ==> out[i].index > x.index,
    ensures
        stable_sorted(out.insert(p, x), done.push(x)),
{
    let new = out.insert(p, x);
    let left = out.subrange(0, p);
    let right = out.subrange(p, out.len() as int);
    assert(out =~= left + right);
    assert(new =~= left + seq![x] + right);
    assert(seq![x].drop_last() =~= Seq::<DeviceInfo>::empty());
    assert forall|k: u32| #[trigger] with_index(new, k) == with_index(done.push(x), k) by {
        lemma_with_index_add(left, right, k);
        lemma_with_index_add(left + seq![x], right, k);
        lemma_with_index_add(left, seq![x], k);
        assert(done.push(x).drop_last() =~= done);
        assert(done.push(x).last() == x);
        assert(with_index(out, k) == with_index(done, k));
        assert(with_index(Seq::<DeviceInfo>::empty(), k) == Seq::<DeviceInfo>::empty());
        assert(seq![x].last() == x);
        if x.index == k {
            assert(with_index(seq![x], k) =~= seq![x]);
            lemma_with_index_none(right, k);
            assert(with_index(left, k) + seq![x] + Seq::<DeviceInfo>::empty() =~= (with_index(
                left,
                k,
            ) + Seq::<DeviceInfo>::empty()).push(x));
        } else {
            assert(with_index(seq![x], k) =~= Seq::<DeviceInfo>::empty());
            assert(with_index(left, k) + Seq::<DeviceInfo>::empty() =~= with_index(left, k));
        }
    }
    assert forall|i: int, j: int| 0 <= i < j < new.len() implies new[i].index
        <= new[j].index by {
        if j < p {
        } else if j == p {
        } else if i < p {
        } else if i == p {
        } else {
            assert(new[i] == out[i - 1]);
            assert(new[j] == out[j - 1]);
        }
    }
}

/// Sorts devices by ascending index; devices of equal index keep their
/// relative order.
pub fn sort_by_index(devices: Vec<DeviceInfo>) -> (r: Vec<DeviceInfo>)
    ensures
        stable_sorted(r@, devices@),
{
    let ghost orig = devices@;
    let mut rest = devices;
    let mut out: Vec<DeviceInfo> = Vec::new();
    proof {
        assert(orig.subrange(0, 0) =~= Seq::<DeviceInfo>::empty());
    }
    while rest.len() > 0
        invariant
            out@.len() + rest@.len() == orig.len(),
            rest@ == orig.subrange(out@.len() as int, orig.len() as int),
            stable_sorted(out@, orig.subrange(0, out@.len() as int)),
        decreases rest@.len(),
    {
        let ghost done = orig.subrange(0, out@.len() as int);
        let x = rest.remove(0);
        let mut p: usize = out.len();
        while p > 0 && out[p - 1].index > x.index
            invariant
                p <= out@.len(),
                sorted_by_index(out@),
                forall|i: int| p <= i < out@.len() ==> out@[i].index > x.index,
            decreases p,
        {
            p = p - 1;
        }
        proof {
            lemma_insert_stable(out@, done, x, p as int);
            assert(done.push(x) =~= orig.subrange(0, out@.len() + 1 as int));
        }
        out.insert(p, x);
        proof {
            assert(rest@ =~= orig.subrange(out@.len() as int, orig.len() as int));
        }
    }
    proof {
        assert(orig.subrange(0, out@.len() as int) =~= orig);
    }
    out
}

/// The devices that `events` carry, in the order they came.
pub open spec fn listed(events: Seq<ListEvent>) -> Seq<DeviceInfo>
    decreases events.len(),
{
    if events.len() == 0 {
        Seq::empty()
    } else {
        match events.last() {
            ListEvent::Item(d) => listed(events.drop_last()).push(d),
            _ => listed(events.drop_last()),
        }
    }
}

/// The priority list that a list read answered with `events`: its output
/// devices, sorted by index, devices of equal index in the order they came.
pub fn enumerate(events: Vec<ListEvent>) -> (r: Vec<DeviceInfo>)
    ensures
        stable_sorted(r@, outputs(listed(events@))),
{
    let ghost orig = events@;
    let mut rest = events;
    let mut found: Vec<DeviceInfo> = Vec::new();
    let total = rest.len();
    let mut n: usize = 0;
    proof {
        assert(orig.subrange(0, 0) =~= Seq::<ListEvent>::empty());
    }
    while rest.len() > 0
        invariant
            n + rest@.len() == orig.len(),
            orig.len() == total,
            rest@ == orig.subrange(n as int, orig.len() as int),
            found@ == outputs(listed(orig.subrange(0, n as int))),
        decreases rest@.len(),
    {
        let ghost seen = orig.subrange(0, n as int);
        let ev = rest.remove(0);
        proof {
            let next = orig.subrange(0, n + 1 as int);
            assert(next.drop_last() =~= seen);
            assert(next.last() == ev);
            if ev is Item {
                assert(listed(next) == listed(seen).push(ev->Item_0));
                assert(listed(next).drop_last() =~= listed(seen));
                assert(listed(next).last() == ev->Item_0);
            } else {
                assert(listed(next) == listed(seen));
            }
        }
        on_list_event(&mut found, ev);
        n = n + 1;
        proof {
            assert(rest@ =~= orig.subrange(n as int, orig.len() as int));
        }
    }
    proof {
        assert(orig.subrange(0, n as int) =~= orig);
    }
    sort_by_index(found)
}

proof fn lemma_contains_with_index(s: Seq<DeviceInfo>, d: DeviceInfo)
    ensures
        s.contains(d) <==> with_index(s, d.index).contains(d),
    decreases s.len(),
{
    if s.len() > 0 {
        let k = d.index;
        lemma_contains_with_index(s.drop_last(), d);
        assert(s =~= s.drop_last().push(s.last()));
        if s.contains(d) {
            if s.last() != d {
                let i = choose|i: int| 0 <= i < s.len() && s[i] == d;
                assert(s.drop_last()[i] == d);
            }
        }
        if s.drop_last().contains(d) {
            let i = choose|i: int| 0 <= i < s.drop_last().len() && s.drop_last()[i] == d;
            assert(s[i] == d);
        }
        if s.last().index == k {
            let w = with_index(s.drop_last(), k);
            if w.push(s.last()).contains(d) && s.last() != d {
                let i = choose|i: int| 0 <= i < w.push(s.last()).len() && w.push(s.last())[i] == d;
                assert(w[i] == d);
            }
            if w.contains(d) {
                let i = choose|i: int| 0 <= i < w.len() && w[i] == d;
                assert(w.push(s.last())[i] == d);
            }
            assert(w.push(s.last())[w.len() as int] == s.last());
        }
    }
}

proof fn lemma_same_devices(r: Seq<DeviceInfo>, s: Seq<DeviceInfo>)
    requires
        stable_sorted(r, s),
    ensures
        forall|d: DeviceInfo| r.contains(d) <==> s.contains(d),
{
    assert forall|d: DeviceInfo| r.contains(d) <==> s.contains(d) by {
        lemma_contains_with_index(r, d);
        lemma_contains_with_index(s, d);
        assert(with_index(r, d.index) == with_index(s, d.index));
    }
}

proof fn lemma_distinct_at_most_one(s: Seq<DeviceInfo>, k: u32)
    requires
        forall|i: int, j: int| 0 <= i < j < s.len() ==> s[i].index != s[j].index,
    ensures
        with_index(s, k).len() <= 1,
    decreases s.len(),
{
    if s.len() > 0 {
        lemma_distinct_at_most_one(s.drop_last(), k);
        if s.last().index == k {
            assert forall|i: int| 0 <= i < s.drop_last().len() implies s.drop_last()[i].index
                != k by {
                assert(s[i].index != s[s.len() - 1].index);
            }
            lemma_with_index_none(s.drop_last(), k);
        }
    }
}

proof fn lemma_tie_two(s: Seq<DeviceInfo>, i: int, j: int)
    requires
        0 <= i < j < s.len(),
        s[i].index == s[j].index,
    ensures
        with_index(s, s[i].index).len() >= 2,
    decreases s.len(),
{
    let k = s[i].index;
    if j < s.len() - 1 {
        assert(s.drop_last()[i] == s[i] && s.drop_last()[j] == s[j]);
        lemma_tie_two(s.drop_last(), i, j);
    } else {
        assert(s.drop_last()[i] == s[i]);
        assert(s.drop_last().contains(s[i]));
        lemma_contains_with_index(s.drop_last(), s[i]);
    }
}

proof fn lemma_with_index_in(s: Seq<DeviceInfo>, k: u32)
    ensures
        forall|i: int|
            0 <= i < with_index(s, k).len() ==> (#[trigger] with_index(s, k)[i]).index == k,
    decreases s.len(),
{
    if s.len() > 0 {
        lemma_with_index_in(s.drop_last(), k);
        let w = with_index(s.drop_last(), k);
        assert forall|i: int| 0 <= i < with_index(s, k).len() implies (#[trigger] with_index(
            s,
            k,
        )[i]).index == k by {
            if i < w.len() {
                assert(with_index(s, k)[i] == w[i]);
            }
        }
    }
}

/// A nonempty run of index `k` in a sorted sequence puts `k` at most at the
/// last device's index.
proof fn lemma_index_at_most_last(s: Seq<DeviceInfo>, k: u32)
    requires
        sorted_by_index(s),
        with_index(s, k).len() > 0,
    ensures
        s.len() > 0,
        k <= s.last().index,
{
    let d = with_index(s, k)[0];
    lemma_with_index_in(s, k);
    assert(d.index == k);
    assert(with_index(s, k).contains(d));
    lemma_contains_with_index(s, d);
    let i = choose|i: int| 0 <= i < s.len() && s[i] == d;
    if i < s.len() - 1 {
        assert(s[i].index <= s[s.len() - 1].index);
    }
}

proof fn lemma_same_runs_equal(r1: Seq<DeviceInfo>, r2: Seq<DeviceInfo>)
    requires
        sorted_by_index(r1),
        sorted_by_index(r2),
        forall|k: u32| #[trigger] with_index(r1, k) == with_index(r2, k),
    ensures
        r1 == r2,
    decreases r1.len(),
{
    if r1.len() == 0 && r2.len() == 0 {
        assert(r1 =~= r2);
    } else if r1.len() == 0 {
        let k = r2.last().index;
        assert(with_index(r2, k).len() > 0);
        assert(with_index(r1, k) == with_index(r2, k));
    } else if r2.len() == 0 {
        let k = r1.last().index;
        assert(with_index(r1, k).len() > 0);
        assert(with_index(r1, k) == with_index(r2, k));
    } else {
        let k1 = r1.last().index;
        let k2 = r2.last().index;
        assert(with_index(r1, k1) == with_index(r2, k1));
        assert(with_index(r1, k2) == with_index(r2, k2));
        lemma_index_at_most_last(r2, k1);
        lemma_index_at_most_last(r1, k2);
        assert(k1 == k2);
        assert(with_index(r1, k1).last() == r1.last());
        assert(with_index(r2, k1).last() == r2.last());
        let d1 = r1.drop_last();
        let d2 = r2.drop_last();
        assert forall|k: u32| #[trigger] with_index(d1, k) == with_index(d2, k) by {
            assert(with_index(r1, k) == with_index(r2, k));
            if k == k1 {
                assert(with_index(d1, k) == with_index(r1, k).drop_last());
                assert(with_index(d2, k) == with_index(r2, k).drop_last());
            }
        }
        lemma_same_runs_equal(d1, d2);
        assert(r1 =~= d1.push(r1.last()));
        assert(r2 =~= d2.push(r2.last()));
    }
}

/// A sequence has exactly one stable sort by index: the sort's contract
/// determines its result.
pub proof fn lemma_stable_sort_unique(r1: Seq<DeviceInfo>, r2: Seq<DeviceInfo>, s: Seq<DeviceInfo>)
    requires
        stable_sorted(r1, s),
        stable_sorted(r2, s),
    ensures
        r1 == r2,
{
    assert forall|k: u32| #[trigger] with_index(r1, k) == with_index(r2, k) by {
        assert(with_index(r1, k) == with_index(s, k));
        assert(with_index(r2, k) == with_index(s, k));
    }
    lemma_same_runs_equal(r1, r2);
}

/// When no two devices share an index, the sorted list is strictly
/// ascending by index and holds exactly the devices given.
pub proof fn lemma_sorted_distinct(r: Seq<DeviceInfo>, s: Seq<DeviceInfo>)
    requires
        stable_sorted(r, s),
        forall|i: int, j: int| 0 <= i < j < s.len() ==> s[i].index != s[j].index,
    ensures
        forall|i: int, j: int| 0 <= i < j < r.len() ==> r[i].index < r[j].index,
        forall|d: DeviceInfo| r.contains(d) <==> s.contains(d),
{
    lemma_same_devices(r, s);
    assert forall|i: int, j: int| 0 <= i < j < r.len() implies r[i].index < r[j].index by {
        if r[i].index == r[j].index {
            lemma_tie_two(r, i, j);
            lemma_distinct_at_most_one(s, r[i].index);
            assert(with_index(r, r[i].index) == with_index(s, r[i].index));
        }
    }
}

proof fn lemma_outputs_only(s: Seq<DeviceInfo>)
    ensures
        forall|d: DeviceInfo| #[trigger] outputs(s).contains(d) ==> is_output(d) && s.contains(d),
        forall|d: DeviceInfo| #[trigger] s.contains(d) && is_output(d) ==> outputs(s).contains(d),
    decreases s.len(),
{
    if s.len() > 0 {
        lemma_outputs_only(s.drop_last());
        let o = outputs(s.drop_last());
        let l = s.last();
        assert(s =~= s.drop_last().push(l));
        if is_output(l) {
            assert(outputs(s) == o.push(l));
        } else {
            assert(outputs(s) == o);
        }
        assert forall|d: DeviceInfo| outputs(s).contains(d) implies is_output(d) && s.contains(
            d,
        ) by {
            let i = choose|i: int| 0 <= i < outputs(s).len() && outputs(s)[i] == d;
            if i < o.len() {
                assert(o[i] == d);
                assert(o.contains(d));
                let m = choose|m: int| 0 <= m < s.drop_last().len() && s.drop_last()[m] == d;
                assert(s[m] == d);
            } else {
                assert(is_output(l) && outputs(s) == o.push(l));
                assert(s[s.len() - 1] == d);
            }
        }
        assert forall|d: DeviceInfo| s.contains(d) && is_output(d) implies outputs(s).contains(
            d,
        ) by {
            let m = choose|m: int| 0 <= m < s.len() && s[m] == d;
            if m < s.len() - 1 {
                assert(s.drop_last()[m] == d);
                assert(s.drop_last().contains(d));
                let i = choose|i: int| 0 <= i < o.len() && o[i] == d;
                if is_output(l) {
                    assert(outputs(s)[i] == d);
                } else {
                    assert(outputs(s)[i] == d);
                }
            } else {
                assert(outputs(s) == o.push(l));
                assert(outputs(s)[o.len() as int] == d);
            }
        }
    }
}

/// A listed device leaves the priority list exactly when it is not an
/// output device, whatever its index or description.
pub proof fn lemma_only_outputs_listed(events: Seq<ListEvent>, r: Seq<DeviceInfo>)
    requires
        stable_sorted(r, outputs(listed(events))),
    ensures
        forall|i: int| 0 <= i < r.len() ==> is_output(#[trigger] r[i]),
        forall|d: DeviceInfo| #[trigger] listed(events).contains(d) ==> (r.contains(d) <==> is_output(d)),
{
    lemma_same_devices(r, outputs(listed(events)));
    lemma_outputs_only(listed(events));
    assert forall|i: int| 0 <= i < r.len() implies is_output(#[trigger] r[i]) by {
        assert(r.contains(r[i]));
    }
}

/// After the server has taken a new ordering, the next read lists each
/// output device ahead of every output device that the server ranked lower,
/// so the listing follows the priorities the server now reports.
pub proof fn lemma_listing_follows_priorities(events: Seq<ListEvent>, r: Seq<DeviceInfo>)
    requires
        stable_sorted(r, outputs(listed(events))),
    ensures
        forall|i: int, j: int|
            0 <= i < r.len() && 0 <= j < r.len() && r[i].index < r[j].index ==> i < j,
        forall|a: DeviceInfo, b: DeviceInfo|
            #![trigger listed(events).contains(a), listed(events).contains(b)]
            listed(events).contains(a) && listed(events).contains(b) && is_output(a) && is_output(b)
                && a.index < b.index ==> exists|i: int, j: int|
                0 <= i < j < r.len() && r[i] == a && r[j] == b,
{
    lemma_only_outputs_listed(events, r);
    assert forall|a: DeviceInfo, b: DeviceInfo|
        listed(events).contains(a) && listed(events).contains(b) && is_output(a) && is_output(b)
            && a.index < b.index implies exists|i: int, j: int|
        0 <= i < j < r.len() && r[i] == a && r[j] == b by {
        assert(r.contains(a) && r.contains(b));
        let i = choose|i: int| 0 <= i < r.len() && r[i] == a;
        let j = choose|j: int| 0 <= j < r.len() && r[j] == b;
        assert(i < j);
    }
}

} // verus!
