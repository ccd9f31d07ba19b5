//! Facts about the queue of waiting stations: the order that decides which of
//! them get a functional unit first, and how a list sorted by that order
//! counts the stations ahead of each of its members.
use vstd::prelude::*;
use vstd::set_lib::{lemma_int_range, lemma_len_subset, set_int_range};
use crate::semantics::{ahead_of, queue_ahead, waiting, waiting_in, PlatformView, RES_COUNT};

verus! {

/// `ahead_of` is a strict total order on stations.
pub proof fn lemma_ahead_of_order(s: PlatformView)
    ensures
        forall|a: int| !#[trigger] ahead_of(s, a, a),
        forall|a: int, b: int| #[trigger] ahead_of(s, a, b) ==> !ahead_of(s, b, a),
        forall|a: int, b: int| a != b ==> #[trigger] ahead_of(s, a, b) || ahead_of(s, b, a),
        forall|a: int, b: int, c: int|
            #[trigger] ahead_of(s, a, b) && #[trigger] ahead_of(s, b, c) ==> ahead_of(s, a, c),
{
}

/// `l` lists stations strictly in queue order.
pub open spec fn sorted_by_queue(s: PlatformView, l: Seq<usize>) -> bool {
    forall|a: int, b: int| 0 <= a < b < l.len() ==> #[trigger] ahead_of(s, l[a] as int, l[b] as int)
}

/// `l` lists exactly the waiting stations.
pub open spec fn lists_waiting(s: PlatformView, l: Seq<usize>) -> bool {
    &&& forall|a: int| 0 <= a < l.len() ==> #[trigger] waiting(s, l[a] as int)
    &&& forall|j: int| #[trigger] waiting(s, j) ==> l.contains(j as usize)
}

/// The stations of group `g` among the first `m` of `l`.
pub open spec fn prefix_in_group(s: PlatformView, l: Seq<usize>, m: int, g: int) -> Set<int> {
    Set::new(
        |j: int| 0 <= j < RES_COUNT && l.take(m).contains(j as usize) && s.stations[j].belong == g,
    )
}

/// A set of station numbers is finite and has at most `RES_COUNT` members.
pub proof fn lemma_station_set_finite(x: Set<int>)
    requires
        forall|j: int| #[trigger] x.contains(j) ==> 0 <= j < RES_COUNT,
    ensures
        x.finite(),
        x.len() <= RES_COUNT,
{
    lemma_int_range(0, RES_COUNT as int);
    assert(x.subset_of(set_int_range(0, RES_COUNT as int)));
    lemma_len_subset(x, set_int_range(0, RES_COUNT as int));
}

/// In a sorted list of the waiting stations, the stations ahead of the
/// `m`-th member in its group are exactly its group's members listed before it.
pub proof fn lemma_queue_ahead_is_prefix(s: PlatformView, l: Seq<usize>, m: int)
    requires
        sorted_by_queue(s, l),
        lists_waiting(s, l),
        0 <= m < l.len(),
    ensures
        queue_ahead(s, l[m] as int) == prefix_in_group(s, l, m, s.stations[l[m] as int].belong as int),
{
    lemma_ahead_of_order(s);
    let x = l[m] as int;
    let g = s.stations[x].belong as int;
    assert(waiting(s, x));
    assert forall|j: int| #[trigger] queue_ahead(s, x).contains(j) implies prefix_in_group(s, l, m, g).contains(j) by {
        assert(l.contains(j as usize));
        let q = choose|q: int| 0 <= q < l.len() && l[q] == j as usize;
        if q >= m {
            if q > m {
                assert(ahead_of(s, l[m] as int, l[q] as int));
            }
            assert(false);
        }
        assert(l.take(m)[q] == j as usize);
    }
    assert forall|j: int| #[trigger] prefix_in_group(s, l, m, g).contains(j) implies queue_ahead(s, x).contains(j) by {
        let q = choose|q: int| 0 <= q < m && l.take(m)[q] == j as usize;
        assert(l[q] == j as usize);
        assert(ahead_of(s, l[q] as int, l[m] as int));
        assert(waiting(s, l[q] as int));
    }
    assert(queue_ahead(s, x) =~= prefix_in_group(s, l, m, g));
}

/// Moving one place along a sorted list of waiting stations adds the station
/// passed over to its group's prefix, where it was not yet.
pub proof fn lemma_prefix_step(s: PlatformView, l: Seq<usize>, m: int, g: int)
    requires
        sorted_by_queue(s, l),
        lists_waiting(s, l),
        0 <= m < l.len(),
    ensures
        prefix_in_group(s, l, m, g).finite(),
        prefix_in_group(s, l, m + 1, g).finite(),
        s.stations[l[m] as int].belong == g ==> prefix_in_group(s, l, m + 1, g).len() == prefix_in_group(s, l, m, g).len() + 1,
        s.stations[l[m] as int].belong != g ==> prefix_in_group(s, l, m + 1, g).len() == prefix_in_group(s, l, m, g).len(),
{
    lemma_ahead_of_order(s);
    let x = l[m] as int;
    let a = prefix_in_group(s, l, m, g);
    let b = prefix_in_group(s, l, m + 1, g);
    lemma_station_set_finite(a);
    lemma_station_set_finite(b);
    assert(waiting(s, x));
    let t0 = l.take(m);
    let t1 = l.take(m + 1);
    assert(t1 =~= t0.push(l[m]));
    assert(!a.contains(x)) by {
        if a.contains(x) {
            let q = choose|q: int| 0 <= q < m && l.take(m)[q] == x as usize;
            assert(l[q] == l[m]);
            assert(ahead_of(s, l[q] as int, l[m] as int));
        }
    }
    if s.stations[x].belong == g {
        assert forall|j: int| #[trigger] b.contains(j) implies a.insert(x).contains(j) by {
            let q = choose|q: int| 0 <= q < m + 1 && t1[q] == j as usize;
            if q < m {
                assert(l.take(m)[q] == j as usize);
            }
        }
        assert forall|j: int| #[trigger] a.insert(x).contains(j) implies b.contains(j) by {
            if j == x {
                assert(l.take(m + 1)[m] == x as usize);
            } else {
                let q = choose|q: int| 0 <= q < m && l.take(m)[q] == j as usize;
                assert(l.take(m + 1)[q] == j as usize);
            }
        }
        assert(b =~= a.insert(x));
    } else {
        assert forall|j: int| #[trigger] b.contains(j) implies a.contains(j) by {
            let q = choose|q: int| 0 <= q < m + 1 && t1[q] == j as usize;
            if q < m {
                assert(l.take(m)[q] == j as usize);
            }
        }
        assert forall|j: int| #[trigger] a.contains(j) implies b.contains(j) by {
            let q = choose|q: int| 0 <= q < m && l.take(m)[q] == j as usize;
            assert(l.take(m + 1)[q] == j as usize);
        }
        assert(b =~= a);
    }
}

/// Over the whole list, a group's prefix is its set of waiting stations.
pub proof fn lemma_prefix_whole(s: PlatformView, l: Seq<usize>, g: int)
    requires
        lists_waiting(s, l),
    ensures
        prefix_in_group(s, l, l.len() as int, g) == waiting_in(s, g),
        waiting_in(s, g).finite(),
{
    assert(l.take(l.len() as int) =~= l);
    assert forall|j: int| #[trigger] waiting_in(s, g).contains(j) implies prefix_in_group(s, l, l.len() as int, g).contains(j) by {
        assert(waiting(s, j));
    }
    assert forall|j: int| #[trigger] prefix_in_group(s, l, l.len() as int, g).contains(j) implies waiting_in(s, g).contains(j) by {
        let q = choose|q: int| 0 <= q < l.len() && l[q] == j as usize;
        assert(waiting(s, l[q] as int));
    }
    assert(prefix_in_group(s, l, l.len() as int, g) =~= waiting_in(s, g));
    lemma_station_set_finite(waiting_in(s, g));
}

} // verus!
