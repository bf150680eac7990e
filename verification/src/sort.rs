//! Stable ascending sort of ranking entries by result value.
//!
//! The contract pins the result down completely: it is sorted, and for every
//! result value the entries holding that value keep their original order
//! (so ties are broken by source order, with no invented secondary key).

use vstd::prelude::*;

verus! {

/// A value ordered by a result time.
pub trait TimeKeyed: Sized {
    /// The result value the entry is ordered by.
    spec fn time_key(self) -> u32;

    /// Reads the result value.
    fn read_time_key(&self) -> (r: u32)
        ensures
            r == self.time_key(),
    ;
}

/// Ascending by time, duplicates allowed.
pub open spec fn sorted_by_time<T: TimeKeyed>(s: Seq<T>) -> bool {
    forall|i: int, j: int| 0 <= i <= j < s.len() ==> s[i].time_key() <= s[j].time_key()
}

/// The subsequence of entries holding the result value `t`, in order.
pub open spec fn time_filter<T: TimeKeyed>(s: Seq<T>, t: u32) -> Seq<T> {
    s.filter(|x: T| x.time_key() == t)
}

/// Filtering a one-element sequence keeps or drops that element.
pub proof fn lemma_filter_singleton<A>(x: A, pred: spec_fn(A) -> bool)
    ensures
        seq![x].filter(pred) == if pred(x) {
            seq![x]
        } else {
            Seq::<A>::empty()
        },
{
    reveal_with_fuel(Seq::filter, 2);
    assert(seq![x].drop_last() =~= Seq::<A>::empty());
    if pred(x) {
        assert(seq![x].filter(pred) =~= seq![x]);
    } else {
        assert(seq![x].filter(pred) =~= Seq::<A>::empty());
    }
}

/// Filtering keeps nothing when no element satisfies the predicate.
pub proof fn lemma_filter_all_false<A>(s: Seq<A>, pred: spec_fn(A) -> bool)
    requires
        forall|i: int| 0 <= i < s.len() ==> !pred(s[i]),
    ensures
        s.filter(pred) == Seq::<A>::empty(),
    decreases s.len(),
{
    reveal(Seq::filter);
    if s.len() > 0 {
        lemma_filter_all_false(s.drop_last(), pred);
    }
}

/// Filtering keeps everything when every element satisfies the predicate.
pub proof fn lemma_filter_all_true<A>(s: Seq<A>, pred: spec_fn(A) -> bool)
    requires
        forall|i: int| 0 <= i < s.len() ==> pred(s[i]),
    ensures
        s.filter(pred) == s,
    decreases s.len(),
{
    reveal(Seq::filter);
    if s.len() > 0 {
        lemma_filter_all_true(s.drop_last(), pred);
        assert(s.filter(pred) =~= s);
    } else {
        assert(s.filter(pred) =~= s);
    }
}

/// Sorts by time, ascending and stable. For every result value, the entries
/// holding it come out exactly as they went in.
pub fn sort_by_time<T: TimeKeyed>(v: Vec<T>) -> (r: Vec<T>)
    ensures
        sorted_by_time(r@),
        forall|t: u32| #[trigger] time_filter(r@, t) == time_filter(v@, t),
        r@.len() == v@.len(),
{
    let mut rest = v;
    let ghost orig = rest@;
    let mut out: Vec<T> = Vec::new();
    proof {
        assert forall|t: u32| #[trigger] time_filter(out@, t) + time_filter(rest@, t)
            == time_filter(orig, t) by {
            assert(time_filter(out@, t) + time_filter(rest@, t) =~= time_filter(orig, t));
        }
    }
    while rest.len() > 0
        invariant
            sorted_by_time(out@),
            forall|t: u32| #[trigger] time_filter(out@, t) + time_filter(rest@, t) == time_filter(
                orig,
                t,
            ),
            out@.len() + rest@.len() == orig.len(),
        decreases rest@.len(),
    {
        let ghost rest0 = rest@;
        let ghost out0 = out@;
        let x = rest.remove(0);
        let xk = x.read_time_key();
        proof {
            assert(rest0 =~= seq![x] + rest@);
            assert forall|t: u32| time_filter(rest0, t) == (if x.time_key() == t {
                seq![x]
            } else {
                Seq::<T>::empty()
            }) + time_filter(rest@, t) by {
                let pred = |y: T| y.time_key() == t;
                Seq::<T>::filter_distributes_over_add(seq![x], rest@, pred);
                lemma_filter_singleton(x, pred);
            }
        }
        let mut pos: usize = out.len();
        while pos > 0 && out[pos - 1].read_time_key() > xk
            invariant
                pos <= out@.len(),
                forall|j: int| pos <= j < out@.len() ==> out@[j].time_key() > xk,
                xk == x.time_key(),
                sorted_by_time(out@),
            decreases pos,
        {
            pos = pos - 1;
        }
        proof {
            assert(forall|j: int| 0 <= j < pos ==> out@[j].time_key() <= xk);
        }
        out.insert(pos, x);
        proof {
            let p = pos as int;
            assert(out@ =~= out0.take(p) + seq![x] + out0.skip(p));
            assert forall|i: int, j: int| 0 <= i <= j < out@.len() implies out@[i].time_key()
                <= out@[j].time_key() by {
                assert(out0.take(p) + seq![x] + out0.skip(p) == out@);
            }
            assert forall|t: u32| #[trigger] time_filter(out@, t) + time_filter(rest@, t)
                == time_filter(orig, t) by {
                let pred = |y: T| y.time_key() == t;
                Seq::<T>::filter_distributes_over_add(out0.take(p) + seq![x], out0.skip(p), pred);
                Seq::<T>::filter_distributes_over_add(out0.take(p), seq![x], pred);
                Seq::<T>::filter_distributes_over_add(out0.take(p), out0.skip(p), pred);
                lemma_filter_singleton(x, pred);
                assert(out0.take(p) + out0.skip(p) =~= out0);
                if x.time_key() == t {
                    lemma_filter_all_false(out0.skip(p), pred);
                    assert(time_filter(out@, t) =~= time_filter(out0, t) + seq![x]);
                    assert(time_filter(out@, t) + time_filter(rest@, t) =~= time_filter(out0, t)
                        + time_filter(rest0, t));
                } else {
                    assert(time_filter(out@, t) =~= time_filter(out0, t));
                    assert(time_filter(out@, t) + time_filter(rest@, t) =~= time_filter(out0, t)
                        + time_filter(rest0, t));
                }
            }
        }
    }
    proof {
        assert forall|t: u32| #[trigger] time_filter(out@, t) == time_filter(orig, t) by {
            lemma_filter_all_false(rest@, |y: T| y.time_key() == t);
            assert(time_filter(out@, t) =~= time_filter(out@, t) + time_filter(rest@, t));
        }
    }
    out
}

} // verus!
