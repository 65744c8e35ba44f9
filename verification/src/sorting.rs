//! Stable sorting by string keys.

use vstd::prelude::*;

use crate::order;
use crate::order::str_less;

verus! {

/// Values that are sorted by a string.
pub trait Keyed: DeepView + Sized {
    /// The key of a model.
    spec fn key(m: Self::V) -> Seq<char>;

    /// The key of a value.
    fn key_str(&self) -> (r: &str)
        ensures
            r@ == Self::key(self.deep_view()),
    ;
}

impl Keyed for String {
    open spec fn key(m: Seq<char>) -> Seq<char> {
        m
    }

    fn key_str(&self) -> (r: &str) {
        self.as_str()
    }
}

/// A sorted sequence with one more element, behind all whose key is not greater.
pub open spec fn inserted<T: Keyed>(s: Seq<T::V>, x: T::V) -> Seq<T::V>
    decreases s.len(),
{
    if s.len() > 0 && order::text_less(T::key(x), T::key(s.last())) {
        inserted::<T>(s.drop_last(), x).push(s.last())
    } else {
        s.push(x)
    }
}

/// A sequence in ascending order of the keys; elements with the same key keep their order.
pub open spec fn sorted<T: Keyed>(s: Seq<T::V>) -> Seq<T::V>
    decreases s.len(),
{
    if s.len() == 0 {
        seq![]
    } else {
        inserted::<T>(sorted::<T>(s.drop_last()), s.last())
    }
}

/// The keys never descend.
pub open spec fn keys_ascend<T: Keyed>(s: Seq<T::V>) -> bool {
    forall|i: int, j: int|
        0 <= i <= j < s.len() ==> order::text_le(
            T::key(#[trigger] s[i]),
            T::key(#[trigger] s[j]),
        )
}

proof fn lemma_inserted_at<T: Keyed>(s: Seq<T::V>, x: T::V, k: int)
    requires
        0 <= k <= s.len(),
        forall|j: int| k <= j < s.len() ==> order::text_less(T::key(x), T::key(#[trigger] s[j])),
        k > 0 ==> !order::text_less(T::key(x), T::key(s[k - 1])),
    ensures
        inserted::<T>(s, x) == s.insert(k, x),
    decreases s.len(),
{
    if k < s.len() {
        let front = s.drop_last();
        assert(s.last() == s[s.len() - 1]);
        assert forall|j: int| k <= j < front.len() implies order::text_less(
            T::key(x),
            T::key(#[trigger] front[j]),
        ) by {
            assert(front[j] == s[j]);
        }
        lemma_inserted_at::<T>(front, x, k);
        assert(front.insert(k, x).push(s.last()) =~= s.insert(k, x));
    } else {
        if s.len() > 0 {
            assert(s.last() == s[k - 1]);
        }
        assert(s.push(x) =~= s.insert(k, x));
    }
}

/// Sorts by key; elements with the same key keep their order.
pub fn sort_by_key<T: Keyed>(items: Vec<T>) -> (r: Vec<T>)
    ensures
        r.deep_view() == sorted::<T>(items.deep_view()),
{
    let ghost all = items.deep_view();
    let ghost n = items@.len();
    let mut left = items;
    let mut taken: Vec<T> = Vec::new();
    // Reversed, so that each element can be moved out from the end.
    while left.len() > 0
        invariant
            all.len() == n,
            left@.len() + taken@.len() == n,
            left.deep_view() == all.take(left@.len() as int),
            forall|k: int|
                0 <= k < taken@.len() ==> (#[trigger] taken@[k]).deep_view() == all[n - 1 - k],
        decreases left@.len(),
    {
        let ghost before = left@;
        if let Some(item) = left.pop() {
            proof {
                assert(before.last() == item);
                assert(all.take(before.len() as int)[before.len() - 1] == item.deep_view());
                assert(left.deep_view() =~= all.take(left@.len() as int)) by {
                    assert forall|k: int| 0 <= k < left@.len() implies left@[k].deep_view()
                        == all[k] by {
                        assert(all.take(before.len() as int)[k] == before[k].deep_view());
                    }
                }
            }
            taken.push(item);
        }
    }
    let mut out: Vec<T> = Vec::new();
    proof {
        assert(out.deep_view() =~= Seq::<T::V>::empty());
        assert(all.take(0) =~= Seq::<T::V>::empty());
    }
    while taken.len() > 0
        invariant
            all.len() == n,
            taken@.len() + out@.len() == n,
            forall|k: int|
                0 <= k < taken@.len() ==> (#[trigger] taken@[k]).deep_view() == all[n - 1 - k],
            out.deep_view() == sorted::<T>(all.take(out@.len() as int)),
        decreases taken@.len(),
    {
        let ghost done = out@.len() as int;
        let ghost before = taken@;
        if let Some(item) = taken.pop() {
            let ghost model = out.deep_view();
            proof {
                assert(before.last() == item);
                assert(item.deep_view() == all[done]);
                assert(all.take(done + 1).drop_last() =~= all.take(done));
                assert(all.take(done + 1).last() == all[done]);
            }
            let mut k: usize = out.len();
            while k > 0 && str_less(item.key_str(), out[k - 1].key_str())
                invariant
                    k <= out@.len(),
                    model == out.deep_view(),
                    forall|j: int|
                        k <= j < model.len() ==> order::text_less(
                            T::key(item.deep_view()),
                            T::key(#[trigger] model[j]),
                        ),
                decreases k,
            {
                k -= 1;
            }
            proof {
                lemma_inserted_at::<T>(model, item.deep_view(), k as int);
            }
            out.insert(k, item);
            proof {
                assert(out.deep_view() =~= model.insert(k as int, item.deep_view()));
            }
        }
    }
    proof {
        assert(all.take(n as int) =~= all);
    }
    out
}

proof fn lemma_inserted<T: Keyed>(s: Seq<T::V>, x: T::V)
    ensures
        inserted::<T>(s, x).to_multiset() == s.to_multiset().insert(x),
        inserted::<T>(s, x).len() == s.len() + 1,
        keys_ascend::<T>(s) ==> keys_ascend::<T>(inserted::<T>(s, x)),
        forall|j: int|
            0 <= j < inserted::<T>(s, x).len() ==> #[trigger] inserted::<T>(s, x)[j] == x
                || s.contains(inserted::<T>(s, x)[j]),
    decreases s.len(),
{
    broadcast use vstd::seq_lib::group_to_multiset_ensures;

    let t = inserted::<T>(s, x);
    if s.len() > 0 && order::text_less(T::key(x), T::key(s.last())) {
        let front = s.drop_last();
        let u = inserted::<T>(front, x);
        lemma_inserted::<T>(front, x);
        assert(front.push(s.last()) =~= s);
        assert(t.to_multiset() =~= s.to_multiset().insert(x));
        assert forall|j: int| 0 <= j < t.len() implies #[trigger] t[j] == x || s.contains(t[j]) by {
            if j < u.len() {
                assert(t[j] == u[j]);
                if u[j] != x {
                    assert(front.contains(u[j]));
                    let i = choose|i: int| 0 <= i < front.len() && front[i] == u[j];
                    assert(s[i] == u[j]);
                }
            } else {
                assert(t[j] == s[s.len() - 1]);
            }
        }
        if keys_ascend::<T>(s) {
            assert forall|i: int, j: int| 0 <= i <= j < front.len() implies order::text_le(
                T::key(#[trigger] front[i]),
                T::key(#[trigger] front[j]),
            ) by {
                assert(front[i] == s[i] && front[j] == s[j]);
            }
            assert forall|i: int, j: int| 0 <= i <= j < t.len() implies order::text_le(
                T::key(#[trigger] t[i]),
                T::key(#[trigger] t[j]),
            ) by {
                if j < u.len() {
                    assert(t[i] == u[i] && t[j] == u[j]);
                } else if i < u.len() {
                    assert(t[i] == u[i]);
                    if u[i] != x {
                        let k = choose|k: int| 0 <= k < front.len() && front[k] == u[i];
                        assert(s[k] == u[i]);
                        assert(s[s.len() - 1] == t[j]);
                    }
                }
            }
        }
    } else {
        assert forall|j: int| 0 <= j < t.len() implies #[trigger] t[j] == x || s.contains(t[j]) by {
            if j < s.len() {
                assert(t[j] == s[j]);
            }
        }
        if keys_ascend::<T>(s) {
            assert forall|i: int, j: int| 0 <= i <= j < t.len() implies order::text_le(
                T::key(#[trigger] t[i]),
                T::key(#[trigger] t[j]),
            ) by {
                if j < s.len() {
                    assert(t[i] == s[i] && t[j] == s[j]);
                } else if i < s.len() {
                    let last = s[s.len() - 1];
                    assert(t[i] == s[i]);
                    order::lemma_text_less_total(T::key(last), T::key(x));
                    assert(order::text_le(T::key(s[i]), T::key(last)));
                    if T::key(s[i]) != T::key(last) && T::key(last) != T::key(x) {
                        order::lemma_text_less_trans(T::key(s[i]), T::key(last), T::key(x));
                    }
                }
            }
        }
    }
}

/// Sorting keeps every element as often as it occurs, and puts the keys in ascending order.
pub proof fn sorting_sorts<T: Keyed>(s: Seq<T::V>)
    ensures
        sorted::<T>(s).to_multiset() == s.to_multiset(),
        sorted::<T>(s).len() == s.len(),
        keys_ascend::<T>(sorted::<T>(s)),
    decreases s.len(),
{
    broadcast use vstd::seq_lib::group_to_multiset_ensures;

    if s.len() > 0 {
        sorting_sorts::<T>(s.drop_last());
        lemma_inserted::<T>(sorted::<T>(s.drop_last()), s.last());
        assert(s.drop_last().push(s.last()) =~= s);
    } else {
        assert(s =~= Seq::<T::V>::empty());
    }
}

} // verus!
