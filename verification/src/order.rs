//! The order of strings by their UTF-8 bytes, and strictly ascending sequences of strings.

use vstd::prelude::*;
use vstd::utf8::*;

verus! {

/// Lexicographic order of byte sequences.
pub open spec fn bytes_less(a: Seq<u8>, b: Seq<u8>) -> bool
    decreases a.len(),
{
    if b.len() == 0 {
        false
    } else if a.len() == 0 {
        true
    } else if a[0] != b[0] {
        a[0] < b[0]
    } else {
        bytes_less(a.drop_first(), b.drop_first())
    }
}

/// The order of strings: lexicographic in their UTF-8 bytes.
pub open spec fn text_less(a: Seq<char>, b: Seq<char>) -> bool {
    bytes_less(encode_utf8(a), encode_utf8(b))
}

/// `a` comes before `b`, or is `b`.
pub open spec fn text_le(a: Seq<char>, b: Seq<char>) -> bool {
    a == b || text_less(a, b)
}

proof fn lemma_bytes_less_trans(a: Seq<u8>, b: Seq<u8>, c: Seq<u8>)
    requires
        bytes_less(a, b),
        bytes_less(b, c),
    ensures
        bytes_less(a, c),
    decreases a.len(),
{
    if a.len() > 0 && b.len() > 0 && c.len() > 0 && a[0] == b[0] && b[0] == c[0] {
        lemma_bytes_less_trans(a.drop_first(), b.drop_first(), c.drop_first());
    }
}

proof fn lemma_bytes_less_irreflexive(a: Seq<u8>)
    ensures
        !bytes_less(a, a),
    decreases a.len(),
{
    if a.len() > 0 {
        lemma_bytes_less_irreflexive(a.drop_first());
    }
}

proof fn lemma_bytes_less_total(a: Seq<u8>, b: Seq<u8>)
    ensures
        bytes_less(a, b) || a == b || bytes_less(b, a),
    decreases a.len(),
{
    if a.len() > 0 && b.len() > 0 && a[0] == b[0] {
        lemma_bytes_less_total(a.drop_first(), b.drop_first());
        if a.drop_first() == b.drop_first() {
            assert(a =~= seq![a[0]] + a.drop_first());
            assert(b =~= seq![b[0]] + b.drop_first());
        }
    } else if a.len() == 0 && b.len() == 0 {
        assert(a =~= b);
    }
}

/// A common prefix does not decide the order.
proof fn lemma_bytes_less_skip(a: Seq<u8>, b: Seq<u8>, n: int)
    requires
        0 <= n <= a.len(),
        n <= b.len(),
        forall|k: int| 0 <= k < n ==> a[k] == b[k],
    ensures
        bytes_less(a, b) == bytes_less(a.skip(n), b.skip(n)),
    decreases n,
{
    if n == 0 {
        assert(a.skip(0) =~= a);
        assert(b.skip(0) =~= b);
    } else {
        assert(a[0] == b[0]);
        assert forall|k: int| 0 <= k < n - 1 implies a.drop_first()[k] == b.drop_first()[k] by {
            assert(a[k + 1] == b[k + 1]);
        }
        lemma_bytes_less_skip(a.drop_first(), b.drop_first(), n - 1);
        assert(a.drop_first().skip(n - 1) =~= a.skip(n));
        assert(b.drop_first().skip(n - 1) =~= b.skip(n));
    }
}

/// The order of strings is transitive.
pub proof fn lemma_text_less_trans(a: Seq<char>, b: Seq<char>, c: Seq<char>)
    requires
        text_less(a, b),
        text_less(b, c),
    ensures
        text_less(a, c),
{
    lemma_bytes_less_trans(encode_utf8(a), encode_utf8(b), encode_utf8(c));
}

/// No string comes before itself.
pub proof fn lemma_text_less_irreflexive(a: Seq<char>)
    ensures
        !text_less(a, a),
{
    lemma_bytes_less_irreflexive(encode_utf8(a));
}

/// Of two different strings one comes before the other.
pub proof fn lemma_text_less_total(a: Seq<char>, b: Seq<char>)
    ensures
        text_less(a, b) || a == b || text_less(b, a),
{
    lemma_bytes_less_total(encode_utf8(a), encode_utf8(b));
    encode_utf8_decode_utf8(a);
    encode_utf8_decode_utf8(b);
}

/// Whether `a` comes before `b`.
pub fn str_less(a: &str, b: &str) -> (r: bool)
    ensures
        r == text_less(a@, b@),
{
    let x = a.as_bytes();
    let y = b.as_bytes();
    let mut i: usize = 0;
    while i < x.len() && i < y.len()
        invariant
            x@ == encode_utf8(a@),
            y@ == encode_utf8(b@),
            i <= x@.len(),
            i <= y@.len(),
            forall|k: int| 0 <= k < i ==> x@[k] == y@[k],
        decreases x@.len() - i,
    {
        if x[i] != y[i] {
            proof {
                lemma_bytes_less_skip(x@, y@, i as int);
            }
            return x[i] < y[i];
        }
        i += 1;
    }
    proof {
        lemma_bytes_less_skip(x@, y@, i as int);
    }
    i < y.len()
}

/// Every element comes before all later ones.
pub open spec fn ascending(s: Seq<Seq<char>>) -> bool {
    forall|i: int, j: int| 0 <= i < j < s.len() ==> text_less(#[trigger] s[i], #[trigger] s[j])
}

/// `s` lists the members of `set` in ascending order.
pub open spec fn lists_in_order(s: Seq<Seq<char>>, set: Set<Seq<char>>) -> bool {
    &&& ascending(s)
    &&& forall|k: Seq<char>| #[trigger] set.contains(k) <==> s.contains(k)
}

/// The members of a finite set of strings in ascending order.
pub open spec fn in_order(set: Set<Seq<char>>) -> Seq<Seq<char>> {
    choose|s: Seq<Seq<char>>| lists_in_order(s, set)
}

/// There is only one way to list a set in ascending order.
pub proof fn lemma_in_order_unique(a: Seq<Seq<char>>, b: Seq<Seq<char>>, set: Set<Seq<char>>)
    requires
        lists_in_order(a, set),
        lists_in_order(b, set),
    ensures
        a == b,
    decreases a.len(),
{
    if a.len() == 0 {
        if b.len() > 0 {
            assert(b.contains(b[0]));
            assert(set.contains(b[0]));
            assert(a.contains(b[0]));
        }
        assert(a =~= b);
    } else {
        assert(a.contains(a[0]));
        assert(set.contains(a[0]));
        assert(b.contains(a[0]));
        assert(b.contains(b[0]));
        assert(set.contains(b[0]));
        assert(a.contains(b[0]));
        let i = choose|i: int| 0 <= i < a.len() && a[i] == b[0];
        let j = choose|j: int| 0 <= j < b.len() && b[j] == a[0];
        if i > 0 && j > 0 {
            assert(text_less(a[0], a[i]));
            assert(text_less(b[0], b[j]));
            lemma_text_less_trans(a[0], b[0], a[0]);
            lemma_text_less_irreflexive(a[0]);
        }
        assert(a[0] == b[0]);
        let rest = set.remove(a[0]);
        lemma_lists_rest(a, set);
        lemma_lists_rest(b, set);
        lemma_in_order_unique(a.drop_first(), b.drop_first(), rest);
        assert(a =~= seq![a[0]] + a.drop_first());
        assert(b =~= seq![b[0]] + b.drop_first());
    }
}

proof fn lemma_lists_rest(a: Seq<Seq<char>>, set: Set<Seq<char>>)
    requires
        a.len() > 0,
        lists_in_order(a, set),
    ensures
        lists_in_order(a.drop_first(), set.remove(a[0])),
{
    let rest = a.drop_first();
    assert forall|i: int, j: int| 0 <= i < j < rest.len() implies text_less(
        #[trigger] rest[i],
        #[trigger] rest[j],
    ) by {
        assert(rest[i] == a[i + 1]);
        assert(rest[j] == a[j + 1]);
    }
    assert forall|k: Seq<char>| #[trigger] set.remove(a[0]).contains(k) <==> rest.contains(k) by {
        if set.remove(a[0]).contains(k) {
            assert(a.contains(k));
            let i = choose|i: int| 0 <= i < a.len() && a[i] == k;
            assert(rest[i - 1] == k);
        }
        if rest.contains(k) {
            let i = choose|i: int| 0 <= i < rest.len() && rest[i] == k;
            assert(a[i + 1] == k);
            assert(a.contains(k));
            assert(set.contains(k));
            assert(text_less(a[0], a[i + 1]));
            lemma_text_less_irreflexive(a[0]);
        }
    }
}

/// A list in ascending order is the list that [`in_order`] chooses.
pub proof fn lemma_in_order(s: Seq<Seq<char>>, set: Set<Seq<char>>)
    requires
        lists_in_order(s, set),
    ensures
        in_order(set) == s,
{
    lemma_in_order_unique(in_order(set), s, set);
}

/// Where the members of a set are listed in ascending order, so are those of the set with one more.
pub proof fn lemma_insert_in_order(set: Set<Seq<char>>, k: Seq<char>)
    requires
        lists_in_order(in_order(set), set),
    ensures
        lists_in_order(in_order(set.insert(k)), set.insert(k)),
{
    let s = in_order(set);
    if set.contains(k) {
        assert(set.insert(k) =~= set);
    } else {
        let at = lemma_place(s, k);
        let t = s.insert(at, k);
        lemma_placed(s, k, at);
        assert forall|m: Seq<char>| #[trigger] set.insert(k).contains(m) <==> t.contains(m) by {
            if s.contains(m) {
                let i = choose|i: int| 0 <= i < s.len() && s[i] == m;
                assert(t[if i < at {
                    i
                } else {
                    i + 1
                }] == m);
            }
            assert(t[at] == k);
            if t.contains(m) && m != k {
                let i = choose|i: int| 0 <= i < t.len() && t[i] == m;
                assert(s[if i < at {
                    i
                } else {
                    i - 1
                }] == m);
            }
        }
        assert(lists_in_order(t, set.insert(k)));
    }
}

/// The place of a new member in an ascending list.
proof fn lemma_place(s: Seq<Seq<char>>, k: Seq<char>) -> (at: int)
    requires
        ascending(s),
        !s.contains(k),
    ensures
        0 <= at <= s.len(),
        forall|i: int| 0 <= i < at ==> text_less(#[trigger] s[i], k),
        forall|i: int| at <= i < s.len() ==> text_less(k, #[trigger] s[i]),
    decreases s.len(),
{
    if s.len() == 0 {
        0
    } else {
        let last = s.last();
        assert(s[s.len() - 1] == last);
        lemma_text_less_total(last, k);
        if text_less(last, k) {
            assert forall|i: int| 0 <= i < s.len() implies text_less(#[trigger] s[i], k) by {
                if i < s.len() - 1 {
                    assert(text_less(s[i], s[s.len() - 1]));
                    lemma_text_less_trans(s[i], last, k);
                }
            }
            s.len() as int
        } else {
            let front = s.drop_last();
            assert forall|i: int, j: int| 0 <= i < j < front.len() implies text_less(
                #[trigger] front[i],
                #[trigger] front[j],
            ) by {
                assert(text_less(s[i], s[j]));
            }
            assert(!front.contains(k)) by {
                if front.contains(k) {
                    let i = choose|i: int| 0 <= i < front.len() && front[i] == k;
                    assert(s[i] == k);
                }
            }
            let at = lemma_place(front, k);
            assert forall|i: int| 0 <= i < at implies text_less(#[trigger] s[i], k) by {
                assert(front[i] == s[i]);
            }
            assert forall|i: int| at <= i < s.len() implies text_less(k, #[trigger] s[i]) by {
                if i < front.len() {
                    assert(front[i] == s[i]);
                }
            }
            at
        }
    }
}

proof fn lemma_placed(s: Seq<Seq<char>>, k: Seq<char>, at: int)
    requires
        ascending(s),
        0 <= at <= s.len(),
        forall|i: int| 0 <= i < at ==> text_less(#[trigger] s[i], k),
        forall|i: int| at <= i < s.len() ==> text_less(k, #[trigger] s[i]),
    ensures
        ascending(s.insert(at, k)),
{
    let t = s.insert(at, k);
    assert forall|i: int, j: int| 0 <= i < j < t.len() implies text_less(
        #[trigger] t[i],
        #[trigger] t[j],
    ) by {
        let a = if i < at {
            i
        } else {
            i - 1
        };
        let b = if j < at {
            j
        } else {
            j - 1
        };
        if i != at && j != at {
            assert(text_less(s[a], s[b]));
        } else if i == at {
            assert(text_less(k, s[b]));
        } else {
            assert(text_less(s[a], k));
        }
    }
}

/// The members of a finite set can be listed in ascending order.
pub proof fn lemma_finite_listed(set: Set<Seq<char>>)
    requires
        set.finite(),
    ensures
        lists_in_order(in_order(set), set),
    decreases set.len(),
{
    if set.len() == 0 {
        assert(set =~= Set::empty());
        assert(lists_in_order(Seq::<Seq<char>>::empty(), set));
    } else {
        let k = set.choose();
        lemma_finite_listed(set.remove(k));
        lemma_insert_in_order(set.remove(k), k);
        assert(set.remove(k).insert(k) =~= set);
    }
}

/// A finite set is listed with as many entries as it has members.
pub proof fn lemma_listed_len(set: Set<Seq<char>>)
    requires
        set.finite(),
    ensures
        in_order(set).len() == set.len(),
{
    let all = in_order(set);
    lemma_finite_listed(set);
    assert forall|i: int, j: int| 0 <= i < all.len() && 0 <= j < all.len() && i != j implies all[i]
        != all[j] by {
        lemma_text_less_irreflexive(all[i]);
    }
    all.unique_seq_to_set();
    assert forall|k: Seq<char>| all.to_set().contains(k) <==> set.contains(k) by {
        assert(all.to_set().contains(k) <==> all.contains(k));
    }
    assert(all.to_set() =~= set);
}

/// The strings that occur in a sequence can be listed in ascending order.
pub proof fn lemma_listed(values: Seq<Seq<char>>)
    ensures
        lists_in_order(in_order(values.to_set()), values.to_set()),
    decreases values.len(),
{
    if values.len() == 0 {
        assert(lists_in_order(Seq::<Seq<char>>::empty(), values.to_set()));
    } else {
        let front = values.drop_last();
        lemma_listed(front);
        lemma_insert_in_order(front.to_set(), values.last());
        assert(values.to_set() =~= front.to_set().insert(values.last())) by {
            assert forall|k: Seq<char>| values.contains(k) <==> front.contains(k) || k
                == values.last() by {
                if front.contains(k) {
                    let i = choose|i: int| 0 <= i < front.len() && front[i] == k;
                    assert(values[i] == k);
                }
                if values.contains(k) {
                    let i = choose|i: int| 0 <= i < values.len() && values[i] == k;
                    if i < front.len() {
                        assert(front[i] == k);
                    }
                }
                assert(values[values.len() - 1] == values.last());
            }
        }
    }
}

} // verus!
