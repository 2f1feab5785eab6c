//! Sequences: the views of a vector's items, the first item that meets a
//! condition, and byte prefixes.

use vstd::prelude::*;

verus! {

/// The views of the items of `s`, in order.
pub open spec fn views<T: View>(s: Seq<T>) -> Seq<T::V> {
    s.map_values(|t: T| t@)
}

/// The index of the first item of `s` that meets `p`.
pub open spec fn position<T>(s: Seq<T>, p: spec_fn(T) -> bool) -> Option<int>
    decreases s.len(),
{
    if s.len() == 0 {
        None
    } else if p(s[0]) {
        Some(0)
    } else {
        match position(s.skip(1), p) {
            Some(i) => Some(i + 1),
            None => None,
        }
    }
}

/// `position` finds an item that meets `p` and has none before it that
/// does; it finds nothing only where no item meets `p`.
pub proof fn lemma_position<T>(s: Seq<T>, p: spec_fn(T) -> bool)
    ensures
        match position(s, p) {
            Some(i) => 0 <= i < s.len() && p(s[i]) && forall|j: int| 0 <= j < i ==> !p(#[trigger] s[j]),
            None => forall|j: int| 0 <= j < s.len() ==> !p(#[trigger] s[j]),
        },
    decreases s.len(),
{
    if s.len() > 0 && !p(s[0]) {
        lemma_position(s.skip(1), p);
        match position(s.skip(1), p) {
            Some(i) => {
                assert forall|j: int| 0 <= j < i + 1 implies !p(#[trigger] s[j]) by {
                    if j > 0 {
                        assert(s[j] == s.skip(1)[j - 1]);
                    }
                }
            },
            None => {
                assert forall|j: int| 0 <= j < s.len() implies !p(#[trigger] s[j]) by {
                    if j > 0 {
                        assert(s[j] == s.skip(1)[j - 1]);
                    }
                }
            },
        }
    }
}

/// An item that meets `p` with none before it that does is the one that
/// `position` finds.
pub proof fn lemma_position_is<T>(s: Seq<T>, p: spec_fn(T) -> bool, i: int)
    requires
        0 <= i < s.len(),
        p(s[i]),
        forall|j: int| 0 <= j < i ==> !p(#[trigger] s[j]),
    ensures
        position(s, p) == Some(i),
{
    lemma_position(s, p);
}

/// Where no item meets `p`, `position` finds nothing.
pub proof fn lemma_position_none<T>(s: Seq<T>, p: spec_fn(T) -> bool)
    requires
        forall|j: int| 0 <= j < s.len() ==> !p(#[trigger] s[j]),
    ensures
        position(s, p) is None,
{
    lemma_position(s, p);
}

/// The first item that meets `p` among items with one more item behind
/// them is the first among them, or else that item where it meets `p`.
pub proof fn lemma_position_push<T>(s: Seq<T>, last: T, p: spec_fn(T) -> bool)
    ensures
        position(s.push(last), p) == match position(s, p) {
            Some(i) => Some(i),
            None => if p(last) {
                Some(s.len() as int)
            } else {
                None
            },
        },
{
    let t = s.push(last);
    lemma_position(s, p);
    match position(s, p) {
        Some(i) => {
            assert forall|j: int| 0 <= j < i implies !p(#[trigger] t[j]) by {
                assert(t[j] == s[j]);
            }
            assert(t[i] == s[i]);
            lemma_position_is(t, p, i);
        },
        None => {
            if p(last) {
                assert forall|j: int| 0 <= j < s.len() implies !p(#[trigger] t[j]) by {
                    assert(t[j] == s[j]);
                }
                lemma_position_is(t, p, s.len() as int);
            } else {
                assert forall|j: int| 0 <= j < t.len() implies !p(#[trigger] t[j]) by {
                    if j < s.len() {
                        assert(t[j] == s[j]);
                    }
                }
                lemma_position_none(t, p);
            }
        },
    }
}

/// An item that meets `p`, put where no item before it does, is the
/// first that meets `p`.
pub proof fn lemma_position_insert_hit<T>(s: Seq<T>, at: int, x: T, p: spec_fn(T) -> bool)
    requires
        0 <= at <= s.len(),
        p(x),
        forall|j: int| 0 <= j < at ==> !p(#[trigger] s[j]),
    ensures
        position(s.insert(at, x), p) == Some(at),
{
    let t = s.insert(at, x);
    assert forall|j: int| 0 <= j < at implies !p(#[trigger] t[j]) by {
        assert(t[j] == s[j]);
    }
    lemma_position_is(t, p, at);
}

/// An item that does not meet `p`, put among others, leaves the first
/// item that meets `p` the same item, one place further back where the new
/// item stands before it.
pub proof fn lemma_position_insert_miss<T>(s: Seq<T>, at: int, x: T, p: spec_fn(T) -> bool)
    requires
        0 <= at <= s.len(),
        !p(x),
    ensures
        match position(s, p) {
            Some(i) => position(s.insert(at, x), p) == Some(if i < at { i } else { i + 1 })
                && s.insert(at, x)[if i < at { i } else { i + 1 }] == s[i],
            None => position(s.insert(at, x), p) is None,
        },
{
    let t = s.insert(at, x);
    lemma_position(s, p);
    match position(s, p) {
        Some(i) => {
            let m = if i < at { i } else { i + 1 };
            assert forall|j: int| 0 <= j < m implies !p(#[trigger] t[j]) by {
                if j < at {
                    assert(t[j] == s[j]);
                } else if j > at {
                    assert(t[j] == s[j - 1]);
                }
            }
            lemma_position_is(t, p, m);
        },
        None => {
            assert forall|j: int| 0 <= j < t.len() implies !p(#[trigger] t[j]) by {
                if j < at {
                    assert(t[j] == s[j]);
                } else if j > at {
                    assert(t[j] == s[j - 1]);
                }
            }
            lemma_position_none(t, p);
        },
    }
}

/// Filtering by a condition that every item with `p` meets leaves the
/// first item that meets `p` the same item.
pub proof fn lemma_position_filter<T>(s: Seq<T>, q: spec_fn(T) -> bool, p: spec_fn(T) -> bool)
    requires
        forall|i: int| 0 <= i < s.len() && p(#[trigger] s[i]) ==> q(s[i]),
    ensures
        match position(s, p) {
            Some(i) => position(s.filter(q), p) is Some && s.filter(q)[position(
                s.filter(q),
                p,
            ).unwrap()] == s[i],
            None => position(s.filter(q), p) is None,
        },
    decreases s.len(),
{
    reveal(Seq::filter);
    if s.len() == 0 {
    } else {
        let d = s.drop_last();
        let l = s.last();
        assert forall|i: int| 0 <= i < d.len() && p(#[trigger] d[i]) implies q(d[i]) by {
            assert(d[i] == s[i]);
        }
        lemma_position_filter(d, q, p);
        assert(d.push(l) =~= s);
        lemma_position_push(d, l, p);
        lemma_position(d, p);
        lemma_position(d.filter(q), p);
        if q(l) {
            lemma_position_push(d.filter(q), l, p);
        } else {
            assert(!p(s[s.len() - 1]));
        }
    }
}

/// Filtering by a condition that no item with `p` meets leaves no item
/// that meets `p`.
pub proof fn lemma_position_filter_gone<T>(s: Seq<T>, q: spec_fn(T) -> bool, p: spec_fn(T) -> bool)
    requires
        forall|i: int| 0 <= i < s.len() && q(#[trigger] s[i]) ==> !p(s[i]),
    ensures
        position(s.filter(q), p) is None,
{
    let f = s.filter(q);
    lemma_filter_kept(s, q);
    assert forall|j: int| 0 <= j < f.len() implies !p(#[trigger] f[j]) by {
        assert(f.contains(f[j]));
        s.lemma_filter_contains_rev(q, f[j]);
        let k = choose|k: int| 0 <= k < s.len() && s[k] == f[j];
        assert(q(s[k]));
    }
    lemma_position_none(f, p);
}

/// Filtering one more item: the longer prefix filters to the shorter one's
/// result, with the new item behind it where it meets `p`.
pub proof fn lemma_filter_step<T>(s: Seq<T>, p: spec_fn(T) -> bool, i: int)
    requires
        0 <= i < s.len(),
    ensures
        s.take(i + 1).filter(p) == if p(s[i]) {
            s.take(i).filter(p).push(s[i])
        } else {
            s.take(i).filter(p)
        },
{
    reveal(Seq::filter);
    assert(s.take(i + 1).drop_last() == s.take(i));
}

/// Flattening one more item appends that item.
pub proof fn lemma_flatten_take_step<A>(s: Seq<Seq<A>>, i: int)
    requires
        0 <= i < s.len(),
    ensures
        s.take(i + 1).flatten() == s.take(i).flatten() + s[i],
{
    assert(s.take(i + 1) == s.take(i).push(s[i]));
    s.take(i).lemma_flatten_push(s[i]);
}

/// A flattened sequence is its flattened front followed by its flattened
/// back, wherever it is cut.
pub proof fn lemma_flatten_split<A>(s: Seq<Seq<A>>, i: int)
    requires
        0 <= i <= s.len(),
    ensures
        s.flatten() == s.take(i).flatten() + s.skip(i).flatten(),
{
    assert(s == s.take(i) + s.skip(i));
    vstd::seq_lib::lemma_flatten_concat(s.take(i), s.skip(i));
}

/// Flattening each item and then the whole gives what flattening the
/// whole twice gives.
pub proof fn lemma_flatten_twice<A>(s: Seq<Seq<Seq<A>>>)
    ensures
        s.map_values(|x: Seq<Seq<A>>| x.flatten()).flatten() == s.flatten().flatten(),
    decreases s.len(),
{
    let f = |x: Seq<Seq<A>>| x.flatten();
    if s.len() == 0 {
        assert(s.map_values(f) =~= Seq::<Seq<A>>::empty());
        assert(s.flatten() =~= Seq::<Seq<A>>::empty());
    } else {
        let n = s.len() - 1;
        lemma_flatten_twice(s.drop_last());
        assert(s.take(n) == s.drop_last());
        assert(s.take(n + 1) == s);
        lemma_flatten_take_step(s, n);
        assert(s.map_values(f).take(n) =~= s.drop_last().map_values(f));
        assert(s.map_values(f).take(n + 1) == s.map_values(f));
        lemma_flatten_take_step(s.map_values(f), n);
        vstd::seq_lib::lemma_flatten_concat(s.drop_last().flatten(), s[n]);
    }
}

/// Where no item of `a` is longer than the item of `b` in its place, `a`
/// flattened is no longer than `b` flattened.
pub proof fn lemma_flatten_len_le<A, B>(a: Seq<Seq<A>>, b: Seq<Seq<B>>)
    requires
        a.len() == b.len(),
        forall|i: int| 0 <= i < a.len() ==> (#[trigger] a[i]).len() <= b[i].len(),
    ensures
        a.flatten().len() <= b.flatten().len(),
    decreases a.len(),
{
    if a.len() == 0 {
        assert(a.flatten() =~= Seq::<A>::empty());
    } else {
        let n = a.len() - 1;
        assert(a.take(n + 1) == a);
        assert(b.take(n + 1) == b);
        lemma_flatten_take_step(a, n);
        lemma_flatten_take_step(b, n);
        assert forall|i: int| 0 <= i < n implies (#[trigger] a.take(n)[i]).len() <= b.take(n)[i].len() by {
            assert(a.take(n)[i] == a[i]);
        }
        lemma_flatten_len_le(a.take(n), b.take(n));
    }
}

/// Filtering keeps nothing where no item meets the condition, and
/// everything where every item does.
pub proof fn lemma_filter_all<T>(s: Seq<T>, p: spec_fn(T) -> bool)
    ensures
        (forall|i: int| 0 <= i < s.len() ==> !p(#[trigger] s[i])) ==> s.filter(p) == Seq::<
            T,
        >::empty(),
        (forall|i: int| 0 <= i < s.len() ==> p(#[trigger] s[i])) ==> s.filter(p) == s,
    decreases s.len(),
{
    reveal(Seq::filter);
    if s.len() > 0 {
        lemma_filter_all(s.drop_last(), p);
        assert forall|i: int| 0 <= i < s.len() - 1 implies s.drop_last()[i] == s[i] by {}
        if forall|i: int| 0 <= i < s.len() ==> !p(#[trigger] s[i]) {
            assert forall|i: int| 0 <= i < s.drop_last().len() implies !p(
                #[trigger] s.drop_last()[i],
            ) by {
                assert(s.drop_last()[i] == s[i]);
            }
            assert(!p(s[s.len() - 1]));
        }
        if forall|i: int| 0 <= i < s.len() ==> p(#[trigger] s[i]) {
            assert forall|i: int| 0 <= i < s.drop_last().len() implies p(
                #[trigger] s.drop_last()[i],
            ) by {
                assert(s.drop_last()[i] == s[i]);
            }
            assert(p(s[s.len() - 1]));
            assert(s.drop_last().push(s.last()) =~= s);
        }
    }
}

/// Of items that meet a condition between items that do not, filtering
/// by the condition keeps those in the middle.
pub proof fn lemma_filter_middle<T>(head: Seq<T>, middle: Seq<T>, tail: Seq<T>, p: spec_fn(T) -> bool)
    requires
        forall|i: int| 0 <= i < head.len() ==> !p(#[trigger] head[i]),
        forall|i: int| 0 <= i < middle.len() ==> p(#[trigger] middle[i]),
        forall|i: int| 0 <= i < tail.len() ==> !p(#[trigger] tail[i]),
    ensures
        (head + middle + tail).filter(p) == middle,
{
    lemma_filter_all(head, p);
    lemma_filter_all(middle, p);
    lemma_filter_all(tail, p);
    Seq::filter_distributes_over_add(head, middle, p);
    Seq::filter_distributes_over_add(head + middle, tail, p);
    assert(Seq::<T>::empty() + middle + Seq::<T>::empty() =~= middle);
}

/// Of items that do not meet a condition between items that do, filtering
/// by the condition keeps those around the middle.
pub proof fn lemma_filter_around<T>(head: Seq<T>, middle: Seq<T>, tail: Seq<T>, p: spec_fn(T) -> bool)
    requires
        forall|i: int| 0 <= i < head.len() ==> p(#[trigger] head[i]),
        forall|i: int| 0 <= i < middle.len() ==> !p(#[trigger] middle[i]),
        forall|i: int| 0 <= i < tail.len() ==> p(#[trigger] tail[i]),
    ensures
        (head + middle + tail).filter(p) == head + tail,
{
    lemma_filter_all(head, p);
    lemma_filter_all(middle, p);
    lemma_filter_all(tail, p);
    Seq::filter_distributes_over_add(head, middle, p);
    Seq::filter_distributes_over_add(head + middle, tail, p);
    assert(head + Seq::<T>::empty() + tail =~= head + tail);
}

/// The items before and behind a place meet a condition that all items
/// meet.
pub proof fn lemma_all_split<T>(s: Seq<T>, at: int, p: spec_fn(T) -> bool)
    requires
        0 <= at <= s.len(),
        forall|i: int| 0 <= i < s.len() ==> p(#[trigger] s[i]),
    ensures
        forall|i: int| 0 <= i < s.take(at).len() ==> p(#[trigger] s.take(at)[i]),
        forall|i: int| 0 <= i < s.skip(at).len() ==> p(#[trigger] s.skip(at)[i]),
        s.take(at) + s.skip(at) == s,
{
    assert forall|i: int| 0 <= i < s.take(at).len() implies p(#[trigger] s.take(at)[i]) by {
        assert(s.take(at)[i] == s[i]);
    }
    assert forall|i: int| 0 <= i < s.skip(at).len() implies p(#[trigger] s.skip(at)[i]) by {
        assert(s.skip(at)[i] == s[i + at]);
    }
    assert(s.take(at) + s.skip(at) =~= s);
}

/// What filtering keeps meets the condition.
pub proof fn lemma_filter_kept<T>(s: Seq<T>, p: spec_fn(T) -> bool)
    ensures
        forall|i: int| 0 <= i < s.filter(p).len() ==> p(#[trigger] s.filter(p)[i]),
{
    assert forall|i: int| 0 <= i < s.filter(p).len() implies p(#[trigger] s.filter(p)[i]) by {
        s.lemma_filter_pred(p, i);
    }
}

/// The sum of the numbers of `lens`.
pub open spec fn total(lens: Seq<nat>) -> nat
    decreases lens.len(),
{
    if lens.len() == 0 {
        0
    } else {
        total(lens.drop_last()) + lens.last()
    }
}

/// Summing one more number adds that number.
pub proof fn lemma_total_take_step(lens: Seq<nat>, i: int)
    requires
        0 <= i < lens.len(),
    ensures
        total(lens.take(i + 1)) == total(lens.take(i)) + lens[i],
{
    assert(lens.take(i + 1).drop_last() == lens.take(i));
}

/// The sum of a front part is no more than the sum of the whole.
pub proof fn lemma_total_take_le(lens: Seq<nat>, i: int)
    requires
        0 <= i <= lens.len(),
    ensures
        total(lens.take(i)) <= total(lens),
    decreases lens.len() - i,
{
    if i < lens.len() {
        lemma_total_take_step(lens, i);
        lemma_total_take_le(lens, i + 1);
    } else {
        assert(lens.take(i) == lens);
    }
}

/// The sum of numbers with one more number before them is that number
/// more.
pub proof fn lemma_total_first(first: nat, rest: Seq<nat>)
    ensures
        total(seq![first] + rest) == first + total(rest),
    decreases rest.len(),
{
    let all = seq![first] + rest;
    if rest.len() == 0 {
        assert(all.drop_last() =~= Seq::<nat>::empty());
        assert(total(all.drop_last()) == 0);
        assert(all.last() == first);
    } else {
        assert(all.drop_last() =~= seq![first] + rest.drop_last());
        assert(all.last() == rest.last());
        lemma_total_first(first, rest.drop_last());
    }
}

/// The length of a flattened sequence is the sum of the lengths of its
/// items.
pub proof fn lemma_flatten_len<A>(s: Seq<Seq<A>>)
    ensures
        s.flatten().len() == total(s.map_values(|x: Seq<A>| x.len())),
    decreases s.len(),
{
    let lens = s.map_values(|x: Seq<A>| x.len());
    if s.len() == 0 {
        assert(s.flatten() =~= Seq::<A>::empty());
    } else {
        let n = s.len() - 1;
        assert(s.take(n + 1) == s);
        lemma_flatten_take_step(s, n);
        lemma_flatten_len(s.take(n));
        assert(s.take(n).map_values(|x: Seq<A>| x.len()) =~= lens.drop_last());
    }
}

/// Whether `data` begins with the bytes of `prefix`.
pub fn starts_with(data: &[u8], prefix: &[u8]) -> (r: bool)
    ensures
        r == prefix@.is_prefix_of(data@),
{
    if data.len() < prefix.len() {
        return false;
    }
    let mut i: usize = 0;
    while i < prefix.len()
        invariant
            i <= prefix.len() <= data.len(),
            forall|j: int| 0 <= j < i ==> data@[j] == prefix@[j],
        decreases prefix.len() - i,
    {
        if data[i] != prefix[i] {
            return false;
        }
        i += 1;
    }
    assert(prefix@ =~= data@.subrange(0, prefix@.len() as int));
    true
}

} // verus!
