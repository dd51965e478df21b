//! The order of strings, sorting, and removal of duplicates.

use vstd::prelude::*;
use vstd::hash_set::StringHashSet;
use crate::text::chars_of;

verus! {

/// Whether `a` comes before `b` or equals it, character by character. This
/// is the order of `String` itself.
pub open spec fn str_le(a: Seq<char>, b: Seq<char>) -> bool
    decreases a.len(),
{
    if a.len() == 0 {
        true
    } else if b.len() == 0 {
        false
    } else if a[0] != b[0] {
        a[0] < b[0]
    } else {
        str_le(a.drop_first(), b.drop_first())
    }
}

/// Whether every element of `s` comes before the ones that follow it.
pub open spec fn is_sorted(s: Seq<Seq<char>>) -> bool {
    forall|i: int, j: int| 0 <= i < j < s.len() ==> str_le(s[i], s[j])
}

/// `s` with `x` put behind the last element that it does not come before.
pub open spec fn insert_sorted(s: Seq<Seq<char>>, x: Seq<char>) -> Seq<Seq<char>>
    decreases s.len(),
{
    if s.len() == 0 {
        seq![x]
    } else if str_le(s.last(), x) {
        s.push(x)
    } else {
        insert_sorted(s.drop_last(), x).push(s.last())
    }
}

/// The elements of `s` in ascending order.
pub open spec fn sort_of(s: Seq<Seq<char>>) -> Seq<Seq<char>>
    decreases s.len(),
{
    if s.len() == 0 {
        Seq::empty()
    } else {
        insert_sorted(sort_of(s.drop_last()), s.last())
    }
}

/// The first occurrences of the elements of `s`, in order.
pub open spec fn dedup_of(s: Seq<Seq<char>>) -> Seq<Seq<char>>
    decreases s.len(),
{
    if s.len() == 0 {
        Seq::empty()
    } else if dedup_of(s.drop_last()).contains(s.last()) {
        dedup_of(s.drop_last())
    } else {
        dedup_of(s.drop_last()).push(s.last())
    }
}

/// Of two strings, one comes before the other or equals it.
pub proof fn lemma_str_le_total(a: Seq<char>, b: Seq<char>)
    ensures
        str_le(a, b) || str_le(b, a),
    decreases a.len(),
{
    if a.len() > 0 && b.len() > 0 && a[0] == b[0] {
        lemma_str_le_total(a.drop_first(), b.drop_first());
    }
}

/// The order of strings is transitive.
pub proof fn lemma_str_le_transitive(a: Seq<char>, b: Seq<char>, c: Seq<char>)
    requires
        str_le(a, b),
        str_le(b, c),
    ensures
        str_le(a, c),
    decreases a.len(),
{
    if a.len() > 0 && b.len() > 0 && c.len() > 0 && a[0] == b[0] && b[0] == c[0] {
        lemma_str_le_transitive(a.drop_first(), b.drop_first(), c.drop_first());
    }
}

/// Where `x` goes in `s`: behind position `p - 1`, which it does not come
/// before, and in front of all that follow.
pub proof fn lemma_insert_sorted_at(s: Seq<Seq<char>>, x: Seq<char>, p: int)
    requires
        0 <= p <= s.len(),
        forall|k: int| p <= k < s.len() ==> !str_le(s[k], x),
        p == 0 || str_le(s[p - 1], x),
    ensures
        insert_sorted(s, x) == s.insert(p, x),
    decreases s.len(),
{
    if s.len() == 0 {
        assert(seq![x] =~= s.insert(p, x));
    } else if p == s.len() {
        assert(s.push(x) =~= s.insert(p, x));
    } else {
        lemma_insert_sorted_at(s.drop_last(), x, p);
        assert(s.drop_last().insert(p, x).push(s.last()) =~= s.insert(p, x));
    }
}

/// Inserting into a sorted sequence gives a sorted sequence with one more
/// occurrence of what was inserted.
pub proof fn lemma_insert_sorted(s: Seq<Seq<char>>, x: Seq<char>)
    requires
        is_sorted(s),
    ensures
        is_sorted(insert_sorted(s, x)),
        insert_sorted(s, x).to_multiset() == s.to_multiset().insert(x),
        insert_sorted(s, x).len() == s.len() + 1,
    decreases s.len(),
{
    broadcast use vstd::seq_lib::group_to_multiset_ensures;

    if s.len() == 0 {
        assert(seq![x] =~= Seq::<Seq<char>>::empty().push(x));
        assert(s =~= Seq::<Seq<char>>::empty());
    } else if str_le(s.last(), x) {
        let r = s.push(x);
        assert forall|i: int, j: int| 0 <= i < j < r.len() implies str_le(r[i], r[j]) by {
            if j == s.len() && i < s.len() - 1 {
                lemma_str_le_transitive(s[i], s.last(), x);
            }
        }
    } else {
        let head = s.drop_last();
        lemma_insert_sorted(head, x);
        let h = insert_sorted(head, x);
        let r = h.push(s.last());
        lemma_str_le_total(s.last(), x);
        assert(s =~= head.push(s.last()));
        assert forall|i: int| 0 <= i < h.len() implies str_le(#[trigger] h[i], s.last()) by {
            assert(h.to_multiset().count(h[i]) > 0);
            if h[i] != x {
                assert(head.to_multiset().count(h[i]) > 0);
                let k = choose|k: int| 0 <= k < head.len() && head[k] == h[i];
                assert(str_le(s[k], s[s.len() - 1]));
            }
        }
        assert forall|i: int, j: int| 0 <= i < j < r.len() implies str_le(r[i], r[j]) by {
            if j == h.len() {
                assert(str_le(h[i], s.last()));
            }
        }
        assert(r.to_multiset() =~= s.to_multiset().insert(x));
    }
}

/// Sorting gives a sorted sequence with the same elements, each as often as
/// before.
pub proof fn lemma_sort_of(s: Seq<Seq<char>>)
    ensures
        is_sorted(sort_of(s)),
        sort_of(s).to_multiset() == s.to_multiset(),
        sort_of(s).len() == s.len(),
    decreases s.len(),
{
    broadcast use vstd::seq_lib::group_to_multiset_ensures;

    if s.len() == 0 {
        assert(s =~= Seq::<Seq<char>>::empty());
    } else {
        lemma_sort_of(s.drop_last());
        lemma_insert_sorted(sort_of(s.drop_last()), s.last());
        assert(s =~= s.drop_last().push(s.last()));
    }
}

/// Removing duplicates leaves every element once.
pub proof fn lemma_dedup_of(s: Seq<Seq<char>>)
    ensures
        dedup_of(s).no_duplicates(),
        forall|x: Seq<char>| dedup_of(s).contains(x) <==> s.contains(x),
        dedup_of(s).len() <= s.len(),
    decreases s.len(),
{
    if s.len() > 0 {
        let head = s.drop_last();
        lemma_dedup_of(head);
        let d = dedup_of(head);
        assert forall|x: Seq<char>| dedup_of(s).contains(x) <==> s.contains(x) by {
            if s.contains(x) {
                let i = choose|i: int| 0 <= i < s.len() && s[i] == x;
                if i < s.len() - 1 {
                    assert(head[i] == x);
                    assert(head.contains(x));
                    assert(d.contains(x));
                    let k = choose|k: int| 0 <= k < d.len() && d[k] == x;
                    assert(dedup_of(s)[k] == x);
                } else if !d.contains(s.last()) {
                    assert(dedup_of(s)[d.len() as int] == x);
                }
            }
            if dedup_of(s).contains(x) {
                let k = choose|k: int| 0 <= k < dedup_of(s).len() && dedup_of(s)[k] == x;
                if k < d.len() {
                    assert(d[k] == x);
                    assert(d.contains(x));
                    assert(head.contains(x));
                    let i = choose|i: int| 0 <= i < head.len() && head[i] == x;
                    assert(s[i] == x);
                } else {
                    assert(s[s.len() - 1] == x);
                }
            }
        }
    }
}

/// The elements of `v` in reverse order, none of them copied. Taking them
/// from the back of the result gives them in the order of `v`.
pub fn reversed<T>(v: Vec<T>) -> (r: Vec<T>)
    ensures
        r@.len() == v@.len(),
        forall|j: int| 0 <= j < r@.len() ==> r@[j] == v@[v@.len() - 1 - j],
{
    let ghost input = v@;
    let mut items = v;
    let mut r: Vec<T> = Vec::new();
    while items.len() > 0
        invariant
            items.len() + r.len() == input.len(),
            forall|j: int| 0 <= j < items.len() ==> items@[j] == input[j],
            forall|j: int| 0 <= j < r.len() ==> r@[j] == input[input.len() - 1 - j],
        decreases items.len(),
    {
        let x = items.pop().unwrap();
        r.push(x);
    }
    r
}

/// Whether `a` comes before `b` or equals it.
pub fn chars_le(a: &Vec<char>, b: &Vec<char>) -> (r: bool)
    ensures
        r == str_le(a@, b@),
{
    let mut i: usize = 0;
    assert(a@.skip(0) =~= a@ && b@.skip(0) =~= b@);
    while i < a.len() && i < b.len()
        invariant
            i <= a.len(),
            i <= b.len(),
            str_le(a@, b@) == str_le(a@.skip(i as int), b@.skip(i as int)),
        decreases a.len() - i,
    {
        assert(a@.skip(i as int)[0] == a@[i as int] && b@.skip(i as int)[0] == b@[i as int]);
        assert(a@.skip(i as int).drop_first() =~= a@.skip(i as int + 1));
        assert(b@.skip(i as int).drop_first() =~= b@.skip(i as int + 1));
        if a[i] != b[i] {
            return a[i] < b[i];
        }
        i += 1;
    }
    i == a.len()
}

/// Sorts strings into ascending order.
pub fn sort_strings(v: Vec<String>) -> (r: Vec<String>)
    ensures
        r.deep_view() == sort_of(v.deep_view()),
        is_sorted(r.deep_view()),
{
    let ghost input = v.deep_view();
    let n = v.len();
    let mut r: Vec<String> = Vec::new();
    assert(r.deep_view() =~= sort_of(input.take(0)));
    let mut rest = reversed(v);
    let mut i: usize = 0;
    while rest.len() > 0
        invariant
            i + rest.len() == n,
            input.len() == n,
            forall|j: int| 0 <= j < rest.len() ==> rest@[j]@ == input[n - 1 - j],
            r.deep_view() == sort_of(input.take(i as int)),
        decreases rest.len(),
    {
        let s = rest.pop().unwrap();
        assert(s@ == input[i as int]);
        let x = chars_of(s.as_str());
        let mut p: usize = r.len();
        let ghost sorted = r.deep_view();
        while p > 0 && !chars_le(&chars_of(r[p - 1].as_str()), &x)
            invariant
                p <= r.len(),
                sorted == r.deep_view(),
                x@ == s@,
                forall|k: int| p <= k < r.len() ==> !str_le(sorted[k], x@),
            decreases p,
        {
            p -= 1;
        }
        proof {
            lemma_insert_sorted_at(sorted, x@, p as int);
            assert(input.take(i as int + 1).drop_last() =~= input.take(i as int));
        }
        r.insert(p, s);
        assert(r.deep_view() =~= sorted.insert(p as int, s@));
        i += 1;
    }
    proof {
        assert(input.take(n as int) =~= input);
        lemma_sort_of(input);
    }
    r
}

/// Removes every string that occurred before, keeping the order of the
/// first occurrences.
pub fn dedup_preserve_order(v: &mut Vec<String>)
    ensures
        final(v).deep_view() == dedup_of(old(v).deep_view()),
        final(v).deep_view().no_duplicates(),
{
    let ghost input = v.deep_view();
    let n = v.len();
    let mut taken: Vec<String> = Vec::new();
    std::mem::swap(v, &mut taken);
    let mut rest = reversed(taken);
    let mut seen = StringHashSet::new();
    let mut i: usize = 0;
    assert(v.deep_view() =~= dedup_of(input.take(0)));
    while rest.len() > 0
        invariant
            i + rest.len() == n,
            input.len() == n,
            forall|j: int| 0 <= j < rest.len() ==> rest@[j]@ == input[n - 1 - j],
            v.deep_view() == dedup_of(input.take(i as int)),
            forall|x: Seq<char>| seen@.contains(x) <==> v.deep_view().contains(x),
        decreases rest.len(),
    {
        let s = rest.pop().unwrap();
        assert(s@ == input[i as int]);
        let ghost kept = v.deep_view();
        proof {
            assert(input.take(i as int + 1).drop_last() =~= input.take(i as int));
        }
        if !seen.contains(s.as_str()) {
            seen.insert(s.clone());
            v.push(s);
            proof {
                assert(v.deep_view() =~= kept.push(s@));
                assert forall|x: Seq<char>| seen@.contains(x) <==> v.deep_view().contains(x) by {
                    if kept.contains(x) {
                        let k = choose|k: int| 0 <= k < kept.len() && kept[k] == x;
                        assert(v.deep_view()[k] == x);
                    }
                    if x == s@ {
                        assert(v.deep_view()[kept.len() as int] == x);
                    }
                }
            }
        }
        i += 1;
    }
    proof {
        assert(input.take(n as int) =~= input);
        lemma_dedup_of(input);
    }
}

} // verus!
