//! Lexicographic order and stable sorting.

use vstd::prelude::*;

verus! {

/// A word is a list of numbers; a key is a list of words.
pub type Key = Vec<Vec<u64>>;

/// `a` comes before `b` in dictionary order.
pub open spec fn word_less(a: Seq<u64>, b: Seq<u64>) -> bool
    decreases a.len(),
{
    if b.len() == 0 {
        false
    } else if a.len() == 0 {
        true
    } else if a[0] != b[0] {
        a[0] < b[0]
    } else {
        word_less(a.drop_first(), b.drop_first())
    }
}

/// Keys are ordered by their first word that differs.
pub open spec fn key_less(a: Seq<Seq<u64>>, b: Seq<Seq<u64>>) -> bool
    decreases a.len(),
{
    if b.len() == 0 {
        false
    } else if a.len() == 0 {
        true
    } else if word_less(a[0], b[0]) {
        true
    } else if word_less(b[0], a[0]) {
        false
    } else {
        key_less(a.drop_first(), b.drop_first())
    }
}

/// The order of two items of a list: by key, then by place.
pub open spec fn precedes(keys: Seq<Seq<Seq<u64>>>, a: int, b: int) -> bool {
    key_less(keys[a], keys[b]) || (!key_less(keys[b], keys[a]) && a < b)
}

/// `order` lists the places of all items, each once, sorted by key and with
/// items of equal key in their old order.
pub open spec fn is_stable_order(keys: Seq<Seq<Seq<u64>>>, order: Seq<usize>) -> bool {
    &&& order.len() == keys.len()
    &&& forall|i: int| 0 <= i < order.len() ==> (#[trigger] order[i]) < keys.len()
    &&& forall|i: int, j: int|
        0 <= i < j < order.len() ==> precedes(
            keys,
            (#[trigger] order[i]) as int,
            (#[trigger] order[j]) as int,
        )
    &&& forall|k: int| 0 <= k < keys.len() ==> #[trigger] order.contains(k as usize)
}

/// The items at the places that `order` lists.
pub open spec fn arranged<T>(items: Seq<T>, order: Seq<usize>) -> Seq<T> {
    order.map_values(|i: usize| items[i as int])
}

/// `out` holds `items` stably sorted by `keys`.
pub open spec fn is_stably_sorted<T>(items: Seq<T>, keys: Seq<Seq<Seq<u64>>>, out: Seq<T>) -> bool {
    exists|order: Seq<usize>| #[trigger] is_stable_order(keys, order) && out == arranged(items, order)
}

/// A text as a word: its code points.
pub open spec fn code_points(s: Seq<char>) -> Seq<u64> {
    s.map_values(|c: char| c as u64)
}

pub fn code_points_of(s: &Vec<char>) -> (w: Vec<u64>)
    ensures
        w@ == code_points(s@),
{
    let mut w: Vec<u64> = Vec::new();
    for i in 0..s.len()
        invariant
            w@ =~= code_points(s@).take(i as int),
    {
        w.push(s[i] as u64);
    }
    assert(code_points(s@).take(s@.len() as int) =~= code_points(s@));
    w
}

pub proof fn word_less_is_strict(a: Seq<u64>, b: Seq<u64>, c: Seq<u64>)
    ensures
        !word_less(a, a),
        word_less(a, b) ==> !word_less(b, a),
        word_less(a, b) && word_less(b, c) ==> word_less(a, c),
        word_less(a, c) ==> word_less(a, b) || word_less(b, c),
        !word_less(a, b) && !word_less(b, a) ==> a == b,
    decreases a.len(), b.len(), c.len(),
{
    if a.len() > 0 && b.len() > 0 && c.len() > 0 {
        word_less_is_strict(a.drop_first(), b.drop_first(), c.drop_first());
    } else if a.len() > 0 && b.len() > 0 {
        word_less_is_strict(a.drop_first(), b.drop_first(), c);
    } else if a.len() > 0 {
        word_less_is_strict(a.drop_first(), b, c);
    }
    if !word_less(a, b) && !word_less(b, a) {
        if a.len() == 0 {
            assert(b.len() == 0);
        } else {
            assert(b.len() > 0);
            assert(a[0] == b[0]);
            assert(a =~= seq![a[0]] + a.drop_first());
            assert(b =~= seq![b[0]] + b.drop_first());
        }
        assert(a =~= b);
    }
}

pub proof fn key_less_is_strict(a: Seq<Seq<u64>>, b: Seq<Seq<u64>>, c: Seq<Seq<u64>>)
    ensures
        !key_less(a, a),
        key_less(a, b) ==> !key_less(b, a),
        key_less(a, b) && key_less(b, c) ==> key_less(a, c),
        key_less(a, c) ==> key_less(a, b) || key_less(b, c),
    decreases a.len(), b.len(), c.len(),
{
    if a.len() > 0 {
        word_less_is_strict(a[0], a[0], a[0]);
    }
    if a.len() > 0 && b.len() > 0 {
        word_less_is_strict(a[0], b[0], a[0]);
        word_less_is_strict(b[0], a[0], b[0]);
    }
    if a.len() > 0 && b.len() > 0 && c.len() > 0 {
        word_less_is_strict(a[0], b[0], c[0]);
        word_less_is_strict(c[0], b[0], a[0]);
        word_less_is_strict(b[0], a[0], c[0]);
        word_less_is_strict(a[0], c[0], b[0]);
        word_less_is_strict(c[0], a[0], b[0]);
        word_less_is_strict(b[0], c[0], a[0]);
        key_less_is_strict(a.drop_first(), b.drop_first(), c.drop_first());
    } else if a.len() > 0 && b.len() > 0 {
        key_less_is_strict(a.drop_first(), b.drop_first(), c);
    } else if a.len() > 0 {
        key_less_is_strict(a.drop_first(), b, c);
    }
}

/// Dictionary order: of two words that begin alike, the one with the smaller
/// number at the first place where they differ comes first, and a word comes
/// before those that begin with it.
pub proof fn first_difference_decides(a: Seq<u64>, b: Seq<u64>, k: int)
    requires
        0 <= k <= a.len(),
        k < b.len(),
        a.take(k) == b.take(k),
        k == a.len() || a[k] < b[k],
    ensures
        word_less(a, b),
        !word_less(b, a),
    decreases k,
{
    if k > 0 {
        assert(a[0] == a.take(k)[0] && b[0] == b.take(k)[0]);
        assert(a.drop_first().take(k - 1) =~= a.take(k).drop_first());
        assert(b.drop_first().take(k - 1) =~= b.take(k).drop_first());
        first_difference_decides(a.drop_first(), b.drop_first(), k - 1);
    }
}

/// Of two keys that begin with the same words, the one whose next word comes
/// first comes first, whatever follows.
pub proof fn first_differing_word_decides(a: Seq<Seq<u64>>, b: Seq<Seq<u64>>, k: int)
    requires
        0 <= k < a.len(),
        k < b.len(),
        a.take(k) == b.take(k),
        word_less(a[k], b[k]),
    ensures
        key_less(a, b),
        !key_less(b, a),
    decreases k,
{
    word_less_is_strict(a[k], b[k], a[k]);
    if k > 0 {
        assert(a[0] == a.take(k)[0] && b[0] == b.take(k)[0]);
        assert(a.drop_first().take(k - 1) =~= a.take(k).drop_first());
        assert(b.drop_first().take(k - 1) =~= b.take(k).drop_first());
        word_less_is_strict(a[0], a[0], a[0]);
        first_differing_word_decides(a.drop_first(), b.drop_first(), k - 1);
    }
}

/// Keys of which neither comes first are the same.
pub proof fn unordered_keys_are_equal(a: Seq<Seq<u64>>, b: Seq<Seq<u64>>)
    requires
        !key_less(a, b),
        !key_less(b, a),
    ensures
        a == b,
    decreases a.len(),
{
    if a.len() > 0 && b.len() > 0 {
        word_less_is_strict(a[0], b[0], a[0]);
        unordered_keys_are_equal(a.drop_first(), b.drop_first());
        assert(a =~= seq![a[0]] + a.drop_first());
        assert(b =~= seq![b[0]] + b.drop_first());
    } else {
        assert(a =~= b);
    }
}

/// Sorting loses nothing, invents nothing and repeats nothing: every item has
/// one place in the sorted list. There no item stands behind one that comes
/// after it, and items with equal keys keep their order.
pub proof fn sorting_rearranges<T>(items: Seq<T>, keys: Seq<Seq<Seq<u64>>>, out: Seq<T>) -> (order:
    Seq<usize>)
    requires
        is_stably_sorted(items, keys, out),
        items.len() == keys.len(),
    ensures
        out.len() == items.len(),
        order.len() == items.len(),
        forall|i: int| 0 <= i < out.len() ==> (#[trigger] order[i]) < items.len(),
        forall|i: int| 0 <= i < out.len() ==> #[trigger] out[i] == items[order[i] as int],
        forall|i: int, j: int|
            0 <= i < j < out.len() ==> #[trigger] order[i] != #[trigger] order[j],
        forall|k: int| 0 <= k < items.len() ==> #[trigger] order.contains(k as usize),
        forall|i: int, j: int|
            0 <= i < j < out.len() ==> !key_less(
                keys[#[trigger] order[j] as int],
                keys[#[trigger] order[i] as int],
            ),
        forall|i: int, j: int|
            0 <= i < j < out.len() && keys[#[trigger] order[i] as int]
                == keys[#[trigger] order[j] as int] ==> order[i] < order[j],
{
    let order = choose|order: Seq<usize>| #[trigger]
        is_stable_order(keys, order) && out == arranged(items, order);
    assert forall|i: int, j: int| 0 <= i < j < out.len() implies #[trigger] order[i]
        != #[trigger] order[j] by {
        assert(precedes(keys, order[i] as int, order[j] as int));
        let k = keys[order[i] as int];
        key_less_is_strict(k, k, k);
    }
    assert forall|i: int, j: int| 0 <= i < j < out.len() implies !key_less(
        keys[#[trigger] order[j] as int],
        keys[#[trigger] order[i] as int],
    ) by {
        assert(precedes(keys, order[i] as int, order[j] as int));
        let a = keys[order[i] as int];
        let b = keys[order[j] as int];
        key_less_is_strict(a, b, a);
    }
    assert forall|i: int, j: int|
        0 <= i < j < out.len() && keys[#[trigger] order[i] as int]
            == keys[#[trigger] order[j] as int] implies order[i] < order[j] by {
        assert(precedes(keys, order[i] as int, order[j] as int));
        let k = keys[order[i] as int];
        key_less_is_strict(k, k, k);
    }
    order
}

proof fn precedes_is_transitive(keys: Seq<Seq<Seq<u64>>>, a: int, b: int, c: int)
    requires
        precedes(keys, a, b),
        precedes(keys, b, c),
    ensures
        precedes(keys, a, c),
{
    key_less_is_strict(keys[a], keys[b], keys[c]);
    key_less_is_strict(keys[c], keys[b], keys[a]);
    key_less_is_strict(keys[b], keys[a], keys[c]);
    key_less_is_strict(keys[a], keys[c], keys[b]);
}

proof fn same_code_same_char(a: char, b: char)
    ensures
        a as u64 == b as u64 ==> a == b,
{
}

/// Texts with the same code points are the same.
pub proof fn code_points_are_unique(a: Seq<char>, b: Seq<char>)
    ensures
        code_points(a) == code_points(b) ==> a == b,
{
    if code_points(a) == code_points(b) {
        assert(code_points(a).len() == a.len() && code_points(b).len() == b.len());
        assert forall|i: int| 0 <= i < a.len() implies a[i] == b[i] by {
            assert(code_points(a)[i] == a[i] as u64);
            assert(code_points(b)[i] == b[i] as u64);
            same_code_same_char(a[i], b[i]);
        }
        assert(a =~= b);
    }
}

pub fn word_before(a: &Vec<u64>, b: &Vec<u64>) -> (r: bool)
    ensures
        r == word_less(a@, b@),
{
    let mut i: usize = 0;
    assert(a@.skip(0) =~= a@ && b@.skip(0) =~= b@);
    loop
        invariant
            i <= a@.len(),
            i <= b@.len(),
            word_less(a@.skip(i as int), b@.skip(i as int)) == word_less(a@, b@),
        decreases a@.len() - i,
    {
        if i >= b.len() {
            return false;
        }
        if i >= a.len() {
            return true;
        }
        if a[i] != b[i] {
            return a[i] < b[i];
        }
        assert(a@.skip(i as int).drop_first() =~= a@.skip(i + 1));
        assert(b@.skip(i as int).drop_first() =~= b@.skip(i + 1));
        i = i + 1;
    }
}

fn key_before(a: &Key, b: &Key) -> (r: bool)
    ensures
        r == key_less(a.deep_view(), b.deep_view()),
{
    let ghost x = a.deep_view();
    let ghost y = b.deep_view();
    let mut i: usize = 0;
    assert(x.skip(0) =~= x && y.skip(0) =~= y);
    loop
        invariant
            x == a.deep_view(),
            y == b.deep_view(),
            i <= x.len() == a@.len(),
            i <= y.len() == b@.len(),
            key_less(x.skip(i as int), y.skip(i as int)) == key_less(x, y),
        decreases a@.len() - i,
    {
        if i >= b.len() {
            return false;
        }
        if i >= a.len() {
            return true;
        }
        assert(x.skip(i as int)[0] =~= a@[i as int]@);
        assert(y.skip(i as int)[0] =~= b@[i as int]@);
        if word_before(&a[i], &b[i]) {
            return true;
        }
        if word_before(&b[i], &a[i]) {
            return false;
        }
        assert(x.skip(i as int).drop_first() =~= x.skip(i + 1));
        assert(y.skip(i as int).drop_first() =~= y.skip(i + 1));
        i = i + 1;
    }
}

/// The places `lo..hi`, each once, in sorted order.
spec fn is_sorted_run(keys: Seq<Seq<Seq<u64>>>, run: Seq<usize>, lo: int, hi: int) -> bool {
    &&& run.len() == hi - lo
    &&& forall|i: int| 0 <= i < run.len() ==> lo <= (#[trigger] run[i]) < hi
    &&& forall|i: int, j: int|
        0 <= i < j < run.len() ==> precedes(
            keys,
            (#[trigger] run[i]) as int,
            (#[trigger] run[j]) as int,
        )
    &&& forall|k: int| lo <= k < hi ==> #[trigger] run.contains(k as usize)
}

fn merge(keys: &Vec<Key>, left: &Vec<usize>, right: &Vec<usize>, lo: usize, mid: usize, hi: usize) -> (out:
    Vec<usize>)
    requires
        lo <= mid <= hi <= keys@.len(),
        is_sorted_run(keys.deep_view(), left@, lo as int, mid as int),
        is_sorted_run(keys.deep_view(), right@, mid as int, hi as int),
    ensures
        is_sorted_run(keys.deep_view(), out@, lo as int, hi as int),
{
    let ghost ks = keys.deep_view();
    let mut out: Vec<usize> = Vec::new();
    let mut i: usize = 0;
    let mut j: usize = 0;
    while i < left.len() || j < right.len()
        invariant
            ks == keys.deep_view(),
            lo <= mid <= hi <= keys@.len(),
            is_sorted_run(ks, left@, lo as int, mid as int),
            is_sorted_run(ks, right@, mid as int, hi as int),
            i <= left@.len(),
            j <= right@.len(),
            out@.len() == i + j,
            forall|a: int| 0 <= a < out@.len() ==> lo <= (#[trigger] out@[a]) < hi,
            forall|a: int, b: int|
                0 <= a < b < out@.len() ==> precedes(
                    ks,
                    (#[trigger] out@[a]) as int,
                    (#[trigger] out@[b]) as int,
                ),
            forall|a: int, b: int|
                0 <= a < out@.len() && i <= b < left@.len() ==> precedes(
                    ks,
                    (#[trigger] out@[a]) as int,
                    (#[trigger] left@[b]) as int,
                ),
            forall|a: int, b: int|
                0 <= a < out@.len() && j <= b < right@.len() ==> precedes(
                    ks,
                    (#[trigger] out@[a]) as int,
                    (#[trigger] right@[b]) as int,
                ),
            forall|b: int| 0 <= b < i ==> out@.contains(#[trigger] left@[b]),
            forall|b: int| 0 <= b < j ==> out@.contains(#[trigger] right@[b]),
        decreases left@.len() - i + right@.len() - j,
    {
        let take_right: bool = if i >= left.len() {
            true
        } else if j >= right.len() {
            false
        } else {
            key_before(&keys[right[j]], &keys[left[i]])
        };
        let ghost before = out@;
        if take_right {
            out.push(right[j]);
            proof {
                let r = right@[j as int] as int;
                assert forall|b: int| i <= b < left@.len() implies precedes(
                    ks,
                    r,
                    (#[trigger] left@[b]) as int,
                ) by {
                    assert(precedes(ks, r, left@[i as int] as int));
                    if b > i {
                        precedes_is_transitive(ks, r, left@[i as int] as int, left@[b] as int);
                    }
                }
            }
            j = j + 1;
        } else {
            out.push(left[i]);
            proof {
                let l = left@[i as int] as int;
                assert forall|b: int| j <= b < right@.len() implies precedes(
                    ks,
                    l,
                    (#[trigger] right@[b]) as int,
                ) by {
                    assert(precedes(ks, l, right@[j as int] as int));
                    if b > j {
                        precedes_is_transitive(ks, l, right@[j as int] as int, right@[b] as int);
                    }
                }
            }
            i = i + 1;
        }
        proof {
            assert(out@.last() == out@[out@.len() - 1]);
            assert forall|x: usize| before.contains(x) implies out@.contains(x) by {
                let a = choose|a: int| 0 <= a < before.len() && before[a] == x;
                assert(out@[a] == x);
            }
        }
    }
    proof {
        assert forall|k: int| lo <= k < hi implies #[trigger] out@.contains(k as usize) by {
            if k < mid {
                assert(left@.contains(k as usize));
                let b = choose|b: int| 0 <= b < left@.len() && left@[b] == k as usize;
                assert(out@.contains(left@[b]));
            } else {
                assert(right@.contains(k as usize));
                let b = choose|b: int| 0 <= b < right@.len() && right@[b] == k as usize;
                assert(out@.contains(right@[b]));
            }
        }
    }
    out
}

fn sort_run(keys: &Vec<Key>, lo: usize, hi: usize) -> (out: Vec<usize>)
    requires
        lo <= hi <= keys@.len(),
    ensures
        is_sorted_run(keys.deep_view(), out@, lo as int, hi as int),
    decreases hi - lo,
{
    let mut out: Vec<usize> = Vec::new();
    if hi - lo == 0 {
        return out;
    }
    if hi - lo == 1 {
        out.push(lo);
        assert(out@[0] == lo);
        return out;
    }
    let mid: usize = lo + (hi - lo) / 2;
    let left = sort_run(keys, lo, mid);
    let right = sort_run(keys, mid, hi);
    merge(keys, &left, &right, lo, mid, hi)
}

/// Sorts stably: the places of the items in sorted order.
pub fn stable_order(keys: &Vec<Key>) -> (order: Vec<usize>)
    ensures
        is_stable_order(keys.deep_view(), order@),
{
    sort_run(keys, 0, keys.len())
}

/// A sorted list keeps its order.
pub proof fn sorted_list_stays(keys: Seq<Seq<Seq<u64>>>, order: Seq<usize>, i: int)
    requires
        is_stable_order(keys, order),
        forall|a: int, b: int|
            0 <= a < b < keys.len() ==> !key_less(#[trigger] keys[b], #[trigger] keys[a]),
        0 <= i < order.len(),
    ensures
        order[i] == i,
{
    assert forall|a: int, b: int| 0 <= a < b < order.len() implies (#[trigger] order[a]) < (
    #[trigger] order[b]) by {
        let x = order[a] as int;
        let y = order[b] as int;
        assert(precedes(keys, x, y));
        key_less_is_strict(keys[x], keys[x], keys[x]);
        if y < x {
            assert(!key_less(keys[x], keys[y]));
        }
    }
    rising_places(order, i);
}

/// Rising places below their number are all places in order.
proof fn rising_places(order: Seq<usize>, i: int)
    requires
        forall|a: int| 0 <= a < order.len() ==> (#[trigger] order[a]) < order.len(),
        forall|a: int, b: int|
            0 <= a < b < order.len() ==> (#[trigger] order[a]) < (#[trigger] order[b]),
        0 <= i < order.len(),
    ensures
        order[i] == i,
{
    at_least_its_place(order, i);
    at_most_its_place(order, i);
}

proof fn at_least_its_place(order: Seq<usize>, i: int)
    requires
        forall|a: int, b: int|
            0 <= a < b < order.len() ==> (#[trigger] order[a]) < (#[trigger] order[b]),
        0 <= i < order.len(),
    ensures
        order[i] >= i,
    decreases i,
{
    if i > 0 {
        at_least_its_place(order, i - 1);
        assert(order[i - 1] < order[i]);
    }
}

proof fn at_most_its_place(order: Seq<usize>, i: int)
    requires
        forall|a: int| 0 <= a < order.len() ==> (#[trigger] order[a]) < order.len(),
        forall|a: int, b: int|
            0 <= a < b < order.len() ==> (#[trigger] order[a]) < (#[trigger] order[b]),
        0 <= i < order.len(),
    ensures
        order[i] <= i,
    decreases order.len() - i,
{
    if i < order.len() - 1 {
        at_most_its_place(order, i + 1);
        assert(order[i] < order[i + 1]);
    }
}

} // verus!
