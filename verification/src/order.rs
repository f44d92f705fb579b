//! Stable ordering of items by a key made of a number and a text, the way
//! `slice::sort_by` orders them with a key comparison: ascending by key, and items
//! with equal keys in their original order.
use vstd::prelude::*;

use crate::text::chars_of;

verus! {

/// Three-way comparison of texts, char by char (`-1`, `0` or `1`). On UTF-8 text this is
/// the byte order in which `str` compares.
pub open spec fn text_order(a: Seq<char>, b: Seq<char>) -> int
    decreases a.len(),
{
    if a.len() == 0 {
        if b.len() == 0 {
            0
        } else {
            -1
        }
    } else if b.len() == 0 {
        1
    } else if (a[0] as int) < (b[0] as int) {
        -1
    } else if (a[0] as int) > (b[0] as int) {
        1
    } else {
        text_order(a.drop_first(), b.drop_first())
    }
}

/// Three-way comparison of keys: by number, then by text.
pub open spec fn key_order(a: (i64, Seq<char>), b: (i64, Seq<char>)) -> int {
    if a.0 < b.0 {
        -1
    } else if a.0 > b.0 {
        1
    } else {
        text_order(a.1, b.1)
    }
}

/// Item `i` comes before item `j` in the stable order of `keys`: its key is smaller,
/// or the keys are equal and `i` came first.
pub open spec fn precedes(keys: Seq<(i64, Seq<char>)>, i: int, j: int) -> bool {
    key_order(keys[i], keys[j]) < 0 || (key_order(keys[i], keys[j]) == 0 && i < j)
}

/// `order` lists each position of `keys` once, in the stable order of the keys.
pub open spec fn stable_order(keys: Seq<(i64, Seq<char>)>, order: Seq<usize>) -> bool {
    &&& order.len() == keys.len()
    &&& forall|k: int| 0 <= k < order.len() ==> #[trigger] order[k] < keys.len()
    &&& forall|a: int, b: int|
        0 <= a < b < order.len() ==> precedes(keys, #[trigger] order[a] as int, #[trigger] order[b] as int)
}

/// `r` holds the items of `items` in the stable order of `keys`.
pub open spec fn stably_sorted<T>(items: Seq<T>, keys: Seq<(i64, Seq<char>)>, r: Seq<T>) -> bool {
    exists|order: Seq<usize>|
        stable_order(keys, order) && r.len() == items.len() && forall|k: int|
            0 <= k < r.len() ==> r[k] == items[#[trigger] order[k] as int]
}

/// The keys as plain values.
pub open spec fn key_views(keys: Seq<(i64, String)>) -> Seq<(i64, Seq<char>)> {
    keys.map_values(|k: (i64, String)| (k.0, k.1@))
}

pub proof fn lemma_text_order_antisym(a: Seq<char>, b: Seq<char>)
    ensures
        text_order(a, b) == -text_order(b, a),
        text_order(a, b) == 0 <==> a == b,
        -1 <= text_order(a, b) <= 1,
    decreases a.len(),
{
    if a.len() > 0 && b.len() > 0 && a[0] == b[0] {
        lemma_text_order_antisym(a.drop_first(), b.drop_first());
        if a.drop_first() == b.drop_first() {
            assert forall|i: int| 0 <= i < a.len() implies a[i] == b[i] by {
                if i > 0 {
                    assert(a[i] == a.drop_first()[i - 1]);
                    assert(b[i] == b.drop_first()[i - 1]);
                }
            }
            assert(a =~= b);
        }
    }
    if a.len() > 0 && b.len() > 0 && a[0] != b[0] {
        assert((a[0] as int) != (b[0] as int));
    }
    if a.len() == 0 && b.len() == 0 {
        assert(a =~= b);
    }
}

pub proof fn lemma_text_order_trans(a: Seq<char>, b: Seq<char>, c: Seq<char>)
    requires
        text_order(a, b) < 0,
        text_order(b, c) < 0,
    ensures
        text_order(a, c) < 0,
    decreases a.len(),
{
    if a.len() > 0 && b.len() > 0 && c.len() > 0 && a[0] == b[0] && b[0] == c[0] {
        lemma_text_order_trans(a.drop_first(), b.drop_first(), c.drop_first());
    }
}

proof fn lemma_key_order(a: (i64, Seq<char>), b: (i64, Seq<char>), c: (i64, Seq<char>))
    ensures
        key_order(a, b) == -key_order(b, a),
        key_order(a, b) == 0 <==> a == b,
        key_order(a, b) < 0 && key_order(b, c) < 0 ==> key_order(a, c) < 0,
        key_order(a, b) == 0 ==> key_order(a, c) == key_order(b, c),
{
    lemma_text_order_antisym(a.1, b.1);
    lemma_text_order_antisym(b.1, c.1);
    lemma_text_order_antisym(a.1, c.1);
    if key_order(a, b) < 0 && key_order(b, c) < 0 && a.0 == b.0 && b.0 == c.0 {
        lemma_text_order_trans(a.1, b.1, c.1);
    }
}

/// `precedes` is a strict total order on the positions of `keys`.
pub proof fn lemma_precedes_order(keys: Seq<(i64, Seq<char>)>, i: int, j: int, k: int)
    ensures
        !precedes(keys, i, i),
        i != j ==> (precedes(keys, i, j) || precedes(keys, j, i)),
        precedes(keys, i, j) ==> !precedes(keys, j, i),
        precedes(keys, i, j) && precedes(keys, j, k) ==> precedes(keys, i, k),
{
    lemma_key_order(keys[i], keys[j], keys[k]);
    lemma_key_order(keys[j], keys[k], keys[i]);
    lemma_key_order(keys[i], keys[k], keys[j]);
    lemma_key_order(keys[i], keys[i], keys[i]);
}

/// Three-way comparison of two texts.
fn compare_text(a: &str, b: &str) -> (r: i8)
    ensures
        r == text_order(a@, b@),
{
    let x = chars_of(a);
    let y = chars_of(b);
    let mut i: usize = 0;
    assert(x@.skip(0) =~= x@);
    assert(y@.skip(0) =~= y@);
    while i < x.len() && i < y.len()
        invariant
            0 <= i <= x@.len(),
            i <= y@.len(),
            x@ == a@,
            y@ == b@,
            text_order(a@, b@) == text_order(x@.skip(i as int), y@.skip(i as int)),
        decreases x@.len() - i,
    {
        let ghost xs = x@.skip(i as int);
        let ghost ys = y@.skip(i as int);
        assert(xs[0] == x@[i as int]);
        assert(ys[0] == y@[i as int]);
        if x[i] < y[i] {
            return -1;
        }
        if x[i] > y[i] {
            return 1;
        }
        assert(xs.drop_first() =~= x@.skip(i + 1));
        assert(ys.drop_first() =~= y@.skip(i + 1));
        i += 1;
    }
    if i < x.len() {
        1
    } else if i < y.len() {
        -1
    } else {
        0
    }
}

/// Three-way comparison of two keys.
fn compare_key(a: &(i64, String), b: &(i64, String)) -> (r: i8)
    ensures
        r == key_order((a.0, a.1@), (b.0, b.1@)),
{
    if a.0 < b.0 {
        -1
    } else if a.0 > b.0 {
        1
    } else {
        compare_text(a.1.as_str(), b.1.as_str())
    }
}

/// The positions of `keys` in stable order.
pub fn stable_order_of(keys: &Vec<(i64, String)>) -> (r: Vec<usize>)
    ensures
        stable_order(key_views(keys@), r@),
{
    let ghost kv = key_views(keys@);
    let mut order: Vec<usize> = Vec::new();
    let mut i: usize = 0;
    while i < keys.len()
        invariant
            0 <= i <= keys@.len(),
            kv == key_views(keys@),
            order@.len() == i,
            forall|k: int| 0 <= k < order@.len() ==> #[trigger] order@[k] < i,
            forall|a: int, b: int|
                0 <= a < b < order@.len() ==> precedes(kv, #[trigger] order@[a] as int, #[trigger] order@[b] as int),
        decreases keys@.len() - i,
    {
        // Find the first listed position that does not come before `i`.
        let mut pos: usize = 0;
        while pos < order.len() && compare_key(&keys[order[pos]], &keys[i]) <= 0
            invariant
                0 <= pos <= order@.len(),
                i < keys@.len(),
                kv == key_views(keys@),
                order@.len() == i,
                forall|k: int| 0 <= k < order@.len() ==> #[trigger] order@[k] < i,
                forall|k: int| 0 <= k < pos ==> precedes(kv, #[trigger] order@[k] as int, i as int),
            decreases order@.len() - pos,
        {
            proof {
                let o = order@[pos as int] as int;
                assert(kv[o] == (keys@[o].0, keys@[o].1@));
                assert(kv[i as int] == (keys@[i as int].0, keys@[i as int].1@));
            }
            pos += 1;
        }
        proof {
            if pos < order@.len() {
                let o = order@[pos as int] as int;
                assert(kv[o] == (keys@[o].0, keys@[o].1@));
                assert(kv[i as int] == (keys@[i as int].0, keys@[i as int].1@));
                assert(!precedes(kv, o, i as int));
                assert forall|k: int| pos <= k < order@.len() implies precedes(
                    kv,
                    i as int,
                    #[trigger] order@[k] as int,
                ) by {
                    lemma_precedes_order(kv, i as int, order@[k] as int, o);
                    lemma_precedes_order(kv, o, order@[k] as int, i as int);
                    if k > pos {
                        assert(precedes(kv, o, order@[k] as int));
                    }
                }
            }
        }
        let ghost before = order@;
        order.insert(pos, i);
        proof {
            assert forall|a: int, b: int| 0 <= a < b < order@.len() implies precedes(
                kv,
                #[trigger] order@[a] as int,
                #[trigger] order@[b] as int,
            ) by {
                if a < pos as int && b < pos as int {
                    assert(order@[a] == before[a] && order@[b] == before[b]);
                } else if a < pos as int && b == pos as int {
                    assert(order@[a] == before[a]);
                } else if a < pos as int {
                    assert(order@[a] == before[a] && order@[b] == before[b - 1]);
                } else if a == pos as int {
                    assert(order@[b] == before[b - 1]);
                } else {
                    assert(order@[a] == before[a - 1] && order@[b] == before[b - 1]);
                }
            }
            assert forall|k: int| 0 <= k < order@.len() implies #[trigger] order@[k] < i + 1 by {
                if k < pos as int {
                    assert(order@[k] == before[k]);
                } else if k > pos as int {
                    assert(order@[k] == before[k - 1]);
                }
            }
        }
        i += 1;
    }
    order
}

/// Positions listed in a stable order are distinct.
pub proof fn lemma_stable_order_distinct(keys: Seq<(i64, Seq<char>)>, order: Seq<usize>, a: int, b: int)
    requires
        stable_order(keys, order),
        0 <= a < order.len(),
        0 <= b < order.len(),
        a != b,
    ensures
        order[a] != order[b],
{
    if a < b {
        assert(precedes(keys, order[a] as int, order[b] as int));
        lemma_precedes_order(keys, order[a] as int, order[a] as int, order[a] as int);
    } else {
        assert(precedes(keys, order[b] as int, order[a] as int));
        lemma_precedes_order(keys, order[a] as int, order[a] as int, order[a] as int);
    }
}

/// The items of `items` in the stable order of `keys` (one key per item).
pub fn sort_stably<T>(items: Vec<T>, keys: &Vec<(i64, String)>) -> (r: Vec<T>)
    requires
        items@.len() == keys@.len(),
    ensures
        stably_sorted(items@, key_views(keys@), r@),
{
    let ghost kv = key_views(keys@);
    let ghost original = items@;
    let order = stable_order_of(keys);
    let mut items = items;
    let mut slots: Vec<Option<T>> = Vec::new();
    while items.len() > 0
        invariant
            slots@.len() + items@.len() == original.len(),
            forall|j: int| 0 <= j < slots@.len() ==> #[trigger] slots@[j] == Some(original[j]),
            forall|j: int| 0 <= j < items@.len() ==> #[trigger] items@[j] == original[slots@.len() + j],
        decreases items@.len(),
    {
        let ghost rest = items@;
        let item = items.remove(0);
        slots.push(Some(item));
        proof {
            assert forall|j: int| 0 <= j < items@.len() implies #[trigger] items@[j] == original[slots@.len() + j] by {
                assert(items@[j] == rest[j + 1]);
            }
        }
    }
    let mut out: Vec<T> = Vec::new();
    let mut k: usize = 0;
    while k < order.len()
        invariant
            0 <= k <= order@.len(),
            stable_order(kv, order@),
            kv.len() == original.len(),
            slots@.len() == original.len(),
            out@.len() == k,
            forall|j: int| 0 <= j < k ==> #[trigger] out@[j] == original[order@[j] as int],
            forall|j: int|
                0 <= j < slots@.len() ==> (#[trigger] slots@[j] is None <==> exists|m: int|
                    0 <= m < k && order@[m] == j),
            forall|j: int| 0 <= j < slots@.len() && slots@[j] is Some ==> #[trigger] slots@[j] == Some(original[j]),
        decreases order@.len() - k,
    {
        let idx = order[k];
        assert(slots@[idx as int] is Some) by {
            if slots@[idx as int] is None {
                let m = choose|m: int| 0 <= m < k && order@[m] == idx;
                lemma_stable_order_distinct(kv, order@, m, k as int);
            }
        }
        let taken = slots.remove(idx);
        slots.insert(idx, None);
        match taken {
            Some(item) => out.push(item),
            None => {},
        }
        proof {
            assert forall|j: int| 0 <= j < slots@.len() implies (#[trigger] slots@[j] is None <==> exists|m: int|
                0 <= m < k + 1 && order@[m] == j) by {
                if j != idx as int {
                    if exists|m: int| 0 <= m < k + 1 && order@[m] == j {
                        let m = choose|m: int| 0 <= m < k + 1 && order@[m] == j;
                        assert(m < k);
                    }
                } else {
                    assert(order@[k as int] == j);
                }
            }
        }
        k += 1;
    }
    assert(stable_order(kv, order@) && out@.len() == original.len() && forall|j: int|
        0 <= j < out@.len() ==> out@[j] == original[#[trigger] order@[j] as int]);
    out
}

} // verus!
