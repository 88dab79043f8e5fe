//! The order of texts and the stable order of keyed rows.

use vstd::prelude::*;

use crate::text::{chars_of, texts};

verus! {

/// `a` comes before `b`, character by character; a text comes before its
/// continuations.
pub open spec fn text_lt(a: Seq<char>, b: Seq<char>) -> bool
    decreases a.len(),
{
    if b.len() == 0 {
        false
    } else if a.len() == 0 {
        true
    } else if a[0] != b[0] {
        a[0] < b[0]
    } else {
        text_lt(a.drop_first(), b.drop_first())
    }
}

/// `a` comes before `b`, text by text.
pub open spec fn texts_lt(a: Seq<Seq<char>>, b: Seq<Seq<char>>) -> bool
    decreases a.len(),
{
    if b.len() == 0 {
        false
    } else if a.len() == 0 {
        true
    } else if a[0] != b[0] {
        text_lt(a[0], b[0])
    } else {
        texts_lt(a.drop_first(), b.drop_first())
    }
}

/// What rows are ordered by: two numbers, then a row of texts.
pub struct KeyView {
    /// Looked at first.
    pub major: nat,
    /// Looked at where the first are equal.
    pub minor: nat,
    /// Looked at last.
    pub parts: Seq<Seq<char>>,
}

/// The order of keys.
pub open spec fn key_lt(a: KeyView, b: KeyView) -> bool {
    if a.major != b.major {
        a.major < b.major
    } else if a.minor != b.minor {
        a.minor < b.minor
    } else {
        texts_lt(a.parts, b.parts)
    }
}

/// Row `i` comes before row `j`: by key, and by position where the keys are equal.
pub open spec fn row_before(keys: Seq<KeyView>, i: int, j: int) -> bool {
    key_lt(keys[i], keys[j]) || (keys[i] == keys[j] && i < j)
}

/// `order` lists the positions of `keys`, each once, in their order.
pub open spec fn is_stable_order(keys: Seq<KeyView>, order: Seq<int>) -> bool {
    &&& order.len() == keys.len()
    &&& forall|x: int| 0 <= x < order.len() ==> 0 <= #[trigger] order[x] < keys.len()
    &&& forall|x: int, y: int|
        0 <= x < y < order.len() ==> row_before(keys, #[trigger] order[x], #[trigger] order[y])
}

// --- the order is total ------------------------------------------------------

proof fn lemma_text_irreflexive(a: Seq<char>)
    ensures
        !text_lt(a, a),
    decreases a.len(),
{
    if a.len() > 0 {
        lemma_text_irreflexive(a.drop_first());
    }
}

proof fn lemma_text_total(a: Seq<char>, b: Seq<char>)
    ensures
        a == b || text_lt(a, b) || text_lt(b, a),
    decreases a.len(),
{
    if a.len() > 0 && b.len() > 0 && a[0] == b[0] {
        lemma_text_total(a.drop_first(), b.drop_first());
        if a.drop_first() == b.drop_first() {
            assert(a =~= seq![a[0]] + a.drop_first());
            assert(b =~= seq![b[0]] + b.drop_first());
        }
    } else if a.len() == 0 && b.len() == 0 {
        assert(a =~= b);
    }
}

proof fn lemma_text_transitive(a: Seq<char>, b: Seq<char>, c: Seq<char>)
    requires
        text_lt(a, b),
        text_lt(b, c),
    ensures
        text_lt(a, c),
    decreases a.len(),
{
    if a.len() > 0 && a[0] == b[0] && b[0] == c[0] {
        lemma_text_transitive(a.drop_first(), b.drop_first(), c.drop_first());
    }
}

proof fn lemma_texts_irreflexive(a: Seq<Seq<char>>)
    ensures
        !texts_lt(a, a),
    decreases a.len(),
{
    if a.len() > 0 {
        lemma_texts_irreflexive(a.drop_first());
    }
}

proof fn lemma_texts_total(a: Seq<Seq<char>>, b: Seq<Seq<char>>)
    ensures
        a == b || texts_lt(a, b) || texts_lt(b, a),
    decreases a.len(),
{
    if a.len() > 0 && b.len() > 0 {
        lemma_text_total(a[0], b[0]);
        if a[0] == b[0] {
            lemma_texts_total(a.drop_first(), b.drop_first());
            if a.drop_first() == b.drop_first() {
                assert(a =~= seq![a[0]] + a.drop_first());
                assert(b =~= seq![b[0]] + b.drop_first());
            }
        }
    } else if a.len() == 0 && b.len() == 0 {
        assert(a =~= b);
    }
}

proof fn lemma_texts_transitive(a: Seq<Seq<char>>, b: Seq<Seq<char>>, c: Seq<Seq<char>>)
    requires
        texts_lt(a, b),
        texts_lt(b, c),
    ensures
        texts_lt(a, c),
    decreases a.len(),
{
    if a.len() > 0 {
        if a[0] == b[0] && b[0] == c[0] {
            lemma_texts_transitive(a.drop_first(), b.drop_first(), c.drop_first());
        } else if a[0] != b[0] && b[0] != c[0] {
            lemma_text_transitive(a[0], b[0], c[0]);
            if a[0] == c[0] {
                lemma_text_irreflexive(a[0]);
            }
        }
    }
}

/// No key comes before itself.
pub proof fn lemma_key_irreflexive(a: KeyView)
    ensures
        !key_lt(a, a),
{
    lemma_texts_irreflexive(a.parts);
}

/// Of two keys that differ one comes before the other.
pub proof fn lemma_key_total(a: KeyView, b: KeyView)
    ensures
        a == b || key_lt(a, b) || key_lt(b, a),
{
    lemma_texts_total(a.parts, b.parts);
}

/// The order of keys is transitive.
pub proof fn lemma_key_transitive(a: KeyView, b: KeyView, c: KeyView)
    requires
        key_lt(a, b),
        key_lt(b, c),
    ensures
        key_lt(a, c),
{
    if a.major == b.major && a.minor == b.minor && b.major == c.major && b.minor == c.minor {
        lemma_texts_transitive(a.parts, b.parts, c.parts);
    }
}

proof fn lemma_row_transitive(keys: Seq<KeyView>, i: int, j: int, k: int)
    requires
        row_before(keys, i, j),
        row_before(keys, j, k),
    ensures
        row_before(keys, i, k),
{
    if key_lt(keys[i], keys[j]) && key_lt(keys[j], keys[k]) {
        lemma_key_transitive(keys[i], keys[j], keys[k]);
    }
}

proof fn lemma_row_asymmetric(keys: Seq<KeyView>, i: int, j: int)
    requires
        row_before(keys, i, j),
    ensures
        !row_before(keys, j, i),
        i != j,
{
    if row_before(keys, j, i) {
        lemma_row_transitive(keys, i, j, i);
    }
    lemma_key_irreflexive(keys[i]);
}

/// A stable order holds every position exactly once.
pub proof fn lemma_order_permutes(keys: Seq<KeyView>, order: Seq<int>)
    requires
        is_stable_order(keys, order),
    ensures
        order.no_duplicates(),
        order.to_set() == vstd::set_lib::set_int_range(0, keys.len() as int),
{
    assert forall|x: int, y: int| 0 <= x < order.len() && 0 <= y < order.len() && x != y implies order[x] != order[y] by {
        if x < y {
            lemma_row_asymmetric(keys, order[x], order[y]);
        } else {
            lemma_row_asymmetric(keys, order[y], order[x]);
        }
    }
    order.unique_seq_to_set();
    let all = vstd::set_lib::set_int_range(0, keys.len() as int);
    vstd::set_lib::lemma_int_range(0, keys.len() as int);
    vstd::seq_lib::seq_to_set_is_finite(order);
    assert(order.to_set().subset_of(all));
    vstd::set_lib::lemma_subset_equality(order.to_set(), all);
}

/// There is only one stable order of a row of keys.
pub proof fn law_order_unique(keys: Seq<KeyView>, a: Seq<int>, b: Seq<int>)
    requires
        is_stable_order(keys, a),
        is_stable_order(keys, b),
    ensures
        a == b,
{
    broadcast use vstd::multiset::group_multiset_axioms;
    broadcast use vstd::seq_lib::group_to_multiset_ensures;

    lemma_order_permutes(keys, a);
    lemma_order_permutes(keys, b);
    a.lemma_multiset_has_no_duplicates();
    b.lemma_multiset_has_no_duplicates();
    assert forall|v: int| a.to_multiset().count(v) == b.to_multiset().count(v) by {
        assert(a.to_set().contains(v) == b.to_set().contains(v));
        assert(a.to_set().contains(v) == a.contains(v));
        assert(b.to_set().contains(v) == b.contains(v));
        assert(a.contains(v) == (a.to_multiset().count(v) > 0));
        assert(b.contains(v) == (b.to_multiset().count(v) > 0));
        assert(a.to_multiset().contains(v) == (a.to_multiset().count(v) > 0));
        assert(b.to_multiset().contains(v) == (b.to_multiset().count(v) > 0));
    }
    assert(a.to_multiset() =~= b.to_multiset());
    let leq = |i: int, j: int| i == j || row_before(keys, i, j);
    assert forall|i: int, j: int| #[trigger] leq(i, j) && #[trigger] leq(j, i) implies i == j by {
        if i != j {
            lemma_row_asymmetric(keys, i, j);
        }
    }
    assert forall|i: int, j: int, k: int| #[trigger] leq(i, j) && #[trigger] leq(j, k) implies leq(i, k) by {
        if i != j && j != k {
            lemma_row_transitive(keys, i, j, k);
        }
    }
    assert forall|i: int, j: int| #[trigger] leq(i, j) || leq(j, i) by {
        if i != j {
            lemma_key_total(keys[i], keys[j]);
        }
    }
    assert(vstd::relations::total_ordering(leq));
    assert forall|x: int, y: int| 0 <= x < y < a.len() implies #[trigger] leq(a[x], a[y]) by {
        assert(row_before(keys, a[x], a[y]));
    }
    assert forall|x: int, y: int| 0 <= x < y < b.len() implies #[trigger] leq(b[x], b[y]) by {
        assert(row_before(keys, b[x], b[y]));
    }
    assert(vstd::relations::sorted_by(a, leq));
    assert(vstd::relations::sorted_by(b, leq));
    vstd::seq_lib::lemma_sorted_unique(a, b, leq);
}

// --- executable --------------------------------------------------------------

/// What rows are ordered by.
pub struct SortKey {
    /// Looked at first.
    pub major: u64,
    /// Looked at where the first are equal.
    pub minor: u64,
    /// Looked at last.
    pub parts: Vec<String>,
}

impl View for SortKey {
    type V = KeyView;

    open spec fn view(&self) -> KeyView {
        KeyView { major: self.major as nat, minor: self.minor as nat, parts: texts(self.parts@) }
    }
}

/// The views of a row of keys.
pub open spec fn key_views(keys: Seq<SortKey>) -> Seq<KeyView> {
    keys.map_values(|k: SortKey| k@)
}

/// Whether `a` comes before `b`, character by character.
pub fn text_less(a: &str, b: &str) -> (r: bool)
    ensures
        r == text_lt(a@, b@),
{
    let x = chars_of(a);
    let y = chars_of(b);
    let mut i: usize = 0;
    assert(x@.skip(0) =~= x@ && y@.skip(0) =~= y@);
    while i < x.len() && i < y.len()
        invariant
            i <= x.len(),
            i <= y.len(),
            x@ == a@,
            y@ == b@,
            text_lt(x@, y@) == text_lt(x@.skip(i as int), y@.skip(i as int)),
        decreases x.len() - i,
    {
        proof {
            assert(x@.skip(i as int)[0] == x@[i as int]);
            assert(y@.skip(i as int)[0] == y@[i as int]);
            assert(x@.skip(i as int).drop_first() =~= x@.skip(i as int + 1));
            assert(y@.skip(i as int).drop_first() =~= y@.skip(i as int + 1));
        }
        if x[i] != y[i] {
            return x[i] < y[i];
        }
        i += 1;
    }
    i < y.len()
}

/// Whether `a` comes before `b`, text by text.
pub fn texts_less(a: &Vec<String>, b: &Vec<String>) -> (r: bool)
    ensures
        r == texts_lt(texts(a@), texts(b@)),
{
    let ghost x = texts(a@);
    let ghost y = texts(b@);
    let mut i: usize = 0;
    assert(x.skip(0) =~= x && y.skip(0) =~= y);
    while i < a.len() && i < b.len()
        invariant
            i <= a.len(),
            i <= b.len(),
            x == texts(a@),
            y == texts(b@),
            texts_lt(x, y) == texts_lt(x.skip(i as int), y.skip(i as int)),
        decreases a.len() - i,
    {
        proof {
            assert(x.skip(i as int)[0] == a@[i as int]@);
            assert(y.skip(i as int)[0] == b@[i as int]@);
            assert(x.skip(i as int).drop_first() =~= x.skip(i as int + 1));
            assert(y.skip(i as int).drop_first() =~= y.skip(i as int + 1));
        }
        if !crate::text::str_eq(a[i].as_str(), b[i].as_str()) {
            return text_less(a[i].as_str(), b[i].as_str());
        }
        i += 1;
    }
    i < b.len()
}

/// Whether key `a` comes before key `b`.
pub fn key_less(a: &SortKey, b: &SortKey) -> (r: bool)
    ensures
        r == key_lt(a@, b@),
{
    if a.major != b.major {
        a.major < b.major
    } else if a.minor != b.minor {
        a.minor < b.minor
    } else {
        texts_less(&a.parts, &b.parts)
    }
}

/// The positions of a machine-sized row as integers.
pub open spec fn positions(order: Seq<usize>) -> Seq<int> {
    order.map_values(|i: usize| i as int)
}

/// `order` is a sorted arrangement of some of the positions `lo..hi`.
spec fn sorted_part(keys: Seq<KeyView>, order: Seq<usize>, lo: int, hi: int) -> bool {
    &&& forall|x: int| 0 <= x < order.len() ==> lo <= #[trigger] order[x] < hi
    &&& forall|x: int, y: int|
        0 <= x < y < order.len() ==> row_before(
            keys,
            #[trigger] order[x] as int,
            #[trigger] order[y] as int,
        )
}

/// Merges two sorted arrangements of neighbouring position ranges.
fn merge_orders(keys: &Vec<SortKey>, left: &Vec<usize>, right: &Vec<usize>, lo: usize, mid: usize, hi: usize) -> (r: Vec<usize>)
    requires
        lo <= mid <= hi <= keys@.len(),
        left@.len() == mid - lo,
        right@.len() == hi - mid,
        sorted_part(key_views(keys@), left@, lo as int, mid as int),
        sorted_part(key_views(keys@), right@, mid as int, hi as int),
    ensures
        r@.len() == hi - lo,
        sorted_part(key_views(keys@), r@, lo as int, hi as int),
{
    let ghost kv = key_views(keys@);
    let mut r: Vec<usize> = Vec::new();
    let mut i: usize = 0;
    let mut j: usize = 0;
    while i < left.len() || j < right.len()
        invariant
            lo <= mid <= hi <= keys@.len(),
            kv == key_views(keys@),
            left@.len() == mid - lo,
            right@.len() == hi - mid,
            sorted_part(kv, left@, lo as int, mid as int),
            sorted_part(kv, right@, mid as int, hi as int),
            i <= left.len(),
            j <= right.len(),
            r@.len() == i + j,
            sorted_part(kv, r@, lo as int, hi as int),
            forall|x: int, y: int|
                0 <= x < r@.len() && i <= y < left@.len() ==> row_before(
                    kv,
                    #[trigger] r@[x] as int,
                    #[trigger] left@[y] as int,
                ),
            forall|x: int, y: int|
                0 <= x < r@.len() && j <= y < right@.len() ==> row_before(
                    kv,
                    #[trigger] r@[x] as int,
                    #[trigger] right@[y] as int,
                ),
        decreases left.len() - i + right.len() - j,
    {
        let take_left: bool = if i >= left.len() {
            false
        } else if j >= right.len() {
            true
        } else {
            let a = left[i];
            let b = right[j];
            proof {
                lemma_key_total(kv[a as int], kv[b as int]);
            }
            !key_less(&keys[b], &keys[a])
        };
        let ghost r0 = r@;
        if take_left {
            let v = left[i];
            proof {
                assert forall|y: int| j <= y < right@.len() implies row_before(kv, v as int, #[trigger] right@[y] as int) by {
                    assert(row_before(kv, v as int, right@[j as int] as int));
                    if y > j {
                        assert(row_before(kv, right@[j as int] as int, right@[y] as int));
                        lemma_row_transitive(kv, v as int, right@[j as int] as int, right@[y] as int);
                    }
                }
            }
            r.push(v);
            i += 1;
        } else {
            let v = right[j];
            proof {
                assert forall|y: int| i <= y < left@.len() implies row_before(kv, v as int, #[trigger] left@[y] as int) by {
                    assert(row_before(kv, v as int, left@[i as int] as int));
                    if y > i {
                        assert(row_before(kv, left@[i as int] as int, left@[y] as int));
                        lemma_row_transitive(kv, v as int, left@[i as int] as int, left@[y] as int);
                    }
                }
            }
            r.push(v);
            j += 1;
        }
    }
    r
}

/// The positions `lo..hi` in the order of their keys.
fn order_range(keys: &Vec<SortKey>, lo: usize, hi: usize) -> (r: Vec<usize>)
    requires
        lo <= hi <= keys@.len(),
    ensures
        r@.len() == hi - lo,
        sorted_part(key_views(keys@), r@, lo as int, hi as int),
    decreases hi - lo,
{
    if hi - lo <= 1 {
        let mut r: Vec<usize> = Vec::new();
        if lo < hi {
            r.push(lo);
        }
        return r;
    }
    let mid: usize = lo + (hi - lo) / 2;
    let left = order_range(keys, lo, mid);
    let right = order_range(keys, mid, hi);
    merge_orders(keys, &left, &right, lo, mid, hi)
}

/// The positions of `keys` in the order of the keys; equal keys keep their
/// places relative to each other.
pub fn stable_order(keys: &Vec<SortKey>) -> (r: Vec<usize>)
    ensures
        is_stable_order(key_views(keys@), positions(r@)),
        forall|x: int| 0 <= x < r@.len() ==> #[trigger] r@[x] < keys@.len(),
{
    let r = order_range(keys, 0, keys.len());
    let ghost kv = key_views(keys@);
    let ghost o = positions(r@);
    proof {
        assert forall|x: int, y: int| 0 <= x < y < o.len() implies row_before(kv, #[trigger] o[x], #[trigger] o[y]) by {
            assert(row_before(kv, r@[x] as int, r@[y] as int));
        }
    }
    r
}

/// The stable order of rows with the given keys. There is one, and no other.
pub open spec fn order_of(keys: Seq<KeyView>) -> Seq<int> {
    choose|order: Seq<int>| is_stable_order(keys, order)
}

/// The place of the last row in an order of the rows before it: behind the first
/// `k` or fewer.
spec fn insert_point(keys: Seq<KeyView>, order: Seq<int>, k: int) -> int
    decreases k,
{
    if k <= 0 {
        0
    } else if row_before(keys, order[k - 1], keys.len() - 1) {
        k
    } else {
        insert_point(keys, order, k - 1)
    }
}

proof fn lemma_insert_point(keys: Seq<KeyView>, order: Seq<int>, k: int)
    requires
        keys.len() > 0,
        is_stable_order(keys.drop_last(), order),
        0 <= k <= order.len(),
        forall|x: int|
            k <= x < order.len() ==> row_before(keys, keys.len() - 1, #[trigger] order[x]),
    ensures
        ({
            let at = insert_point(keys, order, k);
            &&& 0 <= at <= order.len()
            &&& forall|x: int|
                0 <= x < at ==> row_before(keys, #[trigger] order[x], keys.len() - 1)
            &&& forall|x: int|
                at <= x < order.len() ==> row_before(keys, keys.len() - 1, #[trigger] order[x])
        }),
    decreases k,
{
    let n = keys.len() - 1;
    let head = keys.drop_last();
    if k > 0 {
        assert(0 <= order[k - 1] < n);
        if row_before(keys, order[k - 1], n) {
            assert forall|x: int| 0 <= x < k implies row_before(keys, #[trigger] order[x], n) by {
                if x < k - 1 {
                    assert(row_before(head, order[x], order[k - 1]));
                    lemma_row_transitive(keys, order[x], order[k - 1], n);
                }
            }
        } else {
            lemma_key_total(keys[order[k - 1]], keys[n]);
            lemma_insert_point(keys, order, k - 1);
        }
    }
}

proof fn lemma_order_exists(keys: Seq<KeyView>) -> (order: Seq<int>)
    ensures
        is_stable_order(keys, order),
    decreases keys.len(),
{
    if keys.len() == 0 {
        seq![]
    } else {
        let n = keys.len() - 1;
        let head = keys.drop_last();
        let o = lemma_order_exists(head);
        lemma_insert_point(keys, o, o.len() as int);
        let at = insert_point(keys, o, o.len() as int);
        let r = o.insert(at, n);
        assert forall|x: int, y: int| 0 <= x < y < r.len() implies row_before(
            keys,
            #[trigger] r[x],
            #[trigger] r[y],
        ) by {
            let u = if x < at { x } else { x - 1 };
            let v = if y < at { y } else { y - 1 };
            if x != at && y != at {
                assert(row_before(head, o[u], o[v]));
            } else if x == at {
                assert(row_before(keys, n, o[v]));
            } else {
                assert(row_before(keys, o[u], n));
            }
        }
        assert forall|x: int| 0 <= x < r.len() implies 0 <= #[trigger] r[x] < keys.len() by {
            let u = if x < at { x } else { x - 1 };
            if x != at {
                assert(0 <= o[u] < n);
            }
        }
        r
    }
}

/// Every row of keys has a stable order, which lists each position once.
pub proof fn law_order_exists(keys: Seq<KeyView>)
    ensures
        is_stable_order(keys, order_of(keys)),
        order_of(keys).no_duplicates(),
        order_of(keys).to_set() == vstd::set_lib::set_int_range(0, keys.len() as int),
{
    let order = lemma_order_exists(keys);
    assert(is_stable_order(keys, order));
    lemma_order_permutes(keys, order_of(keys));
}

/// A stable order is the stable order.
pub proof fn lemma_order_of(keys: Seq<KeyView>, order: Seq<int>)
    requires
        is_stable_order(keys, order),
    ensures
        order == order_of(keys),
{
    law_order_unique(keys, order, order_of(keys));
}

/// The texts, arranged by the keys.
pub fn arrange(rows: &Vec<String>, keys: &Vec<SortKey>) -> (r: Vec<String>)
    requires
        rows@.len() == keys@.len(),
    ensures
        texts(r@) == arranged(texts(rows@), order_of(key_views(keys@))),
{
    let order = stable_order(keys);
    let ghost o = positions(order@);
    proof {
        lemma_order_of(key_views(keys@), o);
    }
    let mut r: Vec<String> = Vec::new();
    let mut i: usize = 0;
    while i < order.len()
        invariant
            i <= order@.len(),
            rows@.len() == keys@.len(),
            o == positions(order@),
            forall|x: int| 0 <= x < order@.len() ==> #[trigger] order@[x] < keys@.len(),
            texts(r@) == arranged(texts(rows@), o.take(i as int)),
        decreases order@.len() - i,
    {
        let ghost r0 = texts(r@);
        r.push(rows[order[i]].clone());
        proof {
            assert(o.take(i as int + 1) =~= o.take(i as int).push(order@[i as int] as int));
            assert(texts(r@) =~= r0.push(texts(rows@)[order@[i as int] as int]));
            assert(texts(r@) =~= arranged(texts(rows@), o.take(i as int + 1)));
        }
        i += 1;
    }
    assert(o.take(o.len() as int) =~= o);
    r
}

/// What texts are ordered by: themselves.
pub open spec fn text_keys(v: Seq<Seq<char>>) -> Seq<KeyView> {
    v.map_values(|t: Seq<char>| KeyView { major: 0, minor: 0, parts: seq![t] })
}

/// The texts in their order.
pub open spec fn sorted_texts(v: Seq<Seq<char>>) -> Seq<Seq<char>> {
    arranged(v, order_of(text_keys(v)))
}

/// A row of one text.
pub fn one_part(s: &str) -> (r: Vec<String>)
    ensures
        texts(r@) == seq![s@],
{
    let r: Vec<String> = vec![s.to_owned()];
    assert(texts(r@) =~= seq![s@]);
    r
}

/// The texts in their order.
pub fn sort_texts(v: &Vec<String>) -> (r: Vec<String>)
    ensures
        texts(r@) == sorted_texts(texts(v@)),
{
    let mut keys: Vec<SortKey> = Vec::new();
    let ghost all = texts(v@);
    let mut i: usize = 0;
    assert(key_views(keys@) =~= text_keys(all.take(0)));
    while i < v.len()
        invariant
            i <= v@.len(),
            all == texts(v@),
            keys@.len() == i,
            key_views(keys@) == text_keys(all.take(i as int)),
        decreases v@.len() - i,
    {
        let ghost k0 = key_views(keys@);
        let key = SortKey { major: 0, minor: 0, parts: one_part(v[i].as_str()) };
        let ghost kv = key@;
        keys.push(key);
        proof {
            assert(key_views(keys@) =~= k0.push(kv));
            assert(key_views(keys@) =~= text_keys(all.take(i as int + 1)));
        }
        i += 1;
    }
    assert(all.take(all.len() as int) =~= all);
    arrange(v, &keys)
}

/// Rows that can be copied.
pub trait Row: View + Sized {
    /// A copy that looks the same.
    fn duplicate(&self) -> (r: Self)
        ensures
            r@ == self@,
    ;
}

/// What rows look like.
pub open spec fn views<T: View>(v: Seq<T>) -> Seq<T::V> {
    v.map_values(|x: T| x@)
}

/// At most the first `max` of a row.
pub open spec fn at_most<T>(s: Seq<T>, max: nat) -> Seq<T> {
    if s.len() <= max {
        s
    } else {
        s.take(max as int)
    }
}

/// The rows from `offset` on, at most `limit` of them.
pub open spec fn page_of<T>(s: Seq<T>, offset: nat, limit: nat) -> Seq<T> {
    if offset < s.len() {
        at_most(s.skip(offset as int), limit)
    } else {
        seq![]
    }
}

/// A page of the rows, arranged by the keys.
pub fn page<T: Row>(rows: &Vec<T>, keys: &Vec<SortKey>, offset: usize, limit: usize) -> (r: Vec<T>)
    requires
        rows@.len() == keys@.len(),
    ensures
        views(r@) == page_of(
            arranged(views(rows@), order_of(key_views(keys@))),
            offset as nat,
            limit as nat,
        ),
        order_of(key_views(keys@)).len() == rows@.len(),
{
    let order = stable_order(keys);
    let ghost o = positions(order@);
    let ghost all = arranged(views(rows@), o);
    proof {
        lemma_order_of(key_views(keys@), o);
    }
    let mut r: Vec<T> = Vec::new();
    let mut i: usize = offset;
    if offset >= order.len() {
        assert(views(r@) =~= seq![]);
        return r;
    }
    assert(views(r@) =~= all.skip(offset as int).take(0));
    while i < order.len() && r.len() < limit
        invariant
            offset <= i <= order@.len(),
            offset < order@.len(),
            rows@.len() == keys@.len(),
            o == positions(order@),
            all == arranged(views(rows@), o),
            all.len() == order@.len(),
            r@.len() == i - offset,
            r@.len() <= limit,
            forall|x: int| 0 <= x < order@.len() ==> #[trigger] order@[x] < keys@.len(),
            views(r@) == all.skip(offset as int).take(i - offset),
        decreases order@.len() - i,
    {
        let ghost r0 = views(r@);
        let row = rows[order[i]].duplicate();
        let ghost v = row@;
        r.push(row);
        proof {
            assert(v == all[i as int]);
            assert(views(r@) =~= r0.push(v));
            assert(views(r@) =~= all.skip(offset as int).take(i + 1 - offset));
        }
        i += 1;
    }
    assert(views(r@) =~= page_of(all, offset as nat, limit as nat));
    r
}

/// The pages of a row from `offset` on, put together: after a page comes the
/// next one as long as there are rows behind it.
pub open spec fn pages_from<T>(s: Seq<T>, offset: nat, limit: nat) -> Seq<T>
    decreases s.len() - offset,
{
    if limit > 0 && offset + limit < s.len() {
        page_of(s, offset, limit) + pages_from(s, offset + limit, limit)
    } else {
        page_of(s, offset, limit)
    }
}

/// The pages of a row, one after the other from any offset, are all that stands
/// there; from the start, they are the whole row.
pub proof fn law_pages_cover<T>(s: Seq<T>, offset: nat, limit: nat)
    requires
        limit > 0,
        offset <= s.len(),
    ensures
        pages_from(s, offset, limit) == s.skip(offset as int),
        pages_from(s, 0, limit) == s,
{
    lemma_pages_from(s, offset, limit);
    lemma_pages_from(s, 0, limit);
    assert(s.skip(0) =~= s);
}

proof fn lemma_pages_from<T>(s: Seq<T>, offset: nat, limit: nat)
    requires
        limit > 0,
        offset <= s.len(),
    ensures
        pages_from(s, offset, limit) == s.skip(offset as int),
    decreases s.len() - offset,
{
    if offset + limit < s.len() {
        lemma_pages_from(s, offset + limit, limit);
        assert(page_of(s, offset, limit) + s.skip((offset + limit) as int) =~= s.skip(
            offset as int,
        ));
    } else {
        assert(page_of(s, offset, limit) =~= s.skip(offset as int));
    }
}

/// The rows of `v` in the given order.
pub open spec fn arranged<T>(v: Seq<T>, order: Seq<int>) -> Seq<T> {
    order.map_values(|i: int| v[i])
}

// --- what the order means ----------------------------------------------------

/// Texts are ordered by the first character in which they differ; a text comes
/// before its continuations, and the empty text before all others.
pub proof fn law_text_order(p: Seq<char>, x: char, y: char, u: Seq<char>, v: Seq<char>)
    ensures
        x < y ==> text_lt(p.push(x) + u, p.push(y) + v),
        x > y ==> !text_lt(p.push(x) + u, p.push(y) + v),
        text_lt(p, p.push(x) + u),
        !text_lt(p.push(x) + u, p),
        !text_lt(p, p),
    decreases p.len(),
{
    let a = p.push(x) + u;
    let b = p.push(y) + v;
    lemma_text_irreflexive(p);
    if p.len() > 0 {
        let q = p.drop_first();
        law_text_order(q, x, y, u, v);
        assert(a.drop_first() =~= q.push(x) + u);
        assert(b.drop_first() =~= q.push(y) + v);
        assert(a[0] == p[0] && b[0] == p[0]);
    } else {
        assert(a[0] == x && b[0] == y);
    }
}

/// Rows of texts are ordered by the first text in which they differ; a row comes
/// before its continuations.
pub proof fn law_texts_order(
    p: Seq<Seq<char>>,
    x: Seq<char>,
    y: Seq<char>,
    u: Seq<Seq<char>>,
    v: Seq<Seq<char>>,
)
    ensures
        text_lt(x, y) ==> texts_lt(p.push(x) + u, p.push(y) + v),
        text_lt(y, x) ==> !texts_lt(p.push(x) + u, p.push(y) + v),
        texts_lt(p, p.push(x) + u),
        !texts_lt(p.push(x) + u, p),
    decreases p.len(),
{
    let a = p.push(x) + u;
    let b = p.push(y) + v;
    if p.len() > 0 {
        let q = p.drop_first();
        law_texts_order(q, x, y, u, v);
        assert(a.drop_first() =~= q.push(x) + u);
        assert(b.drop_first() =~= q.push(y) + v);
        assert(a[0] == p[0] && b[0] == p[0]);
    } else {
        assert(a[0] == x && b[0] == y);
        lemma_text_irreflexive(x);
        if text_lt(x, y) && text_lt(y, x) {
            lemma_text_transitive(x, y, x);
        }
    }
}

/// The first number of a key decides, then the second, then the texts.
pub proof fn law_key_order(a: KeyView, b: KeyView)
    ensures
        a.major < b.major ==> key_lt(a, b) && !key_lt(b, a),
        a.major == b.major && a.minor < b.minor ==> key_lt(a, b) && !key_lt(b, a),
        a.major == b.major && a.minor == b.minor ==> key_lt(a, b) == texts_lt(a.parts, b.parts),
{
}

/// Arranged rows are the same rows: each stands in one place. None comes before one
/// with a smaller key, and of two with the same key the one that was first stays
/// first.
pub proof fn law_arranged<T>(rows: Seq<T>, keys: Seq<KeyView>)
    requires
        rows.len() == keys.len(),
    ensures
        arranged(rows, order_of(keys)).len() == rows.len(),
        arranged(rows, order_of(keys)).to_multiset() == rows.to_multiset(),
        forall|x: int|
            0 <= x < rows.len() ==> #[trigger] arranged(rows, order_of(keys))[x] == rows[order_of(
                keys,
            )[x]],
        forall|x: int, y: int|
            0 <= x < y < rows.len() ==> {
                let (i, j) = (#[trigger] order_of(keys)[x], #[trigger] order_of(keys)[y]);
                key_lt(keys[i], keys[j]) || (keys[i] == keys[j] && i < j)
            },
{
    let order = order_of(keys);
    law_order_exists(keys);
    lemma_arranged_multiset(rows, order);
}

proof fn lemma_arranged_multiset<T>(rows: Seq<T>, order: Seq<int>)
    requires
        order.len() == rows.len(),
        order.no_duplicates(),
        order.to_set() == vstd::set_lib::set_int_range(0, rows.len() as int),
    ensures
        arranged(rows, order).to_multiset() == rows.to_multiset(),
    decreases rows.len(),
{
    broadcast use vstd::seq_lib::group_to_multiset_ensures;

    let n = rows.len() as int;
    if n == 0 {
        assert(arranged(rows, order) =~= rows);
    } else {
        let last = n - 1;
        assert(vstd::set_lib::set_int_range(0, n).contains(last));
        assert(order.to_set().contains(last));
        let at = choose|k: int| 0 <= k < order.len() && order[k] == last;
        let less = order.remove(at);
        assert forall|x: int, y: int| 0 <= x < less.len() && 0 <= y < less.len() && x != y implies less[x]
            != less[y] by {
            let x1 = if x < at { x } else { x + 1 };
            let y1 = if y < at { y } else { y + 1 };
            assert(less[x] == order[x1] && less[y] == order[y1]);
        }
        assert(less.to_set() =~= vstd::set_lib::set_int_range(0, last)) by {
            assert forall|v: int| less.to_set().contains(v) <==> vstd::set_lib::set_int_range(
                0,
                last,
            ).contains(v) by {
                if less.to_set().contains(v) {
                    let x = choose|x: int| 0 <= x < less.len() && less[x] == v;
                    let x1 = if x < at { x } else { x + 1 };
                    assert(order[x1] == v);
                    assert(order.to_set().contains(v));
                    assert(vstd::set_lib::set_int_range(0, n).contains(v));
                }
                if vstd::set_lib::set_int_range(0, last).contains(v) {
                    assert(vstd::set_lib::set_int_range(0, n).contains(v));
                    assert(order.to_set().contains(v));
                    let x1 = choose|x: int| 0 <= x < order.len() && order[x] == v;
                    let x = if x1 < at { x1 } else { x1 - 1 };
                    assert(less[x] == v);
                }
            }
        }
        let head = rows.drop_last();
        lemma_arranged_multiset(head, less);
        assert forall|x: int| 0 <= x < less.len() implies 0 <= #[trigger] less[x] < last by {
            assert(less.to_set().contains(less[x]));
        }
        assert(arranged(head, less) =~= arranged(rows, order).remove(at));
        let all = arranged(rows, order);
        assert(all[at] == rows.last());
        assert(rows =~= head.push(rows.last()));
        assert(head.push(rows.last()).to_multiset() =~= head.to_multiset().insert(rows.last()));
        assert(all.remove(at).to_multiset() =~= all.to_multiset().remove(all[at]));
        assert(all.to_multiset().contains(all[at]));
        assert(all.to_multiset() =~= all.to_multiset().remove(all[at]).insert(all[at]));
    }
}

/// Sorted texts are the same texts, and none comes before a smaller one.
pub proof fn law_sorted_texts(v: Seq<Seq<char>>)
    ensures
        sorted_texts(v).len() == v.len(),
        sorted_texts(v).to_multiset() == v.to_multiset(),
        forall|x: int, y: int|
            0 <= x < y < v.len() ==> !text_lt(
                #[trigger] sorted_texts(v)[y],
                #[trigger] sorted_texts(v)[x],
            ),
{
    let keys = text_keys(v);
    law_arranged(v, keys);
    law_order_exists(keys);
    assert forall|x: int, y: int| 0 <= x < y < v.len() implies !text_lt(
        #[trigger] sorted_texts(v)[y],
        #[trigger] sorted_texts(v)[x],
    ) by {
        let (i, j) = (order_of(keys)[x], order_of(keys)[y]);
        let (s, t) = (v[i], v[j]);
        let none = Seq::<Seq<char>>::empty();
        assert(none.push(s) + none =~= seq![s]);
        assert(none.push(t) + none =~= seq![t]);
        law_texts_order(none, s, t, none, none);
        lemma_text_irreflexive(s);
    }
}

/// A page holds what stands from its offset on, in order, up to its limit.
pub proof fn law_page<T>(s: Seq<T>, offset: nat, limit: nat)
    ensures
        page_of(s, offset, limit).len() == if offset >= s.len() {
            0
        } else if s.len() - offset <= limit {
            (s.len() - offset) as nat
        } else {
            limit
        },
        forall|i: int|
            0 <= i < page_of(s, offset, limit).len() ==> #[trigger] page_of(s, offset, limit)[i]
                == s[offset + i],
{
}

/// The first of a row are the row up to the limit.
pub proof fn law_at_most<T>(s: Seq<T>, max: nat)
    ensures
        at_most(s, max).is_prefix_of(s),
        at_most(s, max).len() == if s.len() <= max {
            s.len()
        } else {
            max
        },
{
    assert(s.take(s.len() as int) =~= s);
}

} // verus!
