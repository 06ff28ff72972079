//! Stable sorting of rows by a key column, as a permutation of row indices.

use vstd::prelude::*;
use vstd::seq_lib::*;
use vstd::string::*;

verus! {

/// Whether `a` comes strictly before `b` in the lexicographic order of bytes
/// when both are read from position `i` on and agree before it.
pub open spec fn bytes_lt_from(a: Seq<u8>, b: Seq<u8>, i: int) -> bool
    decreases a.len() - i,
{
    if i >= b.len() {
        false
    } else if i >= a.len() {
        true
    } else if a[i] != b[i] {
        a[i] < b[i]
    } else {
        bytes_lt_from(a, b, i + 1)
    }
}

/// The lexicographic order of byte strings, which is the order of `str`.
pub open spec fn bytes_lt(a: Seq<u8>, b: Seq<u8>) -> bool {
    bytes_lt_from(a, b, 0)
}

/// The key column of a list of rows.
pub enum KeyColumn {
    /// Numbers, sorted from the largest down.
    Numbers(Seq<nat>),
    /// Names as UTF-8 bytes, sorted in ascending lexicographic order.
    Names(Seq<Seq<u8>>),
}

impl KeyColumn {
    /// The number of rows.
    pub open spec fn len(self) -> nat {
        match self {
            KeyColumn::Numbers(k) => k.len(),
            KeyColumn::Names(k) => k.len(),
        }
    }

    /// Whether the rows `i` and `j` have equal keys.
    pub open spec fn tie(self, i: int, j: int) -> bool {
        match self {
            KeyColumn::Numbers(k) => k[i] == k[j],
            KeyColumn::Names(k) => k[i] == k[j],
        }
    }

    /// Whether the key of row `i` sorts strictly before that of row `j`.
    pub open spec fn key_before(self, i: int, j: int) -> bool {
        match self {
            KeyColumn::Numbers(k) => k[i] > k[j],
            KeyColumn::Names(k) => bytes_lt(k[i], k[j]),
        }
    }

    /// Whether row `i` stands before row `j` once sorted: by key, and among
    /// rows of equal keys the one that came first stays first.
    pub open spec fn before(self, i: int, j: int) -> bool {
        self.key_before(i, j) || (self.tie(i, j) && i < j)
    }
}

/// The row indices `lo, lo + 1, .., hi - 1`.
pub open spec fn index_range(lo: int, hi: int) -> Seq<usize> {
    Seq::new((hi - lo) as nat, |i: int| (lo + i) as usize)
}

/// Whether every index of `order` is a row of a column of `n` rows.
pub open spec fn in_bounds(order: Seq<usize>, n: nat) -> bool {
    forall|a: int| 0 <= a < order.len() ==> (#[trigger] order[a]) < n
}

/// Whether `order` lists rows so that each stands before all that follow it.
pub open spec fn ascending(order: Seq<usize>, keys: KeyColumn) -> bool {
    forall|a: int, b: int|
        0 <= a < b < order.len() ==> keys.before(
            #[trigger] order[a] as int,
            #[trigger] order[b] as int,
        )
}

/// Whether `order` is the sorted order of the rows of `keys`: it names every
/// row exactly once, and each named row stands before all that follow it.
pub open spec fn is_sorted_order(order: Seq<usize>, keys: KeyColumn) -> bool {
    &&& order.len() == keys.len()
    &&& in_bounds(order, keys.len())
    &&& order.to_multiset() == index_range(0, keys.len() as int).to_multiset()
    &&& ascending(order, keys)
}

/// From position `i` on, no byte string comes before itself.
pub proof fn lemma_bytes_lt_irreflexive(a: Seq<u8>, i: int)
    requires
        0 <= i,
    ensures
        !bytes_lt_from(a, a, i),
    decreases a.len() - i,
{
    if i < a.len() {
        lemma_bytes_lt_irreflexive(a, i + 1);
    }
}

/// The order of byte strings is transitive.
pub proof fn lemma_bytes_lt_transitive(a: Seq<u8>, b: Seq<u8>, c: Seq<u8>, i: int)
    requires
        0 <= i,
        bytes_lt_from(a, b, i),
        bytes_lt_from(b, c, i),
    ensures
        bytes_lt_from(a, c, i),
    decreases a.len() - i,
{
    if i < a.len() && i < b.len() && i < c.len() && a[i] == b[i] && b[i] == c[i] {
        lemma_bytes_lt_transitive(a, b, c, i + 1);
    }
}

/// Two byte strings that agree before `i` and of which neither comes before
/// the other from `i` on are equal.
pub proof fn lemma_bytes_lt_total(a: Seq<u8>, b: Seq<u8>, i: int)
    requires
        0 <= i <= a.len(),
        i <= b.len(),
        a.take(i) == b.take(i),
        !bytes_lt_from(a, b, i),
        !bytes_lt_from(b, a, i),
    ensures
        a == b,
    decreases a.len() - i,
{
    if i >= a.len() || i >= b.len() {
        assert(a.take(i) =~= a);
        assert(b.take(i) =~= b);
    } else {
        assert(a.take(i + 1) =~= a.take(i).push(a[i]));
        assert(b.take(i + 1) =~= b.take(i).push(b[i]));
        lemma_bytes_lt_total(a, b, i + 1);
    }
}

/// Of two different rows one stands before the other.
pub proof fn lemma_before_total(keys: KeyColumn, i: int, j: int)
    requires
        i != j,
    ensures
        keys.before(i, j) || keys.before(j, i),
{
    match keys {
        KeyColumn::Numbers(k) => {},
        KeyColumn::Names(k) => {
            if !bytes_lt(k[i], k[j]) && !bytes_lt(k[j], k[i]) {
                assert(k[i].take(0) =~= k[j].take(0));
                lemma_bytes_lt_total(k[i], k[j], 0);
            }
        },
    }
}

/// Standing before is transitive.
pub proof fn lemma_before_transitive(keys: KeyColumn, i: int, j: int, l: int)
    requires
        keys.before(i, j),
        keys.before(j, l),
    ensures
        keys.before(i, l),
{
    match keys {
        KeyColumn::Numbers(k) => {},
        KeyColumn::Names(k) => {
            if bytes_lt(k[i], k[j]) && bytes_lt(k[j], k[l]) {
                lemma_bytes_lt_transitive(k[i], k[j], k[l], 0);
            }
        },
    }
}

/// No row stands before itself.
pub proof fn lemma_before_irreflexive(keys: KeyColumn, i: int)
    ensures
        !keys.before(i, i),
{
    match keys {
        KeyColumn::Numbers(k) => {},
        KeyColumn::Names(k) => {
            lemma_bytes_lt_irreflexive(k[i], 0);
        },
    }
}

/// The rows of `rows` in the order that `order` names them.
pub open spec fn arranged<T>(rows: Seq<T>, order: Seq<usize>) -> Seq<T> {
    Seq::new(order.len(), |a: int| rows[order[a] as int])
}

/// The relation "is the same row as, or stands before" on row indices.
pub open spec fn same_or_before(keys: KeyColumn) -> spec_fn(usize, usize) -> bool {
    |i: usize, j: usize| i == j || keys.before(i as int, j as int)
}

/// The sorted order of the rows of `keys`.
pub open spec fn sorted(keys: KeyColumn) -> Seq<usize> {
    choose|order: Seq<usize>| is_sorted_order(order, keys)
}

/// A key column has one sorted order only.
pub proof fn lemma_sorted_order_unique(a: Seq<usize>, b: Seq<usize>, keys: KeyColumn)
    requires
        is_sorted_order(a, keys),
        is_sorted_order(b, keys),
    ensures
        a == b,
{
    let leq = same_or_before(keys);
    assert(vstd::relations::total_ordering(leq)) by {
        assert forall|x: usize, y: usize| #[trigger] leq(x, y) && #[trigger] leq(y, x) implies x
            == y by {
            if x != y {
                lemma_before_transitive(keys, x as int, y as int, x as int);
                lemma_before_irreflexive(keys, x as int);
            }
        }
        assert forall|x: usize, y: usize, z: usize| #[trigger] leq(x, y) && #[trigger] leq(y, z) implies leq(
            x,
            z,
        ) by {
            if x != y && y != z {
                lemma_before_transitive(keys, x as int, y as int, z as int);
            }
        }
        assert forall|x: usize, y: usize| #[trigger] leq(x, y) || #[trigger] leq(y, x) by {
            if x != y {
                lemma_before_total(keys, x as int, y as int);
            }
        }
    }
    assert(vstd::relations::sorted_by(a, leq));
    assert(vstd::relations::sorted_by(b, leq));
    lemma_sorted_unique(a, b, leq);
}

/// Whether `order` is the sorted order of the first `n` rows of `keys`.
pub open spec fn is_sorted_order_of_first(order: Seq<usize>, keys: KeyColumn, n: nat) -> bool {
    &&& order.len() == n
    &&& in_bounds(order, n)
    &&& order.to_multiset() == index_range(0, n as int).to_multiset()
    &&& ascending(order, keys)
}

/// How many rows at the front of a sorted `order` stand before row `x`.
pub open spec fn rows_before(order: Seq<usize>, keys: KeyColumn, x: usize) -> int
    decreases order.len(),
{
    if order.len() == 0 {
        0
    } else if keys.before(order.last() as int, x as int) {
        order.len() as int
    } else {
        rows_before(order.drop_last(), keys, x)
    }
}

/// In a sorted order, the rows that stand before a row `x` not in it are the
/// first `rows_before` ones, and `x` stands before all the others.
proof fn lemma_rows_before(order: Seq<usize>, keys: KeyColumn, x: usize)
    requires
        ascending(order, keys),
        forall|a: int| 0 <= a < order.len() ==> (#[trigger] order[a]) != x,
    ensures
        0 <= rows_before(order, keys, x) <= order.len(),
        forall|a: int|
            0 <= a < rows_before(order, keys, x) ==> keys.before(
                (#[trigger] order[a]) as int,
                x as int,
            ),
        forall|a: int|
            rows_before(order, keys, x) <= a < order.len() ==> keys.before(
                x as int,
                (#[trigger] order[a]) as int,
            ),
    decreases order.len(),
{
    if order.len() > 0 {
        let last = order.last();
        if keys.before(last as int, x as int) {
            assert forall|a: int| 0 <= a < order.len() implies keys.before(
                (#[trigger] order[a]) as int,
                x as int,
            ) by {
                if a < order.len() - 1 {
                    lemma_before_transitive(keys, order[a] as int, last as int, x as int);
                }
            }
        } else {
            let front = order.drop_last();
            assert(ascending(front, keys)) by {
                assert forall|a: int, b: int| 0 <= a < b < front.len() implies keys.before(
                    #[trigger] front[a] as int,
                    #[trigger] front[b] as int,
                ) by {
                    assert(front[a] == order[a] && front[b] == order[b]);
                }
            }
            assert forall|a: int| 0 <= a < front.len() implies (#[trigger] front[a]) != x by {
                assert(front[a] == order[a]);
            }
            lemma_rows_before(front, keys, x);
            lemma_before_total(keys, last as int, x as int);
            assert forall|a: int| rows_before(order, keys, x) <= a < order.len() implies keys.before(
                x as int,
                (#[trigger] order[a]) as int,
            ) by {
                if a < order.len() - 1 {
                    assert(front[a] == order[a]);
                }
            }
            assert forall|a: int| 0 <= a < rows_before(order, keys, x) implies keys.before(
                (#[trigger] order[a]) as int,
                x as int,
            ) by {
                assert(front[a] == order[a]);
            }
        }
    }
}

/// The first `n` rows of a column have a sorted order.
proof fn lemma_sorted_prefix_exists(keys: KeyColumn, n: nat) -> (order: Seq<usize>)
    requires
        n <= usize::MAX,
    ensures
        is_sorted_order_of_first(order, keys, n),
    decreases n,
{
    broadcast use {group_to_multiset_ensures, vstd::multiset::group_multiset_axioms};

    if n == 0 {
        let order = Seq::<usize>::empty();
        assert(order =~= index_range(0, 0));
        order
    } else {
        let prev = lemma_sorted_prefix_exists(keys, (n - 1) as nat);
        let x = (n - 1) as usize;
        lemma_rows_before(prev, keys, x);
        let p = rows_before(prev, keys, x);
        let order = prev.insert(p, x);
        assert(index_range(0, n as int) =~= index_range(0, n - 1).push(x));
        to_multiset_insert(prev, p, x);
        assert(ascending(order, keys)) by {
            assert forall|a: int, b: int| 0 <= a < b < order.len() implies keys.before(
                #[trigger] order[a] as int,
                #[trigger] order[b] as int,
            ) by {
                if b < p {
                    assert(order[a] == prev[a] && order[b] == prev[b]);
                } else if b == p {
                    assert(order[a] == prev[a]);
                } else if a < p {
                    assert(order[a] == prev[a] && order[b] == prev[b - 1]);
                } else if a == p {
                    assert(order[b] == prev[b - 1]);
                } else {
                    assert(order[a] == prev[a - 1] && order[b] == prev[b - 1]);
                }
            }
        }
        assert(in_bounds(order, n)) by {
            assert forall|a: int| 0 <= a < order.len() implies (#[trigger] order[a]) < n by {
                if a < p {
                    assert(order[a] == prev[a]);
                } else if a > p {
                    assert(order[a] == prev[a - 1]);
                }
            }
        }
        order
    }
}

/// A column of no more rows than a `usize` counts has a sorted order, and
/// `sorted` is it.
pub proof fn lemma_sorted_exists(keys: KeyColumn)
    requires
        keys.len() <= usize::MAX,
    ensures
        is_sorted_order(sorted(keys), keys),
{
    let order = lemma_sorted_prefix_exists(keys, keys.len());
    assert(is_sorted_order(order, keys));
}

/// Whatever is a sorted order of `keys` is `sorted(keys)`.
pub proof fn lemma_sorted_is(order: Seq<usize>, keys: KeyColumn)
    requires
        is_sorted_order(order, keys),
    ensures
        order == sorted(keys),
{
    lemma_sorted_order_unique(order, sorted(keys), keys);
}

/// The key column of a list of rows, as held in memory.
#[derive(Debug)]
pub enum Keys {
    /// Numbers, sorted from the largest down.
    Numbers(Vec<u64>),
    /// Names, sorted in ascending order.
    Names(Vec<String>),
}

impl View for Keys {
    type V = KeyColumn;

    open spec fn view(&self) -> KeyColumn {
        match self {
            Keys::Numbers(k) => KeyColumn::Numbers(k@.map_values(|n: u64| n as nat)),
            Keys::Names(k) => KeyColumn::Names(
                k@.map_values(|name: String| vstd::utf8::encode_utf8(name@)),
            ),
        }
    }
}

/// Whether `a` comes strictly before `b` in lexicographic order.
pub fn bytes_less(a: &[u8], b: &[u8]) -> (r: bool)
    ensures
        r == bytes_lt(a@, b@),
{
    let mut i: usize = 0;
    while i < a.len() && i < b.len()
        invariant
            i <= a.len(),
            i <= b.len(),
            bytes_lt(a@, b@) == bytes_lt_from(a@, b@, i as int),
        decreases a.len() - i,
    {
        if a[i] != b[i] {
            return a[i] < b[i];
        }
        i = i + 1;
    }
    i < b.len()
}

impl Keys {
    /// The number of rows.
    pub fn len(&self) -> (n: usize)
        ensures
            n == self@.len(),
    {
        match self {
            Keys::Numbers(k) => k.len(),
            Keys::Names(k) => k.len(),
        }
    }

    /// Whether row `i` stands before row `j` once sorted.
    pub fn precedes(&self, i: usize, j: usize) -> (r: bool)
        requires
            i < self@.len(),
            j < self@.len(),
        ensures
            r == self@.before(i as int, j as int),
    {
        match self {
            Keys::Numbers(k) => k[i] > k[j] || (k[i] == k[j] && i < j),
            Keys::Names(k) => {
                let a = k[i].as_str().as_bytes();
                let b = k[j].as_str().as_bytes();
                if bytes_less(a, b) {
                    true
                } else if bytes_less(b, a) {
                    false
                } else {
                    proof {
                        assert(a@.take(0) =~= b@.take(0));
                        lemma_bytes_lt_total(a@, b@, 0);
                    }
                    i < j
                }
            },
        }
    }
}

/// Merges two sorted runs of rows into one.
fn merge(keys: &Keys, left: &Vec<usize>, right: &Vec<usize>) -> (out: Vec<usize>)
    requires
        in_bounds(left@, keys@.len()),
        in_bounds(right@, keys@.len()),
        ascending(left@, keys@),
        ascending(right@, keys@),
        forall|a: int, b: int|
            0 <= a < left.len() && 0 <= b < right.len() ==> #[trigger] left[a] != #[trigger] right[b],
    ensures
        out.len() == left.len() + right.len(),
        in_bounds(out@, keys@.len()),
        ascending(out@, keys@),
        out@.to_multiset() == left@.to_multiset().add(right@.to_multiset()),
{
    broadcast use {group_to_multiset_ensures, vstd::multiset::group_multiset_axioms};

    let mut out: Vec<usize> = Vec::new();
    let mut i: usize = 0;
    let mut j: usize = 0;
    assert(left@.take(0) =~= Seq::<usize>::empty());
    assert(right@.take(0) =~= Seq::<usize>::empty());
    assert(out@.to_multiset() =~= left@.take(0).to_multiset().add(right@.take(0).to_multiset()));
    while i < left.len() || j < right.len()
        invariant
            i <= left.len(),
            j <= right.len(),
            out.len() == i + j,
            in_bounds(left@, keys@.len()),
            in_bounds(right@, keys@.len()),
            in_bounds(out@, keys@.len()),
            ascending(left@, keys@),
            ascending(right@, keys@),
            ascending(out@, keys@),
            forall|a: int, b: int|
                0 <= a < left.len() && 0 <= b < right.len() ==> #[trigger] left[a] != #[trigger] right[b],
            forall|a: int, b: int|
                0 <= a < out.len() && i <= b < left.len() ==> keys@.before(
                    #[trigger] out[a] as int,
                    #[trigger] left[b] as int,
                ),
            forall|a: int, b: int|
                0 <= a < out.len() && j <= b < right.len() ==> keys@.before(
                    #[trigger] out[a] as int,
                    #[trigger] right[b] as int,
                ),
            out@.to_multiset() == left@.take(i as int).to_multiset().add(
                right@.take(j as int).to_multiset(),
            ),
        decreases left.len() - i + right.len() - j,
    {
        let take_left = if i >= left.len() {
            false
        } else if j >= right.len() {
            true
        } else {
            keys.precedes(left[i], right[j])
        };
        let ghost prev = out@;
        if take_left {
            let x = left[i];
            proof {
                assert forall|b: int| j <= b < right.len() implies keys@.before(
                    x as int,
                    #[trigger] right[b] as int,
                ) by {
                    if b > j {
                        lemma_before_transitive(keys@, x as int, right[j as int] as int, right[b] as int);
                    }
                }
                assert(left@.take(i + 1) =~= left@.take(i as int).push(x));
            }
            out.push(x);
            i = i + 1;
            proof {
                assert(out@ =~= prev.push(x));
                to_multiset_build(prev, x);
                to_multiset_build(left@.take(i - 1), x);
                assert(out@.to_multiset() =~= left@.take(i as int).to_multiset().add(
                    right@.take(j as int).to_multiset(),
                ));
            }
        } else {
            let x = right[j];
            proof {
                if i < left.len() {
                    lemma_before_total(keys@, left[i as int] as int, x as int);
                }
                assert forall|b: int| i <= b < left.len() implies keys@.before(
                    x as int,
                    #[trigger] left[b] as int,
                ) by {
                    if b > i {
                        lemma_before_transitive(keys@, x as int, left[i as int] as int, left[b] as int);
                    }
                }
                assert(right@.take(j + 1) =~= right@.take(j as int).push(x));
            }
            out.push(x);
            j = j + 1;
            proof {
                assert(out@ =~= prev.push(x));
                to_multiset_build(prev, x);
                to_multiset_build(right@.take(j - 1), x);
                assert(out@.to_multiset() =~= left@.take(i as int).to_multiset().add(
                    right@.take(j as int).to_multiset(),
                ));
            }
        }
    }
    assert(left@.take(i as int) =~= left@);
    assert(right@.take(j as int) =~= right@);
    out
}

/// Sorts the rows `lo .. hi`.
fn sorted_range(keys: &Keys, lo: usize, hi: usize) -> (out: Vec<usize>)
    requires
        lo <= hi <= keys@.len(),
    ensures
        out.len() == hi - lo,
        in_bounds(out@, keys@.len()),
        ascending(out@, keys@),
        out@.to_multiset() == index_range(lo as int, hi as int).to_multiset(),
        forall|a: int| 0 <= a < out.len() ==> lo <= (#[trigger] out[a]) < hi,
    decreases hi - lo,
{
    broadcast use group_to_multiset_ensures;

    if hi - lo == 0 {
        let out: Vec<usize> = Vec::new();
        assert(out@ =~= index_range(lo as int, hi as int));
        out
    } else if hi - lo == 1 {
        let mut out: Vec<usize> = Vec::new();
        out.push(lo);
        assert(out@ =~= index_range(lo as int, hi as int));
        out
    } else {
        let mid = lo + (hi - lo) / 2;
        let left = sorted_range(keys, lo, mid);
        let right = sorted_range(keys, mid, hi);
        let out = merge(keys, &left, &right);
        proof {
            let whole = index_range(lo as int, hi as int);
            let first = index_range(lo as int, mid as int);
            let second = index_range(mid as int, hi as int);
            assert(whole =~= first + second);
            lemma_multiset_commutative(first, second);
            assert forall|a: int| 0 <= a < out.len() implies lo <= (#[trigger] out[a]) < hi by {
                let x = out[a];
                assert(out@.to_multiset().count(x) > 0);
                assert(left@.to_multiset().count(x) > 0 || right@.to_multiset().count(x) > 0);
                if left@.to_multiset().count(x) > 0 {
                    assert(left@.contains(x));
                } else {
                    assert(right@.contains(x));
                }
            }
        }
        out
    }
}

/// The sorted order of the rows of `keys`: numbers from the largest down,
/// names in ascending order, rows of equal keys in the order they came in.
pub fn sorted_order(keys: &Keys) -> (order: Vec<usize>)
    ensures
        is_sorted_order(order@, keys@),
        order@ == sorted(keys@),
{
    let order = sorted_range(keys, 0, keys.len());
    proof {
        lemma_sorted_is(order@, keys@);
    }
    order
}

} // verus!
