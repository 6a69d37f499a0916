//! The mathematical reading of a value tree, and its order.

use core::cmp::Ordering;
use vstd::prelude::*;

verus! {

/// A value without its metadata. A float is given by its bits.
#[verifier::ext_equal]
pub enum Node {
    Null,
    Bool(bool),
    Int(i64),
    Float(u64),
    Str(Seq<char>),
    Sequence(Seq<Node>),
    Mapping(Seq<(Node, Node)>),
}

// ---------------------------------------------------------------------------
// Mappings
// ---------------------------------------------------------------------------

/// Where `key` stands among `entries`, counted from `i` on.
pub open spec fn place_from(entries: Seq<(Node, Node)>, key: Node, i: int) -> Option<int>
    decreases entries.len() - i,
{
    if !(0 <= i < entries.len()) {
        None
    } else if entries[i].0 == key {
        Some(i)
    } else {
        place_from(entries, key, i + 1)
    }
}

/// Where `key` stands among `entries`.
pub open spec fn place(entries: Seq<(Node, Node)>, key: Node) -> Option<int> {
    place_from(entries, key, 0)
}

/// `entries` with `key` set to `value`: a key that is there keeps its place, a
/// new one goes last.
pub open spec fn put(entries: Seq<(Node, Node)>, key: Node, value: Node) -> Seq<(Node, Node)> {
    match place(entries, key) {
        Some(i) => entries.update(i, (entries[i].0, value)),
        None => entries.push((key, value)),
    }
}

/// The value of `key`.
pub open spec fn lookup(entries: Seq<(Node, Node)>, key: Node) -> Option<Node> {
    match place(entries, key) {
        Some(i) => Some(entries[i].1),
        None => None,
    }
}

/// No key occurs twice.
pub open spec fn distinct_keys(entries: Seq<(Node, Node)>) -> bool {
    forall|i: int, j: int|
        0 <= i < j < entries.len() ==> #[trigger] entries[i].0 != #[trigger] entries[j].0
}

/// In the value and all its parts, no mapping has a key twice.
pub open spec fn is_valid(n: Node) -> bool
    decreases n,
{
    match n {
        Node::Sequence(items) => forall|i: int|
            0 <= i < items.len() ==> is_valid(#[trigger] items[i]),
        Node::Mapping(entries) => {
            &&& distinct_keys(entries)
            &&& forall|i: int|
                0 <= i < entries.len() ==> is_valid((#[trigger] entries[i]).0) && is_valid(
                    entries[i].1,
                )
        },
        _ => true,
    }
}

/// A place is the first one that holds the key; there is none if no entry does.
pub proof fn lemma_place_from(entries: Seq<(Node, Node)>, key: Node, from: int)
    requires
        0 <= from,
    ensures
        match place_from(entries, key, from) {
            Some(i) => {
                &&& from <= i < entries.len()
                &&& entries[i].0 == key
                &&& forall|j: int| from <= j < i ==> #[trigger] entries[j].0 != key
            },
            None => forall|j: int| from <= j < entries.len() ==> #[trigger] entries[j].0 != key,
        },
    decreases entries.len() - from,
{
    if from < entries.len() && entries[from].0 != key {
        lemma_place_from(entries, key, from + 1);
    }
}

/// Setting a key keeps the keys distinct.
pub proof fn law_put_keeps_keys_distinct(entries: Seq<(Node, Node)>, key: Node, value: Node)
    requires
        distinct_keys(entries),
    ensures
        distinct_keys(put(entries, key, value)),
{
    lemma_place_from(entries, key, 0);
    let after = put(entries, key, value);
    assert forall|i: int, j: int| 0 <= i < j < after.len() implies #[trigger] after[i].0
        != #[trigger] after[j].0 by {
        match place(entries, key) {
            Some(k) => {
                assert(after[i].0 == entries[i].0);
                assert(after[j].0 == entries[j].0);
            },
            None => {
                assert(after[i].0 == entries[i].0);
                if j < entries.len() {
                    assert(after[j].0 == entries[j].0);
                }
            },
        }
    }
}

/// What was set is what is found; every other key finds what it found before.
pub proof fn law_lookup_after_put(
    entries: Seq<(Node, Node)>,
    key: Node,
    value: Node,
    other: Node,
)
    ensures
        lookup(put(entries, key, value), key) == Some(value),
        other != key ==> lookup(put(entries, key, value), other) == lookup(entries, other),
{
    let after = put(entries, key, value);
    lemma_place_from(entries, key, 0);
    lemma_place_from(after, key, 0);
    lemma_place_from(entries, other, 0);
    lemma_place_from(after, other, 0);
    match place(entries, key) {
        Some(i) => {
            assert(after[i].0 == key);
            assert forall|j: int| 0 <= j < entries.len() implies after[j].0 == #[trigger] entries[j].0 by {}
            if let Some(j) = place(after, key) {
                assert(entries[j].0 == after[j].0);
                assert(j == i);
            }
        },
        None => {
            assert(after[entries.len() as int].0 == key);
            assert forall|j: int| 0 <= j < entries.len() implies after[j] == #[trigger] entries[j] by {}
        },
    }
    if other != key {
        match (place(entries, other), place(after, other)) {
            (Some(a), Some(b)) => {
                assert(after[a].0 == other);
                if b < entries.len() {
                    assert(entries[b].0 == other);
                }
            },
            (Some(a), None) => {
                assert(after[a].0 == other);
            },
            (None, Some(b)) => {
                if b < entries.len() {
                    assert(entries[b].0 == other);
                }
            },
            (None, None) => {},
        }
    }
}

/// Setting keys never reorders: the keys that were there keep their places.
pub proof fn law_put_keeps_order(entries: Seq<(Node, Node)>, key: Node, value: Node, i: int)
    requires
        0 <= i < entries.len(),
    ensures
        i < put(entries, key, value).len(),
        put(entries, key, value)[i].0 == entries[i].0,
{
    lemma_place_from(entries, key, 0);
}

// ---------------------------------------------------------------------------
// Order
// ---------------------------------------------------------------------------

/// The outcome of a comparison that found `less`, `equal` or neither.
pub open spec fn decided(less: bool, equal: bool) -> Ordering {
    if less {
        Ordering::Less
    } else if equal {
        Ordering::Equal
    } else {
        Ordering::Greater
    }
}

/// Where a float stands in the total order of floats: negative numbers, which
/// have the top bit set, come first and downwards.
pub open spec fn float_key(bits: u64) -> int {
    if bits < 0x8000_0000_0000_0000 {
        bits as int
    } else {
        0x7fff_ffff_ffff_ffff - bits
    }
}

/// The order of two texts from index `i` on: by the first character that differs.
pub open spec fn text_order(a: Seq<char>, b: Seq<char>, i: int) -> Ordering
    decreases a.len() - i,
{
    if i < 0 || i >= a.len() || i >= b.len() {
        decided(a.len() < b.len(), a.len() == b.len())
    } else if a[i] == b[i] {
        text_order(a, b, i + 1)
    } else {
        decided(a[i] < b[i], a[i] == b[i])
    }
}

/// Where a value's kind stands among the kinds.
pub open spec fn rank(n: Node) -> int {
    match n {
        Node::Null => 0,
        Node::Bool(_) => 1,
        Node::Int(_) => 2,
        Node::Float(_) => 3,
        Node::Str(_) => 4,
        Node::Sequence(_) => 5,
        Node::Mapping(_) => 6,
    }
}

/// The order of values.
pub open spec fn order(a: Node, b: Node) -> Ordering
    decreases a, 0int,
{
    match (a, b) {
        (Node::Bool(x), Node::Bool(y)) => if x == y {
            Ordering::Equal
        } else if y {
            Ordering::Less
        } else {
            Ordering::Greater
        },
        (Node::Int(x), Node::Int(y)) => decided(x < y, x == y),
        (Node::Float(x), Node::Float(y)) => decided(float_key(x) < float_key(y), x == y),
        (Node::Str(x), Node::Str(y)) => text_order(x, y, 0),
        (Node::Sequence(x), Node::Sequence(y)) => items_order(x, y, 0),
        (Node::Mapping(x), Node::Mapping(y)) => entries_order(x, y, 0),
        _ => decided(rank(a) < rank(b), rank(a) == rank(b)),
    }
}

/// The order of two sequences from index `i` on: by the first item that differs.
pub open spec fn items_order(a: Seq<Node>, b: Seq<Node>, i: int) -> Ordering
    decreases a, a.len() - i,
{
    if i < 0 || i >= a.len() || i >= b.len() {
        decided(a.len() < b.len(), a.len() == b.len())
    } else if order(a[i], b[i]) == Ordering::Equal {
        items_order(a, b, i + 1)
    } else {
        order(a[i], b[i])
    }
}

/// The order of two mappings from entry `i` on: by the first entry that differs,
/// its key before its value.
pub open spec fn entries_order(a: Seq<(Node, Node)>, b: Seq<(Node, Node)>, i: int) -> Ordering
    decreases a, a.len() - i,
{
    if i < 0 || i >= a.len() || i >= b.len() {
        decided(a.len() < b.len(), a.len() == b.len())
    } else if order(a[i].0, b[i].0) != Ordering::Equal {
        order(a[i].0, b[i].0)
    } else if order(a[i].1, b[i].1) != Ordering::Equal {
        order(a[i].1, b[i].1)
    } else {
        entries_order(a, b, i + 1)
    }
}

/// The opposite outcome.
pub open spec fn reversed(o: Ordering) -> Ordering {
    match o {
        Ordering::Less => Ordering::Greater,
        Ordering::Equal => Ordering::Equal,
        Ordering::Greater => Ordering::Less,
    }
}

proof fn lemma_text_order(a: Seq<char>, b: Seq<char>, i: int)
    requires
        0 <= i <= a.len(),
        i <= b.len(),
        forall|j: int| 0 <= j < i ==> a[j] == b[j],
    ensures
        text_order(a, b, i) == Ordering::Equal <==> a == b,
        text_order(b, a, i) == reversed(text_order(a, b, i)),
    decreases a.len() - i,
{
    if i < a.len() && i < b.len() {
        if a[i] == b[i] {
            lemma_text_order(a, b, i + 1);
        }
    } else if a.len() == b.len() {
        assert(a == b);
    }
}

/// Two values compare equal exactly when they are the same, and comparing them
/// the other way round gives the opposite outcome.
pub proof fn law_order_is_antisymmetric(a: Node, b: Node)
    ensures
        order(a, b) == Ordering::Equal <==> a == b,
        order(b, a) == reversed(order(a, b)),
    decreases a, 0int,
{
    match (a, b) {
        (Node::Str(x), Node::Str(y)) => lemma_text_order(x, y, 0),
        (Node::Sequence(x), Node::Sequence(y)) => lemma_items_order(x, y, 0),
        (Node::Mapping(x), Node::Mapping(y)) => lemma_entries_order(x, y, 0),
        _ => {},
    }
}

proof fn lemma_items_order(a: Seq<Node>, b: Seq<Node>, i: int)
    requires
        0 <= i <= a.len(),
        i <= b.len(),
        forall|j: int| 0 <= j < i ==> a[j] == b[j],
    ensures
        items_order(a, b, i) == Ordering::Equal <==> a == b,
        items_order(b, a, i) == reversed(items_order(a, b, i)),
    decreases a, a.len() - i,
{
    if i < a.len() && i < b.len() {
        law_order_is_antisymmetric(a[i], b[i]);
        if a[i] == b[i] {
            lemma_items_order(a, b, i + 1);
        }
    } else if a.len() == b.len() {
        assert(a == b);
    }
}

proof fn lemma_entries_order(a: Seq<(Node, Node)>, b: Seq<(Node, Node)>, i: int)
    requires
        0 <= i <= a.len(),
        i <= b.len(),
        forall|j: int| 0 <= j < i ==> a[j] == b[j],
    ensures
        entries_order(a, b, i) == Ordering::Equal <==> a == b,
        entries_order(b, a, i) == reversed(entries_order(a, b, i)),
    decreases a, a.len() - i,
{
    if i < a.len() && i < b.len() {
        law_order_is_antisymmetric(a[i].0, b[i].0);
        law_order_is_antisymmetric(a[i].1, b[i].1);
        if a[i] == b[i] {
            lemma_entries_order(a, b, i + 1);
        }
    } else if a.len() == b.len() {
        assert(a == b);
    }
}

proof fn lemma_text_order_transitive(a: Seq<char>, b: Seq<char>, c: Seq<char>, i: int)
    requires
        0 <= i,
        text_order(a, b, i) != Ordering::Greater,
        text_order(b, c, i) != Ordering::Greater,
    ensures
        text_order(a, c, i) != Ordering::Greater,
    decreases a.len() - i,
{
    if i < a.len() && i < b.len() && i < c.len() && a[i] == b[i] && b[i] == c[i] {
        lemma_text_order_transitive(a, b, c, i + 1);
    }
}

/// The order of values is transitive.
pub proof fn law_order_is_transitive(a: Node, b: Node, c: Node)
    requires
        order(a, b) != Ordering::Greater,
        order(b, c) != Ordering::Greater,
    ensures
        order(a, c) != Ordering::Greater,
    decreases a, 0int,
{
    match (a, b, c) {
        (Node::Str(x), Node::Str(y), Node::Str(z)) => lemma_text_order_transitive(x, y, z, 0),
        (Node::Sequence(x), Node::Sequence(y), Node::Sequence(z)) => {
            lemma_items_order_transitive(x, y, z, 0);
        },
        (Node::Mapping(x), Node::Mapping(y), Node::Mapping(z)) => {
            lemma_entries_order_transitive(x, y, z, 0);
        },
        _ => {},
    }
}

proof fn lemma_items_order_transitive(a: Seq<Node>, b: Seq<Node>, c: Seq<Node>, i: int)
    requires
        0 <= i,
        items_order(a, b, i) != Ordering::Greater,
        items_order(b, c, i) != Ordering::Greater,
    ensures
        items_order(a, c, i) != Ordering::Greater,
    decreases a, a.len() - i,
{
    if i < a.len() && i < b.len() && i < c.len() {
        law_order_is_antisymmetric(a[i], b[i]);
        law_order_is_antisymmetric(b[i], c[i]);
        law_order_is_antisymmetric(a[i], c[i]);
        law_order_is_transitive(a[i], b[i], c[i]);
        if a[i] == b[i] && b[i] == c[i] {
            lemma_items_order_transitive(a, b, c, i + 1);
        }
    }
}

proof fn lemma_entries_order_transitive(
    a: Seq<(Node, Node)>,
    b: Seq<(Node, Node)>,
    c: Seq<(Node, Node)>,
    i: int,
)
    requires
        0 <= i,
        entries_order(a, b, i) != Ordering::Greater,
        entries_order(b, c, i) != Ordering::Greater,
    ensures
        entries_order(a, c, i) != Ordering::Greater,
    decreases a, a.len() - i,
{
    if i < a.len() && i < b.len() && i < c.len() {
        law_order_is_antisymmetric(a[i].0, b[i].0);
        law_order_is_antisymmetric(b[i].0, c[i].0);
        law_order_is_antisymmetric(a[i].0, c[i].0);
        law_order_is_transitive(a[i].0, b[i].0, c[i].0);
        law_order_is_antisymmetric(a[i].1, b[i].1);
        law_order_is_antisymmetric(b[i].1, c[i].1);
        law_order_is_antisymmetric(a[i].1, c[i].1);
        if a[i].0 == b[i].0 && b[i].0 == c[i].0 {
            law_order_is_transitive(a[i].1, b[i].1, c[i].1);
            if a[i].1 == b[i].1 && b[i].1 == c[i].1 {
                lemma_entries_order_transitive(a, b, c, i + 1);
            }
        }
    }
}

// ---------------------------------------------------------------------------
// How values compare
// ---------------------------------------------------------------------------

/// The kinds of values come in this order: null, booleans, integers, floats, strings,
/// sequences, mappings. `false` comes before `true`, integers come by their number, and
/// floats come by sign and then by size.
pub proof fn law_kinds_are_ordered(a: Node, b: Node)
    ensures
        a is Null && !(b is Null) ==> order(a, b) == Ordering::Less,
        a is Bool && !(b is Null) && !(b is Bool) ==> order(a, b) == Ordering::Less,
        a is Int && (b is Float || b is Str || b is Sequence || b is Mapping) ==> order(a, b)
            == Ordering::Less,
        a is Float && (b is Str || b is Sequence || b is Mapping) ==> order(a, b) == Ordering::Less,
        a is Str && (b is Sequence || b is Mapping) ==> order(a, b) == Ordering::Less,
        a is Sequence && b is Mapping ==> order(a, b) == Ordering::Less,
        order(Node::Bool(false), Node::Bool(true)) == Ordering::Less,
        forall|x: i64, y: i64|
            x < y ==> #[trigger] order(Node::Int(x), Node::Int(y)) == Ordering::Less,
        forall|x: u64, y: u64|
            (#[trigger] order(Node::Float(x), Node::Float(y)) == Ordering::Less) <==> if x
                < 0x8000_0000_0000_0000 {
                y < 0x8000_0000_0000_0000 && x < y
            } else {
                y < 0x8000_0000_0000_0000 || x > y
            },
{
}

proof fn lemma_text_differs(a: Seq<char>, b: Seq<char>, k: int, i: int)
    requires
        0 <= i <= k <= a.len(),
        k <= b.len(),
        forall|j: int| 0 <= j < k ==> a[j] == b[j],
    ensures
        text_order(a, b, i) == text_order(a, b, k),
    decreases k - i,
{
    if i < k {
        lemma_text_differs(a, b, k, i + 1);
    }
}

/// Strings come by the first character that differs, and one that ends before the other
/// comes first.
pub proof fn law_strings_are_ordered(a: Seq<char>, b: Seq<char>, k: int)
    requires
        0 <= k <= a.len(),
        k < b.len(),
        forall|j: int| 0 <= j < k ==> a[j] == b[j],
        k == a.len() || a[k] < b[k],
    ensures
        order(Node::Str(a), Node::Str(b)) == Ordering::Less,
        order(Node::Str(b), Node::Str(a)) == Ordering::Greater,
{
    lemma_text_differs(a, b, k, 0);
    lemma_text_differs(b, a, k, 0);
}

proof fn lemma_items_differ(a: Seq<Node>, b: Seq<Node>, k: int, i: int)
    requires
        0 <= i <= k <= a.len(),
        k <= b.len(),
        forall|j: int| 0 <= j < k ==> a[j] == b[j],
    ensures
        items_order(a, b, i) == items_order(a, b, k),
    decreases k - i,
{
    if i < k {
        law_order_is_antisymmetric(a[i], b[i]);
        lemma_items_differ(a, b, k, i + 1);
    }
}

/// Sequences come by the first item that differs, and one that ends before the other comes
/// first.
pub proof fn law_sequences_are_ordered(a: Seq<Node>, b: Seq<Node>, k: int)
    requires
        0 <= k <= a.len(),
        k < b.len(),
        forall|j: int| 0 <= j < k ==> a[j] == b[j],
        k == a.len() || order(a[k], b[k]) == Ordering::Less,
    ensures
        order(Node::Sequence(a), Node::Sequence(b)) == Ordering::Less,
{
    lemma_items_differ(a, b, k, 0);
}

proof fn lemma_entries_differ(a: Seq<(Node, Node)>, b: Seq<(Node, Node)>, k: int, i: int)
    requires
        0 <= i <= k <= a.len(),
        k <= b.len(),
        forall|j: int| 0 <= j < k ==> a[j] == b[j],
    ensures
        entries_order(a, b, i) == entries_order(a, b, k),
    decreases k - i,
{
    if i < k {
        assert(a[i] == b[i]);
        law_order_is_antisymmetric(a[i].0, b[i].0);
        law_order_is_antisymmetric(a[i].1, b[i].1);
        lemma_entries_differ(a, b, k, i + 1);
    }
}

/// Mappings come by the first entry that differs: by its key, and by its value where the
/// keys are the same. One that ends before the other comes first.
pub proof fn law_mappings_are_ordered(a: Seq<(Node, Node)>, b: Seq<(Node, Node)>, k: int)
    requires
        0 <= k <= a.len(),
        k < b.len(),
        forall|j: int| 0 <= j < k ==> a[j] == b[j],
        k == a.len() || order(a[k].0, b[k].0) == Ordering::Less || a[k].0 == b[k].0 && order(
            a[k].1,
            b[k].1,
        ) == Ordering::Less,
    ensures
        order(Node::Mapping(a), Node::Mapping(b)) == Ordering::Less,
{
    lemma_entries_differ(a, b, k, 0);
    if k < a.len() {
        law_order_is_antisymmetric(a[k].0, b[k].0);
    }
}

} // verus!
