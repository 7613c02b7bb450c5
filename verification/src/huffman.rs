//! Huffman trees: byte frequencies, tree construction and the prefix-code
//! table read off the tree.
use vstd::prelude::*;
use std::collections::HashMap;

verus! {

broadcast use vstd::std_specs::hash::group_hash_axioms;

// ── Frequencies ─────────────────────────────────────────────────────────────

/// Number of occurrences of `b` in `s`.
pub open spec fn count_of(s: Seq<u8>, b: u8) -> nat
    decreases s.len(),
{
    if s.len() == 0 {
        0
    } else {
        count_of(s.drop_last(), b) + if s.last() == b { 1nat } else { 0nat }
    }
}

/// The frequency table of `s`: each byte that occurs in `s`, with the number
/// of its occurrences.
pub open spec fn freq_map(s: Seq<u8>) -> Map<u8, u64> {
    Map::new(|b: u8| count_of(s, b) > 0, |b: u8| count_of(s, b) as u64)
}

/// The frequency that `m` gives `b`, zero where `m` has no entry.
pub open spec fn freq_of(m: Map<u8, u64>, b: u8) -> nat {
    if m.contains_key(b) {
        m[b] as nat
    } else {
        0
    }
}

/// Sum of the frequencies of the bytes below `k`.
pub open spec fn sum_below(m: Map<u8, u64>, k: nat) -> nat
    decreases k,
{
    if k == 0 {
        0
    } else {
        sum_below(m, (k - 1) as nat) + freq_of(m, (k - 1) as u8)
    }
}

/// Sum of all frequencies in a table.
pub open spec fn map_total(m: Map<u8, u64>) -> nat {
    sum_below(m, 256)
}

proof fn lemma_count_bound(s: Seq<u8>, b: u8)
    ensures
        count_of(s, b) <= s.len(),
    decreases s.len(),
{
    if s.len() > 0 {
        lemma_count_bound(s.drop_last(), b);
    }
}

proof fn lemma_sum_below_bump(m1: Map<u8, u64>, m2: Map<u8, u64>, x: u8, k: nat)
    requires
        k <= 256,
        freq_of(m2, x) == freq_of(m1, x) + 1,
        forall|b: u8| b != x ==> freq_of(m2, b) == freq_of(m1, b),
    ensures
        sum_below(m2, k) == sum_below(m1, k) + if (x as nat) < k { 1nat } else { 0nat },
    decreases k,
{
    if k > 0 {
        lemma_sum_below_bump(m1, m2, x, (k - 1) as nat);
    }
}

/// The frequencies of a byte string add up to its length.
pub proof fn lemma_freq_total(s: Seq<u8>)
    requires
        s.len() <= u64::MAX,
    ensures
        map_total(freq_map(s)) == s.len(),
    decreases s.len(),
{
    if s.len() == 0 {
        lemma_sum_zero(freq_map(s), 256);
    } else {
        let p = s.drop_last();
        let x = s.last();
        lemma_freq_total(p);
        lemma_count_bound(s, x);
        lemma_count_bound(p, x);
        assert(count_of(s, x) == count_of(p, x) + 1);
        assert forall|b: u8| b != x implies freq_of(freq_map(s), b) == freq_of(freq_map(p), b) by {
            lemma_count_bound(s, b);
            lemma_count_bound(p, b);
        }
        lemma_sum_below_bump(freq_map(p), freq_map(s), x, 256);
    }
}

/// Every byte of a string occurs in it at least once.
pub proof fn lemma_count_positive(s: Seq<u8>, i: int)
    requires
        0 <= i < s.len(),
    ensures
        count_of(s, s[i]) > 0,
    decreases s.len(),
{
    if i < s.len() - 1 {
        lemma_count_positive(s.drop_last(), i);
    }
}

proof fn lemma_sum_zero(m: Map<u8, u64>, k: nat)
    requires
        forall|b: u8| !m.contains_key(b),
    ensures
        sum_below(m, k) == 0,
    decreases k,
{
    if k > 0 {
        lemma_sum_zero(m, (k - 1) as nat);
    }
}

/// Counts how often each byte occurs in `data`.
pub fn count_frequencies(data: &[u8]) -> (freq: HashMap<u8, u64>)
    ensures
        freq@ == freq_map(data@),
{
    let mut freq: HashMap<u8, u64> = HashMap::new();
    let mut i: usize = 0;
    assert(freq@ =~= freq_map(data@.take(0)));
    while i < data.len()
        invariant
            i <= data.len(),
            freq@ == freq_map(data@.take(i as int)),
        decreases data.len() - i,
    {
        let b = data[i];
        let ghost s = data@.take(i as int);
        let ghost s2 = data@.take(i + 1);
        assert(s2.drop_last() =~= s);
        proof {
            lemma_count_bound(s, b);
        }
        match freq.get(&b) {
            Some(c) => {
                let c2: u64 = *c + 1;
                freq.insert(b, c2);
            },
            None => {
                freq.insert(b, 1);
            },
        }
        i = i + 1;
        proof {
            assert forall|k: u8| k != b implies count_of(s2, k) == count_of(s, k) by {}
            assert(freq@ =~= freq_map(s2));
        }
    }
    assert(data@.take(data.len() as int) =~= data@);
    freq
}


// ── Trees ───────────────────────────────────────────────────────────────────

/// A Huffman tree: leaves carry a byte, internal nodes two subtrees; the
/// path to a leaf (false = left, true = right) is the code of its byte.
pub enum HuffNode {
    Leaf { byte: u8 },
    Internal { left: Box<HuffNode>, right: Box<HuffNode> },
}

/// The bytes at the leaves of a tree.
pub open spec fn labels(t: HuffNode) -> Set<u8>
    decreases t,
{
    match t {
        HuffNode::Leaf { byte } => set![byte],
        HuffNode::Internal { left, right } => labels(*left) + labels(*right),
    }
}

/// Walks down from `t` along `path`; the byte of the leaf reached exactly at
/// the end of the path, if that is where a leaf is.
pub open spec fn follow(t: HuffNode, path: Seq<bool>) -> Option<u8>
    decreases path.len(),
{
    match t {
        HuffNode::Leaf { byte } => if path.len() == 0 {
            Some(byte)
        } else {
            None
        },
        HuffNode::Internal { left, right } => if path.len() == 0 {
            None
        } else if path[0] {
            follow(*right, path.drop_first())
        } else {
            follow(*left, path.drop_first())
        },
    }
}

/// A subtree waiting in the construction queue, with its total frequency and
/// the order in which it entered the queue.
pub struct HeapItem {
    pub freq: u64,
    pub id: u64,
    pub node: Box<HuffNode>,
}

/// `a` leaves the queue before `b`: lower frequency first, and among equal
/// frequencies the one that entered first.
pub open spec fn pops_first(a: HeapItem, b: HeapItem) -> bool {
    a.freq < b.freq || (a.freq == b.freq && a.id < b.id)
}

impl HeapItem {
    /// Whether `self` leaves the queue before `other`.
    pub fn pops_before(&self, other: &HeapItem) -> (r: bool)
        ensures
            r == pops_first(*self, *other),
    {
        self.freq < other.freq || (self.freq == other.freq && self.id < other.id)
    }
}

/// Position of the item that leaves the queue next (the first of the
/// earliest, should two tie).
pub open spec fn min_index(q: Seq<HeapItem>) -> int
    decreases q.len(),
{
    if q.len() <= 1 {
        0
    } else {
        let m = min_index(q.drop_last());
        if pops_first(q.last(), q[m]) {
            q.len() - 1
        } else {
            m
        }
    }
}

/// The next item to leave a non-empty queue lies within it.
pub proof fn lemma_min_index_range(q: Seq<HeapItem>)
    requires
        q.len() > 0,
    ensures
        0 <= min_index(q) < q.len(),
    decreases q.len(),
{
    if q.len() > 1 {
        lemma_min_index_range(q.drop_last());
    }
}

/// The subtree that joins `a` (left) and `b` (right), with id `id`.
pub open spec fn merge_items(a: HeapItem, b: HeapItem, id: u64) -> HeapItem {
    HeapItem {
        freq: (a.freq + b.freq) as u64,
        id,
        node: Box::new(HuffNode::Internal { left: a.node, right: b.node }),
    }
}

/// Repeatedly joins the two subtrees that leave the queue first, until one
/// tree is left.
pub open spec fn combine_queue(q: Seq<HeapItem>, next_id: u64) -> Option<HuffNode>
    decreases q.len(),
{
    if q.len() == 0 {
        None
    } else if q.len() == 1 {
        Some(*q[0].node)
    } else {
        let i = min_index(q);
        let q1 = q.remove(i);
        let j = min_index(q1);
        let q2 = q1.remove(j);
        proof {
            lemma_min_index_range(q);
            lemma_min_index_range(q1);
        }
        combine_queue(q2.push(merge_items(q[i], q1[j], next_id)), (next_id + 1) as u64)
    }
}

/// The entries of `m` for the bytes below `k`, in ascending byte order.
pub open spec fn entries_upto(m: Map<u8, u64>, k: nat) -> Seq<(u8, u64)>
    decreases k,
{
    if k == 0 {
        seq![]
    } else {
        let b = (k - 1) as u8;
        let prev = entries_upto(m, (k - 1) as nat);
        if m.contains_key(b) {
            prev.push((b, m[b]))
        } else {
            prev
        }
    }
}

/// All entries of `m`, in ascending byte order.
pub open spec fn map_entries(m: Map<u8, u64>) -> Seq<(u8, u64)> {
    entries_upto(m, 256)
}

/// Inserts `e` after every entry whose frequency is not above its own.
pub open spec fn insert_by_freq(s: Seq<(u8, u64)>, e: (u8, u64)) -> Seq<(u8, u64)>
    decreases s.len(),
{
    if s.len() == 0 {
        seq![e]
    } else if e.1 < s[0].1 {
        seq![e] + s
    } else {
        seq![s[0]] + insert_by_freq(s.drop_first(), e)
    }
}

/// Stable sort by frequency.
pub open spec fn sort_by_freq(s: Seq<(u8, u64)>) -> Seq<(u8, u64)>
    decreases s.len(),
{
    if s.len() == 0 {
        seq![]
    } else {
        insert_by_freq(sort_by_freq(s.drop_last()), s.last())
    }
}

/// One leaf per entry, numbered in order.
pub open spec fn leaf_queue(s: Seq<(u8, u64)>) -> Seq<HeapItem> {
    Seq::new(
        s.len(),
        |i: int| HeapItem { freq: s[i].1, id: i as u64, node: Box::new(HuffNode::Leaf { byte: s[i].0 }) },
    )
}

/// The Huffman tree of a frequency table: leaves sorted by (frequency,
/// byte), numbered in that order, then joined pairwise, the two that leave
/// the queue first each time. `None` for an empty table.
pub open spec fn huffman_tree(m: Map<u8, u64>) -> Option<HuffNode> {
    let s = sort_by_freq(map_entries(m));
    combine_queue(leaf_queue(s), s.len() as u64)
}


/// Sum of the frequencies of the items in a queue.
pub open spec fn queue_total(q: Seq<HeapItem>) -> nat
    decreases q.len(),
{
    if q.len() == 0 {
        0
    } else {
        queue_total(q.drop_last()) + q.last().freq as nat
    }
}

/// Sum of the frequencies of a list of entries.
pub open spec fn entries_total(s: Seq<(u8, u64)>) -> nat
    decreases s.len(),
{
    if s.len() == 0 {
        0
    } else {
        entries_total(s.drop_last()) + s.last().1 as nat
    }
}

proof fn lemma_queue_total_remove(q: Seq<HeapItem>, i: int)
    requires
        0 <= i < q.len(),
    ensures
        queue_total(q.remove(i)) + q[i].freq == queue_total(q),
    decreases q.len(),
{
    if i == q.len() - 1 {
        assert(q.remove(i) =~= q.drop_last());
    } else {
        let r = q.remove(i);
        assert(r.drop_last() =~= q.drop_last().remove(i));
        assert(r.last() == q.last());
        lemma_queue_total_remove(q.drop_last(), i);
    }
}

proof fn lemma_entries_total_concat(a: Seq<(u8, u64)>, b: Seq<(u8, u64)>)
    ensures
        entries_total(a + b) == entries_total(a) + entries_total(b),
    decreases b.len(),
{
    if b.len() == 0 {
        assert(a + b =~= a);
    } else {
        assert((a + b).drop_last() =~= a + b.drop_last());
        lemma_entries_total_concat(a, b.drop_last());
    }
}

proof fn lemma_insert_split(s: Seq<(u8, u64)>, e: (u8, u64), k: int)
    requires
        0 <= k <= s.len(),
        forall|j: int| 0 <= j < k ==> s[j].1 <= e.1,
        k < s.len() ==> s[k].1 > e.1,
    ensures
        insert_by_freq(s, e) == s.take(k) + seq![e] + s.skip(k),
    decreases s.len(),
{
    if s.len() == 0 {
        assert(s.take(k) + seq![e] + s.skip(k) =~= seq![e]);
    } else if e.1 < s[0].1 {
        assert(k == 0);
        assert(s.take(k) + seq![e] + s.skip(k) =~= seq![e] + s);
    } else {
        assert(k >= 1);
        let t = s.drop_first();
        lemma_insert_split(t, e, k - 1);
        assert(seq![s[0]] + (t.take(k - 1) + seq![e] + t.skip(k - 1)) =~= s.take(k) + seq![e]
            + s.skip(k));
    }
}

proof fn lemma_entries_upto_len(m: Map<u8, u64>, k: nat)
    ensures
        entries_upto(m, k).len() <= k,
    decreases k,
{
    if k > 0 {
        lemma_entries_upto_len(m, (k - 1) as nat);
    }
}

proof fn lemma_entries_upto_total(m: Map<u8, u64>, k: nat)
    requires
        k <= 256,
    ensures
        entries_total(entries_upto(m, k)) == sum_below(m, k),
    decreases k,
{
    if k > 0 {
        let b = (k - 1) as u8;
        let prev = entries_upto(m, (k - 1) as nat);
        lemma_entries_upto_total(m, (k - 1) as nat);
        assert(prev.push((b, m[b])).drop_last() =~= prev);
    }
}

proof fn lemma_sort_total(s: Seq<(u8, u64)>)
    ensures
        entries_total(sort_by_freq(s)) == entries_total(s),
        sort_by_freq(s).len() == s.len(),
    decreases s.len(),
{
    if s.len() > 0 {
        let p = sort_by_freq(s.drop_last());
        let e = s.last();
        lemma_sort_total(s.drop_last());
        let k = insert_position(p, e);
        lemma_insert_position(p, e);
        lemma_insert_split(p, e, k);
        assert(p =~= p.take(k) + p.skip(k));
        lemma_entries_total_concat(p.take(k), p.skip(k));
        lemma_entries_total_concat(p.take(k) + seq![e], p.skip(k));
        lemma_entries_total_concat(p.take(k), seq![e]);
        assert(seq![e].drop_last() =~= Seq::<(u8, u64)>::empty());
        assert(seq![e].last() == e);
        assert(entries_total(seq![e].drop_last()) == 0);
        assert(entries_total(seq![e]) == e.1);
        assert(sort_by_freq(s) == p.take(k) + seq![e] + p.skip(k));
        assert(entries_total(s) == entries_total(s.drop_last()) + e.1);
    }
}

/// Where `insert_by_freq` places `e`: after the leading entries whose
/// frequency is not above `e`'s.
pub open spec fn insert_position(s: Seq<(u8, u64)>, e: (u8, u64)) -> int
    decreases s.len(),
{
    if s.len() == 0 || e.1 < s[0].1 {
        0
    } else {
        1 + insert_position(s.drop_first(), e)
    }
}

proof fn lemma_insert_position(s: Seq<(u8, u64)>, e: (u8, u64))
    ensures
        0 <= insert_position(s, e) <= s.len(),
        forall|j: int| 0 <= j < insert_position(s, e) ==> s[j].1 <= e.1,
        insert_position(s, e) < s.len() ==> s[insert_position(s, e)].1 > e.1,
    decreases s.len(),
{
    if s.len() > 0 && !(e.1 < s[0].1) {
        lemma_insert_position(s.drop_first(), e);
        let k = insert_position(s, e);
        assert forall|j: int| 0 <= j < k implies s[j].1 <= e.1 by {
            if j > 0 {
                assert(s[j] == s.drop_first()[j - 1]);
            }
        }
    }
}

proof fn lemma_leaf_queue_total(s: Seq<(u8, u64)>)
    ensures
        queue_total(leaf_queue(s)) == entries_total(s),
    decreases s.len(),
{
    if s.len() > 0 {
        assert(leaf_queue(s).drop_last() =~= leaf_queue(s.drop_last()));
        lemma_leaf_queue_total(s.drop_last());
    }
}

/// The position of the item that leaves the queue next.
fn min_position(q: &Vec<HeapItem>) -> (r: usize)
    requires
        q.len() > 0,
    ensures
        r == min_index(q@),
        r < q.len(),
{
    let mut best: usize = 0;
    let mut i: usize = 1;
    assert(q@.take(1).len() == 1);
    while i < q.len()
        invariant
            1 <= i <= q.len(),
            best == min_index(q@.take(i as int)),
            best < i,
        decreases q.len() - i,
    {
        let ghost t = q@.take(i + 1);
        assert(t.drop_last() =~= q@.take(i as int));
        assert(t.last() == q@[i as int]);
        assert(t[best as int] == q@[best as int]);
        if q[i].pops_before(&q[best]) {
            best = i;
        }
        i = i + 1;
    }
    assert(q@.take(q.len() as int) =~= q@);
    best
}

/// A table has at most 256 entries.
pub proof fn lemma_map_entries_len(m: Map<u8, u64>)
    ensures
        map_entries(m).len() <= 256,
{
    lemma_entries_upto_len(m, 256);
}

proof fn lemma_entries_upto_count(m: Map<u8, u64>, k: nat)
    requires
        k <= 256,
    ensures
        Set::new(|b: u8| m.contains_key(b) && (b as nat) < k).finite(),
        entries_upto(m, k).len() == Set::new(|b: u8| m.contains_key(b) && (b as nat) < k).len(),
    decreases k,
{
    let s = Set::new(|b: u8| m.contains_key(b) && (b as nat) < k);
    if k == 0 {
        assert(s =~= Set::<u8>::empty());
        broadcast use vstd::set::axiom_set_empty_len;
    } else {
        let prev = Set::new(|b: u8| m.contains_key(b) && (b as nat) < (k - 1) as nat);
        lemma_entries_upto_count(m, (k - 1) as nat);
        let b = (k - 1) as u8;
        if m.contains_key(b) {
            assert(s =~= prev.insert(b));
            vstd::set::axiom_set_insert_finite(prev, b);
            vstd::set::axiom_set_insert_len(prev, b);
        } else {
            assert(s =~= prev);
        }
    }
}

/// The entries list of a table has one entry per byte of the table.
pub proof fn lemma_map_entries_count(m: Map<u8, u64>)
    ensures
        m.dom().finite(),
        map_entries(m).len() == m.dom().len(),
{
    lemma_entries_upto_count(m, 256);
    assert(Set::new(|b: u8| m.contains_key(b) && (b as nat) < 256) =~= m.dom());
}

/// The entries of a frequency table in ascending byte order.
pub fn table_entries(freq: &HashMap<u8, u64>) -> (entries: Vec<(u8, u64)>)
    ensures
        entries@ == map_entries(freq@),
{
    let mut entries: Vec<(u8, u64)> = Vec::new();
    let mut b: u16 = 0;
    while b < 256
        invariant
            b <= 256,
            entries@ == entries_upto(freq@, b as nat),
        decreases 256 - b,
    {
        let k = b as u8;
        match freq.get(&k) {
            Some(f) => {
                entries.push((k, *f));
            },
            None => {},
        }
        b = b + 1;
    }
    entries
}

/// Builds the Huffman tree of a frequency table; `None` when the table is
/// empty.
pub fn build_tree(freq: &HashMap<u8, u64>) -> (r: Option<Box<HuffNode>>)
    requires
        map_total(freq@) <= u64::MAX,
    ensures
        match r {
            Some(t) => huffman_tree(freq@) == Some(*t),
            None => huffman_tree(freq@) is None,
        },
{
    // The entries in ascending byte order.
    let entries = table_entries(freq);
    proof {
        lemma_entries_upto_len(freq@, 256);
        lemma_entries_upto_total(freq@, 256);
    }
    // Stable insertion sort by frequency: ties stay in byte order.
    let mut sorted: Vec<(u8, u64)> = Vec::new();
    let mut i: usize = 0;
    assert(entries@.take(0) =~= Seq::<(u8, u64)>::empty());
    while i < entries.len()
        invariant
            i <= entries.len(),
            entries@ == map_entries(freq@),
            sorted@ == sort_by_freq(entries@.take(i as int)),
            sorted.len() == i,
        decreases entries.len() - i,
    {
        let e = entries[i];
        let mut k: usize = 0;
        while k < sorted.len() && sorted[k].1 <= e.1
            invariant
                k <= sorted.len(),
                forall|j: int| 0 <= j < k ==> sorted@[j].1 <= e.1,
            decreases sorted.len() - k,
        {
            k = k + 1;
        }
        let ghost before = sorted@;
        sorted.insert(k, e);
        proof {
            lemma_insert_split(before, e, k as int);
            assert(sorted@ =~= before.take(k as int) + seq![e] + before.skip(k as int));
            let t = entries@.take(i + 1);
            assert(t.drop_last() =~= entries@.take(i as int));
        }
        i = i + 1;
    }
    assert(entries@.take(entries.len() as int) =~= entries@);
    proof {
        lemma_sort_total(entries@);
    }
    // One leaf per entry, numbered in sorted order.
    let mut heap: Vec<HeapItem> = Vec::new();
    let mut next_id: u64 = 0;
    let mut i: usize = 0;
    while i < sorted.len()
        invariant
            i <= sorted.len(),
            sorted.len() <= 256,
            next_id == i,
            heap@ == leaf_queue(sorted@.take(i as int)),
        decreases sorted.len() - i,
    {
        let e = sorted[i];
        let ghost before = heap@;
        heap.push(HeapItem { freq: e.1, id: next_id, node: Box::new(HuffNode::Leaf { byte: e.0 }) });
        assert(heap@ =~= leaf_queue(sorted@.take(i + 1)));
        next_id = next_id + 1;
        i = i + 1;
    }
    assert(sorted@.take(sorted.len() as int) =~= sorted@);
    proof {
        lemma_leaf_queue_total(sorted@);
    }
    let ghost target = huffman_tree(freq@);
    // Join the two subtrees that leave the queue first, until one is left.
    while heap.len() > 1
        invariant
            combine_queue(heap@, next_id) == target,
            queue_total(heap@) <= u64::MAX,
            next_id as int + heap.len() <= 512,
        decreases heap.len(),
    {
        let ghost q = heap@;
        let p1 = min_position(&heap);
        let left = heap.remove(p1);
        let ghost q1 = heap@;
        let p2 = min_position(&heap);
        let right = heap.remove(p2);
        let ghost q2 = heap@;
        proof {
            lemma_queue_total_remove(q, p1 as int);
            lemma_queue_total_remove(q1, p2 as int);
        }
        let combined: u64 = left.freq + right.freq;
        let item = HeapItem {
            freq: combined,
            id: next_id,
            node: Box::new(HuffNode::Internal { left: left.node, right: right.node }),
        };
        assert(item == merge_items(q[p1 as int], q1[p2 as int], next_id));
        heap.push(item);
        assert(heap@ =~= q2.push(merge_items(q[p1 as int], q1[p2 as int], next_id)));
        assert(heap@.drop_last() =~= q2);
        next_id = next_id + 1;
    }
    match heap.pop() {
        Some(item) => Some(item.node),
        None => None,
    }
}


/// The bytes that a list of entries names.
pub open spec fn entry_keys(s: Seq<(u8, u64)>) -> Set<u8> {
    Set::new(|b: u8| exists|i: int| 0 <= i < s.len() && s[i].0 == b)
}

/// The bytes at the leaves of the trees in a queue.
pub open spec fn queue_labels(q: Seq<HeapItem>) -> Set<u8> {
    Set::new(|b: u8| exists|i: int| 0 <= i < q.len() && labels(*q[i].node).contains(b))
}

proof fn lemma_entries_upto_keys(m: Map<u8, u64>, k: nat)
    requires
        k <= 256,
    ensures
        entry_keys(entries_upto(m, k)) == Set::new(|b: u8| m.contains_key(b) && (b as nat) < k),
        forall|i: int|
            0 <= i < entries_upto(m, k).len() ==> #[trigger] entries_upto(m, k)[i].0 < k
                && m.contains_key(entries_upto(m, k)[i].0) && entries_upto(m, k)[i].1 == m[entries_upto(m, k)[i].0],
    decreases k,
{
    if k > 0 {
        let b = (k - 1) as u8;
        let prev = entries_upto(m, (k - 1) as nat);
        lemma_entries_upto_keys(m, (k - 1) as nat);
        let cur = entries_upto(m, k);
        let want = Set::new(|c: u8| m.contains_key(c) && (c as nat) < k);
        assert forall|c: u8| entry_keys(cur).contains(c) <==> want.contains(c) by {
            if want.contains(c) {
                if c == b {
                    assert(cur[cur.len() - 1].0 == c);
                } else {
                    assert(entry_keys(prev).contains(c));
                    let i = choose|i: int| 0 <= i < prev.len() && prev[i].0 == c;
                    assert(cur[i] == prev[i]);
                }
            }
            if entry_keys(cur).contains(c) {
                let i = choose|i: int| 0 <= i < cur.len() && cur[i].0 == c;
                if i < prev.len() {
                    assert(cur[i] == prev[i]);
                    assert(entry_keys(prev).contains(c));
                }
            }
        }
        assert(entry_keys(cur) =~= want);
        assert forall|i: int| 0 <= i < cur.len() implies #[trigger] cur[i].0 < k && m.contains_key(
            cur[i].0,
        ) && cur[i].1 == m[cur[i].0] by {
            if i < prev.len() {
                assert(cur[i] == prev[i]);
            }
        }
    }
}

proof fn lemma_sort_keys(s: Seq<(u8, u64)>)
    ensures
        entry_keys(sort_by_freq(s)) == entry_keys(s),
    decreases s.len(),
{
    if s.len() > 0 {
        let d = s.drop_last();
        let p = sort_by_freq(d);
        let e = s.last();
        lemma_sort_keys(d);
        lemma_sort_total(d);
        let k = insert_position(p, e);
        lemma_insert_position(p, e);
        lemma_insert_split(p, e, k);
        let r = p.take(k) + seq![e] + p.skip(k);
        assert forall|c: u8| entry_keys(r).contains(c) <==> entry_keys(s).contains(c) by {
            if entry_keys(r).contains(c) {
                let i = choose|i: int| 0 <= i < r.len() && r[i].0 == c;
                if i < k {
                    assert(r[i] == p[i]);
                    assert(entry_keys(d).contains(c));
                    let j = choose|j: int| 0 <= j < d.len() && d[j].0 == c;
                    assert(s[j] == d[j]);
                } else if i == k {
                    assert(s[s.len() - 1] == e);
                } else {
                    assert(r[i] == p[i - 1]);
                    assert(entry_keys(p).contains(c));
                    let j = choose|j: int| 0 <= j < d.len() && d[j].0 == c;
                    assert(s[j] == d[j]);
                }
            }
            if entry_keys(s).contains(c) {
                let j = choose|j: int| 0 <= j < s.len() && s[j].0 == c;
                if j == s.len() - 1 {
                    assert(r[k] == e);
                } else {
                    assert(d[j] == s[j]);
                    assert(entry_keys(d).contains(c));
                    assert(entry_keys(p).contains(c));
                    let i = choose|i: int| 0 <= i < p.len() && p[i].0 == c;
                    if i < k {
                        assert(r[i] == p[i]);
                    } else {
                        assert(r[i + 1] == p[i]);
                    }
                }
            }
        }
        assert(entry_keys(sort_by_freq(s)) =~= entry_keys(s));
    }
}

proof fn lemma_queue_labels_remove(q: Seq<HeapItem>, i: int)
    requires
        0 <= i < q.len(),
    ensures
        queue_labels(q) == queue_labels(q.remove(i)) + labels(*q[i].node),
{
    let r = q.remove(i);
    assert forall|c: u8| queue_labels(q).contains(c) <==> (queue_labels(r) + labels(
        *q[i].node,
    )).contains(c) by {
        if queue_labels(q).contains(c) {
            let j = choose|j: int| 0 <= j < q.len() && labels(*q[j].node).contains(c);
            if j < i {
                assert(r[j] == q[j]);
            } else if j > i {
                assert(r[j - 1] == q[j]);
            }
        }
        if queue_labels(r).contains(c) {
            let j = choose|j: int| 0 <= j < r.len() && labels(*r[j].node).contains(c);
            if j < i {
                assert(r[j] == q[j]);
            } else {
                assert(r[j] == q[j + 1]);
            }
        }
    }
    assert(queue_labels(q) =~= queue_labels(r) + labels(*q[i].node));
}

proof fn lemma_queue_labels_push(q: Seq<HeapItem>, x: HeapItem)
    ensures
        queue_labels(q.push(x)) == queue_labels(q) + labels(*x.node),
{
    let r = q.push(x);
    assert forall|c: u8| queue_labels(r).contains(c) <==> (queue_labels(q) + labels(
        *x.node,
    )).contains(c) by {
        if queue_labels(r).contains(c) {
            let j = choose|j: int| 0 <= j < r.len() && labels(*r[j].node).contains(c);
            if j < q.len() {
                assert(r[j] == q[j]);
            }
        }
        if queue_labels(q).contains(c) {
            let j = choose|j: int| 0 <= j < q.len() && labels(*q[j].node).contains(c);
            assert(r[j] == q[j]);
        }
        if labels(*x.node).contains(c) {
            assert(r[q.len() as int] == x);
        }
    }
    assert(queue_labels(r) =~= queue_labels(q) + labels(*x.node));
}

proof fn lemma_combine_labels(q: Seq<HeapItem>, next_id: u64)
    ensures
        (combine_queue(q, next_id) is None) == (q.len() == 0),
        combine_queue(q, next_id) matches Some(t) ==> labels(t) == queue_labels(q),
    decreases q.len(),
{
    if q.len() == 1 {
        assert forall|c: u8| queue_labels(q).contains(c) <==> labels(*q[0].node).contains(c) by {
            if queue_labels(q).contains(c) {
                let j = choose|j: int| 0 <= j < q.len() && labels(*q[j].node).contains(c);
                assert(j == 0);
            }
        }
        assert(queue_labels(q) =~= labels(*q[0].node));
    } else if q.len() > 1 {
        let i = min_index(q);
        lemma_min_index_range(q);
        let q1 = q.remove(i);
        let j = min_index(q1);
        lemma_min_index_range(q1);
        let q2 = q1.remove(j);
        let x = merge_items(q[i], q1[j], next_id);
        lemma_combine_labels(q2.push(x), (next_id + 1) as u64);
        lemma_queue_labels_remove(q, i);
        lemma_queue_labels_remove(q1, j);
        lemma_queue_labels_push(q2, x);
        assert(labels(*x.node) == labels(*q[i].node) + labels(*q1[j].node));
        assert(queue_labels(q2.push(x)) =~= queue_labels(q));
    }
}

proof fn lemma_leaf_queue_labels(s: Seq<(u8, u64)>)
    ensures
        queue_labels(leaf_queue(s)) == entry_keys(s),
{
    let q = leaf_queue(s);
    assert forall|c: u8| queue_labels(q).contains(c) <==> entry_keys(s).contains(c) by {
        if queue_labels(q).contains(c) {
            let j = choose|j: int| 0 <= j < q.len() && labels(*q[j].node).contains(c);
            assert(labels(*q[j].node) == set![s[j].0]);
        }
        if entry_keys(s).contains(c) {
            let j = choose|j: int| 0 <= j < s.len() && s[j].0 == c;
            assert(labels(*q[j].node) == set![s[j].0]);
        }
    }
    assert(queue_labels(q) =~= entry_keys(s));
}

/// A frequency table has a Huffman tree exactly when it is not empty, and the
/// leaves of that tree carry exactly the bytes of the table.
pub proof fn lemma_huffman_tree_labels(m: Map<u8, u64>)
    ensures
        (huffman_tree(m) is None) == (forall|b: u8| !m.contains_key(b)),
        huffman_tree(m) matches Some(t) ==> labels(t) == m.dom(),
{
    let e = map_entries(m);
    let s = sort_by_freq(e);
    lemma_entries_upto_keys(m, 256);
    lemma_sort_keys(e);
    lemma_sort_total(e);
    lemma_leaf_queue_labels(s);
    lemma_combine_labels(leaf_queue(s), s.len() as u64);
    assert(entry_keys(e) =~= m.dom());
    if e.len() > 0 {
        assert(m.contains_key(e[0].0));
    }
    if e.len() == 0 {
        assert forall|b: u8| !m.contains_key(b) by {
            if m.contains_key(b) {
                assert(entry_keys(e).contains(b));
            }
        }
    }
}


/// The bytes at the leaves of `t`, from left to right.
pub open spec fn leaves(t: HuffNode) -> Seq<u8>
    decreases t,
{
    match t {
        HuffNode::Leaf { byte } => seq![byte],
        HuffNode::Internal { left, right } => leaves(*left) + leaves(*right),
    }
}

/// How many leaves the trees in a queue have together.
pub open spec fn queue_leaf_count(q: Seq<HeapItem>) -> nat
    decreases q.len(),
{
    if q.len() == 0 {
        0
    } else {
        queue_leaf_count(q.drop_last()) + leaves(*q.last().node).len()
    }
}

proof fn lemma_leaves_labels(t: HuffNode)
    ensures
        leaves(t).to_set() == labels(t),
    decreases t,
{
    broadcast use vstd::seq_lib::group_seq_properties;

    match t {
        HuffNode::Leaf { byte } => {
            assert(leaves(t).to_set() =~= set![byte]) by {
                assert(leaves(t)[0] == byte);
            }
        },
        HuffNode::Internal { left, right } => {
            lemma_leaves_labels(*left);
            lemma_leaves_labels(*right);
            vstd::seq_lib::seq_to_set_distributes_over_add(leaves(*left), leaves(*right));
        },
    }
}

proof fn lemma_queue_leaf_count_remove(q: Seq<HeapItem>, i: int)
    requires
        0 <= i < q.len(),
    ensures
        queue_leaf_count(q.remove(i)) + leaves(*q[i].node).len() == queue_leaf_count(q),
    decreases q.len(),
{
    if i == q.len() - 1 {
        assert(q.remove(i) =~= q.drop_last());
    } else {
        let r = q.remove(i);
        assert(r.drop_last() =~= q.drop_last().remove(i));
        assert(r.last() == q.last());
        lemma_queue_leaf_count_remove(q.drop_last(), i);
    }
}

proof fn lemma_combine_leaf_count(q: Seq<HeapItem>, next_id: u64)
    ensures
        combine_queue(q, next_id) matches Some(t) ==> leaves(t).len() == queue_leaf_count(q),
    decreases q.len(),
{
    if q.len() == 1 {
        assert(queue_leaf_count(q.drop_last()) == 0);
        assert(q.last() == q[0]);
    } else if q.len() > 1 {
        let i = min_index(q);
        lemma_min_index_range(q);
        let q1 = q.remove(i);
        let j = min_index(q1);
        lemma_min_index_range(q1);
        let q2 = q1.remove(j);
        let x = merge_items(q[i], q1[j], next_id);
        lemma_combine_leaf_count(q2.push(x), (next_id + 1) as u64);
        lemma_queue_leaf_count_remove(q, i);
        lemma_queue_leaf_count_remove(q1, j);
        assert(q2.push(x).drop_last() =~= q2);
        assert(q2.push(x).last() == x);
        assert(leaves(*x.node) == leaves(*q[i].node) + leaves(*q1[j].node));
    }
}

proof fn lemma_leaf_queue_count(s: Seq<(u8, u64)>)
    ensures
        queue_leaf_count(leaf_queue(s)) == s.len(),
    decreases s.len(),
{
    if s.len() > 0 {
        lemma_leaf_queue_count(s.drop_last());
        assert(leaf_queue(s).drop_last() =~= leaf_queue(s.drop_last()));
    }
}

/// Every byte of a table sits at exactly one leaf of its Huffman tree, and
/// no other byte sits at a leaf; a table with a single byte gives a tree
/// that is a single leaf.
pub proof fn lemma_huffman_tree_leaves(m: Map<u8, u64>)
    ensures
        huffman_tree(m) matches Some(t) ==> leaves(t).no_duplicates() && leaves(t).to_set()
            == m.dom(),
        m.dom().len() == 1 ==> (huffman_tree(m) matches Some(t) && t is Leaf),
{
    let e = map_entries(m);
    let s = sort_by_freq(e);
    lemma_map_entries_count(m);
    lemma_sort_total(e);
    lemma_huffman_tree_labels(m);
    lemma_leaf_queue_count(s);
    lemma_combine_leaf_count(leaf_queue(s), s.len() as u64);
    if let Some(t) = huffman_tree(m) {
        lemma_leaves_labels(t);
        leaves(t).lemma_no_dup_set_cardinality();
    }
    if m.dom().len() == 1 {
        assert(leaf_queue(s).len() == 1);
    }
}

// ── Huffman's rule ──────────────────────────────────────────────────────────

/// The weight of a tree under a table: the frequencies of its leaves added.
pub open spec fn tree_weight(t: HuffNode, m: Map<u8, u64>) -> nat
    decreases t,
{
    match t {
        HuffNode::Leaf { byte } => m[byte] as nat,
        HuffNode::Internal { left, right } => tree_weight(*left, m) + tree_weight(*right, m),
    }
}

/// The joins of a tree: for each inner node, the weights of its two
/// subtrees, the lighter first.
pub open spec fn joins(t: HuffNode, m: Map<u8, u64>) -> Seq<(nat, nat)>
    decreases t,
{
    match t {
        HuffNode::Leaf { .. } => seq![],
        HuffNode::Internal { left, right } => {
            let a = tree_weight(*left, m);
            let b = tree_weight(*right, m);
            joins(*left, m) + joins(*right, m) + seq![
                if a <= b {
                    (a, b)
                } else {
                    (b, a)
                },
            ]
        },
    }
}

/// Of two joins, one joins nothing heavier than the lighter subtree of the
/// other.
pub open spec fn joins_apart(e1: (nat, nat), e2: (nat, nat)) -> bool {
    e1.1 <= e2.0 || e2.1 <= e1.0
}

/// The next item to leave a queue has the least frequency in it.
proof fn lemma_min_index_least(q: Seq<HeapItem>)
    requires
        q.len() > 0,
    ensures
        forall|k: int| 0 <= k < q.len() ==> q[min_index(q)].freq <= #[trigger] q[k].freq,
    decreases q.len(),
{
    if q.len() > 1 {
        let d = q.drop_last();
        lemma_min_index_least(d);
        lemma_min_index_range(d);
        assert forall|k: int| 0 <= k < q.len() implies q[min_index(q)].freq <= #[trigger] q[k].freq by {
            if k < q.len() - 1 {
                assert(q[k] == d[k]);
            }
            assert(q[min_index(d)] == d[min_index(d)]);
        }
    }
}

/// The invariant of the queue while the tree is built: each item's
/// frequency is the weight of its tree and at least `low`; every join in the
/// queue's trees joins nothing heavier than `low`; and any two joins in them
/// are apart.
spec fn queue_joins_ok(q: Seq<HeapItem>, m: Map<u8, u64>, low: nat) -> bool {
    &&& forall|k: int|
        0 <= k < q.len() ==> (#[trigger] q[k]).freq == tree_weight(*q[k].node, m) && low
            <= q[k].freq
    &&& forall|k: int, a: int|
        0 <= k < q.len() && 0 <= a < joins(*q[k].node, m).len() ==> (#[trigger] joins(
            *q[k].node,
            m,
        )[a]).1 <= low
    &&& forall|k1: int, a1: int, k2: int, a2: int|
        #![trigger joins(*q[k1].node, m)[a1], joins(*q[k2].node, m)[a2]]
        0 <= k1 < q.len() && 0 <= a1 < joins(*q[k1].node, m).len() && 0 <= k2 < q.len() && 0
            <= a2 < joins(*q[k2].node, m).len() && (k1 != k2 || a1 != a2) ==> joins_apart(
            joins(*q[k1].node, m)[a1],
            joins(*q[k2].node, m)[a2],
        )
}

/// Where an item of the queue after one join came from in the queue before
/// it: `i` and `j` are the positions taken out, `n2` the number of items
/// left, `lx` the number of joins of the first item taken.
spec fn from_item(k: int, a: int, i: int, j: int, n2: int, lx: int) -> int {
    if k < n2 {
        let k1 = if k < j {
            k
        } else {
            k + 1
        };
        if k1 < i {
            k1
        } else {
            k1 + 1
        }
    } else if a < lx {
        i
    } else if j < i {
        j
    } else {
        j + 1
    }
}

spec fn from_join(k: int, a: int, n2: int, lx: int) -> int {
    if k < n2 || a < lx {
        a
    } else {
        a - lx
    }
}

/// One join keeps the invariant, with the frequency of the second item taken
/// as the new bound, and keeps the queue's total.
#[verifier::spinoff_prover]
#[verifier::rlimit(60)]
proof fn lemma_join_step(q: Seq<HeapItem>, next_id: u64, m: Map<u8, u64>, low: nat)
    requires
        q.len() > 1,
        queue_joins_ok(q, m, low),
        queue_total(q) <= u64::MAX,
    ensures
        ({
            let i = min_index(q);
            let q1 = q.remove(i);
            let j = min_index(q1);
            let q3 = q1.remove(j).push(merge_items(q[i], q1[j], next_id));
            &&& queue_joins_ok(q3, m, q1[j].freq as nat)
            &&& queue_total(q3) == queue_total(q)
        }),
{
    let i = min_index(q);
    lemma_min_index_range(q);
    lemma_min_index_least(q);
    let q1 = q.remove(i);
    let j = min_index(q1);
    lemma_min_index_range(q1);
    lemma_min_index_least(q1);
    let q2 = q1.remove(j);
    let x = q[i];
    let y = q1[j];
    let iy = if j < i {
        j
    } else {
        j + 1
    };
    assert(y == q[iy]);
    assert(x.freq <= y.freq);
    lemma_queue_total_remove(q, i);
    lemma_queue_total_remove(q1, j);
    let z = merge_items(x, y, next_id);
    assert(z.freq == x.freq + y.freq);
    let q3 = q2.push(z);
    assert(q3.drop_last() =~= q2);
    assert(q3.last() == z);
    let n2 = q2.len() as int;
    let jx = joins(*x.node, m);
    let jy = joins(*y.node, m);
    let lx = jx.len() as int;
    let ly = jy.len() as int;
    assert(tree_weight(*x.node, m) == x.freq);
    assert(tree_weight(*y.node, m) == y.freq);
    assert(tree_weight(*z.node, m) == z.freq);
    assert(joins(*z.node, m) == jx + jy + seq![(x.freq as nat, y.freq as nat)]);
    // Where each join of the new queue was before.
    assert forall|k: int, a: int|
        0 <= k < q3.len() && 0 <= a < joins(*q3[k].node, m).len() && !(k == n2 && a == lx + ly)
            implies ({
        let fk = from_item(k, a, i, j, n2, lx);
        let fa = from_join(k, a, n2, lx);
        &&& 0 <= fk < q.len()
        &&& 0 <= fa < joins(*q[fk].node, m).len()
        &&& #[trigger] joins(*q3[k].node, m)[a] == joins(*q[fk].node, m)[fa]
        &&& (k < n2 ==> fk != i && fk != iy && q3[k] == q[fk])
        &&& (k == n2 ==> (a < lx ==> fk == i) && (a >= lx ==> fk == iy))
    }) by {
        if k < n2 {
            let k1 = if k < j {
                k
            } else {
                k + 1
            };
            assert(q2[k] == q1[k1]);
            assert(q3[k] == q2[k]);
            if k1 < i {
                assert(q1[k1] == q[k1]);
            } else {
                assert(q1[k1] == q[k1 + 1]);
            }
        } else {
            assert(q3[k] == z);
            if a < lx {
                assert(joins(*z.node, m)[a] == jx[a]);
            } else {
                assert(joins(*z.node, m)[a] == jy[a - lx]);
            }
        }
    }
    // Frequencies.
    assert forall|k: int| 0 <= k < q3.len() implies (#[trigger] q3[k]).freq == tree_weight(
        *q3[k].node,
        m,
    ) && y.freq <= q3[k].freq by {
        if k < n2 {
            let k1 = if k < j {
                k
            } else {
                k + 1
            };
            assert(q3[k] == q2[k]);
            assert(q2[k] == q1[k1]);
            if k1 < i {
                assert(q1[k1] == q[k1]);
            } else {
                assert(q1[k1] == q[k1 + 1]);
            }
        }
    }
    // Bounds.
    assert forall|k: int, a: int|
        0 <= k < q3.len() && 0 <= a < joins(*q3[k].node, m).len() implies (#[trigger] joins(
        *q3[k].node,
        m,
    )[a]).1 <= y.freq by {
        if k == n2 && a == lx + ly {
            assert(q3[k] == z);
        } else {
            let fk = from_item(k, a, i, j, n2, lx);
            let fa = from_join(k, a, n2, lx);
            assert(joins(*q[fk].node, m)[fa].1 <= low);
        }
    }
    // Any two joins are apart.
    assert forall|k1: int, a1: int, k2: int, a2: int|
        0 <= k1 < q3.len() && 0 <= a1 < joins(*q3[k1].node, m).len() && 0 <= k2 < q3.len() && 0
            <= a2 < joins(*q3[k2].node, m).len() && (k1 != k2 || a1 != a2) implies joins_apart(
        #[trigger] joins(*q3[k1].node, m)[a1],
        #[trigger] joins(*q3[k2].node, m)[a2],
    ) by {
        let new1 = k1 == n2 && a1 == lx + ly;
        let new2 = k2 == n2 && a2 == lx + ly;
        if new1 {
            assert(q3[k1] == z);
            let fk = from_item(k2, a2, i, j, n2, lx);
            let fa = from_join(k2, a2, n2, lx);
            assert(joins(*q[fk].node, m)[fa].1 <= low);
        } else if new2 {
            assert(q3[k2] == z);
            let fk = from_item(k1, a1, i, j, n2, lx);
            let fa = from_join(k1, a1, n2, lx);
            assert(joins(*q[fk].node, m)[fa].1 <= low);
        } else {
            let f1 = from_item(k1, a1, i, j, n2, lx);
            let g1 = from_join(k1, a1, n2, lx);
            let f2 = from_item(k2, a2, i, j, n2, lx);
            let g2 = from_join(k2, a2, n2, lx);
            assert(f1 != f2 || g1 != g2);
            assert(joins_apart(joins(*q[f1].node, m)[g1], joins(*q[f2].node, m)[g2]));
        }
    }
}

/// Every entry of `s` carries the frequency that `m` gives its byte.
spec fn entries_match(s: Seq<(u8, u64)>, m: Map<u8, u64>) -> bool {
    forall|i: int| 0 <= i < s.len() ==> (#[trigger] s[i]).1 == m[s[i].0]
}

proof fn lemma_sort_match(s: Seq<(u8, u64)>, m: Map<u8, u64>)
    requires
        entries_match(s, m),
    ensures
        entries_match(sort_by_freq(s), m),
    decreases s.len(),
{
    if s.len() > 0 {
        let d = s.drop_last();
        let p = sort_by_freq(d);
        let e = s.last();
        assert(entries_match(d, m)) by {
            assert forall|i: int| 0 <= i < d.len() implies (#[trigger] d[i]).1 == m[d[i].0] by {
                assert(d[i] == s[i]);
            }
        }
        lemma_sort_match(d, m);
        lemma_sort_total(d);
        let k = insert_position(p, e);
        lemma_insert_position(p, e);
        lemma_insert_split(p, e, k);
        let r = p.take(k) + seq![e] + p.skip(k);
        assert(e == s[s.len() - 1]);
        assert forall|i: int| 0 <= i < r.len() implies (#[trigger] r[i]).1 == m[r[i].0] by {
            if i < k {
                assert(r[i] == p[i]);
            } else if i > k {
                assert(r[i] == p[i - 1]);
            }
        }
    }
}

proof fn lemma_combine_joins(q: Seq<HeapItem>, next_id: u64, m: Map<u8, u64>, low: nat)
    requires
        queue_joins_ok(q, m, low),
        queue_total(q) <= u64::MAX,
    ensures
        combine_queue(q, next_id) matches Some(t) ==> forall|a: int, b: int|
            0 <= a < joins(t, m).len() && 0 <= b < joins(t, m).len() && a != b ==> joins_apart(
                #[trigger] joins(t, m)[a],
                #[trigger] joins(t, m)[b],
            ),
    decreases q.len(),
{
    if q.len() == 1 {
        let t = *q[0].node;
        assert forall|a: int, b: int|
            0 <= a < joins(t, m).len() && 0 <= b < joins(t, m).len() && a != b implies joins_apart(
            #[trigger] joins(t, m)[a],
            #[trigger] joins(t, m)[b],
        ) by {
            assert(joins_apart(joins(*q[0].node, m)[a], joins(*q[0].node, m)[b]));
        }
    } else if q.len() > 1 {
        lemma_join_step(q, next_id, m, low);
        let i = min_index(q);
        lemma_min_index_range(q);
        let q1 = q.remove(i);
        let j = min_index(q1);
        lemma_min_index_range(q1);
        let q3 = q1.remove(j).push(merge_items(q[i], q1[j], next_id));
        lemma_combine_joins(q3, (next_id + 1) as u64, m, q1[j].freq as nat);
    }
}

/// Huffman's rule: each join takes the two lightest subtrees left, so the
/// weights joined never go down. In the tree of a table, of any two joins,
/// one joins nothing heavier than the lighter subtree that the other joins.
pub proof fn lemma_huffman_tree_joins(m: Map<u8, u64>)
    requires
        map_total(m) <= u64::MAX,
    ensures
        huffman_tree(m) matches Some(t) ==> forall|a: int, b: int|
            0 <= a < joins(t, m).len() && 0 <= b < joins(t, m).len() && a != b ==> joins_apart(
                #[trigger] joins(t, m)[a],
                #[trigger] joins(t, m)[b],
            ),
{
    let e = map_entries(m);
    let s = sort_by_freq(e);
    lemma_entries_upto_keys(m, 256);
    assert(entries_match(e, m));
    lemma_sort_match(e, m);
    lemma_sort_total(e);
    lemma_entries_upto_total(m, 256);
    lemma_leaf_queue_total(s);
    let q = leaf_queue(s);
    assert forall|k: int| 0 <= k < q.len() implies (#[trigger] q[k]).freq == tree_weight(
        *q[k].node,
        m,
    ) && 0 <= q[k].freq by {
        assert(s[k].1 == m[s[k].0]);
    }
    assert forall|k: int| 0 <= k < q.len() implies #[trigger] joins(*q[k].node, m).len() == 0 by {}
    assert(queue_joins_ok(q, m, 0));
    lemma_combine_joins(q, s.len() as u64, m, 0);
}

// ── Codes ───────────────────────────────────────────────────────────────────

/// The code table read off `t`, where `t` hangs below the path `prefix`,
/// added to `acc`. Each leaf's byte gets its path; a tree that is a single
/// leaf gives its byte the one-bit code `false`. A byte found at two leaves
/// keeps the path of the later (rightmost) one.
pub open spec fn code_table(t: HuffNode, prefix: Seq<bool>, acc: Map<u8, Seq<bool>>) -> Map<
    u8,
    Seq<bool>,
>
    decreases t,
{
    match t {
        HuffNode::Leaf { byte } => acc.insert(
            byte,
            if prefix.len() == 0 {
                seq![false]
            } else {
                prefix
            },
        ),
        HuffNode::Internal { left, right } => code_table(
            *right,
            prefix.push(true),
            code_table(*left, prefix.push(false), acc),
        ),
    }
}

/// The code table of a whole tree.
pub open spec fn codes_of(t: HuffNode) -> Map<u8, Seq<bool>> {
    code_table(t, seq![], Map::empty())
}

/// A table of codes held in vectors, seen as bit sequences.
pub open spec fn table_view(m: Map<u8, Vec<bool>>) -> Map<u8, Seq<bool>> {
    Map::new(|b: u8| m.contains_key(b), |b: u8| m[b]@)
}

/// Adds to `codes` the code of every leaf below `node`, where `node` hangs
/// below the path `prefix`.
pub fn generate_codes(node: &HuffNode, prefix: &mut Vec<bool>, codes: &mut HashMap<u8, Vec<bool>>)
    ensures
        final(prefix)@ == old(prefix)@,
        table_view(final(codes)@) == code_table(*node, old(prefix)@, table_view(old(codes)@)),
    decreases node,
{
    match node {
        HuffNode::Leaf { byte } => {
            if prefix.len() == 0 {
                let mut one: Vec<bool> = Vec::new();
                one.push(false);
                codes.insert(*byte, one);
                assert(one@ =~= seq![false]);
            } else {
                let copy = prefix.clone();
                assert(copy@ =~= prefix@);
                codes.insert(*byte, copy);
            }
            assert(table_view(codes@) =~= code_table(*node, old(prefix)@, table_view(old(codes)@)));
        },
        HuffNode::Internal { left, right } => {
            let ghost p = prefix@;
            prefix.push(false);
            generate_codes(left, prefix, codes);
            prefix.pop();
            assert(prefix@ =~= p);
            prefix.push(true);
            generate_codes(right, prefix, codes);
            prefix.pop();
            assert(prefix@ =~= p);
        },
    }
}

/// What `code_table` gives: the bytes of `acc` and of the leaves of `t`;
/// bytes not in `t` keep their code from `acc`; each byte of `t` gets the
/// prefix followed by a path that leads from `t` to a leaf with that byte.
pub proof fn lemma_code_table(t: HuffNode, p: Seq<bool>, acc: Map<u8, Seq<bool>>)
    ensures
        forall|b: u8| #[trigger]
            code_table(t, p, acc).contains_key(b) <==> acc.contains_key(b) || labels(t).contains(b),
        forall|b: u8|
            !labels(t).contains(b) && acc.contains_key(b) ==> #[trigger] code_table(t, p, acc)[b]
                == acc[b],
        forall|b: u8|
            labels(t).contains(b) && (p.len() > 0 || t is Internal) ==> {
                &&& (#[trigger] code_table(t, p, acc)[b]).len() >= p.len()
                &&& code_table(t, p, acc)[b].take(p.len() as int) == p
                &&& follow(t, code_table(t, p, acc)[b].skip(p.len() as int)) == Some(b)
            },
    decreases t,
{
    match t {
        HuffNode::Leaf { byte } => {
            assert(p.take(p.len() as int) =~= p);
            assert(p.skip(p.len() as int) =~= Seq::<bool>::empty());
        },
        HuffNode::Internal { left, right } => {
            let pl = p.push(false);
            let pr = p.push(true);
            let a = code_table(*left, pl, acc);
            let r = code_table(t, p, acc);
            lemma_code_table(*left, pl, acc);
            lemma_code_table(*right, pr, a);
            assert forall|b: u8|
                labels(t).contains(b) && (p.len() > 0 || t is Internal) implies {
                &&& (#[trigger] r[b]).len() >= p.len()
                &&& r[b].take(p.len() as int) == p
                &&& follow(t, r[b].skip(p.len() as int)) == Some(b)
            } by {
                let c = r[b];
                if labels(*right).contains(b) {
                    assert(c == code_table(*right, pr, a)[b]);
                    assert(c.take(pr.len() as int) == pr);
                    assert(c.take(p.len() as int) =~= pr.take(p.len() as int));
                    assert(pr.take(p.len() as int) =~= p);
                    assert(c[p.len() as int] == pr[p.len() as int]);
                    assert(c.skip(p.len() as int).drop_first() =~= c.skip(pr.len() as int));
                } else {
                    assert(c == a[b]);
                    assert(c.take(pl.len() as int) == pl);
                    assert(c.take(p.len() as int) =~= pl.take(p.len() as int));
                    assert(pl.take(p.len() as int) =~= p);
                    assert(c[p.len() as int] == pl[p.len() as int]);
                    assert(c.skip(p.len() as int).drop_first() =~= c.skip(pl.len() as int));
                }
            }
        },
    }
}

/// `x` is a prefix of `y`.
pub open spec fn is_prefix(x: Seq<bool>, y: Seq<bool>) -> bool {
    x.len() <= y.len() && y.take(x.len() as int) == x
}

proof fn lemma_follow_extend(t: HuffNode, p: Seq<bool>, q: Seq<bool>)
    requires
        follow(t, p) is Some,
        follow(t, p + q) is Some,
    ensures
        q.len() == 0,
    decreases p.len(),
{
    match t {
        HuffNode::Leaf { .. } => {
            assert(p + q =~= q);
        },
        HuffNode::Internal { left, right } => {
            assert((p + q)[0] == p[0]);
            assert((p + q).drop_first() =~= p.drop_first() + q);
            if p[0] {
                lemma_follow_extend(*right, p.drop_first(), q);
            } else {
                lemma_follow_extend(*left, p.drop_first(), q);
            }
        },
    }
}

/// The codes of a tree with an internal root form a prefix code: no byte's
/// code begins the code of another byte.
pub proof fn lemma_codes_prefix_free(t: HuffNode)
    requires
        t is Internal,
    ensures
        forall|a: u8, b: u8|
            #![trigger codes_of(t)[a], codes_of(t)[b]]
            codes_of(t).contains_key(a) && codes_of(t).contains_key(b) && a != b ==> !is_prefix(
                codes_of(t)[a],
                codes_of(t)[b],
            ),
{
    let c = codes_of(t);
    lemma_code_table(t, seq![], Map::empty());
    assert forall|a: u8, b: u8|
        #![trigger c[a], c[b]]
        c.contains_key(a) && c.contains_key(b) && a != b implies !is_prefix(c[a], c[b]) by {
        assert(labels(t).contains(a) && labels(t).contains(b));
        assert(c[a].skip(0) =~= c[a]);
        assert(c[b].skip(0) =~= c[b]);
        if is_prefix(c[a], c[b]) {
            let rest = c[b].skip(c[a].len() as int);
            assert(c[b] =~= c[a] + rest);
            lemma_follow_extend(t, c[a], rest);
            assert(c[b] =~= c[a]);
        }
    }
}

/// The codes of the bytes of `data`, one after another.
pub open spec fn encode_bits(data: Seq<u8>, table: Map<u8, Seq<bool>>) -> Seq<bool>
    decreases data.len(),
{
    if data.len() == 0 {
        seq![]
    } else {
        encode_bits(data.drop_last(), table) + table[data.last()]
    }
}

proof fn lemma_encode_first(x: u8, s: Seq<u8>, table: Map<u8, Seq<bool>>)
    ensures
        encode_bits(seq![x] + s, table) == table[x] + encode_bits(s, table),
    decreases s.len(),
{
    if s.len() == 0 {
        assert(seq![x] + s =~= seq![x]);
        assert(seq![x].drop_last() =~= Seq::<u8>::empty());
        assert(encode_bits(Seq::<u8>::empty(), table) =~= Seq::<bool>::empty());
        assert(table[x] + encode_bits(s, table) =~= table[x]);
        assert(encode_bits(seq![x], table) =~= table[x]);
    } else {
        lemma_encode_first(x, s.drop_last(), table);
        assert((seq![x] + s).drop_last() =~= seq![x] + s.drop_last());
        assert((seq![x] + s).last() == s.last());
        assert(table[x] + encode_bits(s.drop_last(), table) + table[s.last()] =~= table[x]
            + encode_bits(s, table));
    }
}

// ── Decoding ────────────────────────────────────────────────────────────────

/// Decoding a bit stream with the tree `root`, from bit `i` on, standing at
/// node `cur`, with `out` decoded so far: each bit steps to the left (false)
/// or right (true) child; a leaf emits its byte and the walk starts again at
/// the root. Decoding stops when the bits run out or when `total` bytes are
/// out.
pub open spec fn decode_run(
    root: HuffNode,
    cur: HuffNode,
    bits: Seq<bool>,
    i: int,
    total: nat,
    out: Seq<u8>,
) -> Seq<u8>
    decreases bits.len() - i,
{
    if i < 0 || i >= bits.len() {
        out
    } else {
        match cur {
            HuffNode::Leaf { .. } => out,
            HuffNode::Internal { left, right } => {
                let next = if bits[i] {
                    *right
                } else {
                    *left
                };
                match next {
                    HuffNode::Leaf { byte } => if out.len() + 1 == total {
                        out.push(byte)
                    } else {
                        decode_run(root, root, bits, i + 1, total, out.push(byte))
                    },
                    HuffNode::Internal { .. } => decode_run(root, next, bits, i + 1, total, out),
                }
            },
        }
    }
}

proof fn lemma_decode_path(
    root: HuffNode,
    cur: HuffNode,
    bits: Seq<bool>,
    i: int,
    q: Seq<bool>,
    b: u8,
    n: nat,
    out: Seq<u8>,
)
    requires
        cur is Internal,
        follow(cur, q) == Some(b),
        0 <= i,
        i + q.len() <= bits.len(),
        bits.subrange(i, i + q.len()) == q,
    ensures
        decode_run(root, cur, bits, i, n, out) == if out.len() + 1 == n {
            out.push(b)
        } else {
            decode_run(root, root, bits, i + q.len(), n, out.push(b))
        },
    decreases q.len(),
{
    assert(q.len() > 0);
    assert(bits[i] == q[0]);
    match cur {
        HuffNode::Internal { left, right } => {
            let next = if q[0] {
                *right
            } else {
                *left
            };
            assert(follow(next, q.drop_first()) == Some(b));
            match next {
                HuffNode::Leaf { byte } => {
                    assert(q.drop_first().len() == 0);
                },
                HuffNode::Internal { .. } => {
                    assert(bits.subrange(i + 1, i + 1 + q.drop_first().len()) =~= q.drop_first());
                    lemma_decode_path(root, next, bits, i + 1, q.drop_first(), b, n, out);
                },
            }
        },
        _ => {},
    }
}

/// Decoding the codes of a non-empty byte string gives the bytes back.
pub proof fn lemma_decode_codes(
    root: HuffNode,
    table: Map<u8, Seq<bool>>,
    s: Seq<u8>,
    bits: Seq<bool>,
    i: int,
    n: nat,
    out: Seq<u8>,
)
    requires
        root is Internal,
        forall|k: int|
            0 <= k < s.len() ==> table.contains_key(#[trigger] s[k]) && follow(root, table[s[k]])
                == Some(s[k]),
        0 <= i <= bits.len(),
        bits.skip(i) == encode_bits(s, table),
        s.len() > 0,
        out.len() + s.len() == n,
    ensures
        decode_run(root, root, bits, i, n, out) == out + s,
    decreases s.len(),
{
    let x = s[0];
    let rest = s.drop_first();
    let q = table[x];
    assert(seq![x] + rest =~= s);
    lemma_encode_first(x, rest, table);
    assert(bits.skip(i) == q + encode_bits(rest, table));
    assert(bits.subrange(i, i + q.len()) =~= q) by {
        assert forall|k: int| 0 <= k < q.len() implies bits.subrange(i, i + q.len())[k] == q[k] by {
            assert(bits.skip(i)[k] == q[k]);
        }
    }
    lemma_decode_path(root, root, bits, i, q, x, n, out);
    if rest.len() == 0 {
        assert(out.push(x) =~= out + s);
    } else {
        assert(bits.skip(i + q.len()) =~= encode_bits(rest, table)) by {
            assert forall|k: int| 0 <= k < bits.skip(i + q.len()).len() implies bits.skip(
                i + q.len(),
            )[k] == encode_bits(rest, table)[k] by {
                assert(bits.skip(i)[q.len() + k] == bits[i + q.len() + k]);
            }
        }
        assert forall|k: int| 0 <= k < rest.len() implies table.contains_key(#[trigger] rest[k])
            && follow(root, table[rest[k]]) == Some(rest[k]) by {
            assert(rest[k] == s[k + 1]);
        }
        lemma_decode_codes(root, table, rest, bits, i + q.len(), n, out.push(x));
        assert(out.push(x) + rest =~= out + s);
    }
}

} // verus!
