//! A sorted, mutable staging area over composite keys: entries wait here,
//! with exact byte accounting, until they are flushed into an immutable
//! columnar block or split to keep a block within its size budget.

use vstd::prelude::*;

use crate::order::{bytes_equal, bytes_less_than, lemma_lex_lt_transitive, lemma_lex_lt_trichotomy,
    lex_lt};
use vstd::string::StringSliceAdditionalSpecFns;
use crate::columnar::{builder_contents, column_contents, contents_bytes, utf8_field, ValueColumn,
    ValueColumnBuilder};
use arrow::datatypes::Field;
use crate::sizing::{lemma_round_up_64_bounds, lemma_round_up_64_monotonic, offset_buffer_size,
    round_up_64, round_upto_multiple_of_64, SingleValueSizeTracker};

verus! {

/// A composite key or an entry, seen mathematically: each string as its
/// encoded bytes.
pub type KeyBytes = (Seq<u8>, Seq<u8>);

/// An entry of the buffer, seen mathematically: prefix, key and value bytes.
pub type EntryBytes = (Seq<u8>, Seq<u8>, Seq<u8>);

/// The encoded bytes of a string.
pub open spec fn str_bytes(s: &str) -> Seq<u8> {
    vstd::utf8::encode_utf8(s@)
}

/// The encoded bytes of an owned string.
pub open spec fn string_bytes(s: String) -> Seq<u8> {
    vstd::utf8::encode_utf8(s@)
}

/// The key part of an entry.
pub open spec fn e_key(e: EntryBytes) -> KeyBytes {
    (e.0, e.1)
}

/// The total order of composite keys: prefix first, then key.
pub open spec fn ck_lt(a: KeyBytes, b: KeyBytes) -> bool {
    lex_lt(a.0, b.0) || (a.0 == b.0 && lex_lt(a.1, b.1))
}

pub proof fn lemma_ck_lt_trichotomy(a: KeyBytes, b: KeyBytes)
    ensures
        ck_lt(a, b) || ck_lt(b, a) || a == b,
        ck_lt(a, b) ==> !ck_lt(b, a) && a != b,
        ck_lt(b, a) ==> !ck_lt(a, b) && a != b,
        a == b ==> !ck_lt(a, b) && !ck_lt(b, a),
{
    lemma_lex_lt_trichotomy(a.0, b.0);
    lemma_lex_lt_trichotomy(a.1, b.1);
}

pub proof fn lemma_ck_lt_transitive(a: KeyBytes, b: KeyBytes, c: KeyBytes)
    requires
        ck_lt(a, b),
        ck_lt(b, c),
    ensures
        ck_lt(a, c),
{
    if lex_lt(a.0, b.0) && lex_lt(b.0, c.0) {
        lemma_lex_lt_transitive(a.0, b.0, c.0);
    } else if a.0 == b.0 && b.0 == c.0 {
        lemma_lex_lt_transitive(a.1, b.1, c.1);
    }
}

/// Entries stand in strictly ascending composite-key order, so keys are
/// unique.
pub open spec fn entries_sorted(s: Seq<EntryBytes>) -> bool {
    forall|i: int, j: int| 0 <= i < j < s.len() ==> ck_lt(e_key(s[i]), e_key(s[j]))
}

/// Some entry of `s` carries the key `k`.
pub open spec fn has_key(s: Seq<EntryBytes>, k: KeyBytes) -> bool {
    exists|i: int| 0 <= i < s.len() && e_key(s[i]) == k
}

/// The index of the entry carrying `k`; meaningful only when `has_key`.
pub open spec fn index_of_key(s: Seq<EntryBytes>, k: KeyBytes) -> int {
    choose|i: int| 0 <= i < s.len() && e_key(s[i]) == k
}

/// In a sorted sequence a key appears at most once.
pub proof fn lemma_sorted_key_unique(s: Seq<EntryBytes>, i: int, j: int)
    requires
        entries_sorted(s),
        0 <= i < s.len(),
        0 <= j < s.len(),
        e_key(s[i]) == e_key(s[j]),
    ensures
        i == j,
{
    if i < j {
        lemma_ck_lt_trichotomy(e_key(s[i]), e_key(s[j]));
    }
    if j < i {
        lemma_ck_lt_trichotomy(e_key(s[j]), e_key(s[i]));
    }
}

/// `s` with `e` inserted at position `i`.
pub open spec fn insert_at(s: Seq<EntryBytes>, i: int, e: EntryBytes) -> Seq<EntryBytes> {
    s.subrange(0, i) + seq![e] + s.subrange(i, s.len() as int)
}

/// `s` without its entry at position `i`.
pub open spec fn remove_at(s: Seq<EntryBytes>, i: int) -> Seq<EntryBytes> {
    s.subrange(0, i) + s.subrange(i + 1, s.len() as int)
}

/// The three raw byte sums of a sequence of entries: prefix, key, value.
pub open spec fn totals(s: Seq<EntryBytes>) -> (int, int, int)
    decreases s.len(),
{
    if s.len() == 0 {
        (0, 0, 0)
    } else {
        let t = totals(s.drop_first());
        (s[0].0.len() + t.0, s[0].1.len() + t.1, s[0].2.len() + t.2)
    }
}

/// The three byte sizes of one entry.
pub open spec fn entry_sizes(e: EntryBytes) -> (int, int, int) {
    (e.0.len() as int, e.1.len() as int, e.2.len() as int)
}

pub proof fn lemma_totals_concat(x: Seq<EntryBytes>, y: Seq<EntryBytes>)
    ensures
        totals(x + y).0 == totals(x).0 + totals(y).0,
        totals(x + y).1 == totals(x).1 + totals(y).1,
        totals(x + y).2 == totals(x).2 + totals(y).2,
    decreases x.len(),
{
    if x.len() == 0 {
        assert(x + y =~= y);
    } else {
        assert((x + y).drop_first() =~= x.drop_first() + y);
        lemma_totals_concat(x.drop_first(), y);
    }
}

pub proof fn lemma_totals_nonneg(s: Seq<EntryBytes>)
    ensures
        totals(s).0 >= 0,
        totals(s).1 >= 0,
        totals(s).2 >= 0,
    decreases s.len(),
{
    if s.len() > 0 {
        lemma_totals_nonneg(s.drop_first());
    }
}

pub proof fn lemma_totals_singleton(e: EntryBytes)
    ensures
        totals(seq![e]) == entry_sizes(e),
{
    assert(seq![e].len() == 1);
    assert(seq![e][0] == e);
    assert(seq![e].drop_first() =~= Seq::<EntryBytes>::empty());
    assert(totals(Seq::<EntryBytes>::empty()) == (0int, 0int, 0int));
}

/// The sums of a sequence split anywhere are the sums of the two parts.
pub proof fn lemma_totals_split(s: Seq<EntryBytes>, i: int)
    requires
        0 <= i <= s.len(),
    ensures
        totals(s).0 == totals(s.subrange(0, i)).0 + totals(s.subrange(i, s.len() as int)).0,
        totals(s).1 == totals(s.subrange(0, i)).1 + totals(s.subrange(i, s.len() as int)).1,
        totals(s).2 == totals(s.subrange(0, i)).2 + totals(s.subrange(i, s.len() as int)).2,
{
    assert(s =~= s.subrange(0, i) + s.subrange(i, s.len() as int));
    lemma_totals_concat(s.subrange(0, i), s.subrange(i, s.len() as int));
}

pub proof fn lemma_totals_insert_at(s: Seq<EntryBytes>, i: int, e: EntryBytes)
    requires
        0 <= i <= s.len(),
    ensures
        totals(insert_at(s, i, e)).0 == totals(s).0 + e.0.len(),
        totals(insert_at(s, i, e)).1 == totals(s).1 + e.1.len(),
        totals(insert_at(s, i, e)).2 == totals(s).2 + e.2.len(),
{
    lemma_totals_concat(s.subrange(0, i) + seq![e], s.subrange(i, s.len() as int));
    lemma_totals_concat(s.subrange(0, i), seq![e]);
    lemma_totals_singleton(e);
    lemma_totals_split(s, i);
}

pub proof fn lemma_totals_remove_at(s: Seq<EntryBytes>, i: int)
    requires
        0 <= i < s.len(),
    ensures
        totals(remove_at(s, i)).0 == totals(s).0 - s[i].0.len(),
        totals(remove_at(s, i)).1 == totals(s).1 - s[i].1.len(),
        totals(remove_at(s, i)).2 == totals(s).2 - s[i].2.len(),
{
    lemma_totals_concat(s.subrange(0, i), s.subrange(i + 1, s.len() as int));
    assert(s =~= s.subrange(0, i) + seq![s[i]] + s.subrange(i + 1, s.len() as int));
    lemma_totals_concat(s.subrange(0, i) + seq![s[i]], s.subrange(i + 1, s.len() as int));
    lemma_totals_concat(s.subrange(0, i), seq![s[i]]);
    lemma_totals_singleton(s[i]);
}

pub proof fn lemma_totals_update(s: Seq<EntryBytes>, i: int, e: EntryBytes)
    requires
        0 <= i < s.len(),
    ensures
        totals(s.update(i, e)).0 == totals(s).0 - s[i].0.len() + e.0.len(),
        totals(s.update(i, e)).1 == totals(s).1 - s[i].1.len() + e.1.len(),
        totals(s.update(i, e)).2 == totals(s).2 - s[i].2.len() + e.2.len(),
{
    assert(s.update(i, e) =~= s.subrange(0, i) + seq![e] + s.subrange(i + 1, s.len() as int));
    lemma_totals_concat(s.subrange(0, i) + seq![e], s.subrange(i + 1, s.len() as int));
    lemma_totals_concat(s.subrange(0, i), seq![e]);
    lemma_totals_singleton(e);
    assert(s =~= s.subrange(0, i) + seq![s[i]] + s.subrange(i + 1, s.len() as int));
    lemma_totals_concat(s.subrange(0, i) + seq![s[i]], s.subrange(i + 1, s.len() as int));
    lemma_totals_concat(s.subrange(0, i), seq![s[i]]);
    lemma_totals_singleton(s[i]);
}

/// No entry outweighs the whole: each entry's sizes are bounded by the sums.
pub proof fn lemma_totals_entry_bound(s: Seq<EntryBytes>, i: int)
    requires
        0 <= i < s.len(),
    ensures
        s[i].0.len() <= totals(s).0,
        s[i].1.len() <= totals(s).1,
        s[i].2.len() <= totals(s).2,
{
    lemma_totals_remove_at(s, i);
    lemma_totals_nonneg(remove_at(s, i));
}

/// The encoded byte length of a string.
pub fn byte_len(s: &str) -> (r: usize)
    ensures
        r == str_bytes(s).len(),
{
    s.as_bytes().len()
}


/// One more entry taken: the sums grow by exactly that entry's sizes.
pub proof fn lemma_totals_take_step(s: Seq<EntryBytes>, c: int)
    requires
        0 <= c < s.len(),
    ensures
        totals(s.subrange(0, c + 1)).0 == totals(s.subrange(0, c)).0 + s[c].0.len(),
        totals(s.subrange(0, c + 1)).1 == totals(s.subrange(0, c)).1 + s[c].1.len(),
        totals(s.subrange(0, c + 1)).2 == totals(s.subrange(0, c)).2 + s[c].2.len(),
{
    assert(s.subrange(0, c + 1) =~= s.subrange(0, c) + seq![s[c]]);
    lemma_totals_concat(s.subrange(0, c), seq![s[c]]);
    lemma_totals_singleton(s[c]);
}

/// The sums of any leading part lie between zero and the full sums.
pub proof fn lemma_totals_take_bound(s: Seq<EntryBytes>, c: int)
    requires
        0 <= c <= s.len(),
    ensures
        0 <= totals(s.subrange(0, c)).0 <= totals(s).0,
        0 <= totals(s.subrange(0, c)).1 <= totals(s).1,
        0 <= totals(s.subrange(0, c)).2 <= totals(s).2,
{
    lemma_totals_split(s, c);
    lemma_totals_nonneg(s.subrange(0, c));
    lemma_totals_nonneg(s.subrange(c, s.len() as int));
}

/// The estimated columnar size of the first `c` entries, as the split walk
/// computes it: each cumulative sum padded to 64 bytes, plus the 4-byte
/// offset buffers implied by `c` entries.
pub open spec fn walk_total(s: Seq<EntryBytes>, c: int) -> int {
    round_up_64(totals(s.subrange(0, c)).0) + round_up_64(totals(s.subrange(0, c)).1)
        + round_up_64(totals(s.subrange(0, c)).2) + 3 * round_up_64(4 * c)
}

pub proof fn lemma_walk_total_monotonic(s: Seq<EntryBytes>, c1: int, c2: int)
    requires
        0 <= c1 <= c2 <= s.len(),
    ensures
        walk_total(s, c1) <= walk_total(s, c2),
{
    assert(s.subrange(0, c2).subrange(0, c1) =~= s.subrange(0, c1));
    lemma_totals_take_bound(s.subrange(0, c2), c1);
    lemma_totals_nonneg(s.subrange(0, c1));
    lemma_round_up_64_monotonic(totals(s.subrange(0, c1)).0, totals(s.subrange(0, c2)).0);
    lemma_round_up_64_monotonic(totals(s.subrange(0, c1)).1, totals(s.subrange(0, c2)).1);
    lemma_round_up_64_monotonic(totals(s.subrange(0, c1)).2, totals(s.subrange(0, c2)).2);
    lemma_round_up_64_monotonic(4 * c1, 4 * c2);
}

/// Every part of the walk total is bounded by the walk total of the whole.
pub proof fn lemma_walk_total_bounds(s: Seq<EntryBytes>)
    ensures
        totals(s).0 <= walk_total(s, s.len() as int),
        totals(s).1 <= walk_total(s, s.len() as int),
        totals(s).2 <= walk_total(s, s.len() as int),
        4 * s.len() <= walk_total(s, s.len() as int),
        walk_total(s, s.len() as int) >= 0,
{
    let n = s.len() as int;
    assert(s.subrange(0, n) =~= s);
    lemma_totals_nonneg(s);
    lemma_round_up_64_bounds(totals(s).0);
    lemma_round_up_64_bounds(totals(s).1);
    lemma_round_up_64_bounds(totals(s).2);
    lemma_round_up_64_bounds(4 * n);
}

/// The first count of entries whose walk total exceeds the budget, searched
/// from `c` on; the length when none does.
pub open spec fn first_exceed(s: Seq<EntryBytes>, split_size: int, c: int) -> int
    decreases s.len() - c,
{
    if c >= s.len() {
        s.len() as int
    } else if walk_total(s, c + 1) > split_size {
        c
    } else {
        first_exceed(s, split_size, c + 1)
    }
}

pub proof fn lemma_first_exceed_props(s: Seq<EntryBytes>, split_size: int, c: int)
    requires
        0 <= c <= s.len(),
    ensures
        c <= first_exceed(s, split_size, c) <= s.len(),
        first_exceed(s, split_size, c) < s.len() ==> walk_total(
            s,
            first_exceed(s, split_size, c) + 1,
        ) > split_size,
        forall|d: int|
            c <= d < first_exceed(s, split_size, c) ==> #[trigger] walk_total(s, d + 1)
                <= split_size,
    decreases s.len() - c,
{
    if c < s.len() && !(walk_total(s, c + 1) > split_size) {
        lemma_first_exceed_props(s, split_size, c + 1);
    }
}

/// Where a split parts the entries: just after the first entry whose walk
/// total exceeds the budget, or before the last entry when the excess shows
/// only there.
pub open spec fn split_point(s: Seq<EntryBytes>, split_size: int) -> int {
    let f = first_exceed(s, split_size, 0);
    if f + 1 < s.len() {
        f + 1
    } else {
        s.len() - 1
    }
}

/// The opaque ordered key type paired with a prefix in a composite key. Keys
/// order lexicographically by their encoded bytes and report their encoded
/// byte length for size accounting.
pub struct KeyWrapper(pub String);

impl KeyWrapper {
    /// The encoded byte length of this key.
    pub fn get_size(&self) -> (r: usize)
        ensures
            r == string_bytes(self.0).len(),
    {
        byte_len(self.0.as_str())
    }

    /// The byte size of an offset buffer for `count` keys: this key type
    /// uses 4-byte offsets, one more offset than elements, padded to the
    /// 64-byte boundary.
    pub fn offset_size(count: usize) -> (r: usize)
        requires
            (count + 1) * 4 + 63 <= usize::MAX,
        ensures
            r == offset_buffer_size(count as int),
    {
        round_upto_multiple_of_64((count + 1) * 4)
    }

    /// A copy with the same bytes.
    pub fn duplicate(&self) -> (r: Self)
        ensures
            r.0@ == self.0@,
    {
        KeyWrapper(self.0.clone())
    }
}

/// The sort key of a delta buffer: prefix first, then key.
pub struct CompositeKey {
    pub prefix: String,
    pub key: KeyWrapper,
}

/// A composite key seen mathematically: the encoded bytes of its two parts.
pub open spec fn ck_view(k: CompositeKey) -> KeyBytes {
    (string_bytes(k.prefix), string_bytes(k.key.0))
}

/// An entry seen mathematically: prefix, key and value bytes.
pub open spec fn entry_view(e: (CompositeKey, String)) -> EntryBytes {
    (string_bytes(e.0.prefix), string_bytes(e.0.key.0), string_bytes(e.1))
}

impl CompositeKey {
    /// A copy with the same bytes.
    pub fn duplicate(&self) -> (r: Self)
        ensures
            ck_view(r) == ck_view(*self),
            r.prefix@ == self.prefix@,
            r.key.0@ == self.key.0@,
    {
        CompositeKey { prefix: self.prefix.clone(), key: self.key.duplicate() }
    }
}

/// True when `a` comes strictly before `b` in composite-key order.
pub fn ck_less(a: &CompositeKey, b: &CompositeKey) -> (r: bool)
    ensures
        r == ck_lt(ck_view(*a), ck_view(*b)),
{
    let ap = a.prefix.as_str().as_bytes();
    let bp = b.prefix.as_str().as_bytes();
    if bytes_less_than(ap, bp) {
        true
    } else if bytes_equal(ap, bp) {
        bytes_less_than(a.key.0.as_str().as_bytes(), b.key.0.as_str().as_bytes())
    } else {
        false
    }
}

/// Accumulates composite keys, in the order they are handed over, for later
/// conversion into a key column.
pub struct BlockKeyArrowBuilder {
    keys: Vec<CompositeKey>,
}

impl View for BlockKeyArrowBuilder {
    type V = Seq<KeyBytes>;

    closed spec fn view(&self) -> Seq<KeyBytes> {
        self.keys@.map_values(|k: CompositeKey| ck_view(k))
    }
}

impl BlockKeyArrowBuilder {
    pub fn new() -> (r: Self)
        ensures
            r@ == Seq::<KeyBytes>::empty(),
    {
        let r = BlockKeyArrowBuilder { keys: Vec::new() };
        proof {
            assert(r@ =~= Seq::<KeyBytes>::empty());
        }
        r
    }

    pub fn add_key(&mut self, key: CompositeKey)
        ensures
            final(self)@ == old(self)@.push(ck_view(key)),
    {
        self.keys.push(key);
        proof {
            assert(self@ =~= old(self)@.push(ck_view(key)));
        }
    }

    pub fn len(&self) -> (r: usize)
        ensures
            r == self@.len(),
    {
        self.keys.len()
    }

    /// The accumulated key at position `i`.
    pub fn key_at(&self, i: usize) -> (r: &CompositeKey)
        requires
            i < self@.len(),
        ensures
            ck_view(*r) == self@[i as int],
    {
        &self.keys[i]
    }
}

/// A sorted, mutable staging area of (prefix, key) -> value entries with
/// running byte accounting, pending inclusion in an immutable columnar
/// block.
pub struct StringValueStorage {
    entries: Vec<(CompositeKey, String)>,
    size_tracker: SingleValueSizeTracker,
}

impl View for StringValueStorage {
    type V = Seq<EntryBytes>;

    closed spec fn view(&self) -> Seq<EntryBytes> {
        self.entries@.map_values(|e: (CompositeKey, String)| entry_view(e))
    }
}

impl StringValueStorage {
    /// The three raw sums the tracker currently holds.
    pub closed spec fn tracked_sizes(self) -> (int, int, int) {
        (self.size_tracker.prefix_size(), self.size_tracker.key_size(),
        self.size_tracker.value_size())
    }

    /// Entries sorted strictly by composite key; the tracker never
    /// undercounts the bytes actually present. (Overwriting `add` may leave
    /// it overcounting; see `add`.)
    pub open spec fn wf(self) -> bool {
        &&& entries_sorted(self@)
        &&& self.tracked_sizes().0 >= totals(self@).0
        &&& self.tracked_sizes().1 >= totals(self@).1
        &&& self.tracked_sizes().2 >= totals(self@).2
    }

    /// The tracker's raw sums equal the exact byte sums of the entries
    /// present.
    pub open spec fn tracker_exact(self) -> bool {
        self.tracked_sizes() == totals(self@)
    }

    pub fn new() -> (r: Self)
        ensures
            r@ == Seq::<EntryBytes>::empty(),
            r.tracked_sizes() == (0int, 0int, 0int),
            r.wf(),
            r.tracker_exact(),
    {
        let r = StringValueStorage {
            entries: Vec::new(),
            size_tracker: SingleValueSizeTracker::new(),
        };
        proof {
            assert(r@ =~= Seq::<EntryBytes>::empty());
        }
        r
    }

    pub fn len(&self) -> (r: usize)
        ensures
            r == self@.len(),
    {
        self.entries.len()
    }

    pub fn get_prefix_size(&self) -> (r: usize)
        ensures
            r == self.tracked_sizes().0,
    {
        self.size_tracker.get_prefix_size()
    }

    pub fn get_key_size(&self) -> (r: usize)
        ensures
            r == self.tracked_sizes().1,
    {
        self.size_tracker.get_key_size()
    }

    pub fn get_value_size(&self) -> (r: usize)
        ensures
            r == self.tracked_sizes().2,
    {
        self.size_tracker.get_value_size()
    }

    /// The smallest composite key currently present, or none if empty.
    pub fn get_min_key(&self) -> (r: Option<CompositeKey>)
        requires
            self.wf(),
        ensures
            self@.len() == 0 ==> r is None,
            self@.len() > 0 ==> ({
                &&& r is Some
                &&& ck_view(r->Some_0) == e_key(self@[0])
                &&& forall|i: int|
                    1 <= i < self@.len() ==> ck_lt(ck_view(r->Some_0), e_key(self@[i]))
            }),
    {
        if self.entries.len() == 0 {
            None
        } else {
            let first = &self.entries[0];
            Some(first.0.duplicate())
        }
    }

    /// The first position whose key is not below `ck`, and whether it holds
    /// exactly `ck`.
    fn insertion_point(&self, ck: &CompositeKey) -> (r: (usize, bool))
        requires
            self.wf(),
        ensures
            r.0 <= self@.len(),
            forall|j: int| 0 <= j < r.0 ==> ck_lt(e_key(self@[j]), ck_view(*ck)),
            r.1 <==> r.0 < self@.len() && e_key(self@[r.0 as int]) == ck_view(*ck),
            !r.1 && r.0 < self@.len() ==> ck_lt(ck_view(*ck), e_key(self@[r.0 as int])),
    {
        let n = self.entries.len();
        let mut i: usize = 0;
        while i < n
            invariant
                0 <= i <= n,
                n == self@.len(),
                self.wf(),
                forall|j: int| 0 <= j < i ==> ck_lt(e_key(self@[j]), ck_view(*ck)),
            decreases n - i,
        {
            let entry = &self.entries[i];
            if !ck_less(&entry.0, ck) {
                let eq = !ck_less(ck, &entry.0);
                proof {
                    lemma_ck_lt_trichotomy(e_key(self@[i as int]), ck_view(*ck));
                }
                return (i, eq);
            }
            i = i + 1;
        }
        (n, false)
    }

    /// Inserts or overwrites the entry at the composite key
    /// (`prefix`, `key`). The tracker grows by the sizes handed in; on
    /// overwrite the superseded value's size is not subtracted — callers
    /// needing exact accounting must `delete` first.
    pub fn add(&mut self, prefix: &str, key: KeyWrapper, value: &str)
        requires
            old(self).wf(),
            old(self).tracked_sizes().0 + str_bytes(prefix).len() <= usize::MAX,
            old(self).tracked_sizes().1 + string_bytes(key.0).len() <= usize::MAX,
            old(self).tracked_sizes().2 + str_bytes(value).len() <= usize::MAX,
        ensures
            final(self).wf(),
            final(self).tracked_sizes().0 == old(self).tracked_sizes().0 + str_bytes(
                prefix,
            ).len(),
            final(self).tracked_sizes().1 == old(self).tracked_sizes().1 + string_bytes(
                key.0,
            ).len(),
            final(self).tracked_sizes().2 == old(self).tracked_sizes().2 + str_bytes(
                value,
            ).len(),
            ({
                let e = (str_bytes(prefix), string_bytes(key.0), str_bytes(value));
                let k = e_key(e);
                &&& has_key(old(self)@, k) ==> final(self)@ == old(self)@.update(
                    index_of_key(old(self)@, k),
                    e,
                )
                &&& !has_key(old(self)@, k) ==> exists|i: int|
                    0 <= i <= old(self)@.len() && final(self)@ == insert_at(old(self)@, i, e)
            }),
    {
        let ghost s = self@;
        let ghost e = (str_bytes(prefix), string_bytes(key.0), str_bytes(value));
        let ghost k = e_key(e);
        let prefix_len = byte_len(prefix);
        let key_len = key.get_size();
        let value_len = byte_len(value);
        let ck = CompositeKey { prefix: prefix.to_owned(), key };
        let val = value.to_owned();
        proof {
            assert(ck_view(ck) == k);
        }
        let (i, present) = self.insertion_point(&ck);
        if present {
            self.entries.remove(i);
            self.entries.insert(i, (ck, val));
            proof {
                assert(self@ =~= s.update(i as int, e));
                assert(e_key(s[i as int]) == k);
                assert(has_key(s, k)) by {
                    assert(0 <= i < s.len() && e_key(s[i as int]) == k);
                }
                lemma_sorted_key_unique(s, i as int, index_of_key(s, k));
                assert(entries_sorted(self@)) by {
                    assert(forall|m: int, n2: int|
                        0 <= m < n2 < self@.len() ==> e_key(self@[m]) == e_key(s[m]) && e_key(
                            self@[n2],
                        ) == e_key(s[n2]));
                }
                lemma_totals_update(s, i as int, e);
            }
        } else {
            self.entries.insert(i, (ck, val));
            proof {
                assert(self@ =~= insert_at(s, i as int, e));
                assert(!has_key(s, k)) by {
                    if has_key(s, k) {
                        let j = choose|j: int| 0 <= j < s.len() && e_key(s[j]) == k;
                        lemma_ck_lt_trichotomy(e_key(s[j]), k);
                        if j < i {
                        } else if i < s.len() {
                            if j > i {
                                lemma_ck_lt_transitive(k, e_key(s[i as int]), e_key(s[j]));
                            }
                        }
                    }
                }
                let t = self@;
                assert forall|m: int, n2: int| 0 <= m < n2 < t.len() implies ck_lt(
                    e_key(t[m]),
                    e_key(t[n2]),
                ) by {
                    if n2 < i {
                    } else if m < i && n2 == i {
                    } else if m < i && n2 > i {
                        assert(t[n2] == s[n2 - 1]);
                    } else if m == i && n2 > i {
                        assert(t[n2] == s[n2 - 1]);
                        if i < s.len() && n2 - 1 > i {
                            lemma_ck_lt_transitive(k, e_key(s[i as int]), e_key(s[n2 - 1]));
                        }
                    } else if m > i {
                        assert(t[m] == s[m - 1] && t[n2] == s[n2 - 1]);
                    }
                }
                lemma_totals_insert_at(s, i as int, e);
            }
        }
        self.size_tracker.add_prefix_size(prefix_len);
        self.size_tracker.add_key_size(key_len);
        self.size_tracker.add_value_size(value_len);
    }

    /// Removes the entry at the composite key if present, subtracting its
    /// exact sizes from the tracker; if absent, a no-op.
    pub fn delete(&mut self, prefix: &str, key: KeyWrapper)
        requires
            old(self).wf(),
        ensures
            final(self).wf(),
            ({
                let k = (str_bytes(prefix), string_bytes(key.0));
                &&& !has_key(old(self)@, k) ==> final(self)@ == old(self)@
                    && final(self).tracked_sizes() == old(self).tracked_sizes()
                &&& has_key(old(self)@, k) ==> ({
                    let i = index_of_key(old(self)@, k);
                    &&& final(self)@ == remove_at(old(self)@, i)
                    &&& final(self).tracked_sizes().0 == old(self).tracked_sizes().0
                        - old(self)@[i].0.len()
                    &&& final(self).tracked_sizes().1 == old(self).tracked_sizes().1
                        - old(self)@[i].1.len()
                    &&& final(self).tracked_sizes().2 == old(self).tracked_sizes().2
                        - old(self)@[i].2.len()
                })
            }),
    {
        let ghost s = self@;
        let ghost k = (str_bytes(prefix), string_bytes(key.0));
        let ck = CompositeKey { prefix: prefix.to_owned(), key };
        let (i, present) = self.insertion_point(&ck);
        if present {
            proof {
                assert(has_key(s, k)) by {
                    assert(0 <= i < s.len() && e_key(s[i as int]) == k);
                }
                lemma_sorted_key_unique(s, i as int, index_of_key(s, k));
                lemma_totals_entry_bound(s, i as int);
                lemma_totals_nonneg(s);
            }
            let removed = self.entries.remove(i);
            let removed_prefix_len = byte_len(removed.0.prefix.as_str());
            let removed_key_len = removed.0.key.get_size();
            let removed_value_len = byte_len(removed.1.as_str());
            proof {
                assert(self@ =~= remove_at(s, i as int));
                assert(entries_sorted(self@)) by {
                    assert(forall|m: int|
                        0 <= m < self@.len() ==> self@[m] == (if m < i {
                            s[m]
                        } else {
                            s[m + 1]
                        }));
                }
                lemma_totals_remove_at(s, i as int);
            }
            self.size_tracker.subtract_prefix_size(removed_prefix_len);
            self.size_tracker.subtract_key_size(removed_key_len);
            self.size_tracker.subtract_value_size(removed_value_len);
        } else {
            proof {
                assert(!has_key(s, k)) by {
                    if has_key(s, k) {
                        let j = choose|j: int| 0 <= j < s.len() && e_key(s[j]) == k;
                        lemma_ck_lt_trichotomy(e_key(s[j]), k);
                        if j < i {
                        } else if i < s.len() {
                            if j > i {
                                lemma_ck_lt_transitive(k, e_key(s[i as int]), e_key(s[j]));
                            }
                        }
                    }
                }
            }
        }
    }

    /// The estimated columnar size: each tracked sum padded to 64 bytes,
    /// plus the offset buffers for the prefix, key and value arrays.
    pub open spec fn est_size(self) -> int {
        round_up_64(self.tracked_sizes().0) + round_up_64(self.tracked_sizes().1) + round_up_64(
            self.tracked_sizes().2,
        ) + 3 * offset_buffer_size(self@.len() as int)
    }

    /// The byte-budget oracle callers use to decide whether to flush or
    /// split.
    pub fn get_size(&self) -> (r: usize)
        requires
            self.est_size() <= usize::MAX,
            self.tracked_sizes().0 + 63 <= usize::MAX,
            self.tracked_sizes().1 + 63 <= usize::MAX,
            self.tracked_sizes().2 + 63 <= usize::MAX,
            (self@.len() + 1) * 4 + 63 <= usize::MAX,
        ensures
            r == self.est_size(),
    {
        proof {
            self.size_tracker.lemma_sizes_in_range();
            lemma_round_up_64_bounds(self.tracked_sizes().0);
            lemma_round_up_64_bounds(self.tracked_sizes().1);
            lemma_round_up_64_bounds(self.tracked_sizes().2);
            lemma_round_up_64_bounds((self@.len() + 1) * 4 as int);
        }
        let prefix_size = self.size_tracker.get_arrow_padded_prefix_size();
        let key_size = self.size_tracker.get_arrow_padded_key_size();
        let value_size = self.size_tracker.get_arrow_padded_value_size();
        let n = self.entries.len();
        let prefix_offset_bytes = round_upto_multiple_of_64((n + 1) * 4);
        let key_offset_bytes = KeyWrapper::offset_size(n);
        let value_offset_bytes = round_upto_multiple_of_64((n + 1) * 4);
        prefix_size + key_size + value_size + prefix_offset_bytes + key_offset_bytes
            + value_offset_bytes
    }


    /// The walk total of the whole buffer: the size the split walk would
    /// measure. None when it cannot be computed within the machine (and a
    /// split could not be performed either).
    pub fn split_walk_total(&self) -> (r: Option<usize>)
        ensures
            r matches Some(t) ==> t == walk_total(self@, self@.len() as int) && t + 63
                <= usize::MAX,
            r is None ==> walk_total(self@, self@.len() as int) + 63 > usize::MAX,
    {
        let ghost s0 = self@;
        let n = self.entries.len();
        proof {
            assert(s0.subrange(0, n as int) =~= s0);
            assert(s0.subrange(0, 0) =~= Seq::<EntryBytes>::empty());
            lemma_totals_nonneg(s0);
            lemma_round_up_64_bounds(totals(s0).0);
            lemma_round_up_64_bounds(totals(s0).1);
            lemma_round_up_64_bounds(totals(s0).2);
            lemma_round_up_64_bounds(4 * n as int);
        }
        if n > (usize::MAX - 63) / 4 {
            return None;
        }
        let mut prefix_size: usize = 0;
        let mut key_size: usize = 0;
        let mut value_size: usize = 0;
        let mut c: usize = 0;
        while c < n
            invariant
                0 <= c <= n,
                n == s0.len(),
                s0 == self@,
                prefix_size == totals(s0.subrange(0, c as int)).0,
                key_size == totals(s0.subrange(0, c as int)).1,
                value_size == totals(s0.subrange(0, c as int)).2,
            decreases n - c,
        {
            let ghost ci = c as int;
            proof {
                assert(s0.subrange(0, n as int) =~= s0);
                lemma_totals_take_step(s0, ci);
                lemma_totals_take_bound(s0, ci + 1);
                lemma_totals_split(s0, ci + 1);
                lemma_totals_nonneg(s0.subrange(ci + 1, n as int));
                lemma_round_up_64_bounds(totals(s0).0);
                lemma_round_up_64_bounds(totals(s0).1);
                lemma_round_up_64_bounds(totals(s0).2);
                lemma_round_up_64_bounds(4 * n as int);
            }
            let entry = &self.entries[c];
            let entry_prefix_len = byte_len(entry.0.prefix.as_str());
            let entry_key_len = entry.0.key.get_size();
            let entry_value_len = byte_len(entry.1.as_str());
            if prefix_size > usize::MAX - entry_prefix_len || key_size > usize::MAX - entry_key_len
                || value_size > usize::MAX - entry_value_len {
                return None;
            }
            prefix_size = prefix_size + entry_prefix_len;
            key_size = key_size + entry_key_len;
            value_size = value_size + entry_value_len;
            c = c + 1;
        }
        proof {
            assert(s0.subrange(0, n as int) =~= s0);
            lemma_totals_nonneg(s0);
            lemma_round_up_64_bounds(totals(s0).0);
            lemma_round_up_64_bounds(totals(s0).1);
            lemma_round_up_64_bounds(totals(s0).2);
            lemma_round_up_64_bounds(4 * n as int);
        }
        if prefix_size > usize::MAX - 63 || key_size > usize::MAX - 63 || value_size > usize::MAX
            - 63 {
            return None;
        }
        let padded_prefix = round_upto_multiple_of_64(prefix_size);
        let padded_key = round_upto_multiple_of_64(key_size);
        let padded_value = round_upto_multiple_of_64(value_size);
        let offset_bytes = round_upto_multiple_of_64(4 * n);
        if offset_bytes > usize::MAX / 3 {
            return None;
        }
        let offsets = 3 * offset_bytes;
        if padded_prefix > usize::MAX - padded_key {
            return None;
        }
        let a = padded_prefix + padded_key;
        if a > usize::MAX - padded_value {
            return None;
        }
        let b = a + padded_value;
        if b > usize::MAX - offsets {
            return None;
        }
        let total = b + offsets;
        if total > usize::MAX - 63 {
            return None;
        }
        Some(total)
    }

    /// Parts the buffer: everything before the split point stays, everything
    /// from the split point on moves into a new buffer, and both trackers are
    /// seeded exactly from the sums observed during the walk. Returns the
    /// boundary key (the smallest key of the new buffer) and the new buffer.
    /// Splitting requires a buffer whose walk total already exceeds the
    /// budget; calling it otherwise is a caller invariant violation.
    pub fn split(&mut self, split_size: usize) -> (r: (CompositeKey, StringValueStorage))
        requires
            old(self).wf(),
            old(self)@.len() > 0,
            walk_total(old(self)@, old(self)@.len() as int) > split_size,
            walk_total(old(self)@, old(self)@.len() as int) + 63 <= usize::MAX,
        ensures
            final(self).wf(),
            r.1.wf(),
            final(self).tracker_exact(),
            r.1.tracker_exact(),
            ({
                let bi = split_point(old(self)@, split_size as int);
                &&& 0 <= bi < old(self)@.len()
                &&& final(self)@ == old(self)@.subrange(0, bi)
                &&& r.1@ == old(self)@.subrange(bi, old(self)@.len() as int)
                &&& ck_view(r.0) == e_key(old(self)@[bi])
            }),
    {
        let ghost s0 = self@;
        let ghost ss = split_size as int;
        let n = self.entries.len();
        proof {
            assert(s0.subrange(0, n as int) =~= s0);
            assert(s0.subrange(0, 0) =~= Seq::<EntryBytes>::empty());
            lemma_walk_total_bounds(s0);
            lemma_first_exceed_props(s0, ss, 0);
        }
        let mut prefix_size: usize = 0;
        let mut key_size: usize = 0;
        let mut value_size: usize = 0;
        let mut found = false;
        let mut fidx: usize = 0;
        let mut c: usize = 0;
        while c < n
            invariant
                0 <= c <= n,
                n == s0.len(),
                *self == *old(self),
                s0 == self@,
                self.wf(),
                walk_total(s0, n as int) > ss,
                walk_total(s0, n as int) + 63 <= usize::MAX,
                ss == split_size as int,
                prefix_size == totals(s0.subrange(0, c as int)).0,
                key_size == totals(s0.subrange(0, c as int)).1,
                value_size == totals(s0.subrange(0, c as int)).2,
                found <==> first_exceed(s0, ss, 0) < c,
                found ==> fidx == first_exceed(s0, ss, 0),
            decreases n - c,
        {
            let ghost ci = c as int;
            proof {
                lemma_totals_take_step(s0, ci);
                lemma_totals_take_bound(s0, ci + 1);
                lemma_walk_total_bounds(s0);
                lemma_walk_total_monotonic(s0, ci + 1, n as int);
                lemma_round_up_64_bounds(totals(s0.subrange(0, ci + 1)).0);
                lemma_round_up_64_bounds(totals(s0.subrange(0, ci + 1)).1);
                lemma_round_up_64_bounds(totals(s0.subrange(0, ci + 1)).2);
                lemma_round_up_64_bounds(4 * (ci + 1));
                lemma_first_exceed_props(s0, ss, 0);
            }
            let entry = &self.entries[c];
            let entry_prefix_len = byte_len(entry.0.prefix.as_str());
            let entry_key_len = entry.0.key.get_size();
            let entry_value_len = byte_len(entry.1.as_str());
            prefix_size = prefix_size + entry_prefix_len;
            key_size = key_size + entry_key_len;
            value_size = value_size + entry_value_len;

            let included = c + 1;
            let offset_bytes = round_upto_multiple_of_64(included * 4);
            let total_size = round_upto_multiple_of_64(prefix_size) + round_upto_multiple_of_64(
                key_size,
            ) + round_upto_multiple_of_64(value_size) + offset_bytes + offset_bytes + offset_bytes;
            proof {
                assert(total_size == walk_total(s0, ci + 1));
            }
            if total_size > split_size && !found {
                found = true;
                fidx = c;
                proof {
                    let f = first_exceed(s0, ss, 0);
                    if f < ci {
                        assert(walk_total(s0, f + 1) <= ss);
                    }
                    assert(f == ci);
                }
            } else {
                proof {
                    let f = first_exceed(s0, ss, 0);
                    if !found && f == ci {
                        assert(walk_total(s0, ci + 1) > ss);
                    }
                }
            }
            c = included;
        }
        proof {
            let f = first_exceed(s0, ss, 0);
            if !found {
                assert(walk_total(s0, (n - 1) + 1) <= ss);
            }
            assert(found);
        }
        let boundary_index = if fidx + 1 < n {
            fidx + 1
        } else {
            n - 1
        };
        let ghost bi = boundary_index as int;
        proof {
            assert(bi == split_point(s0, ss));
        }
        let mut retained_prefix_size: usize = 0;
        let mut retained_key_size: usize = 0;
        let mut retained_value_size: usize = 0;
        let mut d: usize = 0;
        while d < boundary_index
            invariant
                0 <= d <= boundary_index,
                bi == boundary_index as int,
                0 <= bi < n,
                n == s0.len(),
                *self == *old(self),
                s0 == self@,
                self.wf(),
                retained_prefix_size == totals(s0.subrange(0, d as int)).0,
                retained_key_size == totals(s0.subrange(0, d as int)).1,
                retained_value_size == totals(s0.subrange(0, d as int)).2,
                prefix_size == totals(s0).0,
                key_size == totals(s0).1,
                value_size == totals(s0).2,
                prefix_size <= usize::MAX,
                key_size <= usize::MAX,
                value_size <= usize::MAX,
            decreases boundary_index - d,
        {
            let ghost di = d as int;
            proof {
                lemma_totals_take_step(s0, di);
                lemma_totals_take_bound(s0, di + 1);
            }
            let entry = &self.entries[d];
            let entry_prefix_len = byte_len(entry.0.prefix.as_str());
            let entry_key_len = entry.0.key.get_size();
            let entry_value_len = byte_len(entry.1.as_str());
            retained_prefix_size = retained_prefix_size + entry_prefix_len;
            retained_key_size = retained_key_size + entry_key_len;
            retained_value_size = retained_value_size + entry_value_len;
            d = d + 1;
        }
        proof {
            lemma_totals_take_bound(s0, bi);
        }
        let boundary_entry = &self.entries[boundary_index];
        let boundary_key = boundary_entry.0.duplicate();
        let moved = self.entries.split_off(boundary_index);
        self.size_tracker = SingleValueSizeTracker::with_values(
            retained_prefix_size,
            retained_key_size,
            retained_value_size,
        );
        let new_tracker = SingleValueSizeTracker::with_values(
            prefix_size - retained_prefix_size,
            key_size - retained_key_size,
            value_size - retained_value_size,
        );
        let new_storage = StringValueStorage { entries: moved, size_tracker: new_tracker };
        proof {
            assert(self@ =~= s0.subrange(0, bi));
            assert(new_storage@ =~= s0.subrange(bi, n as int));
            lemma_totals_split(s0, bi);
            assert(entries_sorted(self@)) by {
                assert(forall|m: int| 0 <= m < bi ==> self@[m] == s0[m]);
            }
            assert(entries_sorted(new_storage@)) by {
                assert(forall|m: int| 0 <= m < n - bi ==> new_storage@[m] == s0[bi + m]);
            }
        }
        (boundary_key, new_storage)
    }

    /// Builds the "value" column of a block: every value, in ascending key
    /// order, appended into an arrow string array, paired with its schema
    /// field. Terminal, read-only: the buffer itself is untouched.
    pub fn to_arrow(&self) -> (r: (Field, ValueColumn))
        requires
            totals(self@).2 <= i32::MAX,
        ensures
            column_contents(r.1) == self@.map_values(
                |e: EntryBytes| vstd::utf8::decode_utf8(e.2),
            ),
    {
        let item_capacity = self.entries.len();
        let mut value_builder = if item_capacity == 0 {
            ValueColumnBuilder::new()
        } else {
            ValueColumnBuilder::with_capacity(item_capacity, self.size_tracker.get_value_size())
        };
        let n = item_capacity;
        let mut i: usize = 0;
        proof {
            assert(builder_contents(value_builder) =~= self@.subrange(0, 0).map_values(
                |e: EntryBytes| vstd::utf8::decode_utf8(e.2),
            ));
            lemma_totals_take_bound(self@, 0);
        }
        while i < n
            invariant
                0 <= i <= n,
                n == self@.len(),
                n == self.entries@.len(),
                totals(self@).2 <= i32::MAX,
                builder_contents(value_builder) == self@.subrange(0, i as int).map_values(
                    |e: EntryBytes| vstd::utf8::decode_utf8(e.2),
                ),
                contents_bytes(builder_contents(value_builder)) == totals(
                    self@.subrange(0, i as int),
                ).2,
            decreases n - i,
        {
            let entry = &self.entries[i];
            proof {
                broadcast use vstd::utf8::encode_utf8_decode_utf8;

                lemma_totals_take_step(self@, i as int);
                lemma_totals_take_bound(self@, i + 1);
                assert(self@[i as int].2 == string_bytes(self.entries@[i as int].1));
            }
            value_builder.append_value(entry.1.as_str());
            proof {
                broadcast use vstd::utf8::encode_utf8_decode_utf8;

                let pre = self@.subrange(0, i as int).map_values(
                    |e: EntryBytes| vstd::utf8::decode_utf8(e.2),
                );
                let post = self@.subrange(0, i + 1).map_values(
                    |e: EntryBytes| vstd::utf8::decode_utf8(e.2),
                );
                assert(post =~= pre.push(vstd::utf8::decode_utf8(self@[i as int].2)));
                assert(builder_contents(value_builder) == post);
                assert(post.drop_last() =~= pre);
                assert(contents_bytes(post) == totals(self@.subrange(0, i + 1)).2);
            }
            i = i + 1;
        }
        let value_field = utf8_field("value");
        let value_arr = value_builder.finish();
        proof {
            assert(self@.subrange(0, n as int) =~= self@);
        }
        (value_field, value_arr)
    }

    /// Hands every composite key, in ascending order, to the builder.
    pub fn build_keys(&self, builder: BlockKeyArrowBuilder) -> (r: BlockKeyArrowBuilder)
        ensures
            r@ == builder@ + self@.map_values(|e: EntryBytes| e_key(e)),
    {
        let mut b = builder;
        let n = self.entries.len();
        let mut i: usize = 0;
        proof {
            assert(b@ =~= builder@ + self@.subrange(0, 0).map_values(
                |e: EntryBytes| e_key(e),
            ));
        }
        while i < n
            invariant
                0 <= i <= n,
                n == self@.len(),
                b@ == builder@ + self@.subrange(0, i as int).map_values(|e: EntryBytes| e_key(e)),
            decreases n - i,
        {
            let entry = &self.entries[i];
            b.add_key(entry.0.duplicate());
            proof {
                assert(b@ =~= builder@ + self@.subrange(0, i + 1).map_values(
                    |e: EntryBytes| e_key(e),
                ));
            }
            i = i + 1;
        }
        proof {
            assert(self@.subrange(0, n as int) =~= self@);
        }
        b
    }
}


/// The key set of a sequence of entries.
pub open spec fn keys_of(s: Seq<EntryBytes>) -> Set<KeyBytes> {
    Set::new(|k: KeyBytes| has_key(s, k))
}

/// Law: an `add` of a key not yet present keeps the tracker exact. The
/// entries gain exactly `e`, and the sums grow by exactly its sizes, so raw
/// tracker sums that equalled the entry sums before equal them after.
pub proof fn lemma_tracker_exact_after_add(
    s: Seq<EntryBytes>,
    i: int,
    e: EntryBytes,
    tr: (int, int, int),
)
    requires
        0 <= i <= s.len(),
        tr == totals(s),
    ensures
        (totals(insert_at(s, i, e)) == (tr.0 + e.0.len(), tr.1 + e.1.len(), tr.2 + e.2.len())),
{
    lemma_totals_insert_at(s, i, e);
}

/// Law: a `delete` of a present key keeps the tracker exact: the sums shrink
/// by exactly the removed entry's sizes.
pub proof fn lemma_tracker_exact_after_delete(s: Seq<EntryBytes>, i: int, tr: (int, int, int))
    requires
        0 <= i < s.len(),
        tr == totals(s),
    ensures
        (totals(remove_at(s, i)) == (tr.0 - s[i].0.len(), tr.1 - s[i].1.len(), tr.2
            - s[i].2.len())),
{
    lemma_totals_remove_at(s, i);
}

/// Law: an `add` of a fresh key followed at once by a `delete` of the same
/// composite key restores the entries, and with them the exact sums — so the
/// tracker, grown by the entry's sizes and then shrunk by the sizes of the
/// very entry deleted, stands exactly where it began.
pub proof fn lemma_add_then_delete_restores(s: Seq<EntryBytes>, i: int, e: EntryBytes)
    requires
        entries_sorted(s),
        0 <= i <= s.len(),
        !has_key(s, e_key(e)),
        forall|j: int| 0 <= j < i ==> ck_lt(e_key(s[j]), e_key(e)),
        i < s.len() ==> ck_lt(e_key(e), e_key(s[i])),
    ensures
        entries_sorted(insert_at(s, i, e)),
        has_key(insert_at(s, i, e), e_key(e)),
        index_of_key(insert_at(s, i, e), e_key(e)) == i,
        insert_at(s, i, e)[i] == e,
        remove_at(insert_at(s, i, e), i) == s,
        totals(remove_at(insert_at(s, i, e), i)) == totals(s),
{
    let t = insert_at(s, i, e);
    assert(t[i] == e);
    assert forall|m: int, n2: int| 0 <= m < n2 < t.len() implies ck_lt(
        e_key(t[m]),
        e_key(t[n2]),
    ) by {
        if n2 < i {
        } else if m < i && n2 == i {
        } else if m < i && n2 > i {
            assert(t[n2] == s[n2 - 1]);
        } else if m == i && n2 > i {
            assert(t[n2] == s[n2 - 1]);
            if i < s.len() && n2 - 1 > i {
                lemma_ck_lt_transitive(e_key(e), e_key(s[i]), e_key(s[n2 - 1]));
            }
        } else if m > i {
            assert(t[m] == s[m - 1] && t[n2] == s[n2 - 1]);
        }
    }
    assert(has_key(t, e_key(e))) by {
        assert(0 <= i < t.len() && e_key(t[i]) == e_key(e));
    }
    lemma_sorted_key_unique(t, i, index_of_key(t, e_key(e)));
    assert(remove_at(t, i) =~= s);
}

/// Law: an `add` that overwrites the entry at `i` followed at once by a
/// `delete` of the same composite key deletes exactly the entry the `add`
/// put there, so the tracker's growth and shrinkage cancel exactly.
pub proof fn lemma_overwrite_then_delete_restores_tracker(s: Seq<EntryBytes>, i: int, e: EntryBytes)
    requires
        entries_sorted(s),
        0 <= i < s.len(),
        e_key(s[i]) == e_key(e),
    ensures
        entries_sorted(s.update(i, e)),
        has_key(s.update(i, e), e_key(e)),
        index_of_key(s.update(i, e), e_key(e)) == i,
        s.update(i, e)[i] == e,
        totals(remove_at(s.update(i, e), i)) == (totals(s.update(i, e)).0 - e.0.len(), totals(
            s.update(i, e),
        ).1 - e.1.len(), totals(s.update(i, e)).2 - e.2.len()),
{
    let t = s.update(i, e);
    assert(entries_sorted(t)) by {
        assert(forall|m: int, n2: int|
            0 <= m < n2 < t.len() ==> e_key(t[m]) == e_key(s[m]) && e_key(t[n2]) == e_key(s[n2]));
    }
    assert(has_key(t, e_key(e))) by {
        assert(0 <= i < t.len() && e_key(t[i]) == e_key(e));
    }
    lemma_sorted_key_unique(t, i, index_of_key(t, e_key(e)));
    lemma_totals_remove_at(t, i);
}

/// Law: a split at any point of a sorted buffer parts the key set. The
/// retained and removed key sets are disjoint, their union is the original
/// key set, and every retained key lies strictly below every removed key.
pub proof fn lemma_split_partition(s: Seq<EntryBytes>, bi: int)
    requires
        entries_sorted(s),
        0 <= bi <= s.len(),
    ensures
        keys_of(s.subrange(0, bi)).disjoint(keys_of(s.subrange(bi, s.len() as int))),
        keys_of(s.subrange(0, bi)).union(keys_of(s.subrange(bi, s.len() as int))) == keys_of(s),
        forall|ka: KeyBytes, kb: KeyBytes|
            keys_of(s.subrange(0, bi)).contains(ka) && keys_of(
                s.subrange(bi, s.len() as int),
            ).contains(kb) ==> ck_lt(ka, kb),
{
    let l = s.subrange(0, bi);
    let r = s.subrange(bi, s.len() as int);
    assert forall|ka: KeyBytes, kb: KeyBytes|
        keys_of(l).contains(ka) && keys_of(r).contains(kb) implies ck_lt(ka, kb) by {
        let i = choose|i: int| 0 <= i < l.len() && e_key(l[i]) == ka;
        let j = choose|j: int| 0 <= j < r.len() && e_key(r[j]) == kb;
        assert(l[i] == s[i]);
        assert(r[j] == s[bi + j]);
        assert(ck_lt(e_key(s[i]), e_key(s[bi + j])));
    }
    assert(keys_of(l).disjoint(keys_of(r))) by {
        assert forall|k: KeyBytes| keys_of(l).contains(k) implies !keys_of(r).contains(k) by {
            if keys_of(r).contains(k) {
                assert(ck_lt(k, k));
                lemma_ck_lt_trichotomy(k, k);
            }
        }
    }
    assert(keys_of(l).union(keys_of(r)) =~= keys_of(s)) by {
        assert forall|k: KeyBytes| keys_of(s).contains(k) implies keys_of(l).contains(k)
            || keys_of(r).contains(k) by {
            let i = choose|i: int| 0 <= i < s.len() && e_key(s[i]) == k;
            if i < bi {
                assert(e_key(l[i]) == k);
                assert(has_key(l, k));
            } else {
                assert(e_key(r[i - bi]) == k);
                assert(has_key(r, k));
            }
        }
        assert forall|k: KeyBytes| keys_of(l).contains(k) || keys_of(r).contains(k) implies keys_of(
            s,
        ).contains(k) by {
            if keys_of(l).contains(k) {
                let i = choose|i: int| 0 <= i < l.len() && e_key(l[i]) == k;
                assert(e_key(s[i]) == k);
                assert(has_key(s, k));
            } else {
                let j = choose|j: int| 0 <= j < r.len() && e_key(r[j]) == k;
                assert(e_key(s[bi + j]) == k);
                assert(has_key(s, k));
            }
        }
    }
}

} // verus!
