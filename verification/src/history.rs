//! The tape: an ordered ledger of per-node records.
//!
//! A history maps node identities to records, ordered by the sequence
//! number each node received at creation.  Inserting an identity that is
//! already present is a no-op, which is what makes a sub-expression that is
//! referenced from several places run once per pass rather than once per
//! use site.  Merging two histories unions them without duplicating shared
//! nodes, keeping every entry at its original sequence position.

use vstd::prelude::*;

verus! {

/// Identity of one node on a tape: a stable node identifier paired with
/// the sequence number the node received when it was created.  Correct
/// construction assigns strictly increasing sequence numbers, so distinct
/// nodes never share one; the order below is nevertheless total on all
/// values, falling back to the node identifier on a sequence tie.
#[derive(Clone, Copy, PartialEq, Eq, Structural, Debug)]
pub struct HistoryId {
    node: usize,
    seq: usize,
}

impl HistoryId {
    /// Creates a new id from a node identifier and the sequence number the
    /// node was given at creation.
    pub fn new(node: usize, seq: usize) -> (r: Self)
        ensures
            r.node_id() == node,
            r.seq_no() == seq,
    {
        HistoryId { node, seq }
    }

    /// The stable node identifier.
    pub closed spec fn node_id(self) -> usize {
        self.node
    }

    /// The sequence number assigned at creation.
    pub closed spec fn seq_no(self) -> usize {
        self.seq
    }

    /// Strict total order: by sequence number, with the node identifier as
    /// a tie-break.
    pub open spec fn lt(self, other: Self) -> bool {
        self.seq_no() < other.seq_no()
            || (self.seq_no() == other.seq_no() && self.node_id() < other.node_id())
    }

    /// Executable form of [`Self::lt`].
    pub fn before(&self, other: &Self) -> (r: bool)
        ensures
            r == self.lt(*other),
    {
        self.seq < other.seq || (self.seq == other.seq && self.node < other.node)
    }

    /// The node identifier.
    pub fn node(&self) -> (r: usize)
        ensures
            r == self.node_id(),
    {
        self.node
    }

    /// The sequence number.
    pub fn seq(&self) -> (r: usize)
        ensures
            r == self.seq_no(),
    {
        self.seq
    }
}

/// Identities with one node identifier and one sequence number are one
/// identity.
pub proof fn lemma_id_ext(a: HistoryId, b: HistoryId)
    requires
        a.node_id() == b.node_id(),
        a.seq_no() == b.seq_no(),
    ensures
        a == b,
{
}

/// The order on identities never holds in both directions at once.
pub proof fn lemma_id_order_antisymmetric(a: HistoryId, b: HistoryId)
    ensures
        !(a.lt(b) && b.lt(a)),
        !a.lt(a),
{
}

/// Any two distinct identities are ordered one way or the other.
pub proof fn lemma_id_order_total(a: HistoryId, b: HistoryId)
    ensures
        a.lt(b) || b.lt(a) || a == b,
{
}

/// The order on identities is transitive.
pub proof fn lemma_id_order_transitive(a: HistoryId, b: HistoryId, c: HistoryId)
    requires
        a.lt(b),
        b.lt(c),
    ensures
        a.lt(c),
{
}

/// A sequence of identities in strictly ascending order.
pub open spec fn sorted_strict(s: Seq<HistoryId>) -> bool {
    forall|i: int, j: int| #![trigger s[i], s[j]] 0 <= i < j < s.len() ==> s[i].lt(s[j])
}

/// No node identifier occurs twice.
pub open spec fn nodes_unique(s: Seq<HistoryId>) -> bool {
    forall|i: int, j: int| #![trigger s[i], s[j]]
        0 <= i < j < s.len() ==> s[i].node_id() != s[j].node_id()
}

/// An ordered ledger of records, one per node identity, plus a buffer that
/// caches the flattened record sequence between passes.  The buffer is
/// cleared whenever the ledger changes.
#[derive(Clone)]
pub struct History<T> {
    path: Vec<(HistoryId, T)>,
    buffer: Vec<T>,
}

impl<T> History<T> {
    /// The ledger as a sequence of (identity, record) pairs, ascending by
    /// identity.
    pub closed spec fn entries(self) -> Seq<(HistoryId, T)> {
        self.path@
    }

    /// The cached buffer contents.
    pub closed spec fn buffer_view(self) -> Seq<T> {
        self.buffer@
    }

    /// The identities, in ledger order.
    pub open spec fn ids(self) -> Seq<HistoryId> {
        Seq::new(self.entries().len(), |i: int| self.entries()[i].0)
    }

    /// The records, in ledger order.
    pub open spec fn ops(self) -> Seq<T> {
        Seq::new(self.entries().len(), |i: int| self.entries()[i].1)
    }

    /// Number of ledger entries.
    pub open spec fn spec_len(self) -> nat {
        self.entries().len()
    }

    /// Whether some entry carries the given node identifier.
    pub open spec fn contains_node(self, n: usize) -> bool {
        exists|i: int| 0 <= i < self.entries().len() && (#[trigger] self.entries()[i]).0.node_id() == n
    }

    /// Well-formedness: entries strictly ascending, node identifiers
    /// unique, and the buffer either empty or an exact copy of the records.
    pub open spec fn wf(self) -> bool {
        &&& sorted_strict(self.ids())
        &&& nodes_unique(self.ids())
        &&& (self.buffer_view().len() == 0 || self.buffer_view() == self.ops())
    }

    /// Position at which an absent identity would be inserted: the length
    /// of the prefix of entries strictly below it.
    pub open spec fn insert_pos(self, id: HistoryId) -> int {
        count_below(self.ids(), id)
    }

    /// Creates an empty history.
    pub fn new() -> (r: Self)
        ensures
            r.wf(),
            r.entries() === Seq::empty(),
            r.buffer_view() === Seq::empty(),
    {
        History { path: Vec::new(), buffer: Vec::new() }
    }

    /// Returns the length of the history.
    pub fn len(&self) -> (r: usize)
        ensures
            r == self.spec_len(),
    {
        self.path.len()
    }

    /// Returns the length of the buffered history.
    pub fn buffer_len(&self) -> (r: usize)
        ensures
            r == self.buffer_view().len(),
    {
        self.buffer.len()
    }

    /// Returns a reference to the buffer.
    pub fn buffer(&self) -> (r: &Vec<T>)
        ensures
            r@ == self.buffer_view(),
    {
        &self.buffer
    }

    /// Returns a mutable reference to the buffer.
    pub fn buffer_mut(&mut self) -> (r: &mut Vec<T>)
        ensures
            r@ == old(self).buffer_view(),
            final(self).entries() == old(self).entries(),
            final(self).buffer_view() == final(r)@,
    {
        &mut self.buffer
    }
}

/// How many identities of `s` lie strictly below `id`.
pub open spec fn count_below(s: Seq<HistoryId>, id: HistoryId) -> int
    decreases s.len(),
{
    if s.len() == 0 {
        0
    } else {
        count_below(s.drop_last(), id) + if s.last().lt(id) { 1int } else { 0int }
    }
}

proof fn lemma_count_below_take_step(s: Seq<HistoryId>, id: HistoryId, k: int)
    requires
        0 <= k < s.len(),
    ensures
        count_below(s.take(k + 1), id)
            == count_below(s.take(k), id) + if s[k].lt(id) { 1int } else { 0int },
{
    assert(s.take(k + 1).drop_last() =~= s.take(k));
    assert(s.take(k + 1).last() == s[k]);
}

proof fn lemma_count_below_full(s: Seq<HistoryId>, id: HistoryId)
    ensures
        count_below(s.take(s.len() as int), id) == count_below(s, id),
{
    assert(s.take(s.len() as int) =~= s);
}

impl<T: Copy> History<T> {
    /// Appends a new record under the given identity, keeping the ledger
    /// ordered.  If the node is already present the ledger is unchanged:
    /// re-inserting a shared node never duplicates its record.  Either way
    /// the cached buffer is discarded.
    pub fn insert(&mut self, id: HistoryId, op: T)
        requires
            old(self).wf(),
        ensures
            final(self).wf(),
            final(self).buffer_view() === Seq::empty(),
            old(self).contains_node(id.node_id()) ==> final(self).entries() == old(self).entries(),
            !old(self).contains_node(id.node_id()) ==> final(self).entries() == old(self).entries()
                .insert(old(self).insert_pos(id), (id, op)),
            final(self).contains_node(id.node_id()),
    {
        let n = self.path.len();
        let mut k: usize = 0;
        while k < n
            invariant
                n == self.path.len(),
                k <= n,
                *self == *old(self),
                old(self).wf(),
                forall|j: int| 0 <= j < k ==> (#[trigger] self.entries()[j]).0.node_id() != id.node_id(),
            decreases n - k,
        {
            if self.path[k].0.node() == id.node() {
                self.buffer.clear();
                assert(self.entries() =~= old(self).entries());
                assert(old(self).contains_node(id.node_id()));
                return;
            }
            k = k + 1;
        }
        assert(!old(self).contains_node(id.node_id()));
        let mut pos: usize = 0;
        let mut scan: usize = 0;
        while scan < n
            invariant
                n == self.path.len(),
                scan <= n,
                *self == *old(self),
                pos <= scan,
                pos == count_below(self.ids().take(scan as int), id),
            decreases n - scan,
        {
            proof {
                lemma_count_below_take_step(self.ids(), id, scan as int);
            }
            if self.path[scan].0.before(&id) {
                pos = pos + 1;
            }
            scan = scan + 1;
        }
        proof {
            lemma_count_below_full(self.ids(), id);
            lemma_prefix_below(old(self).ids(), id, pos as int);
        }
        self.path.insert(pos, (id, op));
        self.buffer.clear();
        proof {
            let s = self.entries();
            let olds = old(self).entries();
            let oldids = old(self).ids();
            assert(s =~= olds.insert(pos as int, (id, op)));
            assert(forall|w: int| 0 <= w < olds.len() ==> (#[trigger] olds[w]).0 == oldids[w]);
            assert forall|i: int, j: int| 0 <= i < j < s.len() implies (#[trigger] s[i]).0.lt(
                (#[trigger] s[j]).0,
            ) by {
                let p = pos as int;
                if i < p && j == p {
                    assert(oldids[i].lt(id));
                } else if i == p && j > p {
                    assert(id.lt(oldids[j - 1]));
                } else if i < p && j > p {
                    assert(oldids[i].lt(id));
                    assert(id.lt(oldids[j - 1]));
                    lemma_id_order_transitive(oldids[i], id, oldids[j - 1]);
                } else if i < p && j < p {
                    assert(oldids[i].lt(oldids[j]));
                } else if i > p && j > p {
                    assert(oldids[i - 1].lt(oldids[j - 1]));
                }
            }
            assert(sorted_strict(self.ids()));
            assert forall|i: int, j: int| 0 <= i < j < s.len() implies (#[trigger] s[i]).0.node_id()
                != (#[trigger] s[j]).0.node_id() by {
                let p = pos as int;
                if i == p {
                    assert(olds[j - 1].0.node_id() != id.node_id());
                } else if j == p {
                    assert(olds[i].0.node_id() != id.node_id());
                } else {
                    let i0 = if i < p { i } else { i - 1 };
                    let j0 = if j < p { j } else { j - 1 };
                    assert(oldids[i0].node_id() != oldids[j0].node_id());
                }
            }
            assert(nodes_unique(self.ids()));
            assert(s[pos as int].0.node_id() == id.node_id());
        }
    }

    /// A deep copy with the same ledger and buffer.
    pub fn duplicate(&self) -> (r: Self)
        ensures
            r.entries() == self.entries(),
            r.buffer_view() == self.buffer_view(),
    {
        let n = self.path.len();
        let mut path: Vec<(HistoryId, T)> = Vec::new();
        let mut k: usize = 0;
        while k < n
            invariant
                k <= n,
                n == self.path.len(),
                path@ =~= self.entries().take(k as int),
            decreases n - k,
        {
            path.push(self.path[k]);
            assert(path@ =~= self.entries().take(k as int + 1));
            k = k + 1;
        }
        let bn = self.buffer.len();
        let mut buffer: Vec<T> = Vec::new();
        let mut i: usize = 0;
        while i < bn
            invariant
                i <= bn,
                bn == self.buffer.len(),
                buffer@ =~= self.buffer_view().take(i as int),
            decreases bn - i,
        {
            buffer.push(self.buffer[i]);
            assert(buffer@ =~= self.buffer_view().take(i as int + 1));
            i = i + 1;
        }
        proof {
            assert(self.entries().take(n as int) =~= self.entries());
            assert(self.buffer_view().take(bn as int) =~= self.buffer_view());
        }
        History { path, buffer }
    }

    /// Returns the content of the tape in a vector, in ledger order.
    pub fn to_vec(&self) -> (r: Vec<T>)
        ensures
            r@ == self.ops(),
    {
        let n = self.path.len();
        let mut out: Vec<T> = Vec::new();
        let mut k: usize = 0;
        while k < n
            invariant
                n == self.path.len(),
                k <= n,
                out@ =~= self.ops().take(k as int),
            decreases n - k,
        {
            out.push(self.path[k].1);
            assert(out@ =~= self.ops().take(k as int + 1));
            k = k + 1;
        }
        assert(self.ops().take(n as int) =~= self.ops());
        out
    }

    /// Fills the buffer with a fresh copy of the records, in ledger order.
    pub fn fill_buffer(&mut self)
        requires
            old(self).wf(),
        ensures
            final(self).wf(),
            final(self).entries() == old(self).entries(),
            final(self).buffer_view() == final(self).ops(),
    {
        let fresh = self.to_vec();
        self.buffer = fresh;
    }

    /// Performs the merge between this history and another one: the union
    /// of the two ledgers, every entry keeping its original sequence
    /// position.  A node present in both must carry the same entry on both
    /// sides; it appears once in the result.
    pub fn merge(&mut self, other: Self)
        requires
            old(self).wf(),
            other.wf(),
            entries_agree(old(self).entries(), other.entries()),
        ensures
            final(self).wf(),
            final(self).buffer_view() === Seq::empty(),
            forall|e: (HistoryId, T)| #[trigger] final(self).entries().contains(e)
                <==> (old(self).entries().contains(e) || other.entries().contains(e)),
    {
        let b_len = other.path.len();
        let mut j: usize = 0;
        while j < b_len
            invariant
                b_len == other.path.len(),
                other.wf(),
                j <= b_len,
                self.wf(),
                entries_agree(self.entries(), other.entries()),
                forall|e: (HistoryId, T)| #[trigger] self.entries().contains(e)
                    <==> (old(self).entries().contains(e)
                        || other.entries().take(j as int).contains(e)),
            decreases b_len - j,
        {
            let (id, op) = other.path[j];
            let ghost pre = *self;
            self.insert(id, op);
            proof {
                lemma_take_one_more(other.entries(), j as int);
                if pre.contains_node(id.node_id()) {
                    // The node is already present; by agreement its entry is
                    // the same pair, so the union is unchanged.
                    let w = choose|w: int|
                        0 <= w < pre.entries().len() && (#[trigger] pre.entries()[w]).0.node_id()
                            == id.node_id();
                    assert(pre.entries()[w] == other.entries()[j as int]);
                    assert(self.entries().contains(other.entries()[j as int]));
                } else {
                    lemma_count_below_bounds(pre.ids(), id);
                    lemma_insert_contains(pre.entries(), pre.insert_pos(id), (id, op));
                    assert forall|x: int, y: int|
                        0 <= x < self.entries().len() && 0 <= y < other.entries().len()
                            && (#[trigger] self.entries()[x]).0.node_id()
                            == (#[trigger] other.entries()[y]).0.node_id()
                        implies self.entries()[x] == other.entries()[y] by {
                        if self.entries()[x] != other.entries()[y] {
                            assert(self.entries().contains(self.entries()[x]));
                            if pre.entries().contains(self.entries()[x]) {
                                let w = choose|w: int|
                                    0 <= w < pre.entries().len() && pre.entries()[w]
                                        == self.entries()[x];
                                assert(pre.entries()[w] == other.entries()[y]);
                            } else {
                                assert(self.entries()[x] == (id, op));
                                if y != j as int {
                                    let lo = if y < j as int { y } else { j as int };
                                    let hi = if y < j as int { j as int } else { y };
                                    assert(other.ids()[lo].node_id() != other.ids()[
                                        hi].node_id());
                                    assert(false);
                                }
                                assert(other.entries()[j as int] == other.entries()[y]);
                            }
                        }
                    }
                }
            }
            j = j + 1;
        }
        proof {
            assert(other.entries().take(b_len as int) =~= other.entries());
        }
        self.buffer.clear();
    }
}

/// Two entry sequences agree wherever they share a node identifier.
pub open spec fn entries_agree<T>(a: Seq<(HistoryId, T)>, b: Seq<(HistoryId, T)>) -> bool {
    forall|i: int, j: int| 0 <= i < a.len() && 0 <= j < b.len()
        && (#[trigger] a[i]).0.node_id() == (#[trigger] b[j]).0.node_id() ==> a[i] == b[j]
}

proof fn lemma_take_one_more<T>(s: Seq<(HistoryId, T)>, k: int)
    requires
        0 <= k < s.len(),
    ensures
        s.take(k + 1) =~= s.take(k).push(s[k]),
        forall|e: (HistoryId, T)| #[trigger] s.take(k + 1).contains(e)
            <==> (s.take(k).contains(e) || e == s[k]),
{
    assert(s.take(k + 1) =~= s.take(k).push(s[k]));
    assert forall|e: (HistoryId, T)| #[trigger] s.take(k + 1).contains(e) implies (s.take(
        k,
    ).contains(e) || e == s[k]) by {
        let w = choose|w: int| 0 <= w < s.take(k + 1).len() && #[trigger] s.take(k + 1)[w] == e;
        if w < k {
            assert(s.take(k)[w] == e);
        }
    }
    assert forall|e: (HistoryId, T)| (s.take(k).contains(e) || e == s[k]) implies #[trigger] s.take(
        k + 1,
    ).contains(e) by {
        if s.take(k).contains(e) {
            let w = choose|w: int| 0 <= w < s.take(k).len() && s.take(k)[w] == e;
            assert(s.take(k + 1)[w] == e);
        } else {
            assert(s.take(k + 1)[k] == e);
        }
    }
}

/// In a strictly sorted ledger whose node identifiers all differ from
/// `id.node_id()`, the entries below `id` form a prefix of length
/// `count_below`, and everything after that prefix lies above `id`.
proof fn lemma_prefix_below(s: Seq<HistoryId>, id: HistoryId, p: int)
    requires
        sorted_strict(s),
        forall|i: int| 0 <= i < s.len() ==> (#[trigger] s[i]).node_id() != id.node_id(),
        p == count_below(s, id),
    ensures
        0 <= p <= s.len(),
        forall|i: int| 0 <= i < p ==> (#[trigger] s[i]).lt(id),
        forall|i: int| p <= i < s.len() ==> id.lt(#[trigger] s[i]),
    decreases s.len(),
{
    if s.len() > 0 {
        let s0 = s.drop_last();
        assert(forall|i: int| 0 <= i < s0.len() ==> s0[i] == s[i]);
        lemma_prefix_below(s0, id, count_below(s0, id));
        let q = count_below(s0, id);
        if s.last().lt(id) {
            // Everything before the last element is below it, hence below id.
            assert forall|i: int| 0 <= i < s.len() - 1 implies (#[trigger] s[i]).lt(id) by {
                if q <= i {
                    assert(id.lt(s0[i]));
                    lemma_id_order_transitive(id, s[i], id);
                    assert(false);
                }
            }
            assert(p == s.len());
        } else {
            lemma_id_order_total(s.last(), id);
            assert(id.lt(s.last()));
            assert(p == q);
        }
    }
}

/// When every identity lies below `id`, the count below is the length.
pub proof fn lemma_count_below_all(s: Seq<HistoryId>, id: HistoryId)
    requires
        forall|i: int| 0 <= i < s.len() ==> (#[trigger] s[i]).lt(id),
    ensures
        count_below(s, id) == s.len(),
    decreases s.len(),
{
    if s.len() > 0 {
        let s0 = s.drop_last();
        assert(forall|i: int| 0 <= i < s0.len() ==> s0[i] == s[i]);
        lemma_count_below_all(s0, id);
    }
}

/// How many identities lie below `id` is never more than the length.
proof fn lemma_count_below_bounds(s: Seq<HistoryId>, id: HistoryId)
    ensures
        0 <= count_below(s, id) <= s.len(),
    decreases s.len(),
{
    if s.len() > 0 {
        lemma_count_below_bounds(s.drop_last(), id);
    }
}

/// Membership in a sequence after inserting one element.
proof fn lemma_insert_contains<A>(s: Seq<A>, k: int, x: A)
    requires
        0 <= k <= s.len(),
    ensures
        forall|e: A| #[trigger] s.insert(k, x).contains(e) <==> (s.contains(e) || e == x),
{
    let t = s.insert(k, x);
    assert forall|e: A| #[trigger] t.contains(e) implies (s.contains(e) || e == x) by {
        let w = choose|w: int| 0 <= w < t.len() && t[w] == e;
        if w < k {
            assert(s[w] == e);
        } else if w > k {
            assert(s[w - 1] == e);
        }
    }
    assert forall|e: A| (s.contains(e) || e == x) implies #[trigger] t.contains(e) by {
        if s.contains(e) {
            let w = choose|w: int| 0 <= w < s.len() && s[w] == e;
            if w < k {
                assert(t[w] == e);
            } else {
                assert(t[w + 1] == e);
            }
        } else {
            assert(t[k] == e);
        }
    }
}

impl<T> Default for History<T> {
    /// Creates an empty history.
    fn default() -> (r: Self)
        ensures
            r.wf(),
            r.entries() === Seq::empty(),
            r.buffer_view() === Seq::empty(),
    {
        History { path: Vec::new(), buffer: Vec::new() }
    }
}

} // verus!
