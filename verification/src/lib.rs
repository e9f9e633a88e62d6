//! Lazy k-way merge of individually sorted sequences.
//!
//! An [`IterQueue`] owns a collection of cursors, one per non-empty input
//! sequence, and yields on demand the largest element among all cursor
//! heads, so that draining the queue produces the descending merge of all
//! inputs.

use vstd::prelude::*;

verus! {

use vstd::multiset::Multiset;

/// A sequence is sorted in descending order: earlier elements are at
/// least as large as later ones.
pub open spec fn sorted_desc(s: Seq<u64>) -> bool {
    forall|i: int, j: int| #![trigger s[i], s[j]] 0 <= i < j < s.len() ==> s[i] >= s[j]
}

/// All elements of a collection of sequences, as one multiset: the
/// contents that a merge over those sequences must emit.
pub open spec fn multiset_of(s: Seq<Seq<u64>>) -> Multiset<u64>
    decreases s.len(),
{
    if s.len() == 0 {
        Multiset::empty()
    } else {
        multiset_of(s.drop_last()).add(s.last().to_multiset())
    }
}

/// Appending one more sequence adds exactly its elements.
proof fn lemma_multiset_of_push(s: Seq<Seq<u64>>, v: Seq<u64>)
    ensures
        multiset_of(s.push(v)) == multiset_of(s).add(v.to_multiset()),
{
    assert(s.push(v).drop_last() =~= s);
}

/// Removing the sequence at index `i` removes exactly its elements.
proof fn lemma_multiset_of_remove(s: Seq<Seq<u64>>, i: int)
    requires
        0 <= i < s.len(),
    ensures
        multiset_of(s) == multiset_of(s.remove(i)).add(s[i].to_multiset()),
    decreases s.len(),
{
    broadcast use vstd::multiset::group_multiset_axioms;

    if i == s.len() - 1 {
        assert(s.remove(i) =~= s.drop_last());
    } else {
        assert(s.remove(i).drop_last() =~= s.drop_last().remove(i));
        assert(s.remove(i).last() == s.last());
        lemma_multiset_of_remove(s.drop_last(), i);
        assert(multiset_of(s) =~= multiset_of(s.remove(i)).add(s[i].to_multiset()));
    }
}

/// An element occurs among all the sequences' contents exactly when some
/// sequence contains it.
proof fn lemma_multiset_of_count(s: Seq<Seq<u64>>, x: u64)
    ensures
        multiset_of(s).count(x) > 0 <==> exists|i: int|
            0 <= i < s.len() && #[trigger] s[i].contains(x),
    decreases s.len(),
{
    broadcast use vstd::multiset::group_multiset_axioms;
    broadcast use vstd::seq_lib::group_to_multiset_ensures;

    if s.len() == 0 {
    } else {
        lemma_multiset_of_count(s.drop_last(), x);
        if multiset_of(s).count(x) > 0 {
            if s.last().to_multiset().count(x) > 0 {
                assert(s[s.len() - 1].contains(x));
            } else {
                let i = choose|i: int| 0 <= i < s.drop_last().len() && #[trigger] s.drop_last()[i].contains(x);
                assert(s[i].contains(x));
            }
        }
        if exists|i: int| 0 <= i < s.len() && #[trigger] s[i].contains(x) {
            let i = choose|i: int| 0 <= i < s.len() && #[trigger] s[i].contains(x);
            if i == s.len() - 1 {
                assert(s.last().to_multiset().count(x) > 0);
            } else {
                assert(s.drop_last()[i].contains(x));
            }
        }
    }
}

/// The descending sort of a sequence.
pub open spec fn sort_desc(s: Seq<u64>) -> Seq<u64> {
    s.sort_by(|x: u64, y: u64| x >= y)
}

/// Descending order on `u64` is a total order, and being sorted by it is
/// the same as being sorted descending.
proof fn lemma_desc_is_total_order(s: Seq<u64>)
    ensures
        vstd::relations::total_ordering(|x: u64, y: u64| x >= y),
        sorted_desc(s) <==> vstd::relations::sorted_by(s, |x: u64, y: u64| x >= y),
{
    let leq = |x: u64, y: u64| x >= y;
    assert(vstd::relations::reflexive(leq)) by {
        assert(forall|x: u64| #[trigger] leq(x, x));
    }
    assert(vstd::relations::antisymmetric(leq)) by {
        assert(forall|x: u64, y: u64| #[trigger] leq(x, y) && #[trigger] leq(y, x) ==> x == y);
    }
    assert(vstd::relations::transitive(leq)) by {
        assert(forall|x: u64, y: u64, z: u64|
            #[trigger] leq(x, y) && #[trigger] leq(y, z) ==> leq(x, z));
    }
    assert(vstd::relations::strongly_connected(leq)) by {
        assert(forall|x: u64, y: u64| #[trigger] leq(x, y) || #[trigger] leq(y, x));
    }
    if sorted_desc(s) {
        assert(forall|i: int, j: int|
            0 <= i < j < s.len() ==> #[trigger] leq(s[i], s[j]));
    }
    if vstd::relations::sorted_by(s, leq) {
        assert forall|i: int, j: int|
            #![trigger s[i], s[j]]
            0 <= i < j < s.len() implies s[i] >= s[j] by {
            assert(leq(s[i], s[j]));
        }
    }
}

/// Two descending sequences with the same contents are the same
/// sequence: the order of a merge's output is determined by its
/// contents alone, whatever tie-break the heap made.
pub proof fn lemma_sorted_desc_unique(a: Seq<u64>, b: Seq<u64>)
    requires
        sorted_desc(a),
        sorted_desc(b),
        a.to_multiset() == b.to_multiset(),
    ensures
        a == b,
{
    let leq = |x: u64, y: u64| x >= y;
    lemma_desc_is_total_order(a);
    lemma_desc_is_total_order(b);
    vstd::seq_lib::lemma_sorted_unique(a, b, leq);
}

/// All elements of a collection of sequences are the elements of its
/// concatenation.
proof fn lemma_multiset_of_flatten(s: Seq<Seq<u64>>)
    ensures
        multiset_of(s) == s.flatten().to_multiset(),
    decreases s.len(),
{
    broadcast use vstd::multiset::group_multiset_axioms;
    broadcast use vstd::seq_lib::group_to_multiset_ensures;

    s.lemma_flatten_and_flatten_alt_are_equivalent();
    if s.len() == 0 {
        assert(s.flatten_alt().to_multiset().len() == 0);
        vstd::multiset::lemma_multiset_empty_len(s.flatten_alt().to_multiset());
        assert(multiset_of(s) =~= s.flatten_alt().to_multiset());
    } else {
        lemma_multiset_of_flatten(s.drop_last());
        s.drop_last().lemma_flatten_and_flatten_alt_are_equivalent();
        vstd::seq_lib::lemma_multiset_commutative(s.drop_last().flatten_alt(), s.last());
        assert(multiset_of(s) =~= s.flatten_alt().to_multiset());
    }
}

/// Merge correctness: a descending sequence holding exactly the elements
/// of a collection of inputs is the descending sort of their
/// concatenation. Draining a queue built from those inputs yields such a
/// sequence, so its output equals the batch sort of all inputs.
pub proof fn lemma_merge_equals_batch_sort(out: Seq<u64>, inputs: Seq<Seq<u64>>)
    requires
        sorted_desc(out),
        out.to_multiset() == multiset_of(inputs),
    ensures
        out == sort_desc(inputs.flatten()),
{
    let leq = |x: u64, y: u64| x >= y;
    let flat = inputs.flatten();
    lemma_multiset_of_flatten(inputs);
    lemma_desc_is_total_order(flat);
    flat.lemma_sort_by_ensures(leq);
    lemma_desc_is_total_order(sort_desc(flat));
    lemma_sorted_desc_unique(out, sort_desc(flat));
}

/// A queue built from exactly one sequence holds exactly that
/// sequence's elements, so draining it reproduces the sequence
/// unchanged.
pub proof fn lemma_single_sequence_passthrough(out: Seq<u64>, s: Seq<u64>)
    requires
        sorted_desc(s),
        sorted_desc(out),
        out.to_multiset() == multiset_of(seq![s]),
    ensures
        out == s,
{
    broadcast use vstd::multiset::group_multiset_axioms;

    assert(seq![s].drop_last().len() == 0);
    assert(seq![s].last() == s);
    assert(multiset_of(seq![s].drop_last()) == Multiset::<u64>::empty());
    assert(multiset_of(seq![s]) == multiset_of(seq![s].drop_last()).add(s.to_multiset()));
    assert(Multiset::<u64>::empty().add(s.to_multiset()) =~= s.to_multiset());
    lemma_sorted_desc_unique(out, s);
}

/// A collection of empty sequences holds no elements: a queue built from
/// it is exhausted from the start.
pub proof fn lemma_multiset_of_all_empty(s: Seq<Seq<u64>>)
    requires
        forall|i: int| 0 <= i < s.len() ==> (#[trigger] s[i]).len() == 0,
    ensures
        multiset_of(s) == Multiset::<u64>::empty(),
    decreases s.len(),
{
    broadcast use vstd::multiset::group_multiset_axioms;
    broadcast use vstd::seq_lib::group_to_multiset_ensures;

    if s.len() == 0 {
    } else {
        lemma_multiset_of_all_empty(s.drop_last());
        assert(s.last().to_multiset().len() == 0);
        vstd::multiset::lemma_multiset_empty_len(s.last().to_multiset());
        assert(multiset_of(s) =~= Multiset::<u64>::empty());
    }
}

/// A non-empty sequence's elements are one occurrence of its head plus
/// the elements of its tail.
proof fn lemma_to_multiset_decompose(s: Seq<u64>)
    requires
        s.len() >= 1,
    ensures
        s.to_multiset() =~= Multiset::singleton(s[0]).add(s.skip(1).to_multiset()),
{
    broadcast use vstd::multiset::group_multiset_axioms;
    broadcast use vstd::seq_lib::group_to_multiset_ensures;

    let head = Seq::<u64>::empty().push(s[0]);
    assert(s =~= head + s.skip(1));
    vstd::seq_lib::lemma_multiset_commutative(head, s.skip(1));
    assert(Seq::<u64>::empty().to_multiset().len() == 0);
    vstd::multiset::lemma_multiset_empty_len(Seq::<u64>::empty().to_multiset());
    assert(head.to_multiset() =~= Multiset::singleton(s[0]));
}

/// One cursor over a single source sequence: the already-pulled head
/// element `next`, plus the rest of the sequence, of which the elements
/// from `pos` onward have not been pulled yet.
pub struct QueueElement {
    next: u64,
    rest: Vec<u64>,
    pos: usize,
}

impl View for QueueElement {
    type V = Seq<u64>;

    /// The elements this cursor has yet to emit: the head first, then
    /// the unpulled remainder.
    closed spec fn view(&self) -> Seq<u64> {
        seq![self.next] + self.rest@.skip(self.pos as int)
    }
}

impl QueueElement {
    /// The pull position stays within the underlying sequence.
    pub closed spec fn wf(&self) -> bool {
        self.pos <= self.rest@.len()
    }

    /// A cursor always has at least its head left to emit.
    pub proof fn lemma_view_nonempty(&self)
        requires
            self.wf(),
        ensures
            self@.len() >= 1,
    {
    }

    /// Builds a cursor over a fresh sequence by pulling its first
    /// element; an empty sequence yields no cursor.
    pub fn try_new(rest: Vec<u64>) -> (r: Option<QueueElement>)
        ensures
            rest@.len() == 0 ==> r is None,
            rest@.len() > 0 ==> r is Some && r->Some_0.wf() && r->Some_0@ == rest@,
    {
        if rest.len() == 0 {
            None
        } else {
            let next = rest[0];
            let c = QueueElement { next, rest, pos: 1 };
            proof {
                assert(c@ =~= c.rest@);
            }
            Some(c)
        }
    }

    /// Consumes the cursor, emitting its head and, if the sequence is
    /// not yet exhausted, a new cursor over what remains.
    pub fn iterate(self) -> (r: (u64, Option<QueueElement>))
        requires
            self.wf(),
        ensures
            r.0 == self@[0],
            self@.len() == 1 ==> r.1 is None,
            self@.len() > 1 ==> r.1 is Some && r.1->Some_0.wf() && r.1->Some_0@ == self@.skip(1),
    {
        let QueueElement { next, rest, pos } = self;
        if pos < rest.len() {
            let new_next = rest[pos];
            let c = QueueElement { next: new_next, rest, pos: pos + 1 };
            proof {
                assert(c@ =~= self@.skip(1));
            }
            (next, Some(c))
        } else {
            proof {
                assert(self@.len() == 1);
            }
            (next, None)
        }
    }
}

impl PartialEq for QueueElement {
    /// Cursors compare by their heads alone: equal-headed cursors are
    /// interchangeable for ordering purposes, whatever their remainders
    /// hold.
    fn eq(&self, other: &QueueElement) -> (r: bool) {
        self.next == other.next
    }
}

impl Eq for QueueElement {

}

impl vstd::std_specs::cmp::PartialEqSpecImpl for QueueElement {
    open spec fn obeys_eq_spec() -> bool {
        true
    }

    open spec fn eq_spec(&self, other: &QueueElement) -> bool {
        self@[0] == other@[0]
    }
}

impl PartialOrd for QueueElement {
    /// Cursor order is the total order of the heads; the remainders
    /// play no role.
    fn partial_cmp(&self, other: &QueueElement) -> (r: Option<core::cmp::Ordering>) {
        if self.next < other.next {
            Some(core::cmp::Ordering::Less)
        } else if self.next == other.next {
            Some(core::cmp::Ordering::Equal)
        } else {
            Some(core::cmp::Ordering::Greater)
        }
    }
}

impl vstd::std_specs::cmp::PartialOrdSpecImpl for QueueElement {
    open spec fn obeys_partial_cmp_spec() -> bool {
        true
    }

    open spec fn partial_cmp_spec(&self, other: &QueueElement) -> Option<core::cmp::Ordering> {
        if self@[0] < other@[0] {
            Some(core::cmp::Ordering::Less)
        } else if self@[0] == other@[0] {
            Some(core::cmp::Ordering::Equal)
        } else {
            Some(core::cmp::Ordering::Greater)
        }
    }
}

/// How many of the given sequences are non-empty: only those get a
/// cursor, so this bounds the heap size throughout production.
pub open spec fn count_nonempty(s: Seq<Seq<u64>>) -> nat
    decreases s.len(),
{
    if s.len() == 0 {
        0
    } else {
        count_nonempty(s.drop_last()) + if s.last().len() > 0 {
            1nat
        } else {
            0nat
        }
    }
}

/// The pending elements of each cursor, in the order the cursors are
/// held.
spec fn views(s: Seq<QueueElement>) -> Seq<Seq<u64>> {
    s.map_values(|c: QueueElement| c@)
}

/// A merge queue over any number of individually descending sequences:
/// one cursor per still-live input, and each production step emits the
/// largest head among them.
pub struct IterQueue {
    iters: Vec<QueueElement>,
}

impl View for IterQueue {
    type V = Multiset<u64>;

    /// The elements the queue has yet to emit, with multiplicity.
    closed spec fn view(&self) -> Multiset<u64> {
        multiset_of(views(self.iters@))
    }
}

impl IterQueue {
    /// Every cursor is well formed and covers a descending sequence.
    pub closed spec fn wf(&self) -> bool {
        forall|i: int|
            0 <= i < self.iters@.len() ==> (#[trigger] self.iters@[i]).wf()
                && sorted_desc(self.iters@[i]@)
    }

    /// The number of cursors currently held.
    pub closed spec fn heap_size(&self) -> nat {
        self.iters@.len()
    }

    /// An empty queue: no cursors, nothing to emit.
    pub fn new() -> (q: IterQueue)
        ensures
            q.wf(),
            q@ == Multiset::<u64>::empty(),
            q.heap_size() == 0,
    {
        let iters: Vec<QueueElement> = Vec::new();
        proof {
            assert(views(iters@) =~= Seq::<Seq<u64>>::empty());
        }
        IterQueue { iters }
    }

    /// The number of cursors currently held.
    pub fn len(&self) -> (n: usize)
        ensures
            n == self.heap_size(),
    {
        self.iters.len()
    }

    /// Adds one cursor, adding exactly its pending elements to the
    /// queue's contents.
    fn push_cursor(&mut self, c: QueueElement)
        requires
            old(self).wf(),
            c.wf(),
            sorted_desc(c@),
        ensures
            final(self).wf(),
            final(self)@ == old(self)@.add(c@.to_multiset()),
            final(self).heap_size() == old(self).heap_size() + 1,
    {
        proof {
            assert(views(self.iters@.push(c)) =~= views(self.iters@).push(c@));
            lemma_multiset_of_push(views(self.iters@), c@);
        }
        self.iters.push(c);
    }

    /// Builds a queue from a collection of sequences, each sorted
    /// descending: every non-empty one contributes one cursor, empty
    /// ones are silently dropped.
    pub fn from_iter(seqs: Vec<Vec<u64>>) -> (q: IterQueue)
        requires
            forall|i: int| 0 <= i < seqs@.len() ==> sorted_desc(#[trigger] seqs@[i]@),
        ensures
            q.wf(),
            q@ == multiset_of(seqs.deep_view()),
            q.heap_size() == count_nonempty(seqs.deep_view()),
    {
        let ghost orig: Seq<Seq<u64>> = seqs.deep_view();
        let mut rem = seqs;
        let mut q = IterQueue::new();
        proof {
            assert(rem.deep_view() =~= orig);
            broadcast use vstd::multiset::group_multiset_axioms;
        }
        loop
            invariant
                q.wf(),
                rem.deep_view().len() <= orig.len(),
                forall|i: int|
                    0 <= i < rem@.len() ==> rem.deep_view()[i] == orig[i] && rem@[i]@ == orig[i],
                multiset_of(orig) == multiset_of(rem.deep_view()).add(q@),
                count_nonempty(orig) == count_nonempty(rem.deep_view()) + q.heap_size(),
                forall|i: int| 0 <= i < orig.len() ==> sorted_desc(#[trigger] orig[i]),
            ensures
                q@ == multiset_of(orig),
                q.heap_size() == count_nonempty(orig),
            decreases rem@.len(),
        {
            let ghost t: Seq<Seq<u64>> = rem.deep_view();
            match rem.pop() {
                None => {
                    proof {
                        assert(t =~= Seq::<Seq<u64>>::empty());
                        assert(multiset_of(t) =~= Multiset::<u64>::empty());
                        broadcast use vstd::multiset::group_multiset_axioms;
                        assert(multiset_of(t).add(q@) =~= q@);
                    }
                    break ;
                },
                Some(v) => {
                    proof {
                        assert(rem.deep_view() =~= t.drop_last());
                        assert(v@ == t.last());
                        let k: int = t.len() - 1;
                        assert(t[k] == orig[k]);
                        assert(sorted_desc(orig[k]));
                        assert(sorted_desc(v@));
                        broadcast use vstd::multiset::group_multiset_axioms;
                        broadcast use vstd::seq_lib::group_to_multiset_ensures;
                    }
                    match QueueElement::try_new(v) {
                        None => {
                            proof {
                                assert(t.last().to_multiset() =~= Multiset::<u64>::empty());
                                assert(multiset_of(t) =~= multiset_of(t.drop_last()));
                            }
                        },
                        Some(c) => {
                            q.push_cursor(c);
                        },
                    }
                },
            }
        }
        q
    }

    /// Produces the next element of the merge: the largest element the
    /// queue still holds, or nothing once every input is exhausted.
    /// Exhaustion is terminal: further calls keep returning nothing and
    /// leave the queue unchanged.
    #[verifier::loop_isolation(false)]
    pub fn next(&mut self) -> (r: Option<u64>)
        requires
            old(self).wf(),
        ensures
            final(self).wf(),
            final(self).heap_size() <= old(self).heap_size(),
            old(self)@.len() == 0 ==> r is None && final(self)@ == old(self)@
                && final(self).heap_size() == old(self).heap_size(),
            old(self)@.len() > 0 ==> r is Some && old(self)@.count(r->Some_0) > 0 && (forall|x: u64|
                #[trigger] old(self)@.count(x) > 0 ==> x <= r->Some_0)
                && final(self)@ == old(self)@.remove(r->Some_0),
    {
        proof {
            broadcast use vstd::multiset::group_multiset_axioms;
            broadcast use vstd::seq_lib::group_to_multiset_ensures;

        }
        if self.iters.len() == 0 {
            proof {
                assert(views(self.iters@) =~= Seq::<Seq<u64>>::empty());
            }
            return None;
        }
        let ghost pre_iters: Seq<QueueElement> = self.iters@;
        let ghost pre: Seq<Seq<u64>> = views(pre_iters);
        proof {
            self.iters@[0].lemma_view_nonempty();
            assert(pre[0].contains(pre[0][0]));
            lemma_multiset_of_count(pre, pre[0][0]);
            assert(old(self)@.len() > 0);
        }
        let mut best: usize = 0;
        let mut j: usize = 1;
        while j < self.iters.len()
            invariant
                best < j <= self.iters@.len(),
                forall|k: int|
                    0 <= k < j ==> (#[trigger] self.iters@[k]).next <= self.iters@[
                        best as int
                    ].next,
            decreases self.iters@.len() - j,
        {
            if self.iters[j].next > self.iters[best].next {
                best = j;
            }
            j = j + 1;
        }
        let top = self.iters.remove(best);
        proof {
            assert(top == pre_iters[best as int]);
            assert(views(self.iters@) =~= pre.remove(best as int));
            lemma_multiset_of_remove(pre, best as int);
            assert forall|i: int|
                0 <= i < self.iters@.len() implies (#[trigger] self.iters@[i]).wf()
                && sorted_desc(self.iters@[i]@) by {
                if i < best as int {
                    assert(self.iters@[i] == pre_iters[i]);
                } else {
                    assert(self.iters@[i] == pre_iters[i + 1]);
                }
            }
        }
        let (v, maybe) = top.iterate();
        proof {
            assert(v == top@[0]);
            assert(v == pre_iters[best as int].next);
            lemma_to_multiset_decompose(top@);
            assert forall|x: u64| old(self)@.count(x) > 0 implies x <= v by {
                lemma_multiset_of_count(pre, x);
                let i = choose|i: int| 0 <= i < pre.len() && #[trigger] pre[i].contains(x);
                let idx = choose|idx: int| 0 <= idx < pre[i].len() && pre[i][idx] == x;
                assert(pre_iters[i]@[0] >= x);
                assert(pre_iters[i].next <= pre_iters[best as int].next);
            }
        }
        match maybe {
            Some(c) => {
                proof {
                    assert(c@ == top@.skip(1));
                    assert(sorted_desc(c@)) by {
                        assert(forall|i: int, j: int|
                            0 <= i < j < c@.len() ==> c@[i] == top@[i + 1] && c@[j] == top@[j
                                + 1]);
                    }
                }
                self.push_cursor(c);
                proof {
                    assert(final(self)@ =~= old(self)@.remove(v));
                }
            },
            None => {
                proof {
                    assert(top@.skip(1).len() == 0);
                    vstd::multiset::lemma_multiset_empty_len(top@.skip(1).to_multiset());
                    assert(final(self)@ =~= old(self)@.remove(v));
                }
            },
        }
        Some(v)
    }

    /// Produces every remaining element, in order: the result is sorted
    /// descending and holds exactly the queue's contents, with
    /// multiplicity.
    pub fn drain(self) -> (out: Vec<u64>)
        requires
            self.wf(),
        ensures
            sorted_desc(out@),
            out@.to_multiset() == self@,
    {
        let ghost orig: Multiset<u64> = self@;
        let mut q = self;
        let mut out: Vec<u64> = Vec::new();
        proof {
            broadcast use vstd::multiset::group_multiset_axioms;
            broadcast use vstd::seq_lib::group_to_multiset_ensures;

            assert(out@.to_multiset().len() == 0);
            vstd::multiset::lemma_multiset_empty_len(out@.to_multiset());
        }
        loop
            invariant
                q.wf(),
                sorted_desc(out@),
                out@.to_multiset().add(q@) == orig,
                forall|x: u64| #[trigger] q@.count(x) > 0 ==> out@.len() > 0 ==> x <= out@.last(),
            ensures
                sorted_desc(out@),
                out@.to_multiset() == orig,
            decreases q@.len(),
        {
            proof {
                broadcast use vstd::multiset::group_multiset_axioms;
                broadcast use vstd::seq_lib::group_to_multiset_ensures;

            }
            let ghost before: Multiset<u64> = q@;
            match q.next() {
                None => {
                    proof {
                        vstd::multiset::lemma_multiset_empty_len(q@);
                        assert(out@.to_multiset() =~= orig);
                    }
                    break ;
                },
                Some(v) => {
                    proof {
                        assert(Multiset::singleton(v).subset_of(before));
                        assert(q@.len() == before.len() - 1);
                        if out@.len() > 0 {
                            assert(v <= out@.last());
                        }
                        assert(sorted_desc(out@.push(v))) by {
                            assert(forall|i: int|
                                0 <= i < out@.len() ==> out@.push(v)[i] == out@[i]);
                        }
                        assert(out@.push(v).to_multiset().add(q@) =~= orig);
                    }
                    out.push(v);
                },
            }
        }
        out
    }
}

/// Merges a collection of sequences, each sorted descending, into the
/// descending sort of their concatenation, preserving multiplicity.
pub fn merge_all(seqs: Vec<Vec<u64>>) -> (out: Vec<u64>)
    requires
        forall|i: int| 0 <= i < seqs@.len() ==> sorted_desc(#[trigger] seqs@[i]@),
    ensures
        sorted_desc(out@),
        out@ == sort_desc(seqs.deep_view().flatten()),
{
    let q = IterQueue::from_iter(seqs);
    let out = q.drain();
    proof {
        lemma_merge_equals_batch_sort(out@, seqs.deep_view());
    }
    out
}

} // verus!
