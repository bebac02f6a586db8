use vstd::prelude::*;

verus! {

/// One element of the chain.  `next` is the owning forward link, `previous`
/// the non-owning backward link; both are indices into the list's arena.
/// `live` tells whether the slot still belongs to the list: a removed node
/// keeps its slot, with both links cleared, so that stale handles are
/// recognised instead of read.
#[derive(Debug, Clone, Copy)]
pub struct Node {
    pub value: i64,
    pub next: Option<usize>,
    pub previous: Option<usize>,
    pub live: bool,
}

impl Node {
    /// A fresh node holding `value`, with both links absent.
    fn new(value: i64) -> (n: Node)
        ensures
            n.value == value,
            n.next is None,
            n.previous is None,
            n.live,
    {
        Node { value, next: None, previous: None, live: true }
    }
}

/// How often `value` occurs among the first `j` elements of `s`.
pub open spec fn count_value_upto(s: Seq<i64>, value: i64, j: int) -> nat
    decreases j,
{
    if j <= 0 {
        0
    } else if s[j - 1] == value {
        count_value_upto(s, value, j - 1) + 1
    } else {
        count_value_upto(s, value, j - 1)
    }
}

/// How often `value` occurs in `s`.
pub open spec fn count_value(s: Seq<i64>, value: i64) -> nat {
    count_value_upto(s, value, s.len() as int)
}

/// The first `j` elements of `s` with every occurrence of `value` dropped,
/// in their original order.
pub open spec fn without_value_upto(s: Seq<i64>, value: i64, j: int) -> Seq<i64>
    decreases j,
{
    if j <= 0 {
        Seq::empty()
    } else if s[j - 1] == value {
        without_value_upto(s, value, j - 1)
    } else {
        without_value_upto(s, value, j - 1).push(s[j - 1])
    }
}

/// `s` with every occurrence of `value` dropped, in their original order.
pub open spec fn without_value(s: Seq<i64>, value: i64) -> Seq<i64> {
    without_value_upto(s, value, s.len() as int)
}

/// Dropping a value looks only at the elements before `j`.
proof fn lemma_without_upto_agree(a: Seq<i64>, b: Seq<i64>, value: i64, j: int)
    requires
        0 <= j,
        j <= a.len(),
        j <= b.len(),
        forall|i: int| 0 <= i < j ==> a[i] == b[i],
    ensures
        without_value_upto(a, value, j) == without_value_upto(b, value, j),
    decreases j,
{
    if j > 0 {
        lemma_without_upto_agree(a, b, value, j - 1);
    }
}

proof fn lemma_without_value_remove_step(s: Seq<i64>, value: i64, k: int, j: int)
    requires
        0 <= k < s.len(),
        s[k] == value,
        k <= j <= s.len() - 1,
    ensures
        without_value_upto(s.remove(k), value, j) == without_value_upto(s, value, j + 1),
    decreases j,
{
    s.remove_ensures(k);
    if j == k {
        lemma_without_upto_agree(s.remove(k), s, value, k);
    } else {
        lemma_without_value_remove_step(s, value, k, j - 1);
    }
}

/// Removing one occurrence of `value` does not change the sequence of
/// survivors.
pub proof fn lemma_without_value_remove_match(s: Seq<i64>, value: i64, k: int)
    requires
        0 <= k < s.len(),
        s[k] == value,
    ensures
        without_value(s.remove(k), value) == without_value(s, value),
{
    s.remove_ensures(k);
    lemma_without_value_remove_step(s, value, k, s.len() - 1);
}

proof fn lemma_count_partition_upto(s: Seq<i64>, value: i64, j: int)
    requires
        0 <= j <= s.len(),
    ensures
        without_value_upto(s, value, j).len() + count_value_upto(s, value, j) == j,
    decreases j,
{
    if j > 0 {
        lemma_count_partition_upto(s, value, j - 1);
    }
}

/// The survivors and the dropped occurrences together account for every
/// element.
pub proof fn lemma_count_partition(s: Seq<i64>, value: i64)
    ensures
        without_value(s, value).len() + count_value(s, value) == s.len(),
{
    lemma_count_partition_upto(s, value, s.len() as int);
}

proof fn lemma_without_value_id_upto(s: Seq<i64>, value: i64, j: int)
    requires
        0 <= j <= s.len(),
        forall|i: int| 0 <= i < s.len() ==> s[i] != value,
    ensures
        without_value_upto(s, value, j) == s.take(j),
    decreases j,
{
    if j > 0 {
        lemma_without_value_id_upto(s, value, j - 1);
        assert(s.take(j) =~= s.take(j - 1).push(s[j - 1]));
    } else {
        assert(without_value_upto(s, value, 0) =~= s.take(0));
    }
}

/// A sequence free of `value` is left untouched by dropping `value`.
pub proof fn lemma_without_value_id(s: Seq<i64>, value: i64)
    requires
        forall|i: int| 0 <= i < s.len() ==> s[i] != value,
    ensures
        without_value(s, value) == s,
{
    lemma_without_value_id_upto(s, value, s.len() as int);
    assert(s.take(s.len() as int) =~= s);
}

/// The list handle: an arena of node slots, the indices of the first and the
/// last live node, and the count of live nodes.  `order` is the ghost record
/// of the live slots in head-to-tail order; `wf` ties the concrete links to
/// it.
pub struct DoublyLinkedList {
    pub nodes: Vec<Node>,
    pub head: Option<usize>,
    pub tail: Option<usize>,
    pub size: usize,
    pub order: Ghost<Seq<usize>>,
}

impl View for DoublyLinkedList {
    type V = Seq<i64>;

    /// The values of the live nodes, head to tail.
    open spec fn view(&self) -> Seq<i64> {
        self.order@.map_values(|h: usize| self.value_at(h))
    }
}

impl DoublyLinkedList {
    /// The slot a handle points at.
    pub open spec fn slot_of(&self, h: usize) -> Node {
        self.nodes@[h as int]
    }

    /// A handle is valid when it points at a slot that is still a member of
    /// the list.
    pub open spec fn valid_handle(&self, h: usize) -> bool {
        h < self.nodes@.len() && self.slot_of(h).live
    }

    /// The value held by the node a handle points at.
    pub open spec fn value_at(&self, h: usize) -> i64 {
        self.slot_of(h).value
    }

    /// The position of a handle in the head-to-tail order.
    pub open spec fn position_of(&self, h: usize) -> int {
        self.order@.index_of(h)
    }

    /// The node at position `k` carries the links the chain order demands:
    /// forward to position `k + 1`, backward to position `k - 1`, absent at
    /// the two ends.
    pub open spec fn entry_ok(&self, k: int) -> bool
        recommends
            0 <= k < self.order@.len(),
    {
        &&& self.order@[k] < self.nodes@.len()
        &&& self.slot_of(self.order@[k]).live
        &&& self.slot_of(self.order@[k]).next == (if k + 1 < self.order@.len() {
            Some(self.order@[k + 1])
        } else {
            None::<usize>
        })
        &&& self.slot_of(self.order@[k]).previous == (if k > 0 {
            Some(self.order@[k - 1])
        } else {
            None::<usize>
        })
    }

    /// Well-formedness: the invariants every public operation preserves.
    /// The chain order lists each live slot exactly once; adjacent nodes
    /// point at each other and the terminal links are absent; `head`, `tail`
    /// and `size` agree with the chain, and all three report emptiness
    /// together.
    pub open spec fn wf(&self) -> bool {
        &&& self.order@.no_duplicates()
        &&& self.order@.len() <= self.nodes@.len()
        &&& self.size == self.order@.len()
        &&& forall|k: int| 0 <= k < self.order@.len() ==> #[trigger] self.entry_ok(k)
        &&& forall|j: int|
            0 <= j < self.nodes@.len() && (#[trigger] self.nodes@[j]).live
                ==> self.order@.contains(j as usize)
        &&& self.head == (if self.order@.len() > 0 {
            Some(self.order@[0])
        } else {
            None::<usize>
        })
        &&& self.tail == (if self.order@.len() > 0 {
            Some(self.order@[self.order@.len() - 1])
        } else {
            None::<usize>
        })
    }

    /// The canonical empty state: no slots at all and both ends absent.
    pub open spec fn is_cleared(&self) -> bool {
        &&& self.nodes@ == Seq::<Node>::empty()
        &&& self.head is None
        &&& self.tail is None
        &&& self.size == 0
        &&& self.order@ == Seq::<usize>::empty()
    }

    /// The two ends are absent exactly when the list is empty, together
    /// with a size of zero; the size always counts the chain exactly.
    pub proof fn lemma_ends_absent_iff_empty(&self)
        requires
            self.wf(),
        ensures
            (self.head is None <==> self.size == 0),
            (self.tail is None <==> self.size == 0),
            (self.head is None <==> self.tail is None),
            self.size == self@.len(),
    {
    }

    /// A valid handle sits at exactly one position of the chain order.
    proof fn lemma_position(&self, h: usize)
        requires
            self.wf(),
            self.valid_handle(h),
        ensures
            0 <= self.position_of(h) < self.order@.len(),
            self.order@[self.position_of(h)] == h,
            forall|k: int|
                0 <= k < self.order@.len() && self.order@[k] == h ==> k == self.position_of(h),
    {
        assert(self.nodes@[h as int].live);
        assert(self.order@.contains(h));
    }

    /// Construct the empty list.
    pub fn new() -> (l: DoublyLinkedList)
        ensures
            l.wf(),
            l.is_cleared(),
            l@ == Seq::<i64>::empty(),
    {
        let l = DoublyLinkedList {
            nodes: Vec::new(),
            head: None,
            tail: None,
            size: 0,
            order: Ghost(Seq::empty()),
        };
        proof {
            assert(l@ =~= Seq::<i64>::empty());
        }
        l
    }

    /// Append `value` after the current tail.  Always succeeds: the new node
    /// becomes the tail, every existing node keeps its place and its value,
    /// and the count grows by one.
    pub fn append(&mut self, value: i64)
        requires
            old(self).wf(),
        ensures
            final(self).wf(),
            final(self)@ == old(self)@.push(value),
            final(self).size == old(self).size + 1,
            final(self).order@ == old(self).order@.push((old(self).nodes@.len()) as usize),
            final(self).nodes@.len() == old(self).nodes@.len() + 1,
            forall|h: usize|
                old(self).valid_handle(h)
                    ==> #[trigger] final(self).valid_handle(h) && final(self).value_at(h) == old(
                    self,
                ).value_at(h),
    {
        let idx = self.nodes.len();
        let mut node = Node::new(value);
        if self.head.is_none() {
            self.nodes.push(node);
            self.head = Some(idx);
            self.tail = Some(idx);
        } else {
            let t = self.tail.unwrap();
            proof {
                assert(self.entry_ok(self.order@.len() - 1));
            }
            node.previous = Some(t);
            self.nodes.push(node);
            let told = self.nodes[t];
            self.nodes.set(
                t,
                Node { value: told.value, next: Some(idx), previous: told.previous, live: told.live },
            );
            self.tail = Some(idx);
        }
        let grown = self.nodes.len();
        assert(self.size < grown);
        self.size = self.size + 1;
        proof {
            self.order@ = self.order@.push(idx);
            let os = old(self).order@;
            let ns = self.order@;
            assert forall|i: int, j: int| 0 <= i < j < ns.len() implies ns[i] != ns[j] by {
                if j == ns.len() - 1 {
                    assert(old(self).entry_ok(i));
                }
            }
            assert forall|k: int| 0 <= k < ns.len() implies #[trigger] self.entry_ok(k) by {
                if k < os.len() {
                    assert(old(self).entry_ok(k));
                    if k + 1 < os.len() {
                        assert(old(self).entry_ok(k + 1));
                    }
                    if k > 0 {
                        assert(old(self).entry_ok(k - 1));
                    }
                }
                if k > 0 && k == os.len() {
                    assert(old(self).entry_ok(k - 1));
                }
            }
            assert forall|j: int|
                0 <= j < self.nodes@.len() && (#[trigger] self.nodes@[j]).live implies ns.contains(
                j as usize,
            ) by {
                if j < old(self).nodes@.len() {
                    assert(old(self).nodes@[j].live);
                    assert(os.contains(j as usize));
                    let i = choose|i: int| 0 <= i < os.len() && os[i] == j as usize;
                    assert(ns[i] == j as usize);
                } else {
                    assert(ns[ns.len() - 1] == j as usize);
                }
            }
            assert forall|h: usize| old(self).valid_handle(h) implies #[trigger] self.valid_handle(
                h,
            ) && self.value_at(h) == old(self).value_at(h) by {}
            assert(self@ =~= old(self)@.push(value)) by {
                assert forall|i: int| 0 <= i < os.len() implies self@[i] == old(self)@[i] by {
                    assert(old(self).entry_ok(i));
                }
            }
        }
    }

    /// Splice the node a handle points at out of the chain, rewiring its two
    /// neighbours around it, whether it is the head, the tail, interior, or
    /// the sole node.  A handle that is not a live member of the list is
    /// rejected: nothing changes and `false` comes back.
    #[verifier::rlimit(50)]
    pub fn remove_node(&mut self, node: usize) -> (removed: bool)
        requires
            old(self).wf(),
        ensures
            final(self).wf(),
            removed == old(self).valid_handle(node),
            !removed ==> *final(self) == *old(self),
            removed ==> ({
                let k = old(self).position_of(node);
                &&& 0 <= k < old(self).order@.len()
                &&& old(self).order@[k] == node
                &&& final(self).order@ == old(self).order@.remove(k)
                &&& final(self)@ == old(self)@.remove(k)
                &&& final(self).size == old(self).size - 1
                &&& final(self).nodes@.len() == old(self).nodes@.len()
                &&& forall|h: usize|
                    #[trigger] final(self).valid_handle(h) <==> (old(self).valid_handle(h) && h
                        != node)
                &&& forall|h: usize|
                    old(self).valid_handle(h) && h != node ==> #[trigger] final(self).value_at(h)
                        == old(self).value_at(h)
            }),
    {
        if node >= self.nodes.len() {
            return false;
        }
        if !self.nodes[node].live {
            return false;
        }
        let ghost k = self.position_of(node);
        proof {
            self.lemma_position(node);
            assert(self.entry_ok(k));
            if k > 0 {
                assert(self.entry_ok(k - 1));
            }
            if k + 1 < self.order@.len() {
                assert(self.entry_ok(k + 1));
            }
        }
        let previous = self.nodes[node].previous;
        let next = self.nodes[node].next;

        if previous.is_none() && next.is_none() {
            self.head = None;
            self.tail = None;
        } else {
            if previous.is_none() {
                let nx = next.unwrap();
                let s = self.nodes[nx];
                self.nodes.set(
                    nx,
                    Node { value: s.value, next: s.next, previous: None, live: s.live },
                );
                self.head = Some(nx);
            } else {
                let pv = previous.unwrap();
                let s = self.nodes[pv];
                self.nodes.set(
                    pv,
                    Node { value: s.value, next, previous: s.previous, live: s.live },
                );
            }
            if next.is_none() {
                let pv = previous.unwrap();
                let s = self.nodes[pv];
                self.nodes.set(
                    pv,
                    Node { value: s.value, next: None, previous: s.previous, live: s.live },
                );
                self.tail = Some(pv);
            } else {
                let nx = next.unwrap();
                let s = self.nodes[nx];
                self.nodes.set(
                    nx,
                    Node { value: s.value, next: s.next, previous, live: s.live },
                );
            }
        }
        let cleared = self.nodes[node];
        self.nodes.set(
            node,
            Node { value: cleared.value, next: None, previous: None, live: false },
        );
        self.size = self.size - 1;
        proof {
            let os = old(self).order@;
            self.order@ = os.remove(k);
            let no = self.order@;
            os.remove_ensures(k);
            assert forall|i: int, j: int| 0 <= i < j < no.len() implies no[i] != no[j] by {}
            assert forall|i: int| 0 <= i < no.len() implies #[trigger] self.entry_ok(i) by {
                assert(old(self).entry_ok(if i < k {
                    i
                } else {
                    i + 1
                }));
                if i + 1 < no.len() {
                    assert(old(self).entry_ok(if i + 1 < k {
                        i + 1
                    } else {
                        i + 2
                    }));
                }
                if i > 0 {
                    assert(old(self).entry_ok(if i - 1 < k {
                        i - 1
                    } else {
                        i
                    }));
                }
            }
            assert forall|j: int|
                0 <= j < self.nodes@.len() && (#[trigger] self.nodes@[j]).live implies no.contains(
                j as usize,
            ) by {
                assert(old(self).nodes@[j].live);
                assert(os.contains(j as usize));
                let i = choose|i: int| 0 <= i < os.len() && os[i] == j as usize;
                if i < k {
                    assert(no[i] == j as usize);
                } else {
                    assert(i > k);
                    assert(no[i - 1] == j as usize);
                }
            }
            assert forall|j: int|
                0 <= j < self.nodes@.len() implies (#[trigger] self.nodes@[j]).value == old(
                self,
            ).nodes@[j].value by {}
            assert(self@ =~= old(self)@.remove(k)) by {
                old(self)@.remove_ensures(k);
                assert forall|i: int| 0 <= i < no.len() implies self@[i] == old(self)@.remove(k)[i] by {
                    assert(self.entry_ok(i));
                    assert(self@[i] == self.value_at(no[i]));
                    assert(self.value_at(no[i]) == old(self).value_at(no[i]));
                    if i < k {
                        assert(no[i] == os[i]);
                        assert(old(self)@.remove(k)[i] == old(self)@[i]);
                        assert(old(self)@[i] == old(self).value_at(os[i]));
                    } else {
                        assert(no[i] == os[i + 1]);
                        assert(old(self)@.remove(k)[i] == old(self)@[i + 1]);
                        assert(old(self)@[i + 1] == old(self).value_at(os[i + 1]));
                    }
                }
            }
        }
        true
    }

    /// `value` first occurs at position `k` of the chain.
    pub open spec fn first_match_at(&self, value: i64, k: int) -> bool {
        &&& 0 <= k < self@.len()
        &&& self@[k] == value
        &&& forall|p: int| 0 <= p < k ==> self@[p] != value
    }

    /// The handles of the first `j` chain positions whose node holds `value`,
    /// in encounter order.
    pub open spec fn matches_prefix(&self, value: i64, j: int) -> Seq<usize>
        decreases j,
    {
        if j <= 0 {
            Seq::empty()
        } else if self.value_at(self.order@[j - 1]) == value {
            self.matches_prefix(value, j - 1).push(self.order@[j - 1])
        } else {
            self.matches_prefix(value, j - 1)
        }
    }

    /// The handles of all nodes holding `value`, head to tail.
    pub open spec fn matching_handles(&self, value: i64) -> Seq<usize> {
        self.matches_prefix(value, self.order@.len() as int)
    }

    /// Scan head to tail for the first node holding `value`; absent when the
    /// value does not occur.  The returned handle is live and may be handed
    /// to `remove_node`.
    pub fn find_first(&self, value: i64) -> (r: Option<usize>)
        requires
            self.wf(),
        ensures
            (r is Some <==> self@.contains(value)),
            (match r {
                Some(h) => self.valid_handle(h) && self.value_at(h) == value && (exists|k: int|
                    #[trigger] self.first_match_at(value, k) && self.order@[k] == h),
                None => !self@.contains(value),
            }),
    {
        let mut current = self.head;
        let ghost mut j: int = 0;
        while current.is_some()
            invariant
                self.wf(),
                0 <= j <= self.order@.len(),
                current == (if j < self.order@.len() {
                    Some(self.order@[j])
                } else {
                    None::<usize>
                }),
                forall|p: int| 0 <= p < j ==> self@[p] != value,
            decreases self.order@.len() - j,
        {
            let h = current.unwrap();
            proof {
                assert(self.entry_ok(j));
            }
            if self.nodes[h].value == value {
                proof {
                    assert(self@[j] == value);
                    assert(self.first_match_at(value, j));
                }
                return Some(h);
            }
            current = self.nodes[h].next;
            proof {
                j = j + 1;
            }
        }
        proof {
            assert forall|p: int| 0 <= p < self@.len() implies self@[p] != value by {}
        }
        None
    }

    /// Scan head to tail and collect a handle for every node holding
    /// `value`, in encounter order; empty when the value does not occur.
    pub fn find_all(&self, value: i64) -> (r: Vec<usize>)
        requires
            self.wf(),
        ensures
            r@ == self.matching_handles(value),
            r@.no_duplicates(),
            forall|i: int|
                0 <= i < r@.len() ==> self.valid_handle(#[trigger] r@[i]) && self.value_at(r@[i])
                    == value,
            forall|h: usize| self.valid_handle(h) && self.value_at(h) == value ==> r@.contains(h),
            r@.len() == count_value(self@, value),
            (r@.len() == 0 <==> !self@.contains(value)),
    {
        let mut found: Vec<usize> = Vec::new();
        let mut current = self.head;
        let ghost mut j: int = 0;
        while current.is_some()
            invariant
                self.wf(),
                0 <= j <= self.order@.len(),
                current == (if j < self.order@.len() {
                    Some(self.order@[j])
                } else {
                    None::<usize>
                }),
                found@ == self.matches_prefix(value, j),
                found@.len() == count_value_upto(self@, value, j),
                found@.no_duplicates(),
                forall|i: int|
                    0 <= i < found@.len() ==> self.valid_handle(#[trigger] found@[i])
                        && self.value_at(found@[i]) == value,
                forall|i: int|
                    0 <= i < found@.len() ==> (exists|p: int|
                        0 <= p < j && self.order@[p] == #[trigger] found@[i]),
                forall|p: int|
                    0 <= p < j && self.value_at(#[trigger] self.order@[p]) == value
                        ==> found@.contains(self.order@[p]),
            decreases self.order@.len() - j,
        {
            let h = current.unwrap();
            proof {
                assert(self.entry_ok(j));
                assert(self@[j] == self.value_at(self.order@[j]));
            }
            let ghost prev = found@;
            if self.nodes[h].value == value {
                proof {
                    assert forall|i: int| 0 <= i < found@.len() implies found@[i] != h by {
                        let p = choose|p: int| 0 <= p < j && self.order@[p] == found@[i];
                        assert(self.order@[p] == found@[i]);
                    }
                }
                found.push(h);
                proof {
                    assert forall|p: int|
                        0 <= p < j + 1 && self.value_at(#[trigger] self.order@[p])
                            == value implies found@.contains(self.order@[p]) by {
                        if p < j {
                            assert(prev.contains(self.order@[p]));
                            let i = choose|i: int| 0 <= i < prev.len() && prev[i] == self.order@[p];
                            assert(found@[i] == self.order@[p]);
                        } else {
                            assert(found@[found@.len() - 1] == h);
                        }
                    }
                }
            } else {
                proof {
                    assert(self.value_at(self.order@[j]) != value);
                }
            }
            current = self.nodes[h].next;
            proof {
                j = j + 1;
            }
        }
        proof {
            assert(found@ == self.matching_handles(value));
            assert(self@.len() == self.order@.len());
            assert forall|h: usize|
                self.valid_handle(h) && self.value_at(h) == value implies found@.contains(h) by {
                self.lemma_position(h);
            }
            if found@.len() == 0 {
                assert forall|p: int| 0 <= p < self@.len() implies self@[p] != value by {
                    assert(self.entry_ok(p));
                    if self@[p] == value {
                        assert(found@.contains(self.order@[p]));
                    }
                }
            } else {
                let h = found@[0];
                self.lemma_position(h);
                assert(self@[self.position_of(h)] == value);
            }
        }
        found
    }

    /// Remove the first node (head to tail) holding `value`; a silent no-op
    /// when the value does not occur.
    pub fn remove_value(&mut self, value: i64)
        requires
            old(self).wf(),
        ensures
            final(self).wf(),
            !old(self)@.contains(value) ==> *final(self) == *old(self),
            old(self)@.contains(value) ==> final(self).size == old(self).size - 1,
            old(self)@.contains(value) ==> (exists|k: int|
                #[trigger] old(self).first_match_at(value, k)
                    && final(self)@ == old(self)@.remove(k)
                    && final(self).order@ == old(self).order@.remove(k)),
    {
        let node_to_remove = self.find_first(value);
        if let Some(node) = node_to_remove {
            proof {
                let k = choose|k: int|
                    self.first_match_at(value, k) && self.order@[k] == node;
                self.lemma_position(node);
                assert(self.position_of(node) == k);
            }
            self.remove_node(node);
        }
    }

    /// Remove every node holding `value`, keeping the survivors in their
    /// relative order; a silent no-op when the value does not occur.  All
    /// matching handles are collected first and spliced out afterwards, so
    /// no match is skipped while the chain is being rewired.
    pub fn remove_values(&mut self, value: i64)
        requires
            old(self).wf(),
        ensures
            final(self).wf(),
            final(self)@ == without_value(old(self)@, value),
            final(self).size + count_value(old(self)@, value) == old(self).size,
            !final(self)@.contains(value),
    {
        let nodes_to_remove = self.find_all(value);
        let ghost found = nodes_to_remove@;
        proof {
            assert(found.skip(0) =~= found);
        }
        let mut m: usize = 0;
        while m < nodes_to_remove.len()
            invariant
                self.wf(),
                0 <= m <= found.len(),
                nodes_to_remove@ == found,
                found.no_duplicates(),
                found.len() == count_value(old(self)@, value),
                self.size + m == old(self).size,
                forall|i: int|
                    m <= i < found.len() ==> self.valid_handle(#[trigger] found[i])
                        && self.value_at(found[i]) == value,
                forall|h: usize|
                    self.valid_handle(h) && self.value_at(h) == value ==> found.skip(
                        m as int,
                    ).contains(h),
                without_value(self@, value) == without_value(old(self)@, value),
            decreases found.len() - m,
        {
            let node = nodes_to_remove[m];
            let ghost before = *self;
            let removed = self.remove_node(node);
            proof {
                assert(removed);
                let k = before.position_of(node);
                assert(before@[k] == before.value_at(node));
                lemma_without_value_remove_match(before@, value, k);
                assert forall|h: usize|
                    self.valid_handle(h) && self.value_at(h) == value implies found.skip(
                    m + 1,
                ).contains(h) by {
                    assert(before.valid_handle(h) && h != node);
                    assert(found.skip(m as int).contains(h));
                    let i = choose|i: int|
                        0 <= i < found.skip(m as int).len() && found.skip(m as int)[i] == h;
                    assert(found[m + i] == h);
                    assert(i != 0);
                    assert(found.skip(m + 1)[i - 1] == h);
                }
            }
            m = m + 1;
        }
        proof {
            assert forall|i: int| 0 <= i < self@.len() implies self@[i] != value by {
                assert(self.entry_ok(i));
                if self@[i] == value {
                    assert(self.valid_handle(self.order@[i]));
                    assert(found.skip(found.len() as int).contains(self.order@[i]));
                }
            }
            lemma_without_value_id(self@, value);
            lemma_count_partition(old(self)@, value);
        }
    }

    /// Remove the current head; a safe no-op on an empty list.
    pub fn remove_head(&mut self)
        requires
            old(self).wf(),
        ensures
            final(self).wf(),
            old(self)@.len() == 0 ==> *final(self) == *old(self),
            old(self)@.len() > 0 ==> final(self)@ == old(self)@.drop_first()
                && final(self).order@ == old(self).order@.drop_first()
                && final(self).size == old(self).size - 1,
    {
        if self.head.is_some() {
            let h = self.head.unwrap();
            proof {
                assert(self.entry_ok(0));
                self.lemma_position(h);
                assert(self.position_of(h) == 0);
                assert(self.order@.remove(0) =~= self.order@.drop_first());
                assert(self@.remove(0) =~= self@.drop_first());
            }
            self.remove_node(h);
        }
    }

    /// Remove the current tail; a safe no-op on an empty list.
    pub fn remove_tail(&mut self)
        requires
            old(self).wf(),
        ensures
            final(self).wf(),
            old(self)@.len() == 0 ==> *final(self) == *old(self),
            old(self)@.len() > 0 ==> final(self)@ == old(self)@.drop_last()
                && final(self).order@ == old(self).order@.drop_last()
                && final(self).size == old(self).size - 1,
    {
        if self.tail.is_some() {
            let h = self.tail.unwrap();
            proof {
                let last = self.order@.len() - 1;
                assert(self.entry_ok(last));
                self.lemma_position(h);
                assert(self.position_of(h) == last);
                assert(self.order@.remove(last) =~= self.order@.drop_last());
                assert(self@.remove(last) =~= self@.drop_last());
            }
            self.remove_node(h);
        }
    }

    /// Drop both ends and the whole chain with them; never fails, also on a
    /// list that is already empty.
    pub fn remove_all(&mut self)
        ensures
            final(self).wf(),
            final(self).is_cleared(),
            final(self)@ == Seq::<i64>::empty(),
    {
        self.nodes = Vec::new();
        self.head = None;
        self.tail = None;
        self.size = 0;
        proof {
            self.order@ = Seq::empty();
            assert(self.nodes@ =~= Seq::<Node>::empty());
            assert(self@ =~= Seq::<i64>::empty());
        }
    }
}

impl DoublyLinkedList {
    /// The handles met by walking forward along `next` links, starting at
    /// `start`, for at most `fuel` steps.
    pub open spec fn chain_forward(&self, start: Option<usize>, fuel: nat) -> Seq<usize>
        decreases fuel,
    {
        match start {
            None => Seq::empty(),
            Some(h) => if fuel == 0 {
                Seq::empty()
            } else {
                seq![h] + self.chain_forward(self.slot_of(h).next, (fuel - 1) as nat)
            },
        }
    }

    /// The handles met by walking backward along `previous` links, starting
    /// at `start`, for at most `fuel` steps.
    pub open spec fn chain_backward(&self, start: Option<usize>, fuel: nat) -> Seq<usize>
        decreases fuel,
    {
        match start {
            None => Seq::empty(),
            Some(h) => if fuel == 0 {
                Seq::empty()
            } else {
                seq![h] + self.chain_backward(self.slot_of(h).previous, (fuel - 1) as nat)
            },
        }
    }

    proof fn lemma_chain_forward_from(&self, k: int)
        requires
            self.wf(),
            0 <= k < self.order@.len(),
        ensures
            self.chain_forward(Some(self.order@[k]), (self.order@.len() - k) as nat)
                == self.order@.skip(k),
        decreases self.order@.len() - k,
    {
        assert(self.entry_ok(k));
        if k + 1 < self.order@.len() {
            self.lemma_chain_forward_from(k + 1);
            assert(seq![self.order@[k]] + self.order@.skip(k + 1) =~= self.order@.skip(k));
        } else {
            assert(self.chain_forward(None::<usize>, (self.order@.len() - k - 1) as nat)
                == Seq::<usize>::empty());
            assert(seq![self.order@[k]] + Seq::<usize>::empty() =~= self.order@.skip(k));
        }
    }

    proof fn lemma_chain_backward_from(&self, k: int)
        requires
            self.wf(),
            0 <= k < self.order@.len(),
        ensures
            self.chain_backward(Some(self.order@[k]), (k + 1) as nat) == self.order@.take(
                k + 1,
            ).reverse(),
        decreases k,
    {
        assert(self.entry_ok(k));
        assert(self.chain_backward(Some(self.order@[k]), (k + 1) as nat) == seq![self.order@[k]]
            + self.chain_backward(self.slot_of(self.order@[k]).previous, k as nat));
        if k > 0 {
            self.lemma_chain_backward_from(k - 1);
            assert(seq![self.order@[k]] + self.order@.take(k).reverse() =~= self.order@.take(
                k + 1,
            ).reverse());
        } else {
            assert(self.chain_backward(None::<usize>, 0nat) == Seq::<usize>::empty());
            assert(seq![self.order@[0]] + Seq::<usize>::empty() =~= self.order@.take(
                1,
            ).reverse());
        }
    }

    /// Walking the whole chain forward from the head visits the nodes in
    /// list order, walking it backward from the tail visits them in the
    /// reverse order, and the two value sequences are mirror images: the
    /// backward walk, reversed, collects exactly the forward values.
    pub proof fn lemma_traversal_round_trip(&self)
        requires
            self.wf(),
            self@.len() > 0,
        ensures
            self.chain_forward(self.head, self.size as nat) == self.order@,
            self.chain_backward(self.tail, self.size as nat) == self.order@.reverse(),
            self.chain_forward(self.head, self.size as nat).map_values(
                |h: usize| self.value_at(h),
            ) == self@,
            self.chain_backward(self.tail, self.size as nat).map_values(
                |h: usize| self.value_at(h),
            ).reverse() == self@,
    {
        self.lemma_chain_forward_from(0);
        assert(self.order@.skip(0) =~= self.order@);
        self.lemma_chain_backward_from(self.order@.len() - 1);
        assert(self.order@.take(self.order@.len() as int) =~= self.order@);
        assert(self.chain_forward(self.head, self.size as nat).map_values(
            |h: usize| self.value_at(h),
        ) =~= self@);
        assert(self.chain_backward(self.tail, self.size as nat).map_values(
            |h: usize| self.value_at(h),
        ).reverse() =~= self@);
    }
}

/// Two cleared lists agree in every observable component: clearing an
/// already cleared list is a no-op.
pub proof fn lemma_cleared_state_unique(a: &DoublyLinkedList, b: &DoublyLinkedList)
    requires
        a.is_cleared(),
        b.is_cleared(),
    ensures
        a@ == b@,
        a.nodes@ == b.nodes@,
        a.head == b.head,
        a.tail == b.tail,
        a.size == b.size,
        a.order@ == b.order@,
{
    assert(a@ =~= b@);
}

} // verus!
