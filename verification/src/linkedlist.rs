use vstd::prelude::*;

verus! {

use vstd::std_specs::cmp::PartialEqSpec;
use vstd::pervasive::cloned;
use crate::array::{found_before, match_indices};

/// One node of a doubly linked list: a payload with two structural links.
///
/// Nodes live in the arena owned by the list, and a link names the arena
/// slot of a neighbor; links are read via lookup and never carry ownership,
/// so every node is released exactly once, by the list.
pub struct DoublyLinkedListNode<T> {
    pub previous: Option<usize>,
    data: T,
    pub next: Option<usize>,
}

/// A doubly linked list: a chain of individually stored nodes, reached from
/// `head` and `tail` and connected through their `previous`/`next` links.
///
/// The `order` field is the ghost record of the chain: the arena slot of
/// each position, first to last. The arena holds exactly the chained nodes,
/// so releasing it on destruction releases every node exactly once.
pub struct DoublyLinkedList<T> {
    nodes: Vec<DoublyLinkedListNode<T>>,
    head: Option<usize>,
    tail: Option<usize>,
    order: Ghost<Seq<usize>>,
}

/// A forward cursor over a list: the arena slot it stands at, advanced by
/// `next`. A fresh traversal starts with `iter`, so iteration is
/// restartable at will.
pub struct DoublyLinkedListIterator {
    current: Option<usize>,
    pos: Ghost<int>,
}

impl DoublyLinkedListIterator {
    /// The chain position the cursor stands at.
    pub closed spec fn pos(&self) -> int {
        self.pos@
    }

    /// The element under the cursor, which then advances one position;
    /// nothing once the cursor has passed the tail.
    pub fn next<'a, T>(&mut self, list: &'a DoublyLinkedList<T>) -> (r: Option<&'a T>)
        requires
            list.cursor_valid(*old(self)),
        ensures
            list.cursor_valid(*final(self)),
            old(self).pos() < list@.len() ==> (r matches Some(v) && *v == list@[old(self).pos()]
                && final(self).pos() == old(self).pos() + 1),
            old(self).pos() >= list@.len() ==> r is None && final(self).pos() == old(self).pos(),
    {
        match self.current {
            None => None,
            Some(c) => {
                proof {
                    assert(list@[self.pos@] == list.nodes@[c as int].data);
                }
                let r = &list.nodes[c].data;
                self.current = list.nodes[c].next;
                self.pos = Ghost(self.pos@ + 1);
                Some(r)
            },
        }
    }
}

impl<T> View for DoublyLinkedList<T> {
    type V = Seq<T>;

    closed spec fn view(&self) -> Seq<T> {
        Seq::new(self.order@.len(), |i: int| self.nodes@[self.order@[i] as int].data)
    }
}

/// The bytes a node occupies: its payload and its two links.
pub open spec fn node_footprint<T>() -> nat {
    vstd::layout::size_of::<Option<usize>>() + vstd::layout::size_of::<T>()
        + vstd::layout::size_of::<Option<usize>>()
}

/// The arena entries listed in `ord` hang together as one chain: `head`
/// names the first, `tail` the last, each node's `next` the entry listed
/// after it and each node's `previous` the entry listed before it.
spec fn chain_ok<T>(
    nodes: Seq<DoublyLinkedListNode<T>>,
    head: Option<usize>,
    tail: Option<usize>,
    ord: Seq<usize>,
) -> bool {
    let n = ord.len() as int;
    &&& (forall|i: int| 0 <= i < n ==> (#[trigger] ord[i]) < nodes.len())
    &&& (forall|i: int, j: int| 0 <= i < j < n ==> ord[i] != ord[j])
    &&& head == (if n == 0 {
        None::<usize>
    } else {
        Some(ord[0])
    })
    &&& tail == (if n == 0 {
        None::<usize>
    } else {
        Some(ord[n - 1])
    })
    &&& (forall|i: int|
        0 <= i < n ==> (#[trigger] nodes[ord[i] as int].previous) == (if i == 0 {
            None::<usize>
        } else {
            Some(ord[i - 1])
        }))
    &&& (forall|i: int|
        0 <= i < n ==> (#[trigger] nodes[ord[i] as int].next) == (if i == n - 1 {
            None::<usize>
        } else {
            Some(ord[i + 1])
        }))
}

/// The operations of a doubly linked list. `DoublyLinkedList` implements
/// them; the contracts here are what every implementation owes its callers.
pub trait LinkedList<T: PartialEq + Clone>: View<V = Seq<T>> + Sized {
    /// The structural invariant that construction establishes and every
    /// operation preserves.
    spec fn inv(&self) -> bool;

    fn new() -> (r: Self)
        ensures
            r.inv(),
            r@ == Seq::<T>::empty(),
    ;

    fn len(&self) -> (r: usize)
        requires
            self.inv(),
        ensures
            r == self@.len(),
    ;

    fn is_empty(&self) -> (r: bool)
        requires
            self.inv(),
        ensures
            r <==> self@.len() == 0,
    ;

    fn size_of_value(&self) -> (r: usize)
        requires
            self.inv(),
            self@.len() * node_footprint::<T>() <= usize::MAX,
        ensures
            r == self@.len() * node_footprint::<T>(),
    ;

    fn append(&mut self, data: T) -> (r: Result<(), String>)
        requires
            old(self).inv(),
        ensures
            final(self).inv(),
            r is Ok,
            final(self)@ == old(self)@.push(data),
    ;

    fn insert_at(&mut self, data: T, index: usize) -> (r: Result<(), String>)
        requires
            old(self).inv(),
        ensures
            final(self).inv(),
            r is Ok <==> index < old(self)@.len(),
            r is Ok ==> final(self)@ == old(self)@.insert(index as int, data),
            r is Err ==> *final(self) == *old(self),
    ;

    fn pop(&mut self) -> (r: Result<(), String>)
        requires
            old(self).inv(),
        ensures
            final(self).inv(),
            r is Ok <==> old(self)@.len() > 0,
            r is Ok ==> final(self)@ == old(self)@.drop_last(),
            r is Err ==> *final(self) == *old(self),
    ;

    fn remove_at(&mut self, index: usize) -> (r: Result<T, String>)
        requires
            old(self).inv(),
        ensures
            final(self).inv(),
            r is Ok <==> index < old(self)@.len(),
            r matches Ok(v) ==> v == old(self)@[index as int] && final(self)@ == old(
                self,
            )@.remove(index as int),
            r is Err ==> *final(self) == *old(self),
    ;

    fn replace_all(&mut self, old_item: T, new_item: T)
        requires
            old(self).inv(),
        ensures
            final(self).inv(),
            final(self)@.len() == old(self)@.len(),
            T::obeys_eq_spec() ==> forall|i: int|
                0 <= i < old(self)@.len() ==> if old(self)@[i].eq_spec(&old_item) {
                    cloned::<T>(new_item, #[trigger] final(self)@[i])
                } else {
                    final(self)@[i] == old(self)@[i]
                },
    ;

    fn swap(&mut self, index_a: usize, index_b: usize)
        requires
            old(self).inv(),
            index_a < old(self)@.len(),
            index_b < old(self)@.len(),
        ensures
            final(self).inv(),
            final(self)@ == old(self)@.update(index_a as int, old(self)@[index_b as int]).update(
                index_b as int,
                old(self)@[index_a as int],
            ),
    ;

    fn find_one(&self, needle: T) -> (r: Option<usize>)
        requires
            self.inv(),
        ensures
            r matches Some(i) ==> i < self@.len(),
            T::obeys_eq_spec() ==> match r {
                Some(i) => 0 <= i < self@.len() && self@[i as int].eq_spec(&needle)
                    && !found_before(self@, needle, i as int),
                None => !found_before(self@, needle, self@.len() as int),
            },
    ;

    fn find_all(&self, needle: T) -> (r: Option<Vec<usize>>)
        requires
            self.inv(),
        ensures
            T::obeys_eq_spec() ==> match r {
                Some(m) => m@ == match_indices(self@, needle) && m@.len() > 0,
                None => match_indices(self@, needle).len() == 0,
            },
    ;
}

/// Ways to sort the list. A sorting policy concerns element ordering, not
/// memory management, and is left as an extension point: no implementation
/// is provided here.
pub trait Sorting<T> {
    fn bubble_sort(&mut self);

    fn insertion_sort(&mut self);

    fn quick_sort(&mut self);
}

impl<T> DoublyLinkedList<T> {
    /// The structural invariant: the chain from `head` along `next` visits
    /// every arena node exactly once and ends at `tail`, and the `previous`
    /// links walk the same chain backwards.
    pub closed spec fn wf(&self) -> bool {
        &&& self.nodes@.len() == self.order@.len()
        &&& (forall|s: usize| (s as int) < self.order@.len() ==> self.order@.contains(s))
        &&& chain_ok(self.nodes@, self.head, self.tail, self.order@)
    }



    /// The arena slot of the node at a chain position, reached by walking
    /// the `next` links from `head`; nothing when the position is past the
    /// last node.
    fn slot_at(&self, index: usize) -> (r: Option<usize>)
        requires
            self.wf(),
        ensures
            index < self@.len() ==> r == Some(self.order@[index as int]),
            index >= self@.len() ==> r is None,
        no_unwind
    {
        let mut k: usize = 0;
        let mut node = self.head;
        while k < index
            invariant
                self.wf(),
                k <= index,
                k <= self@.len(),
                node == (if k < self@.len() {
                    Some(self.order@[k as int])
                } else {
                    None::<usize>
                }),
            decreases index - k,
        {
            match node {
                Some(c) => {
                    k = k + 1;
                    node = self.nodes[c].next;
                },
                None => {
                    return None;
                },
            }
        }
        node
    }

    /// Take the node at arena slot `slot`, chain position `pos`, out of the
    /// chain: its neighbors (or `head`/`tail`) are re-aimed past it, and the
    /// ghost order drops position `pos`. The orphaned node still occupies
    /// its arena slot until `compact` frees it.
    #[verifier::rlimit(100)]
    fn unchain(&mut self, slot: usize, Ghost(pos): Ghost<int>)
        requires
            old(self).wf(),
            0 <= pos < old(self).order@.len(),
            old(self).order@[pos] == slot,
        ensures
            final(self).nodes@.len() == old(self).nodes@.len(),
            final(self).order@ == old(self).order@.remove(pos),
            chain_ok(final(self).nodes@, final(self).head, final(self).tail, final(self).order@),
            forall|s: int|
                0 <= s < old(self).nodes@.len() ==> (#[trigger] final(self).nodes@[s]).data
                    == old(self).nodes@[s].data,
            forall|i: int|
                0 <= i < final(self).order@.len() ==> (#[trigger] final(self).order@[i]) != slot,
            forall|s: usize|
                (s as int) < old(self).nodes@.len() && s != slot
                    ==> final(self).order@.contains(s),
    {
        let ghost m0 = self.nodes@;
        let ghost ord0 = self.order@;
        let ghost n = ord0.len() as int;
        let ghost ord1 = ord0.remove(pos);
        proof {
            ord0.remove_ensures(pos);
        }

        let prv = self.nodes[slot].previous;
        let nxt = self.nodes[slot].next;
        proof {
            assert(m0[ord0[pos] as int].previous == (if pos == 0 {
                None::<usize>
            } else {
                Some(ord0[pos - 1])
            }));
            assert(m0[ord0[pos] as int].next == (if pos == n - 1 {
                None::<usize>
            } else {
                Some(ord0[pos + 1])
            }));
            if pos > 0 {
                assert(ord0[pos - 1] != ord0[pos]);
            }
            if pos < n - 1 {
                assert(ord0[pos + 1] != ord0[pos]);
            }
        }
        match prv {
            Some(p) => {
                self.nodes[p].next = nxt;
            },
            None => {
                self.head = nxt;
            },
        }
        match nxt {
            Some(q) => {
                self.nodes[q].previous = prv;
            },
            None => {
                self.tail = prv;
            },
        }
        self.order = Ghost(ord1);
        proof {
            let mid = self.nodes@;
            assert forall|i: int| 0 <= i < n - 1 implies (#[trigger] ord1[i]) != slot by {
                let j = if i < pos { i } else { i + 1 };
                assert(ord1[i] == ord0[j]);
                assert(ord0[j] != ord0[pos]);
            }
            assert forall|i: int, j: int| 0 <= i < j < n - 1 implies ord1[i] != ord1[j] by {
                let i0 = if i < pos { i } else { i + 1 };
                let j0 = if j < pos { j } else { j + 1 };
                assert(ord1[i] == ord0[i0]);
                assert(ord1[j] == ord0[j0]);
                assert(ord0[i0] != ord0[j0]);
            }
            assert forall|s: usize| (s as int) < n && s != slot implies ord1.contains(s) by {
                assert(ord0.contains(s));
                let i0 = choose|i0: int| 0 <= i0 < ord0.len() && ord0[i0] == s;
                assert(i0 != pos);
                let i = if i0 < pos { i0 } else { i0 - 1 };
                assert(ord1[i] == s);
            }
            assert forall|i: int| 0 <= i < n - 1 implies (#[trigger] mid[ord1[i] as int]).previous
                == (if i == 0 {
                None::<usize>
            } else {
                Some(ord1[i - 1])
            }) by {
                let j = if i < pos { i } else { i + 1 };
                assert(ord1[i] == ord0[j]);
                if i > 0 {
                    let j1 = if i - 1 < pos { i - 1 } else { i };
                    assert(ord1[i - 1] == ord0[j1]);
                }
                assert(m0[ord0[j] as int].previous == (if j == 0 {
                    None::<usize>
                } else {
                    Some(ord0[j - 1])
                }));
            }
            assert forall|i: int| 0 <= i < n - 1 implies (#[trigger] mid[ord1[i] as int]).next == (
            if i == n - 2 {
                None::<usize>
            } else {
                Some(ord1[i + 1])
            }) by {
                let j = if i < pos { i } else { i + 1 };
                assert(ord1[i] == ord0[j]);
                if i < n - 2 {
                    let j1 = if i + 1 < pos { i + 1 } else { i + 2 };
                    assert(ord1[i + 1] == ord0[j1]);
                }
                assert(m0[ord0[j] as int].next == (if j == n - 1 {
                    None::<usize>
                } else {
                    Some(ord0[j + 1])
                }));
            }
        }
    }

    /// Free the orphaned arena slot `slot` by a swap-removal: the arena's
    /// last entry moves into `slot`, and the links that named that entry
    /// (its neighbors' `previous`/`next`, or `head`/`tail`) are re-aimed at
    /// its new place. Returns the freed node.
    #[verifier::rlimit(100)]
    fn compact(&mut self, slot: usize) -> (node: DoublyLinkedListNode<T>)
        requires
            old(self).nodes@.len() == old(self).order@.len() + 1,
            (slot as int) < old(self).nodes@.len(),
            chain_ok(old(self).nodes@, old(self).head, old(self).tail, old(self).order@),
            forall|i: int|
                0 <= i < old(self).order@.len() ==> (#[trigger] old(self).order@[i]) != slot,
            forall|s: usize|
                (s as int) < old(self).nodes@.len() && s != slot
                    ==> old(self).order@.contains(s),
        ensures
            final(self).wf(),
            final(self)@ == Seq::new(
                old(self).order@.len(),
                |i: int| old(self).nodes@[old(self).order@[i] as int].data,
            ),
            node == old(self).nodes@[slot as int],
    {
        let ghost mid = self.nodes@;
        let ghost ord1 = self.order@;
        let ghost n = mid.len() as int;
        let last = self.nodes.len() - 1;
        let node = self.nodes.swap_remove(slot);
        if slot != last {
            proof {
                assert(ord1.contains(last));
            }
            let ghost k = choose|k: int| 0 <= k < ord1.len() && ord1[k] == last;
            let ghost ord2 = ord1.update(k, slot);
            let mp = self.nodes[slot].previous;
            let mn = self.nodes[slot].next;
            proof {
                assert(self.nodes@[slot as int] == mid[last as int]);
                assert(mp == (if k == 0 {
                    None::<usize>
                } else {
                    Some(ord1[k - 1])
                }));
                assert(mn == (if k == n - 2 {
                    None::<usize>
                } else {
                    Some(ord1[k + 1])
                }));
                if k > 0 {
                    assert(ord1[k - 1] != ord1[k]);
                    assert(ord1[k - 1] != slot);
                }
                if k < n - 2 {
                    assert(ord1[k + 1] != ord1[k]);
                    assert(ord1[k + 1] != slot);
                }
            }
            match mp {
                Some(p2) => {
                    self.nodes[p2].next = Some(slot);
                },
                None => {
                    self.head = Some(slot);
                },
            }
            match mn {
                Some(q2) => {
                    self.nodes[q2].previous = Some(slot);
                },
                None => {
                    self.tail = Some(slot);
                },
            }
            self.order = Ghost(ord2);
            proof {
                let fin = self.nodes@;
                assert(fin.len() == n - 1);
                assert forall|i: int| 0 <= i < n - 1 implies (#[trigger] ord2[i]) < n - 1 by {
                    if i == k {
                        assert(ord2[i] == slot);
                    } else {
                        assert(ord2[i] == ord1[i]);
                        assert(ord1[i] != ord1[k]);
                    }
                }
                assert forall|i: int, j: int| 0 <= i < j < n - 1 implies ord2[i] != ord2[j] by {
                    if i != k && j != k {
                        assert(ord2[i] == ord1[i] && ord2[j] == ord1[j]);
                    }
                }
                assert forall|s: usize| (s as int) < n - 1 implies ord2.contains(s) by {
                    if s == slot {
                        assert(ord2[k] == s);
                    } else {
                        assert(ord1.contains(s));
                        let i = choose|i: int| 0 <= i < ord1.len() && ord1[i] == s;
                        assert(i != k);
                        assert(ord2[i] == s);
                    }
                }
                assert forall|i: int| 0 <= i < n - 1 implies (#[trigger] fin[ord2[i] as int]).previous
                    == (if i == 0 {
                    None::<usize>
                } else {
                    Some(ord2[i - 1])
                }) by {
                    if i != k {
                        assert(ord1[i] != ord1[k]);
                        assert(ord2[i] == ord1[i]);
                    }
                    if i - 1 >= 0 && i - 1 != k {
                        assert(ord2[i - 1] == ord1[i - 1]);
                    }
                    assert(mid[ord1[i] as int].previous == (if i == 0 {
                        None::<usize>
                    } else {
                        Some(ord1[i - 1])
                    }));
                }
                assert forall|i: int| 0 <= i < n - 1 implies (#[trigger] fin[ord2[i] as int]).next
                    == (if i == n - 2 {
                    None::<usize>
                } else {
                    Some(ord2[i + 1])
                }) by {
                    if i != k {
                        assert(ord1[i] != ord1[k]);
                        assert(ord2[i] == ord1[i]);
                    }
                    if i + 1 < n - 1 && i + 1 != k {
                        assert(ord2[i + 1] == ord1[i + 1]);
                    }
                    assert(mid[ord1[i] as int].next == (if i == n - 2 {
                        None::<usize>
                    } else {
                        Some(ord1[i + 1])
                    }));
                }
                assert(self.head == (if n - 1 == 0 {
                    None::<usize>
                } else {
                    Some(ord2[0])
                }));
                assert(self.tail == (if n - 1 == 0 {
                    None::<usize>
                } else {
                    Some(ord2[n - 2])
                }));
                assert(self.wf());
                assert forall|i: int| 0 <= i < n - 1 implies (#[trigger] fin[ord2[i] as int]).data
                    == mid[ord1[i] as int].data by {
                    if i == k {
                        assert(ord2[i] == slot);
                        assert(fin[slot as int].data == mid[last as int].data);
                    } else {
                        assert(ord2[i] == ord1[i]);
                    }
                }
                assert(self@ =~= Seq::new(
                    old(self).order@.len(),
                    |i: int| old(self).nodes@[old(self).order@[i] as int].data,
                ));
            }
        } else {
            proof {
                let fin = self.nodes@;
                assert(fin.len() == n - 1);
                assert forall|i: int| 0 <= i < n - 1 implies (#[trigger] ord1[i]) < n - 1 by {
                    assert(ord1[i] != slot);
                }
                assert forall|i: int| 0 <= i < n - 1 implies fin[(#[trigger] ord1[i]) as int]
                    == mid[ord1[i] as int] by {
                    assert(ord1[i] < n - 1);
                }
                assert(self.wf());
                assert(self@ =~= Seq::new(
                    old(self).order@.len(),
                    |i: int| old(self).nodes@[old(self).order@[i] as int].data,
                ));
            }
        }
        node
    }

    /// Unchain the node at arena slot `slot`, standing at chain position
    /// `pos`, release its arena slot, and hand back its payload.
    fn detach(&mut self, slot: usize, Ghost(pos): Ghost<int>) -> (r: T)
        requires
            old(self).wf(),
            0 <= pos < old(self).order@.len(),
            old(self).order@[pos] == slot,
        ensures
            final(self).wf(),
            final(self)@ == old(self)@.remove(pos),
            r == old(self)@[pos],
    {
        proof {
            old(self).order@.remove_ensures(pos);
        }
        self.unchain(slot, Ghost(pos));
        let node = self.compact(slot);
        proof {
            assert(final(self)@ =~= old(self)@.remove(pos));
        }
        node.data
    }



    /// Traversal-based read access at a chain position. Callers must stay
    /// strictly below the length; at runtime any other position is a fatal
    /// fault, never a recoverable error. On admitted positions — the last
    /// valid one included — the access is proved never to fault.
    pub fn index(&self, index: usize) -> (r: &T)
        requires
            self.wf(),
            index < self@.len(),
        ensures
            *r == self@[index as int],
        no_unwind
    {
        let c = match self.slot_at(index) {
            Some(c) => c,
            None => {
                // unreachable: an admitted position always has a slot
                proof {
                    assert(false);
                }
                0
            },
        };
        proof {
            assert(self@[index as int] == self.nodes@[c as int].data);
        }
        &self.nodes[c].data
    }

    /// Traversal-based write access at a chain position, under the same
    /// fatal bound as `index` and, on admitted positions, the same proof
    /// that no fault occurs.
    pub fn index_mut(&mut self, index: usize, value: T)
        requires
            old(self).wf(),
            index < old(self)@.len(),
        ensures
            final(self).wf(),
            final(self)@ == old(self)@.update(index as int, value),
        no_unwind
    {
        let ghost ord0 = self.order@;
        let c = match self.slot_at(index) {
            Some(c) => c,
            None => {
                // unreachable: an admitted position always has a slot
                proof {
                    assert(false);
                }
                0
            },
        };
        let ghost before = self.nodes@;
        self.nodes[c].data = value;
        proof {
            assert forall|i: int|
                0 <= i < self.order@.len() && i != index implies self.nodes@[(
            #[trigger] self.order@[i]) as int] == before[self.order@[i] as int] by {
                assert(self.order@[i] != self.order@[index as int]);
            }
            assert(self@[index as int] == value);
            assert(self@ =~= old(self)@.update(index as int, value));
        }
    }

    /// Start a fresh forward traversal, standing at the first node.
    pub fn iter(&self) -> (it: DoublyLinkedListIterator)
        requires
            self.wf(),
        ensures
            self.cursor_valid(it),
            it.pos() == 0,
    {
        DoublyLinkedListIterator { current: self.head, pos: Ghost(0) }
    }

    /// Whether the cursor stands at its recorded position of this list's
    /// chain, or just past its end.
    pub closed spec fn cursor_valid(&self, it: DoublyLinkedListIterator) -> bool {
        &&& self.wf()
        &&& 0 <= it.pos@ <= self@.len()
        &&& it.current == (if it.pos@ < self@.len() {
            Some(self.order@[it.pos@])
        } else {
            None::<usize>
        })
    }

}

impl DoublyLinkedList<u64> {
    /// Render the elements as bracketed, comma-separated text, `[]` when
    /// the list is empty.
    pub fn to_text(&self) -> (s: String)
        requires
            self.wf(),
        ensures
            s@ == crate::text::rendered(self@),
    {
        let mut values: Vec<u64> = Vec::new();
        let mut k: usize = 0;
        let mut node = self.head;
        while node.is_some()
            invariant
                self.wf(),
                k <= self@.len(),
                values@ == self@.take(k as int),
                node == (if k < self@.len() {
                    Some(self.order@[k as int])
                } else {
                    None::<usize>
                }),
            decreases self@.len() - k,
        {
            let c = node.unwrap();
            proof {
                assert(self@[k as int] == self.nodes@[c as int].data);
                assert(vstd::std_specs::vec::spec_vec_len(&self.nodes) == self.nodes@.len());
                assert(self@.take(k + 1 as int) =~= self@.take(k as int).push(self@[k as int]));
            }
            values.push(self.nodes[c].data);
            k = k + 1;
            node = self.nodes[c].next;
        }
        proof {
            assert(self@.take(self@.len() as int) =~= self@);
        }
        crate::text::render_values(&values)
    }
}

impl<T: PartialEq + Clone> LinkedList<T> for DoublyLinkedList<T> {
    open spec fn inv(&self) -> bool {
        self.wf()
    }

    /// Make an empty list: no nodes, no head, no tail.
    fn new() -> (r: Self)
        ensures
            r.wf(),
            r@ == Seq::<T>::empty(),
    {
        let r = DoublyLinkedList {
            nodes: Vec::new(),
            head: None,
            tail: None,
            order: Ghost(Seq::empty()),
        };
        proof {
            assert(r@ =~= Seq::<T>::empty());
        }
        r
    }

    /// Count every item one by one until the current item has no successor.
    fn len(&self) -> (r: usize)
        ensures
            r == self@.len(),
    {
        broadcast use vstd::std_specs::vec::axiom_spec_len;

        let mut count: usize = 0;
        let mut node = self.head;
        while node.is_some()
            invariant
                self.wf(),
                count <= self@.len(),
                node == (if count < self@.len() {
                    Some(self.order@[count as int])
                } else {
                    None::<usize>
                }),
            decreases self@.len() - count,
        {
            let c = node.unwrap();
            proof {
                assert(count < self@.len());
                assert(vstd::std_specs::vec::spec_vec_len(&self.nodes) == self.nodes@.len());
            }
            count = count + 1;
            node = self.nodes[c].next;
        }
        count
    }

    /// Whether the list has no first node, hence no node at all.
    fn is_empty(&self) -> (r: bool)
        ensures
            r <==> self@.len() == 0,
    {
        self.head.is_none()
    }

    /// Per-node storage footprint summed by traversal: links plus payload
    /// for every node. Intended for introspection only. O(n)
    fn size_of_value(&self) -> (r: usize)
        ensures
            r == self@.len() * node_footprint::<T>(),
    {
        let mut size: usize = 0;
        let mut k: usize = 0;
        let mut node = self.head;
        while node.is_some()
            invariant
                self.wf(),
                k <= self@.len(),
                self@.len() * node_footprint::<T>() <= usize::MAX,
                size == k * node_footprint::<T>(),
                node == (if k < self@.len() {
                    Some(self.order@[k as int])
                } else {
                    None::<usize>
                }),
            decreases self@.len() - k,
        {
            let c = node.unwrap();
            proof {
                assert(k < self@.len());
                assert((k + 1) * node_footprint::<T>() <= self@.len() * node_footprint::<T>())
                    by (nonlinear_arith)
                    requires
                        0 <= k + 1 <= self@.len(),
                        node_footprint::<T>() >= 0,
                ;
                assert((k + 1) * node_footprint::<T>() == k * node_footprint::<T>()
                    + node_footprint::<T>()) by (nonlinear_arith);
                assert(vstd::std_specs::vec::spec_vec_len(&self.nodes) == self.nodes@.len());
            }
            // Count links and node data
            size = size + core::mem::size_of::<Option<usize>>();
            size = size + core::mem::size_of::<T>();
            size = size + core::mem::size_of::<Option<usize>>();
            k = k + 1;
            node = self.nodes[c].next;
        }
        size
    }

    /// Add a node holding `data` behind the current tail. O(1)
    fn append(&mut self, data: T) -> (r: Result<(), String>)
        ensures
            final(self).wf(),
            r is Ok,
            final(self)@ == old(self)@.push(data),
    {
        let ghost ord0 = self.order@;
        let ghost n = ord0.len() as int;
        let idx = self.nodes.len();
        let node = DoublyLinkedListNode { previous: self.tail, data, next: None };
        match self.tail {
            Some(t) => {
                self.nodes[t].next = Some(idx);
            },
            None => {
                self.head = Some(idx);
            },
        }
        self.nodes.push(node);
        self.tail = Some(idx);
        self.order = Ghost(ord0.push(idx));
        proof {
            let ord1 = self.order@;
            assert forall|s: usize| (s as int) < n + 1 implies ord1.contains(s) by {
                if (s as int) < n {
                    assert(ord0.contains(s));
                    let i = choose|i: int| 0 <= i < ord0.len() && ord0[i] == s;
                    assert(ord1[i] == s);
                    assert(ord1.contains(s));
                } else {
                    assert(ord1[n] == s);
                    assert(ord1.contains(s));
                }
            }
            assert(final(self).wf());
            assert(final(self)@ =~= old(self)@.push(data));
        }
        Ok(())
    }

    /// Splice a new node holding `data` in before the node at position
    /// `index`, so that the new node takes that position. Reports an error
    /// if and only if the position is past the last node (so this cannot
    /// place a node at the end; `append` does that).
    #[verifier::rlimit(100)]
    fn insert_at(&mut self, data: T, index: usize) -> (r: Result<(), String>)
        ensures
            final(self).wf(),
            r is Ok <==> index < old(self)@.len(),
            r is Ok ==> final(self)@ == old(self)@.insert(index as int, data),
            r is Err ==> *final(self) == *old(self),
    {
        let ghost m0 = self.nodes@;
        let ghost ord0 = self.order@;
        let ghost n = ord0.len() as int;
        let c_opt = self.slot_at(index);
        match c_opt {
            None => Err("Index is out of bounds".to_owned()),
            Some(c) => {
                let idx = self.nodes.len();
                let ghost ord1 = ord0.insert(index as int, idx);
                proof {
                    ord0.insert_ensures(index as int, idx);
                    assert(m0[ord0[index as int] as int].previous == (if index == 0 {
                        None::<usize>
                    } else {
                        Some(ord0[index - 1])
                    }));
                    if index > 0 {
                        assert(ord0[index - 1] != ord0[index as int]);
                    }
                }
                let prv = self.nodes[c].previous;
                let node = DoublyLinkedListNode { previous: prv, data, next: Some(c) };
                self.nodes.push(node);
                match prv {
                    Some(p) => {
                        self.nodes[p].next = Some(idx);
                    },
                    None => {
                        self.head = Some(idx);
                    },
                }
                self.nodes[c].previous = Some(idx);
                self.order = Ghost(ord1);
                proof {
                    let fin = self.nodes@;
                    assert(fin.len() == n + 1);
                    assert forall|i: int| 0 <= i < n + 1 implies (#[trigger] ord1[i]) < n + 1 by {
                        if i < index {
                            assert(ord1[i] == ord0[i]);
                        } else if i == index {
                            assert(ord1[i] == idx);
                        } else {
                            assert(ord1[i] == ord0[i - 1]);
                        }
                    }
                    assert forall|i: int, j: int| 0 <= i < j < n + 1 implies ord1[i] != ord1[j] by {
                        if i != index && j != index {
                            let i0 = if i < index { i } else { i - 1 };
                            let j0 = if j < index { j } else { j - 1 };
                            assert(ord1[i] == ord0[i0]);
                            assert(ord1[j] == ord0[j0]);
                            assert(ord0[i0] != ord0[j0]);
                        } else if i == index {
                            assert(ord1[j] == ord0[j - 1]);
                        } else {
                            assert(ord1[i] == ord0[i]);
                        }
                    }
                    assert forall|s: usize| (s as int) < n + 1 implies ord1.contains(s) by {
                        if (s as int) < n {
                            assert(ord0.contains(s));
                            let i0 = choose|i0: int| 0 <= i0 < ord0.len() && ord0[i0] == s;
                            let i = if i0 < index { i0 } else { i0 + 1 };
                            assert(ord1[i] == s);
                        } else {
                            assert(ord1[index as int] == s);
                        }
                    }
                    assert forall|i: int| 0 <= i < n + 1 implies (#[trigger] fin[ord1[i] as int]).previous
                        == (if i == 0 {
                        None::<usize>
                    } else {
                        Some(ord1[i - 1])
                    }) by {
                        if i < index {
                            assert(ord1[i] == ord0[i]);
                            assert(m0[ord0[i] as int].previous == (if i == 0 {
                                None::<usize>
                            } else {
                                Some(ord0[i - 1])
                            }));
                        } else if i == index {
                            assert(ord1[i] == idx);
                        } else if i == index + 1 {
                            assert(ord1[i] == ord0[index as int]);
                        } else {
                            assert(ord1[i] == ord0[i - 1]);
                            assert(m0[ord0[i - 1] as int].previous == (if i - 1 == 0 {
                                None::<usize>
                            } else {
                                Some(ord0[i - 2])
                            }));
                        }
                    }
                    assert forall|i: int| 0 <= i < n + 1 implies (#[trigger] fin[ord1[i] as int]).next
                        == (if i == n {
                        None::<usize>
                    } else {
                        Some(ord1[i + 1])
                    }) by {
                        if i < index - 1 {
                            assert(ord1[i] == ord0[i]);
                            assert(m0[ord0[i] as int].next == (if i == n - 1 {
                                None::<usize>
                            } else {
                                Some(ord0[i + 1])
                            }));
                        } else if i == index - 1 {
                            assert(ord1[i] == ord0[i]);
                        } else if i == index {
                            assert(ord1[i] == idx);
                            assert(ord1[i + 1] == ord0[index as int]);
                        } else {
                            assert(ord1[i] == ord0[i - 1]);
                            assert(m0[ord0[i - 1] as int].next == (if i - 1 == n - 1 {
                                None::<usize>
                            } else {
                                Some(ord0[i])
                            }));
                        }
                    }
                    assert(self.head == (if n + 1 == 0 {
                        None::<usize>
                    } else {
                        Some(ord1[0])
                    }));
                    assert(self.tail == (if n + 1 == 0 {
                        None::<usize>
                    } else {
                        Some(ord1[n])
                    }));
                    assert(self.wf());
                    assert(self@ =~= old(self)@.insert(index as int, data));
                }
                Ok(())
            },
        }
    }

    /// Remove the tail node; the links of the node before it (or `head` and
    /// `tail` when it was alone) are cleared accordingly. Reports an error
    /// if and only if the list is already empty. O(1)
    fn pop(&mut self) -> (r: Result<(), String>)
        ensures
            final(self).wf(),
            r is Ok <==> old(self)@.len() > 0,
            r is Ok ==> final(self)@ == old(self)@.drop_last(),
            r is Err ==> *final(self) == *old(self),
    {
        match self.tail {
            None => Err("List is already empty".to_owned()),
            Some(t) => {
                proof {
                    assert(old(self)@.remove(old(self)@.len() - 1) =~= old(self)@.drop_last());
                }
                let _popped = self.detach(t, Ghost(self.order@.len() - 1));
                Ok(())
            },
        }
    }

    /// Remove the node at a chain position and hand back its payload; only
    /// the neighbors are relinked, no other element moves. Reports an error
    /// if and only if the position is past the last node.
    fn remove_at(&mut self, index: usize) -> (r: Result<T, String>)
        ensures
            final(self).wf(),
            r is Ok <==> index < old(self)@.len(),
            r matches Ok(v) ==> v == old(self)@[index as int] && final(self)@ == old(
                self,
            )@.remove(index as int),
            r is Err ==> *final(self) == *old(self),
    {
        match self.slot_at(index) {
            None => Err("Index is out of bounds".to_owned()),
            Some(c) => Ok(self.detach(c, Ghost(index as int))),
        }
    }

    /// Overwrite every element equal to `old_item` with a clone of
    /// `new_item`, leaving all other elements and the chain itself alone.
    fn replace_all(&mut self, old_item: T, new_item: T)
        ensures
            final(self).wf(),
            final(self)@.len() == old(self)@.len(),
            T::obeys_eq_spec() ==> forall|i: int|
                0 <= i < old(self)@.len() ==> if old(self)@[i].eq_spec(&old_item) {
                    cloned::<T>(new_item, #[trigger] final(self)@[i])
                } else {
                    final(self)@[i] == old(self)@[i]
                },
    {
        let ghost ord0 = self.order@;
        let mut k: usize = 0;
        let mut node = self.head;
        while node.is_some()
            invariant
                self.wf(),
                self.order@ == ord0,
                self@.len() == old(self)@.len(),
                k <= self@.len(),
                node == (if k < self@.len() {
                    Some(self.order@[k as int])
                } else {
                    None::<usize>
                }),
                forall|i: int| k <= i < self@.len() ==> #[trigger] self@[i] == old(self)@[i],
                T::obeys_eq_spec() ==> forall|i: int|
                    0 <= i < k ==> if old(self)@[i].eq_spec(&old_item) {
                        cloned::<T>(new_item, #[trigger] self@[i])
                    } else {
                        self@[i] == old(self)@[i]
                    },
            decreases self@.len() - k,
        {
            let c = node.unwrap();
            proof {
                assert(self@[k as int] == self.nodes@[c as int].data);
                assert(vstd::std_specs::vec::spec_vec_len(&self.nodes) == self.nodes@.len());
            }
            let ghost before = self.nodes@;
            if &self.nodes[c].data == &old_item {
                self.nodes[c].data = new_item.clone();
                proof {
                    assert forall|i: int| 0 <= i < self.order@.len() && i != k implies
                        self.nodes@[(#[trigger] self.order@[i]) as int]
                        == before[self.order@[i] as int] by {
                        assert(self.order@[i] != self.order@[k as int]);
                    }
                    assert forall|i: int| 0 <= i < self@.len() && i != k implies #[trigger] self@[i]
                        == Seq::new(ord0.len(), |j: int| before[ord0[j] as int].data)[i] by {
                        assert(self.order@[i] != self.order@[k as int]);
                    }
                }
            }
            node = self.nodes[c].next;
            k = k + 1;
        }
    }

    /// Exchange the elements at two chain positions by taking each node out
    /// and re-splicing it at the other's position.
    fn swap(&mut self, index_a: usize, index_b: usize)
        ensures
            final(self).wf(),
            final(self)@ == old(self)@.update(index_a as int, old(self)@[index_b as int]).update(
                index_b as int,
                old(self)@[index_a as int],
            ),
    {
        let ghost v0 = self@;
        if index_a == index_b {
            proof {
                assert(v0.update(index_a as int, v0[index_b as int]).update(
                    index_b as int,
                    v0[index_a as int],
                ) =~= v0);
            }
            return ;
        }
        let lo = if index_a < index_b {
            index_a
        } else {
            index_b
        };
        let hi = if index_a < index_b {
            index_b
        } else {
            index_a
        };
        let s_hi = self.slot_at(hi).unwrap();
        let v_hi = self.detach(s_hi, Ghost(hi as int));
        let s_lo = self.slot_at(lo).unwrap();
        let v_lo = self.detach(s_lo, Ghost(lo as int));
        let ghost t2 = v0.remove(hi as int).remove(lo as int);
        let len2 = self.nodes.len();
        if lo < len2 {
            let r1 = self.insert_at(v_hi, lo);
            proof {
                assert(r1 is Ok);
            }
        } else {
            let r1 = self.append(v_hi);
            proof {
                assert(t2.push(v_hi) =~= t2.insert(lo as int, v_hi));
            }
        }
        let ghost u1 = t2.insert(lo as int, v_hi);
        let len3 = self.nodes.len();
        if hi < len3 {
            let r2 = self.insert_at(v_lo, hi);
            proof {
                assert(r2 is Ok);
            }
        } else {
            let r2 = self.append(v_lo);
            proof {
                assert(u1.push(v_lo) =~= u1.insert(hi as int, v_lo));
            }
        }
        proof {
            lemma_swap_reinsert(v0, lo as int, hi as int);
            assert(v0.update(lo as int, v0[hi as int]).update(hi as int, v0[lo as int]) =~= v0.update(
                index_a as int,
                v0[index_b as int],
            ).update(index_b as int, v0[index_a as int]));
        }
    }

    /// The chain position of the first element equal to `needle`, or nothing
    /// when no element matches. O(1)..O(n)
    fn find_one(&self, needle: T) -> (r: Option<usize>)
        ensures
            T::obeys_eq_spec() ==> match r {
                Some(i) => 0 <= i < self@.len() && self@[i as int].eq_spec(&needle)
                    && !found_before(self@, needle, i as int),
                None => !found_before(self@, needle, self@.len() as int),
            },
    {
        let mut k: usize = 0;
        let mut node = self.head;
        while node.is_some()
            invariant
                self.wf(),
                k <= self@.len(),
                node == (if k < self@.len() {
                    Some(self.order@[k as int])
                } else {
                    None::<usize>
                }),
                T::obeys_eq_spec() ==> !found_before(self@, needle, k as int),
            decreases self@.len() - k,
        {
            let c = node.unwrap();
            proof {
                assert(self@[k as int] == self.nodes@[c as int].data);
                assert(vstd::std_specs::vec::spec_vec_len(&self.nodes) == self.nodes@.len());
            }
            if &self.nodes[c].data == &needle {
                return Some(k);
            }
            k = k + 1;
            node = self.nodes[c].next;
        }
        None
    }

    /// The chain positions of every element equal to `needle`, in increasing
    /// order, or nothing when no element matches. O(n)
    fn find_all(&self, needle: T) -> (r: Option<Vec<usize>>)
        ensures
            T::obeys_eq_spec() ==> match r {
                Some(m) => m@ == match_indices(self@, needle) && m@.len() > 0,
                None => match_indices(self@, needle).len() == 0,
            },
    {
        let mut found: Vec<usize> = Vec::new();
        let mut k: usize = 0;
        let mut node = self.head;
        while node.is_some()
            invariant
                self.wf(),
                k <= self@.len(),
                node == (if k < self@.len() {
                    Some(self.order@[k as int])
                } else {
                    None::<usize>
                }),
                T::obeys_eq_spec() ==> found@ == match_indices(self@.take(k as int), needle),
            decreases self@.len() - k,
        {
            let c = node.unwrap();
            proof {
                assert(self@[k as int] == self.nodes@[c as int].data);
                assert(vstd::std_specs::vec::spec_vec_len(&self.nodes) == self.nodes@.len());
            }
            if &self.nodes[c].data == &needle {
                found.push(k);
            }
            proof {
                assert(self@.take(k + 1 as int).drop_last() =~= self@.take(k as int));
                assert(self@.take(k + 1 as int).last() == self@[k as int]);
            }
            k = k + 1;
            node = self.nodes[c].next;
        }
        proof {
            assert(self@.take(self@.len() as int) =~= self@);
        }
        if found.len() == 0 {
            None
        } else {
            Some(found)
        }
    }
}

/// Taking out the elements at two positions and re-inserting each at the
/// other's position exchanges exactly those two elements.
proof fn lemma_swap_reinsert<T>(s: Seq<T>, lo: int, hi: int)
    requires
        0 <= lo < hi < s.len(),
    ensures
        s.remove(hi).remove(lo).insert(lo, s[hi]).insert(hi, s[lo]) == s.update(
            lo,
            s[hi],
        ).update(hi, s[lo]),
{
    let t1 = s.remove(hi);
    let t2 = t1.remove(lo);
    let u1 = t2.insert(lo, s[hi]);
    let u2 = u1.insert(hi, s[lo]);
    s.remove_ensures(hi);
    t1.remove_ensures(lo);
    t2.insert_ensures(lo, s[hi]);
    u1.insert_ensures(hi, s[lo]);
    assert forall|j: int| 0 <= j < s.len() implies u2[j] == s.update(lo, s[hi]).update(
        hi,
        s[lo],
    )[j] by {
        if j < lo {
            assert(u2[j] == u1[j]);
            assert(u1[j] == t2[j]);
            assert(t2[j] == t1[j]);
            assert(t1[j] == s[j]);
        } else if j == lo {
            assert(u2[j] == u1[j]);
            assert(u1[lo] == s[hi]);
        } else if j < hi {
            assert(u2[j] == u1[j]);
            assert(u1[(j - 1) + 1] == t2[j - 1]);
            assert(t2[j - 1] == t1[(j - 1) + 1]);
            assert(t1[j] == s[j]);
        } else if j == hi {
            assert(u2[hi] == s[lo]);
        } else {
            assert(u2[(j - 1) + 1] == u1[j - 1]);
            assert(u1[((j - 2) - 1) + 2] == t2[j - 2]);
            assert(t2[(j - 2)] == t1[(j - 2) + 1]);
            assert(t1[(j - 1)] == s[(j - 1) + 1]);
        }
    }
    assert(u2 =~= s.update(lo, s[hi]).update(hi, s[lo]));
}

impl<T> Default for DoublyLinkedList<T> {
    /// The default list is the empty one.
    fn default() -> (r: Self)
        ensures
            r.wf(),
            r@ == Seq::<T>::empty(),
    {
        DoublyLinkedList {
            nodes: Vec::new(),
            head: None,
            tail: None,
            order: Ghost(Seq::empty()),
        }
    }
}

} // verus!
