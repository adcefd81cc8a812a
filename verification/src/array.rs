use vstd::prelude::*;

verus! {

use vstd::std_specs::cmp::PartialEqSpec;
use vstd::pervasive::cloned;

/// A growable contiguous array with an explicit split between `size` (live
/// elements, the length of the view) and `capacity` (allocated slots).
///
/// The buffer is a `Vec` holding exactly the live elements, reserved up to
/// `capacity` slots, and `capacity` carries the allocation accounting: it
/// only changes through `with_capacity` and `grow`, the single
/// reallocate-copy-release transaction of the doubling policy.
pub struct Array<T> {
    buf: Vec<T>,
    capacity: usize,
}

impl<T> View for Array<T> {
    type V = Seq<T>;

    closed spec fn view(&self) -> Seq<T> {
        self.buf@
    }
}

/// The capacity an array has after one growth: doubling, except that an
/// empty allocation grows to a single slot.
pub open spec fn grown_capacity(c: nat) -> nat {
    if c == 0 {
        1
    } else {
        2 * c
    }
}

/// A buffer of `n` slots of `T` can be laid out in memory: its byte size
/// stays within the address-space bound placed on allocations.
pub open spec fn valid_buffer_layout<T>(n: nat) -> bool {
    n * vstd::layout::size_of::<T>() <= isize::MAX as nat
}

/// Runtime check for `valid_buffer_layout`, performed before allocating.
fn layout_fits<T>(n: usize) -> (r: bool)
    ensures
        r == valid_buffer_layout::<T>(n as nat),
{
    let elem_size = core::mem::size_of::<T>();
    proof {
        assert((n as int) * (elem_size as int) < u128::MAX as int) by (nonlinear_arith)
            requires
                0 <= n <= u64::MAX,
                0 <= elem_size <= u64::MAX,
        ;
    }
    (n as u128) * (elem_size as u128) <= (isize::MAX as u128)
}

/// Whether one growth step from capacity `c` can be satisfied for element
/// type `T`: the doubled capacity is representable and its buffer fits.
pub open spec fn growable<T>(c: nat) -> bool {
    grown_capacity(c) <= usize::MAX && valid_buffer_layout::<T>(grown_capacity(c))
}

/// Whether there is a needle among the first `k` elements of `s`.
pub open spec fn found_before<T: PartialEq>(s: Seq<T>, needle: T, k: int) -> bool {
    exists|j: int| 0 <= j < k && s[j].eq_spec(&needle)
}

/// The indices of all elements of `s` equal to `needle`, in increasing order.
pub open spec fn match_indices<T: PartialEq>(s: Seq<T>, needle: T) -> Seq<usize>
    decreases s.len(),
{
    if s.len() == 0 {
        Seq::empty()
    } else if s.last().eq_spec(&needle) {
        match_indices(s.drop_last(), needle).push((s.len() - 1) as usize)
    } else {
        match_indices(s.drop_last(), needle)
    }
}

/// Memory management of Array
pub trait MemArray<T> {
    fn new() -> Self where Self: Sized;

    fn with_capacity(initial_capacity: usize) -> Result<Self, String> where Self: Sized;

    fn grow(&mut self) -> Result<(), String>;

    fn len(&self) -> usize;

    fn memory_used(&self) -> usize;
}

/// Adding items to an array
pub trait InsertArray<T> {
    fn insert(&mut self, item: T) -> Result<(), String>;
}

/// Removing items from an Array
pub trait RemoveArray<T> {
    fn pop(&mut self) -> Option<T>;

    fn remove(&mut self, index: usize) -> Result<T, String>;
}

/// Replacing instances of an item in an Array with a new item
pub trait ReplaceArray<T> {
    fn replace(&mut self, old_item: T, new_item: T);
}

/// Finding items or indices in the array
pub trait SearchArray<T> {
    fn find(&self, needle: T) -> Option<usize>;

    fn find_all(&self, needle: T) -> Option<Array<usize>>;
}

/// Ways to sort the array. A sorting policy concerns element ordering, not
/// memory management, and is left as an extension point: no implementation
/// is provided here.
pub trait SortArray<T> {
    fn quick_sort(&mut self);

    fn bubble_sort(&mut self);

    fn merge_sort(&mut self);

    fn selection_sort(&mut self);

    fn insertion_sort(&mut self);
}

impl<T> Array<T> {
    /// Allocated slots, live or not.
    pub closed spec fn cap(&self) -> nat {
        self.capacity as nat
    }

    /// Overwrite the element at `index`, rejecting any index at or past the
    /// live count with a recoverable error.
    pub fn change(&mut self, index: usize, value: T) -> (r: Result<(), String>)
        ensures
            r is Ok <==> index < old(self)@.len(),
            r is Ok ==> final(self)@ == old(self)@.update(index as int, value),
            r is Err ==> *final(self) == *old(self),
            final(self).cap() == old(self).cap(),
    {
        if index < self.buf.len() {
            self.buf[index] = value;
            Ok(())
        } else {
            Err("Index out of bounds".to_owned())
        }
    }

    /// Read access at a position. Callers must stay strictly below the live
    /// count; at runtime any other position is a fatal fault, never a
    /// recoverable error. On admitted positions — the last valid index
    /// included — the access is proved never to fault.
    pub fn index(&self, index: usize) -> (r: &T)
        requires
            index < self@.len(),
        ensures
            *r == self@[index as int],
        no_unwind
    {
        &self.buf[index]
    }

    /// Write access at a position, under the same fatal bound as `index`
    /// and, on admitted positions, the same proof that no fault occurs.
    pub fn index_mut(&mut self, index: usize) -> (r: &mut T)
        requires
            index < old(self)@.len(),
        ensures
            *r == old(self)@[index as int],
            final(self)@ == old(self)@.update(index as int, *final(r)),
            final(self).cap() == old(self).cap(),
        no_unwind
    {
        &mut self.buf[index]
    }
}

impl<T> MemArray<T> for Array<T> {
    /// Initialize an empty array: no live elements, no allocated slots.
    fn new() -> (r: Self)
        ensures
            r@ == Seq::<T>::empty(),
            r.cap() == 0,
    {
        Array { buf: Vec::new(), capacity: 0 }
    }

    /// Initialize an empty array with the given capacity, rejecting a
    /// zero-sized or pathological layout before allocating.
    fn with_capacity(initial_capacity: usize) -> (r: Result<Self, String>)
        ensures
            r is Ok <==> 0 < initial_capacity as nat * vstd::layout::size_of::<T>()
                && valid_buffer_layout::<T>(initial_capacity as nat),
            r matches Ok(a) ==> a@ == Seq::<T>::empty() && a.cap() == initial_capacity,
    {
        let elem_size = core::mem::size_of::<T>();
        if initial_capacity == 0 || elem_size == 0 {
            proof {
                assert(initial_capacity as nat * vstd::layout::size_of::<T>() == 0)
                    by (nonlinear_arith)
                    requires
                        initial_capacity == 0 || vstd::layout::size_of::<T>() == 0,
                ;
            }
            return Err("Invalid memory layout".to_owned());
        }
        if !layout_fits::<T>(initial_capacity) {
            return Err("Invalid memory layout".to_owned());
        }
        proof {
            assert(initial_capacity as nat * vstd::layout::size_of::<T>() > 0)
                by (nonlinear_arith)
                requires
                    initial_capacity >= 1,
                    vstd::layout::size_of::<T>() >= 1,
            ;
        }
        let buf = Vec::with_capacity(initial_capacity);
        Ok(Array { buf, capacity: initial_capacity })
    }

    /// Grow the array to double its capacity (one slot from zero), keeping
    /// every live element at its position: one transaction that obtains the
    /// larger buffer, carries the elements over and releases the old one.
    /// On failure the array is left unmodified.
    fn grow(&mut self) -> (r: Result<(), String>)
        ensures
            r is Ok <==> growable::<T>(old(self).cap()),
            r is Ok ==> final(self)@ == old(self)@
                && final(self).cap() == grown_capacity(old(self).cap()),
            r is Err ==> *final(self) == *old(self),
    {
        let new_capacity: usize = if self.capacity == 0 {
            1
        } else {
            match self.capacity.checked_mul(2) {
                Some(c) => c,
                None => {
                    return Err("Invalid memory layout".to_owned());
                },
            }
        };
        if !layout_fits::<T>(new_capacity) {
            return Err("Invalid memory layout".to_owned());
        }
        self.buf.reserve(new_capacity.saturating_sub(self.buf.len()));
        self.capacity = new_capacity;
        Ok(())
    }

    /// Return pre-counted length of array. Normally O(n), but here O(1)
    fn len(&self) -> (r: usize)
        ensures
            r == self@.len(),
    {
        self.buf.len()
    }

    /// Number of slots held in memory
    fn memory_used(&self) -> (r: usize)
        ensures
            r == self.cap(),
    {
        self.capacity
    }
}

impl<T> InsertArray<T> for Array<T> {
    /// Insert a value at the end. Double the allocated memory if there is no
    /// more space; when that growth is impossible, report the allocation
    /// error and leave the array unmodified.
    fn insert(&mut self, item: T) -> (r: Result<(), String>)
        ensures
            r is Ok <==> (old(self)@.len() == old(self).cap() ==> growable::<T>(old(self).cap())),
            r is Ok ==> final(self)@ == old(self)@.push(item) && final(self).cap() == (
            if old(self)@.len() == old(self).cap() {
                grown_capacity(old(self).cap())
            } else {
                old(self).cap()
            }),
            r is Err ==> *final(self) == *old(self),
    {
        if self.buf.len() == self.capacity {
            match self.grow() {
                Ok(()) => (),
                Err(e) => {
                    return Err(e);
                },
            }
        }
        self.buf.push(item);
        Ok(())
    }
}

impl<T: PartialEq + Clone> ReplaceArray<T> for Array<T> {
    /// Replace all instances of a value in the array with clones of the new
    /// value, leaving every other element untouched.
    fn replace(&mut self, old_item: T, new_item: T)
        ensures
            final(self)@.len() == old(self)@.len(),
            final(self).cap() == old(self).cap(),
            T::obeys_eq_spec() ==> forall|i: int|
                0 <= i < old(self)@.len() ==> if old(self)@[i].eq_spec(&old_item) {
                    cloned::<T>(new_item, #[trigger] final(self)@[i])
                } else {
                    final(self)@[i] == old(self)@[i]
                },
    {
        let mut i: usize = 0;
        while i < self.buf.len()
            invariant
                i <= self@.len(),
                self@.len() == old(self)@.len(),
                self.cap() == old(self).cap(),
                forall|j: int| i <= j < self@.len() ==> self@[j] == old(self)@[j],
                T::obeys_eq_spec() ==> forall|j: int|
                    0 <= j < i ==> if old(self)@[j].eq_spec(&old_item) {
                        cloned::<T>(new_item, #[trigger] self@[j])
                    } else {
                        self@[j] == old(self)@[j]
                    },
            decreases self@.len() - i,
        {
            if &self.buf[i] == &old_item {
                self.buf[i] = new_item.clone();
            }
            i += 1;
        }
    }
}

impl<T> RemoveArray<T> for Array<T> {
    /// Remove last element and return it, or report that the array is
    /// empty. O(1); the allocation is kept.
    fn pop(&mut self) -> (r: Option<T>)
        ensures
            old(self)@.len() == 0 ==> r is None && *final(self) == *old(self),
            old(self)@.len() > 0 ==> r == Some(old(self)@.last()) && final(self)@ == old(
                self,
            )@.drop_last(),
            final(self).cap() == old(self).cap(),
    {
        if self.buf.len() == 0 {
            return None;
        }
        self.buf.pop()
    }

    /// Remove element at given index and return it, shifting the elements
    /// after it one position left. O(1)..O(n)
    fn remove(&mut self, index: usize) -> (r: Result<T, String>)
        ensures
            r is Ok <==> index < old(self)@.len(),
            r matches Ok(v) ==> v == old(self)@[index as int] && final(self)@ == old(self)@.remove(
                index as int,
            ),
            r is Err ==> *final(self) == *old(self),
            final(self).cap() == old(self).cap(),
    {
        if index >= self.buf.len() {
            return Err("Index out of bounds".to_owned());
        }
        if index == self.buf.len() - 1 {
            // Special case: If removing the last element, use pop() for O(1) complexity
            let popped = self.pop();
            proof {
                assert(old(self)@.remove(index as int) =~= old(self)@.drop_last());
            }
            return Ok(popped.unwrap());
        }
        Ok(self.buf.remove(index))
    }
}

/// A prefix of `s` holds at most as many matches as `s` itself.
proof fn lemma_match_count_prefix<T: PartialEq>(s: Seq<T>, needle: T, i: int)
    requires
        0 <= i <= s.len(),
    ensures
        match_indices(s.take(i), needle).len() <= match_indices(s, needle).len(),
    decreases s.len() - i,
{
    if i == s.len() {
        assert(s.take(i) =~= s);
    } else {
        lemma_match_count_prefix(s, needle, i + 1);
        assert(s.take(i + 1).drop_last() =~= s.take(i));
    }
}

/// Growth that cannot be satisfied from one capacity cannot be satisfied
/// from any larger one.
proof fn lemma_growable_antimonotone<T>(c: nat, d: nat)
    requires
        c <= d,
        !growable::<T>(c),
    ensures
        !growable::<T>(d),
{
    assert(grown_capacity(c) <= grown_capacity(d));
    if grown_capacity(d) <= usize::MAX && valid_buffer_layout::<T>(grown_capacity(d)) {
        assert(grown_capacity(c) * vstd::layout::size_of::<T>() <= grown_capacity(d)
            * vstd::layout::size_of::<T>()) by (nonlinear_arith)
            requires
                grown_capacity(c) <= grown_capacity(d),
        ;
        assert(false);
    }
}

impl<T: PartialEq> SearchArray<T> for Array<T> {
    /// Loop through array to find the first needle. O(1)..O(n)
    fn find(&self, needle: T) -> (r: Option<usize>)
        ensures
            r matches Some(i) ==> i < self@.len(),
            T::obeys_eq_spec() ==> match r {
                Some(i) => 0 <= i < self@.len() && self@[i as int].eq_spec(&needle)
                    && !found_before(self@, needle, i as int),
                None => !found_before(self@, needle, self@.len() as int),
            },
    {
        let mut i: usize = 0;
        while i < self.buf.len()
            invariant
                i <= self@.len(),
                T::obeys_eq_spec() ==> !found_before(self@, needle, i as int),
            decreases self@.len() - i,
        {
            if &self.buf[i] == &needle {
                return Some(i);
            }
            i += 1;
        }
        None
    }

    /// Loop through entire array to find all matching needles, collected
    /// into a new index array built by the same insert-and-grow path as any
    /// other array, or report absence when nothing matches (or when that
    /// index array itself cannot grow far enough to hold every match). O(n)
    fn find_all(&self, needle: T) -> (r: Option<Array<usize>>)
        ensures
            T::obeys_eq_spec() ==> match r {
                Some(m) => m@ == match_indices(self@, needle) && m@.len() > 0,
                None => match_indices(self@, needle).len() == 0 || !growable::<usize>(
                    match_indices(self@, needle).len(),
                ),
            },
    {
        let mut matches: Array<usize> = Array::new();
        let mut i: usize = 0;
        while i < self.buf.len()
            invariant
                i <= self@.len(),
                matches@.len() <= i,
                T::obeys_eq_spec() ==> matches@ == match_indices(self@.take(i as int), needle),
            decreases self@.len() - i,
        {
            if &self.buf[i] == &needle {
                let res = matches.insert(i);
                if res.is_err() {
                    proof {
                        if T::obeys_eq_spec() {
                            lemma_match_count_prefix(self@, needle, i as int);
                            lemma_growable_antimonotone::<usize>(
                                matches@.len() as nat,
                                match_indices(self@, needle).len() as nat,
                            );
                        }
                    }
                    return None;
                }
            }
            proof {
                assert(self@.take(i + 1 as int).drop_last() =~= self@.take(i as int));
                assert(self@.take(i + 1 as int).last() == self@[i as int]);
            }
            i += 1;
        }
        proof {
            assert(self@.take(self@.len() as int) =~= self@);
        }
        if matches.len() == 0 {
            None
        } else {
            Some(matches)
        }
    }
}

impl Array<u64> {
    /// Render the live elements as bracketed, comma-separated text, `[]`
    /// when the array is empty.
    pub fn to_text(&self) -> (s: String)
        ensures
            s@ == crate::text::rendered(self@),
    {
        crate::text::render_values(&self.buf)
    }
}

impl<T> Default for Array<T> {
    /// The default array is the empty, unallocated one.
    fn default() -> (r: Self)
        ensures
            r@ == Seq::<T>::empty(),
            r.cap() == 0,
    {
        Array::new()
    }
}

/// The capacity reached after `n` forced growths of an array built empty:
/// the start of the capacity sequence 0, 1, 2, 4, 8, ...
pub open spec fn capacity_after_growths(n: nat) -> nat
    decreases n,
{
    if n == 0 {
        0
    } else {
        grown_capacity(capacity_after_growths((n - 1) as nat))
    }
}

/// Growth doubling: starting from capacity 0, after `n` successive forced
/// growths the capacity equals 2^(n-1).
pub proof fn lemma_growth_doubling(n: nat)
    requires
        n >= 1,
    ensures
        capacity_after_growths(n) == vstd::arithmetic::power2::pow2((n - 1) as nat),
    decreases n,
{
    if n == 1 {
        vstd::arithmetic::power2::lemma2_to64();
        assert(capacity_after_growths(1) == 1) by {
            reveal_with_fuel(capacity_after_growths, 2);
        }
    } else {
        lemma_growth_doubling((n - 1) as nat);
        vstd::arithmetic::power2::lemma_pow2_pos((n - 2) as nat);
        vstd::arithmetic::power2::lemma_pow2_unfold((n - 1) as nat);
    }
}

/// Removing at the last valid index takes off the same element and leaves
/// the same remaining elements as popping.
pub proof fn lemma_remove_last_is_pop<T>(s: Seq<T>)
    requires
        s.len() > 0,
    ensures
        s.remove(s.len() - 1) == s.drop_last(),
        s[s.len() - 1] == s.last(),
{
    assert(s.remove(s.len() - 1) =~= s.drop_last());
}

/// The view of an array after a run of insertions: one `push` per `insert`,
/// as the contract of `insert` states.
pub open spec fn after_inserts<T>(base: Seq<T>, items: Seq<T>) -> Seq<T>
    decreases items.len(),
{
    if items.len() == 0 {
        base
    } else {
        after_inserts(base, items.drop_last()).push(items.last())
    }
}

/// Inserting a run of values into an empty array reproduces exactly those
/// values: the length equals the number of insertions, and each position
/// reads back the value inserted at it.
pub proof fn lemma_inserts_from_empty<T>(items: Seq<T>)
    ensures
        after_inserts(Seq::<T>::empty(), items) == items,
    decreases items.len(),
{
    if items.len() == 0 {
        assert(after_inserts(Seq::<T>::empty(), items) =~= items);
    } else {
        lemma_inserts_from_empty(items.drop_last());
        assert(after_inserts(Seq::<T>::empty(), items) =~= items);
    }
}

} // verus!
