//! The pool allocator: pages, slots, the free list, and the guard handle.
//!
//! A `Pool<T>` owns a chain of pages, each a block of up to `page_cap` slots.
//! A slot is handed out either by popping the free list (slots freed earlier,
//! reused newest-first) or by bump allocation from the newest page; a new
//! page is opened only when the newest page is full and no freed slot is
//! available. Freeing a slot drops its value in place and pushes its address
//! onto the free list. Dropping the whole pool drops every still-live value
//! exactly once and releases all page storage, because the pages own their
//! slots.

use vstd::prelude::*;
use vstd::pervasive::unreached;

verus! {

/// The default number of slots per page, used by `Pool::new`.
pub const DEFAULT_PAGE_LEN: usize = 64;

/// The address of one slot: which page it lies in, and at which offset
/// within that page. Addresses are stable for the pool's entire lifetime.
#[derive(Clone, Copy, PartialEq, Eq, Structural, Debug)]
pub struct Addr {
    /// Index of the page, oldest first.
    pub page: usize,
    /// Offset of the slot within its page.
    pub offset: usize,
}

/// One slot of a page. A slot that has been handed out at least once is
/// either live, holding a value, or free, holding the link to the next
/// slot of the free list. Liveness is explicit in the tag, so freeing and
/// reuse never reinterpret raw storage.
pub enum Slot<T> {
    /// The slot is on the free list; `next` is the address of the next
    /// free slot, or `None` at the end of the list.
    Free { next: Option<Addr> },
    /// The slot holds a live value.
    Occupied { value: T },
}

/// A fixed-slot pool of values of type `T`.
///
/// All slots ever handed out stay addressable at the same address until the
/// pool itself is dropped; pages are never shrunk or released early.
pub struct Pool<T> {
    /// The pages, oldest first. Every page but the newest is filled to
    /// `page_len`; the newest is filled up to its bump counter, its length.
    pages: Vec<Vec<Slot<T>>>,
    /// Head of the intrusive free list, or `None` when the list is empty.
    free_head: Option<Addr>,
    /// The free list as a sequence of addresses, head first. This is the
    /// ghost mirror of the links threaded through the `Slot::Free` slots.
    free_list: Ghost<Seq<Addr>>,
    /// Capacity of each page, in slots.
    page_len: usize,
}

impl<T> Pool<T> {
    /// Number of slots each page can hold.
    pub closed spec fn page_cap(self) -> nat {
        self.page_len as nat
    }

    /// Number of pages in the chain.
    pub closed spec fn n_pages(self) -> nat {
        self.pages@.len()
    }

    /// Bump counter of page `p`: how many of its slots have been handed
    /// out at least once.
    pub closed spec fn fill(self, p: int) -> nat {
        self.pages@[p]@.len()
    }

    /// `a` names a slot that has been handed out at least once.
    pub closed spec fn valid(self, a: Addr) -> bool {
        a.page < self.pages@.len() && a.offset < self.pages@[a.page as int]@.len()
    }

    /// The slot at address `a`.
    pub closed spec fn slot_at(self, a: Addr) -> Slot<T> {
        self.pages@[a.page as int]@[a.offset as int]
    }

    /// The slot at `a` holds a live value.
    pub open spec fn live(self, a: Addr) -> bool {
        self.valid(a) && self.slot_at(a) is Occupied
    }

    /// The slot at `a` is on the free list.
    pub open spec fn freed(self, a: Addr) -> bool {
        self.valid(a) && self.slot_at(a) is Free
    }

    /// The value held by the live slot at `a`.
    pub open spec fn value_at(self, a: Addr) -> T {
        self.slot_at(a)->value
    }

    /// The addresses on the free list, head (most recently freed) first.
    pub closed spec fn free_seq(self) -> Seq<Addr> {
        self.free_list@
    }

    /// The stored head link of the free list.
    pub closed spec fn head_link(self) -> Option<Addr> {
        self.free_head
    }

    /// Total number of slots handed out so far, over all pages.
    pub open spec fn n_slots(self) -> int {
        (self.n_pages() - 1) * self.page_cap() + self.fill(self.n_pages() as int - 1)
    }

    /// Well-formedness of the pool:
    /// - there is at least one page; every page but the newest is full, the
    ///   newest is filled up to its capacity and, once a second page exists,
    ///   holds at least one slot;
    /// - the ghost free list mirrors the links threaded through the free
    ///   slots, starting at `free_head`, visiting no address twice; and
    /// - a slot is free exactly when its address is on the free list.
    pub closed spec fn wf(self) -> bool {
        &&& self.page_len >= 1
        &&& self.pages@.len() >= 1
        &&& forall|p: int|
            0 <= p < self.pages@.len() - 1 ==> (#[trigger] self.pages@[p])@.len()
                == self.page_len
        &&& self.pages@[self.pages@.len() - 1]@.len() <= self.page_len
        &&& self.pages@.len() > 1 ==> self.pages@[self.pages@.len() - 1]@.len() >= 1
        &&& self.free_list@.no_duplicates()
        &&& self.free_head == (if self.free_list@.len() == 0 {
            Option::<Addr>::None
        } else {
            Some(self.free_list@[0])
        })
        &&& forall|k: int| 0 <= k < self.free_list@.len() ==> self.valid(#[trigger] self.free_list@[k])
        &&& forall|k: int|
            0 <= k < self.free_list@.len() ==> #[trigger] self.slot_at(self.free_list@[k])
                == (Slot::Free::<T> {
                next: if k + 1 < self.free_list@.len() {
                    Some(self.free_list@[k + 1])
                } else {
                    None
                },
            })
        &&& forall|a: Addr| self.valid(a) && #[trigger] self.slot_at(a) is Free
            ==> self.free_list@.contains(a)
    }

    /// How one free call changes the pool. The freed slot becomes the new
    /// head of the free list and stores the link to the old head; no other
    /// slot and no page changes.
    pub open spec fn free_step(pre: Self, post: Self, a: Addr) -> bool {
        &&& post.page_cap() == pre.page_cap()
        &&& post.n_pages() == pre.n_pages()
        &&& forall|p: int| 0 <= p < pre.n_pages() ==> post.fill(p) == pre.fill(p)
        &&& post.free_seq() == seq![a] + pre.free_seq()
        &&& post.slot_at(a) == (Slot::Free::<T> {
            next: if pre.free_seq().len() == 0 {
                None
            } else {
                Some(pre.free_seq()[0])
            },
        })
        &&& post.freed(a)
        &&& forall|b: Addr| #[trigger] post.valid(b) <==> pre.valid(b)
        &&& forall|b: Addr|
            pre.valid(b) && b != a ==> #[trigger] post.slot_at(b) == pre.slot_at(b)
    }

    /// How one allocation changes the pool. Either the head of the free
    /// list is popped and reused — so the most recently freed slot is handed
    /// out first — or, with the free list empty, a fresh slot is bump
    /// allocated from the newest page, opening a new page only when that
    /// page is full. The slot handed out holds `v`; no other slot changes.
    pub open spec fn alloc_step(pre: Self, post: Self, v: T, a: Addr) -> bool {
        &&& post.page_cap() == pre.page_cap()
        &&& post.live(a)
        &&& post.value_at(a) == v
        &&& forall|b: Addr| pre.valid(b) ==> #[trigger] post.valid(b)
        &&& forall|b: Addr|
            pre.valid(b) && b != a ==> #[trigger] post.slot_at(b) == pre.slot_at(b)
        &&& if pre.free_seq().len() > 0 {
            // Fast path: pop the head of the free list.
            &&& a == pre.free_seq()[0]
            &&& post.free_seq() == pre.free_seq().drop_first()
            &&& post.n_pages() == pre.n_pages()
            &&& forall|p: int| 0 <= p < pre.n_pages() ==> post.fill(p) == pre.fill(p)
        } else {
            &&& post.free_seq() == pre.free_seq()
            &&& if pre.fill(pre.n_pages() as int - 1) == pre.page_cap() {
                // The newest page is full: open a fresh page.
                &&& post.n_pages() == pre.n_pages() + 1
                &&& a.page as nat == pre.n_pages()
                &&& a.offset == 0
                &&& post.fill(post.n_pages() as int - 1) == 1
                &&& forall|p: int| 0 <= p < pre.n_pages() ==> post.fill(p) == pre.fill(p)
            } else {
                // Bump allocation from the newest page.
                &&& post.n_pages() == pre.n_pages()
                &&& a.page as nat == pre.n_pages() - 1
                &&& a.offset as nat == pre.fill(pre.n_pages() as int - 1)
                &&& post.fill(post.n_pages() as int - 1) == pre.fill(
                    pre.n_pages() as int - 1,
                ) + 1
                &&& forall|p: int| 0 <= p < pre.n_pages() - 1 ==> post.fill(p) == pre.fill(p)
            }
        }
    }

    /// Creates a pool whose pages each hold `page_len` slots. The pool
    /// starts with one empty page and an empty free list.
    pub fn with_capacity(page_len: usize) -> (pool: Self)
        requires
            page_len >= 1,
        ensures
            pool.wf(),
            pool.page_cap() == page_len,
            pool.n_pages() == 1,
            pool.fill(0) == 0,
            pool.free_seq() == Seq::<Addr>::empty(),
    {
        let mut pages: Vec<Vec<Slot<T>>> = Vec::new();
        pages.push(Vec::new());
        Pool { pages, free_head: None, free_list: Ghost(Seq::empty()), page_len }
    }

    /// Allocates a slot holding `value` and returns its address. The most
    /// recently freed slot is reused first; only with the free list empty
    /// is a fresh slot bump-allocated, opening a new page when the newest
    /// page is full. The caller owns the slot until it passes the address
    /// back to `free_ref`; slots never freed are dropped with the pool.
    pub fn alloc_ref(&mut self, value: T) -> (a: Addr)
        requires
            old(self).wf(),
        ensures
            final(self).wf(),
            Self::alloc_step(*old(self), *final(self), value, a),
    {
        match self.free_head {
            Some(a) => {
                proof {
                    assert(self.free_list@.len() > 0);
                    assert(a == self.free_list@[0]);
                    assert(self.slot_at(a) is Free);
                    assert(self.valid(a));
                }
                let next: Option<Addr> = match &self.pages[a.page][a.offset] {
                    Slot::Free { next } => *next,
                    Slot::Occupied { .. } => unreached(),
                };
                self.pages[a.page][a.offset] = Slot::Occupied { value };
                self.free_head = next;
                self.free_list = Ghost(self.free_list@.drop_first());
                proof {
                    let pre = *old(self);
                    let post = *self;
                    assert(post.pages@[a.page as int]@ == pre.pages@[a.page as int]@.update(
                        a.offset as int,
                        Slot::Occupied { value },
                    ));
                    assert(forall|p: int|
                        0 <= p < pre.pages@.len() && p != a.page ==> pre.pages@[p]
                            == #[trigger] post.pages@[p]);
                    assert forall|b: Addr| pre.valid(b) && b != a implies
                        #[trigger] post.slot_at(b) == pre.slot_at(b) by {}
                    // The tail of the old free list keeps its links, since the
                    // popped head appears nowhere else in the list.
                    assert forall|k: int| 0 <= k < post.free_list@.len() implies post.valid(
                        #[trigger] post.free_list@[k],
                    ) && post.slot_at(post.free_list@[k]) == (Slot::Free::<T> {
                        next: if k + 1 < post.free_list@.len() {
                            Some(post.free_list@[k + 1])
                        } else {
                            None
                        },
                    }) by {
                        assert(post.free_list@[k] == pre.free_list@[k + 1]);
                        assert(pre.free_list@[k + 1] != pre.free_list@[0]);
                        assert(pre.slot_at(pre.free_list@[k + 1]) == (Slot::Free::<T> {
                            next: if k + 2 < pre.free_list@.len() {
                                Some(pre.free_list@[k + 2])
                            } else {
                                None
                            },
                        }));
                    }
                    assert forall|i: int, j: int|
                        0 <= i < post.free_list@.len() && 0 <= j < post.free_list@.len() && i
                            != j implies post.free_list@[i] != post.free_list@[j] by {
                        assert(post.free_list@[i] == pre.free_list@[i + 1]);
                        assert(post.free_list@[j] == pre.free_list@[j + 1]);
                    }
                    assert forall|b: Addr| post.valid(b) && #[trigger] post.slot_at(b) is Free
                        implies post.free_list@.contains(b) by {
                        assert(b != a);
                        assert(pre.slot_at(b) is Free);
                        let k = choose|k: int|
                            0 <= k < pre.free_list@.len() && pre.free_list@[k] == b;
                        assert(k != 0);
                        assert(post.free_list@[k - 1] == b);
                    }
                    assert(post.wf());
                    assert(Self::alloc_step(pre, post, value, a));
                }
                a
            },
            None => {
                proof {
                    assert(self.free_list@.len() == 0);
                    assert(self.pages@.len() >= 1);
                }
                let n = self.pages.len();
                if self.pages[n - 1].len() == self.page_len {
                    self.pages.push(Vec::new());
                }
                let n2 = self.pages.len();
                let offset = self.pages[n2 - 1].len();
                let a = Addr { page: n2 - 1, offset };
                self.pages[n2 - 1].push(Slot::Occupied { value });
                proof {
                    let pre = *old(self);
                    let post = *self;
                    assert(a.page as int == post.pages@.len() - 1);
                    if pre.fill(pre.n_pages() as int - 1) == pre.page_cap() {
                        assert(post.pages@.len() == pre.pages@.len() + 1);
                        assert(forall|p: int|
                            0 <= p < pre.pages@.len() ==> pre.pages@[p]
                                == #[trigger] post.pages@[p]);
                        assert(post.pages@[a.page as int]@ == Seq::<Slot<T>>::empty().push(
                            Slot::Occupied { value },
                        ));
                    } else {
                        assert(post.pages@.len() == pre.pages@.len());
                        assert(forall|p: int|
                            0 <= p < pre.pages@.len() && p != a.page ==> pre.pages@[p]
                                == #[trigger] post.pages@[p]);
                        assert(post.pages@[a.page as int]@ == pre.pages@[a.page as int]@.push(
                            Slot::Occupied { value },
                        ));
                    }
                    assert forall|b: Addr| pre.valid(b) && b != a implies
                        #[trigger] post.slot_at(b) == pre.slot_at(b) by {}
                    assert forall|b: Addr| post.valid(b) && #[trigger] post.slot_at(b) is Free
                        implies post.free_list@.contains(b) by {
                        assert(b != a);
                        assert(pre.valid(b));
                        assert(pre.slot_at(b) is Free);
                    }
                    assert(post.wf());
                    assert(Self::alloc_step(pre, post, value, a));
                }
                a
            },
        }
    }

    /// Frees the live slot at `a`: its value is dropped in place and the
    /// slot becomes the new head of the free list. The address may be
    /// handed out again by a later allocation; pages are never released
    /// before the pool itself is dropped.
    pub fn free_ref(&mut self, a: Addr)
        requires
            old(self).wf(),
            old(self).live(a),
        ensures
            final(self).wf(),
            Self::free_step(*old(self), *final(self), a),
    {
        proof {
            // A live slot is not on the free list, whose slots are all free.
            assert forall|k: int| 0 <= k < self.free_list@.len() implies self.free_list@[k]
                != a by {
                assert(self.slot_at(self.free_list@[k]) is Free);
            }
            assert(!self.free_list@.contains(a));
        }
        let old_head = self.free_head;
        self.pages[a.page][a.offset] = Slot::Free { next: old_head };
        self.free_head = Some(a);
        self.free_list = Ghost(seq![a] + self.free_list@);
        proof {
            let pre = *old(self);
            let post = *self;
            assert(post.pages@.len() == pre.pages@.len());
            assert(post.pages@[a.page as int]@ == pre.pages@[a.page as int]@.update(
                a.offset as int,
                Slot::Free { next: old_head },
            ));
            assert(forall|p: int|
                0 <= p < pre.pages@.len() && p != a.page ==> pre.pages@[p]
                    == #[trigger] post.pages@[p]);
            assert forall|b: Addr| pre.valid(b) && b != a implies #[trigger] post.slot_at(b)
                == pre.slot_at(b) by {}
            assert(post.free_seq().drop_first() == pre.free_seq());
            assert forall|k: int| 0 <= k < post.free_list@.len() implies post.valid(
                #[trigger] post.free_list@[k],
            ) && post.slot_at(post.free_list@[k]) == (Slot::Free::<T> {
                next: if k + 1 < post.free_list@.len() {
                    Some(post.free_list@[k + 1])
                } else {
                    None
                },
            }) by {
                if k > 0 {
                    assert(post.free_list@[k] == pre.free_list@[k - 1]);
                    assert(pre.slot_at(pre.free_list@[k - 1]) == (Slot::Free::<T> {
                        next: if k < pre.free_list@.len() {
                            Some(pre.free_list@[k])
                        } else {
                            None
                        },
                    }));
                }
            }
            assert forall|b: Addr| post.valid(b) && #[trigger] post.slot_at(b) is Free
                implies post.free_list@.contains(b) by {
                if b != a {
                    assert(pre.slot_at(b) is Free);
                    let k = choose|k: int|
                        0 <= k < pre.free_list@.len() && pre.free_list@[k] == b;
                    assert(post.free_list@[k + 1] == b);
                } else {
                    assert(post.free_list@[0] == a);
                }
            }
            assert(post.wf());
        }
    }

    /// How one in-place write changes the pool: the live slot at `a` now
    /// holds `v` (its old value was dropped); nothing else changes.
    pub open spec fn write_step(pre: Self, post: Self, a: Addr, v: T) -> bool {
        &&& post.page_cap() == pre.page_cap()
        &&& post.n_pages() == pre.n_pages()
        &&& forall|p: int| 0 <= p < pre.n_pages() ==> post.fill(p) == pre.fill(p)
        &&& post.free_seq() == pre.free_seq()
        &&& post.head_link() == pre.head_link()
        &&& post.slot_at(a) == (Slot::Occupied { value: v })
        &&& forall|b: Addr| #[trigger] post.valid(b) <==> pre.valid(b)
        &&& forall|b: Addr|
            pre.valid(b) && b != a ==> #[trigger] post.slot_at(b) == pre.slot_at(b)
    }

    /// Borrows the value held by the live slot at `a`.
    pub fn read(&self, a: Addr) -> (r: &T)
        requires
            self.live(a),
        ensures
            *r == self.value_at(a),
    {
        match &self.pages[a.page][a.offset] {
            Slot::Occupied { value } => value,
            Slot::Free { .. } => unreached(),
        }
    }

    /// Overwrites the value held by the live slot at `a`; the old value is
    /// dropped in place.
    pub fn set(&mut self, a: Addr, value: T)
        requires
            old(self).wf(),
            old(self).live(a),
        ensures
            final(self).wf(),
            Self::write_step(*old(self), *final(self), a, value),
    {
        let r = self.get_mut(a);
        *r = value;
    }

    /// Mutably borrows the value held by the live slot at `a`. Until the
    /// borrow ends, the caller may write through it; the pool afterwards
    /// holds whatever value the borrow was left with, and nothing else
    /// about the pool changes.
    pub fn get_mut(&mut self, a: Addr) -> (r: &mut T)
        requires
            old(self).wf(),
            old(self).live(a),
        ensures
            *r == old(self).value_at(a),
            final(self).wf(),
            Self::write_step(*old(self), *final(self), a, *final(r)),
    {
        let slot = &mut self.pages[a.page][a.offset];
        match slot {
            Slot::Occupied { value } => {
                proof {
                    lemma_write_preserves_wf::<T>(*old(self), after_borrow(*self), a, *final(value));
                }
                value
            },
            Slot::Free { .. } => unreached(),
        }
    }

    /// Counts the slots on the free list by walking its links, starting
    /// at the head and following each freed slot's stored `next` address.
    /// This is the same walk the teardown scan makes to tell free slots
    /// from live ones. The bound on `n_slots` only keeps the counter
    /// within the machine word; the list itself is never longer than the
    /// number of slots handed out.
    pub fn free_count(&self) -> (n: usize)
        requires
            self.wf(),
            self.n_slots() <= usize::MAX,
        ensures
            n == self.free_seq().len(),
    {
        proof {
            lemma_free_len_bounded(*self);
        }
        let mut cur: Option<Addr> = self.free_head;
        let mut count: usize = 0;
        while cur.is_some()
            invariant
                self.wf(),
                self.n_slots() <= usize::MAX,
                self.free_seq().len() <= usize::MAX,
                count as int <= self.free_seq().len(),
                cur == (if (count as int) < self.free_seq().len() {
                    Some(self.free_seq()[count as int])
                } else {
                    Option::<Addr>::None
                }),
            decreases self.free_seq().len() - count,
        {
            let a = match cur {
                Some(a) => a,
                None => unreached(),
            };
            proof {
                assert(self.valid(self.free_list@[count as int]));
                assert(self.slot_at(self.free_list@[count as int]) == (Slot::Free::<T> {
                    next: if count as int + 1 < self.free_list@.len() {
                        Some(self.free_list@[count as int + 1])
                    } else {
                        None
                    },
                }));
            }
            cur = match &self.pages[a.page][a.offset] {
                Slot::Free { next } => *next,
                Slot::Occupied { .. } => unreached(),
            };
            count = count + 1;
        }
        count
    }

    /// Says whether `a` is the address of a live slot. Any address may be
    /// asked about, including one never handed out.
    pub fn is_live(&self, a: Addr) -> (r: bool)
        ensures
            r == self.live(a),
    {
        if a.page < self.pages.len() && a.offset < self.pages[a.page].len() {
            match &self.pages[a.page][a.offset] {
                Slot::Occupied { .. } => true,
                Slot::Free { .. } => false,
            }
        } else {
            false
        }
    }

    /// The number of pages the pool has opened so far.
    pub fn num_pages(&self) -> (n: usize)
        ensures
            n == self.n_pages(),
    {
        self.pages.len()
    }

    /// The capacity of each page, in slots.
    pub fn capacity(&self) -> (n: usize)
        ensures
            n == self.page_cap(),
    {
        self.page_len
    }

    /// The bump counter of page `p`: how many of its slots have been
    /// handed out at least once.
    pub fn page_fill(&self, p: usize) -> (n: usize)
        requires
            p < self.n_pages(),
        ensures
            n == self.fill(p as int),
    {
        self.pages[p].len()
    }

    /// Creates a pool with the default page capacity.
    pub fn new() -> (pool: Self)
        ensures
            pool.wf(),
            pool.page_cap() == DEFAULT_PAGE_LEN,
            pool.n_pages() == 1,
            pool.fill(0) == 0,
            pool.free_seq() == Seq::<Addr>::empty(),
    {
        Self::with_capacity(DEFAULT_PAGE_LEN)
    }

    /// Allocates a slot holding `value` and returns a guard handle bound
    /// to it. The handle cannot be copied, and `PoolBox::free` consumes it,
    /// so the slot can be released at most once through the guard; a handle
    /// never released leaves its value to be dropped with the pool.
    pub fn alloc_raii(&mut self, value: T) -> (b: PoolBox<T>)
        requires
            old(self).wf(),
        ensures
            final(self).wf(),
            Self::alloc_step(*old(self), *final(self), value, b.addr()),
    {
        let a = self.alloc_ref(value);
        PoolBox { addr: a, marker: core::marker::PhantomData }
    }
}

/// A guard handle to one live slot of a pool. It is the ownership token
/// for the slot: it cannot be cloned or copied, and releasing the slot
/// consumes it, so a slot guarded by a `PoolBox` can neither be freed
/// twice nor used after its release.
pub struct PoolBox<T> {
    /// The guarded slot.
    addr: Addr,
    /// Marks the handle as belonging to pools of `T`.
    marker: core::marker::PhantomData<T>,
}

impl<T> PoolBox<T> {
    /// The address of the guarded slot.
    pub closed spec fn addr(self) -> Addr {
        self.addr
    }

    /// Returns the address of the guarded slot.
    pub fn location(&self) -> (a: Addr)
        ensures
            a == self.addr(),
    {
        self.addr
    }

    /// Borrows the guarded value.
    pub fn read<'a>(&self, pool: &'a Pool<T>) -> (r: &'a T)
        requires
            pool.live(self.addr()),
        ensures
            *r == pool.value_at(self.addr()),
    {
        pool.read(self.addr)
    }

    /// Overwrites the guarded value; the old value is dropped in place.
    pub fn set(&self, pool: &mut Pool<T>, value: T)
        requires
            old(pool).wf(),
            old(pool).live(self.addr()),
        ensures
            final(pool).wf(),
            Pool::<T>::write_step(*old(pool), *final(pool), self.addr(), value),
    {
        pool.set(self.addr, value);
    }

    /// Mutably borrows the guarded value. The pool afterwards holds
    /// whatever value the borrow was left with.
    pub fn get_mut<'a>(&self, pool: &'a mut Pool<T>) -> (r: &'a mut T)
        requires
            old(pool).wf(),
            old(pool).live(self.addr()),
        ensures
            *r == old(pool).value_at(self.addr()),
            final(pool).wf(),
            Pool::<T>::write_step(*old(pool), *final(pool), self.addr(), *final(r)),
    {
        pool.get_mut(self.addr)
    }

    /// Releases the guarded slot: the value is dropped in place and the
    /// slot goes back onto the free list. Consumes the guard, so release
    /// happens at most once per guard.
    pub fn free(self, pool: &mut Pool<T>)
        requires
            old(pool).wf(),
            old(pool).live(self.addr()),
        ensures
            final(pool).wf(),
            Pool::<T>::free_step(*old(pool), *final(pool), self.addr()),
    {
        pool.free_ref(self.addr);
    }
}

/// Writing through a live slot leaves the pool well-formed: the write
/// touches no page boundary and no free-list link, so every structural
/// invariant carries over from the pool before the write.
pub proof fn lemma_write_preserves_wf<T>(pre: Pool<T>, post: Pool<T>, a: Addr, v: T)
    requires
        pre.wf(),
        pre.live(a),
        Pool::<T>::write_step(pre, post, a, v),
    ensures
        post.wf(),
{
    assert forall|p: int| 0 <= p < post.pages@.len() implies (#[trigger] post.pages@[p])@.len()
        == pre.pages@[p]@.len() by {
        assert(post.fill(p) == pre.fill(p));
    }
    assert forall|k: int| 0 <= k < post.free_list@.len() implies post.valid(
        #[trigger] post.free_list@[k],
    ) && post.slot_at(post.free_list@[k]) == pre.slot_at(pre.free_list@[k]) by {
        assert(pre.valid(pre.free_list@[k]));
        assert(pre.slot_at(pre.free_list@[k]) is Free);
        assert(pre.free_list@[k] != a);
    }
    assert forall|b: Addr| post.valid(b) && #[trigger] post.slot_at(b) is Free
        implies post.free_list@.contains(b) by {
        assert(pre.valid(b));
        assert(b != a);
        assert(pre.slot_at(b) is Free);
    }
    assert(post.wf());
}

/// The free list is never longer than the number of slots the pool has
/// handed out: its addresses are distinct, and each names one slot, so
/// freeing can never manufacture capacity.
pub proof fn lemma_free_len_bounded<T>(p: Pool<T>)
    requires
        p.wf(),
    ensures
        p.free_seq().len() <= p.n_slots(),
{
    let cap = p.page_cap() as int;
    let n = p.n_pages() as int;
    let total = p.n_slots();
    let flat = |a: Addr| (a.page as int) * cap + (a.offset as int);
    let idxs = p.free_seq().map_values(flat);
    // Every valid address has an offset below the page capacity and maps
    // to a flat slot number below the total, and distinct addresses map
    // to distinct numbers.
    assert forall|a: Addr| p.valid(a) implies 0 <= flat(a) < total && (a.offset as int)
        < cap by {
        let q = a.page as int;
        let o = a.offset as int;
        if q < n - 1 {
            assert(p.fill(q) == cap);
            vstd::arithmetic::mul::lemma_mul_is_distributive_add_other_way(cap, q, 1);
            vstd::arithmetic::mul::lemma_mul_basics(cap);
            vstd::arithmetic::mul::lemma_mul_inequality(q + 1, n - 1, cap);
            assert(q * cap + o < (q + 1) * cap);
        } else {
            assert(o < p.fill(n - 1));
        }
        vstd::arithmetic::mul::lemma_mul_nonnegative(q, cap);
    }
    assert forall|k1: int, k2: int|
        0 <= k1 < idxs.len() && 0 <= k2 < idxs.len() && k1 != k2 implies idxs[k1]
        != idxs[k2] by {
        let a1 = p.free_seq()[k1];
        let a2 = p.free_seq()[k2];
        assert(p.valid(a1) && p.valid(a2));
        assert(a1 != a2);
        vstd::arithmetic::div_mod::lemma_fundamental_div_mod_converse(
            flat(a1),
            cap,
            a1.page as int,
            a1.offset as int,
        );
        vstd::arithmetic::div_mod::lemma_fundamental_div_mod_converse(
            flat(a2),
            cap,
            a2.page as int,
            a2.offset as int,
        );
    }
    assert(idxs.no_duplicates());
    idxs.unique_seq_to_set();
    assert forall|x: int| idxs.to_set().contains(x) implies vstd::set_lib::set_int_range(
        0,
        total,
    ).contains(x) by {
        let k = choose|k: int| 0 <= k < idxs.len() && idxs[k] == x;
        assert(p.valid(p.free_seq()[k]));
    }
    vstd::set_lib::lemma_int_range(0, total);
    vstd::set_lib::lemma_len_subset(idxs.to_set(), vstd::set_lib::set_int_range(0, total));
}

/// Round trip: whatever value an allocation stores, the slot it hands out
/// holds exactly that value, so reading the slot right after allocating
/// returns the value passed in.
pub proof fn lemma_round_trip<T>(pre: Pool<T>, post: Pool<T>, v: T, a: Addr)
    requires
        Pool::<T>::alloc_step(pre, post, v, a),
    ensures
        post.live(a),
        post.value_at(a) == v,
{
}

/// Reuse is last-in, first-out: an allocation right after a free hands the
/// freed slot's address out again, whatever else is on the free list.
pub proof fn lemma_lifo_reuse<T>(
    p0: Pool<T>,
    p1: Pool<T>,
    p2: Pool<T>,
    x: Addr,
    v: T,
    b: Addr,
)
    requires
        Pool::<T>::free_step(p0, p1, x),
        Pool::<T>::alloc_step(p1, p2, v, b),
    ensures
        b == x,
{
    assert(p1.free_seq()[0] == x);
}

/// A freed slot is no longer live, so the precondition of `free_ref`
/// cannot be met for it a second time before it is allocated again: each
/// free drops the slot's value exactly once. Under the guard interface the
/// same holds structurally, because `PoolBox::free` consumes the guard.
pub proof fn lemma_free_exactly_once<T>(pre: Pool<T>, post: Pool<T>, a: Addr)
    requires
        Pool::<T>::free_step(pre, post, a),
    ensures
        !post.live(a),
{
}

/// No slot is lost and none is counted twice: in a well-formed pool every
/// slot ever handed out is either live or on the free list, never both,
/// and the free list holds no address twice.
pub proof fn lemma_no_lost_slots<T>(p: Pool<T>)
    requires
        p.wf(),
    ensures
        forall|a: Addr| p.valid(a) ==> (p.live(a) <==> !p.free_seq().contains(a)),
        forall|k: int| 0 <= k < p.free_seq().len() ==> p.freed(#[trigger] p.free_seq()[k]),
        p.free_seq().no_duplicates(),
{
    assert forall|a: Addr| p.valid(a) implies (p.live(a) <==> !p.free_seq().contains(
        a,
    )) by {
        if p.free_seq().contains(a) {
            let k = choose|k: int| 0 <= k < p.free_seq().len() && p.free_seq()[k] == a;
            assert(p.slot_at(p.free_seq()[k]) is Free);
        }
        if !p.live(a) {
            assert(p.slot_at(a) is Free);
        }
    }
}

/// Pages grow only on demand: a well-formed pool has opened exactly as
/// many pages as its bump-allocated slots require, one page per full block
/// of `page_cap` slots plus one for the remainder.
pub proof fn lemma_page_growth<T>(p: Pool<T>)
    requires
        p.wf(),
    ensures
        p.n_pages() == if p.n_slots() == 0 {
            1int
        } else {
            (p.n_slots() - 1) / p.page_cap() as int + 1
        },
{
    let n = p.n_pages() as int;
    let cap = p.page_cap() as int;
    let f = p.fill(n - 1) as int;
    assert(p.n_slots() == (n - 1) * cap + f);
    if n == 1 {
        vstd::arithmetic::mul::lemma_mul_basics(cap);
        assert(p.n_slots() == f);
        if f > 0 {
            vstd::arithmetic::div_mod::lemma_fundamental_div_mod_converse(f - 1, cap, 0, f - 1);
        }
    } else {
        assert(f >= 1);
        vstd::arithmetic::mul::lemma_mul_inequality(1, n - 1, cap);
        assert(p.n_slots() - 1 == (n - 1) * cap + (f - 1));
        vstd::arithmetic::div_mod::lemma_fundamental_div_mod_converse(
            p.n_slots() - 1,
            cap,
            n - 1,
            f - 1,
        );
    }
}

/// Bump allocation fills pages in address order: when the free list is
/// empty, the pool having handed out `k` slots so far, the next allocation
/// returns the address of slot `k`, in page `k / page_cap` at offset
/// `k % page_cap`, and leaves `k + 1` slots handed out. So the first
/// `page_cap` allocations of a fresh pool lie in the first page and the
/// following allocation opens the second.
pub proof fn lemma_bump_address<T>(pre: Pool<T>, post: Pool<T>, v: T, a: Addr)
    requires
        pre.wf(),
        pre.free_seq().len() == 0,
        Pool::<T>::alloc_step(pre, post, v, a),
    ensures
        a.page as int == pre.n_slots() / pre.page_cap() as int,
        a.offset as int == pre.n_slots() % pre.page_cap() as int,
        post.n_slots() == pre.n_slots() + 1,
{
    let n = pre.n_pages() as int;
    let cap = pre.page_cap() as int;
    let f = pre.fill(n - 1) as int;
    assert(pre.n_slots() == (n - 1) * cap + f);
    if f == cap {
        assert(pre.n_slots() == n * cap) by {
            vstd::arithmetic::mul::lemma_mul_is_distributive_add_other_way(cap, n - 1, 1);
            vstd::arithmetic::mul::lemma_mul_basics(cap);
        }
        vstd::arithmetic::div_mod::lemma_fundamental_div_mod_converse(pre.n_slots(), cap, n, 0);
        assert(post.n_slots() == n * cap + 1) by {
            vstd::arithmetic::mul::lemma_mul_is_distributive_add_other_way(cap, n, 1);
            vstd::arithmetic::mul::lemma_mul_basics(cap);
        }
    } else {
        vstd::arithmetic::div_mod::lemma_fundamental_div_mod_converse(
            pre.n_slots(),
            cap,
            n - 1,
            f,
        );
    }
}

/// An allocation that reuses a freed slot, followed by the matching free,
/// returns the pool to exactly the state it started from: repeated
/// alloc-then-free cycles neither lose slots nor open pages, however many
/// callers interleave them under outside serialization.
pub proof fn lemma_cycle_restores_pool<T>(
    p0: Pool<T>,
    p1: Pool<T>,
    p2: Pool<T>,
    v: T,
    a: Addr,
)
    requires
        p0.wf(),
        p0.free_seq().len() > 0,
        Pool::<T>::alloc_step(p0, p1, v, a),
        Pool::<T>::free_step(p1, p2, a),
    ensures
        p2.free_seq() == p0.free_seq(),
        p2.n_pages() == p0.n_pages(),
        forall|p: int| 0 <= p < p0.n_pages() ==> p2.fill(p) == p0.fill(p),
        forall|b: Addr| p0.valid(b) ==> p2.valid(b) && p2.slot_at(b) == p0.slot_at(b),
{
    assert(a == p0.free_seq()[0]);
    assert(p2.free_seq() =~= p0.free_seq());
    assert forall|b: Addr| p0.valid(b) implies p2.valid(b) && p2.slot_at(b) == p0.slot_at(
        b,
    ) by {
        if b != a {
            assert(p1.fill(b.page as int) == p0.fill(b.page as int));
            assert(p1.valid(b));
            assert(p1.slot_at(b) == p0.slot_at(b));
            assert(p2.slot_at(b) == p1.slot_at(b));
            assert(p2.fill(b.page as int) == p1.fill(b.page as int));
            assert(p2.valid(b));
        } else {
            assert(p0.slot_at(a) == (Slot::Free::<T> {
                next: if 1 < p0.free_seq().len() {
                    Some(p0.free_seq()[1])
                } else {
                    None
                },
            }));
            assert(p1.free_seq().len() == p0.free_seq().len() - 1);
            if p0.free_seq().len() > 1 {
                assert(p1.free_seq()[0] == p0.free_seq()[1]);
            }
            assert(p2.slot_at(a) == (Slot::Free::<T> {
                next: if p1.free_seq().len() == 0 {
                    None
                } else {
                    Some(p1.free_seq()[0])
                },
            }));
            assert(p2.freed(a));
        }
    }
}

} // verus!
