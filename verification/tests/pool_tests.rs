use slot_pool::{Addr, Pool};

#[test]
fn round_trip_single_value() {
    let mut pool: Pool<u64> = Pool::new();
    let a = pool.alloc_ref(42);
    assert_eq!(*pool.read(a), 42);
}

#[test]
fn round_trip_many_values() {
    let mut pool: Pool<u64> = Pool::with_capacity(3);
    let mut addrs: Vec<Addr> = Vec::new();
    for i in 0..10u64 {
        addrs.push(pool.alloc_ref(i * 7));
    }
    for i in 0..10usize {
        assert_eq!(*pool.read(addrs[i]), (i as u64) * 7);
    }
}

#[test]
fn freed_slot_is_reused_first() {
    let mut pool: Pool<u64> = Pool::with_capacity(8);
    let a = pool.alloc_ref(1);
    let x = pool.alloc_ref(2);
    let c = pool.alloc_ref(3);
    pool.free_ref(x);
    // The free list holds exactly x: the next allocation must return it.
    let y = pool.alloc_ref(9);
    assert_eq!(y, x);
    assert_eq!(*pool.read(y), 9);
    assert_eq!(*pool.read(a), 1);
    assert_eq!(*pool.read(c), 3);
}

#[test]
fn reuse_is_lifo() {
    let mut pool: Pool<u64> = Pool::with_capacity(8);
    let a = pool.alloc_ref(1);
    let b = pool.alloc_ref(2);
    let c = pool.alloc_ref(3);
    pool.free_ref(a);
    pool.free_ref(b);
    pool.free_ref(c);
    // Freed in the order a, b, c: reused in the order c, b, a.
    assert_eq!(pool.alloc_ref(30), c);
    assert_eq!(pool.alloc_ref(20), b);
    assert_eq!(pool.alloc_ref(10), a);
}

#[test]
fn alloc_after_free_returns_same_address() {
    let mut pool: Pool<u64> = Pool::with_capacity(4);
    let a = pool.alloc_ref(5);
    pool.free_ref(a);
    let b = pool.alloc_ref(6);
    assert_eq!(b, a);
}

#[test]
fn page_grows_after_capacity_allocations() {
    let page_len: usize = 4;
    let mut pool: Pool<u64> = Pool::with_capacity(page_len);
    assert_eq!(pool.num_pages(), 1);
    let mut addrs: Vec<Addr> = Vec::new();
    for i in 0..(page_len as u64 + 1) {
        addrs.push(pool.alloc_ref(i));
    }
    // page_len + 1 live slots: exactly two pages, the first page full.
    assert_eq!(pool.num_pages(), 2);
    for i in 0..page_len {
        assert_eq!(addrs[i].page, 0);
        assert_eq!(addrs[i].offset, i);
    }
    assert_eq!(addrs[page_len].page, 1);
    assert_eq!(addrs[page_len].offset, 0);
    assert_eq!(pool.page_fill(0), page_len);
    assert_eq!(pool.page_fill(1), 1);
}

#[test]
fn no_page_grows_while_free_slots_remain() {
    let mut pool: Pool<u64> = Pool::with_capacity(2);
    let a = pool.alloc_ref(1);
    let b = pool.alloc_ref(2);
    assert_eq!(pool.num_pages(), 1);
    pool.free_ref(a);
    // The page is conceptually full, but the free list is served first.
    let c = pool.alloc_ref(3);
    assert_eq!(c, a);
    assert_eq!(pool.num_pages(), 1);
    pool.free_ref(b);
    pool.free_ref(c);
    let d = pool.alloc_ref(4);
    let e = pool.alloc_ref(5);
    assert_eq!(pool.num_pages(), 1);
    assert_eq!(d, c);
    assert_eq!(e, b);
}

#[test]
fn capacity_one_pages() {
    let mut pool: Pool<u64> = Pool::with_capacity(1);
    let a = pool.alloc_ref(1);
    let b = pool.alloc_ref(2);
    let c = pool.alloc_ref(3);
    assert_eq!(pool.num_pages(), 3);
    assert_eq!(a, Addr { page: 0, offset: 0 });
    assert_eq!(b, Addr { page: 1, offset: 0 });
    assert_eq!(c, Addr { page: 2, offset: 0 });
    assert_eq!(*pool.read(b), 2);
}

#[test]
fn default_capacity_is_sixty_four() {
    let mut pool: Pool<u32> = Pool::new();
    assert_eq!(pool.capacity(), 64);
    for i in 0..64u32 {
        pool.alloc_ref(i);
    }
    assert_eq!(pool.num_pages(), 1);
    pool.alloc_ref(64);
    assert_eq!(pool.num_pages(), 2);
}

#[test]
fn is_live_tracks_alloc_and_free() {
    let mut pool: Pool<u64> = Pool::with_capacity(4);
    let never = Addr { page: 5, offset: 0 };
    assert!(!pool.is_live(never));
    let a = pool.alloc_ref(11);
    assert!(pool.is_live(a));
    pool.free_ref(a);
    assert!(!pool.is_live(a));
    let b = pool.alloc_ref(12);
    assert_eq!(b, a);
    assert!(pool.is_live(b));
}

#[test]
fn set_overwrites_in_place() {
    let mut pool: Pool<u64> = Pool::with_capacity(4);
    let a = pool.alloc_ref(1);
    let b = pool.alloc_ref(2);
    pool.set(a, 100);
    assert_eq!(*pool.read(a), 100);
    assert_eq!(*pool.read(b), 2);
    assert_eq!(pool.num_pages(), 1);
}

#[test]
fn get_mut_writes_through() {
    let mut pool: Pool<u64> = Pool::with_capacity(4);
    let a = pool.alloc_ref(10);
    {
        let r = pool.get_mut(a);
        assert_eq!(*r, 10);
        *r += 5;
    }
    assert_eq!(*pool.read(a), 15);
}

#[test]
fn cycles_lose_no_slots() {
    // Several callers' worth of alloc-then-free cycles, interleaved as a
    // serialized schedule: every cycle reuses the one free slot, so no
    // slot is lost and no page is opened.
    let callers: usize = 4;
    let cycles: usize = 25;
    let mut pool: Pool<u64> = Pool::with_capacity(2);
    let first = pool.alloc_ref(0);
    pool.free_ref(first);
    let mut allocs: usize = 0;
    let mut frees: usize = 0;
    for round in 0..cycles {
        for caller in 0..callers {
            let v = (round * callers + caller) as u64;
            let a = pool.alloc_ref(v);
            allocs += 1;
            assert_eq!(a, first);
            assert_eq!(*pool.read(a), v);
            pool.free_ref(a);
            frees += 1;
        }
    }
    assert_eq!(allocs, callers * cycles);
    assert_eq!(frees, callers * cycles);
    assert_eq!(pool.num_pages(), 1);
    // The pool is still consistent: fresh allocations hand out distinct
    // addresses, the recycled slot first.
    let x = pool.alloc_ref(1);
    let y = pool.alloc_ref(2);
    assert_eq!(x, first);
    assert_ne!(x, y);
    assert_eq!(pool.num_pages(), 1);
}

#[test]
fn free_count_follows_the_links() {
    let mut pool: Pool<u64> = Pool::with_capacity(4);
    assert_eq!(pool.free_count(), 0);
    let mut addrs: Vec<Addr> = Vec::new();
    for i in 0..5u64 {
        addrs.push(pool.alloc_ref(i));
    }
    assert_eq!(pool.free_count(), 0);
    pool.free_ref(addrs[0]);
    pool.free_ref(addrs[2]);
    pool.free_ref(addrs[3]);
    assert_eq!(pool.free_count(), 3);
    pool.alloc_ref(9);
    assert_eq!(pool.free_count(), 2);
}
