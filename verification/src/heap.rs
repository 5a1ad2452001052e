//! The boundary allocator: a model of the guest's linear memory together with
//! the two canonical-ABI entry points the host drives, `canonical_abi_realloc`
//! and `canonical_abi_free`.
//!
//! Memory is a flat byte space. Allocation is growing-only: every request is
//! served from fresh space at the end of memory, so a live region is never
//! aliased by a later one. The allocator keeps one record per live region and
//! a free must present exactly the `(size, alignment)` pair of the matching
//! allocation; a zero-size free is a no-op for any address.

use vstd::arithmetic::div_mod::{
    lemma_add_mod_noop, lemma_fundamental_div_mod, lemma_mod_bound, lemma_mod_multiples_basic,
};
use vstd::prelude::*;

verus! {

/// Upper bound on the size of the modeled memory: addresses and lengths must
/// cross the boundary as 32-bit integers.
pub const MEM_LIMIT: usize = 0xFFFF_FFFF;

/// Fixed non-null address returned for zero-size allocation requests; freeing
/// a zero-size region is a no-op, so the address is never dereferenced.
pub const ZERO_SIZE_PTR: usize = 1;

/// The alignments the boundary contract accepts.
pub open spec fn valid_alignment(a: int) -> bool {
    a == 1 || a == 2 || a == 4 || a == 8
}

/// One live allocation: the region `[addr, addr + size)` with the alignment it
/// was requested at.
#[derive(Clone, Copy, PartialEq, Eq, Structural)]
pub struct AllocRec {
    pub addr: usize,
    pub size: usize,
    pub align: usize,
}

impl AllocRec {
    /// The record describes a nonempty region inside a memory of `mem_len`
    /// bytes, past the reserved prefix that keeps real addresses distinct
    /// from null and from the zero-size sentinel.
    pub open spec fn wf_in(self, mem_len: int) -> bool {
        &&& 1 <= self.size
        &&& 8 <= self.addr
        &&& self.addr + self.size <= mem_len
        &&& valid_alignment(self.align as int)
    }
}

/// The guest heap: the byte contents of linear memory and the records of the
/// live allocations, in increasing address order.
pub struct Heap {
    mem: Vec<u8>,
    live: Vec<AllocRec>,
}

impl Heap {
    /// The bytes of linear memory.
    pub closed spec fn bytes(self) -> Seq<u8> {
        self.mem@
    }

    /// The live allocation records, in increasing address order.
    pub closed spec fn allocs(self) -> Seq<AllocRec> {
        self.live@
    }

    /// Some live allocation starts at `addr`.
    pub open spec fn has_alloc(self, addr: int) -> bool {
        exists|i: int| 0 <= i < self.allocs().len() && (#[trigger] self.allocs()[i]).addr == addr
    }

    /// The position of the live allocation starting at `addr`.
    pub open spec fn alloc_index(self, addr: int) -> int {
        choose|i: int| 0 <= i < self.allocs().len() && (#[trigger] self.allocs()[i]).addr == addr
    }

    /// `addr` is the start of a live allocation of exactly this size and
    /// alignment: the only triple that may be handed back to a free.
    pub open spec fn is_live(self, addr: int, size: int, align: int) -> bool {
        &&& self.has_alloc(addr)
        &&& self.allocs()[self.alloc_index(addr)].size == size
        &&& self.allocs()[self.alloc_index(addr)].align == align
    }

    /// The range `[addr, addr + len)` lies within a single live allocation
    /// that starts at `addr`.
    pub open spec fn region_live(self, addr: int, len: int) -> bool {
        exists|i: int|
            0 <= i < self.allocs().len() && (#[trigger] self.allocs()[i]).addr == addr && len
                <= self.allocs()[i].size
    }

    /// Well-formedness: memory stays within the 32-bit boundary contract and
    /// keeps an 8-byte granularity, every record lies inside memory, and the
    /// records are strictly ordered, hence pairwise disjoint.
    pub open spec fn wf(self) -> bool {
        &&& 8 <= self.bytes().len()
        &&& self.bytes().len() <= MEM_LIMIT
        &&& self.bytes().len() % 8 == 0
        &&& forall|i: int|
            0 <= i < self.allocs().len() ==> (#[trigger] self.allocs()[i]).wf_in(
                self.bytes().len() as int,
            )
        &&& forall|i: int, j: int|
            0 <= i < j < self.allocs().len() ==> (#[trigger] self.allocs()[i]).addr
                + self.allocs()[i].size <= (#[trigger] self.allocs()[j]).addr
    }

    /// In a well-formed heap each address starts at most one live allocation,
    /// so `alloc_index` is the one position holding it.
    pub proof fn lemma_alloc_index(self, addr: int)
        requires
            self.wf(),
            self.has_alloc(addr),
        ensures
            0 <= self.alloc_index(addr) < self.allocs().len(),
            self.allocs()[self.alloc_index(addr)].addr == addr,
            forall|i: int|
                0 <= i < self.allocs().len() && (#[trigger] self.allocs()[i]).addr == addr ==> i
                    == self.alloc_index(addr),
    {
        let k = self.alloc_index(addr);
        assert(0 <= k < self.allocs().len() && self.allocs()[k].addr == addr);
        assert forall|i: int|
            0 <= i < self.allocs().len() && (#[trigger] self.allocs()[i]).addr == addr implies i
            == k by {
            if i < k {
                assert(self.allocs()[i].addr + self.allocs()[i].size <= self.allocs()[k].addr);
                assert(self.allocs()[i].size >= 1);
            } else if k < i {
                assert(self.allocs()[k].addr + self.allocs()[k].size <= self.allocs()[i].addr);
                assert(self.allocs()[k].size >= 1);
            }
        }
    }

    /// A record seen at a position is the one `alloc_index` finds for its
    /// address.
    pub proof fn lemma_index_of_rec(self, i: int)
        requires
            self.wf(),
            0 <= i < self.allocs().len(),
        ensures
            self.has_alloc(self.allocs()[i].addr as int),
            self.alloc_index(self.allocs()[i].addr as int) == i,
            self.is_live(
                self.allocs()[i].addr as int,
                self.allocs()[i].size as int,
                self.allocs()[i].align as int,
            ),
    {
        let addr = self.allocs()[i].addr as int;
        assert(self.has_alloc(addr));
        self.lemma_alloc_index(addr);
    }

    /// An address carries at most one live record, so a free can match only
    /// the one `(size, alignment)` pair the address was allocated with.
    pub proof fn lemma_live_record_unique(self, addr: int, s1: int, a1: int, s2: int, a2: int)
        requires
            self.wf(),
            self.is_live(addr, s1, a1),
            self.is_live(addr, s2, a2),
        ensures
            s1 == s2,
            a1 == a2,
    {
    }

    /// A fresh heap: no live allocations, and an 8-byte reserved prefix so
    /// that no real address collides with null or the zero-size sentinel.
    pub fn new() -> (h: Heap)
        ensures
            h.wf(),
            h.allocs() == Seq::<AllocRec>::empty(),
            h.bytes().len() == 8,
    {
        let mut mem: Vec<u8> = Vec::new();
        let mut k: usize = 0;
        while k < 8
            invariant
                k <= 8,
                mem@.len() == k,
            decreases 8 - k,
        {
            mem.push(0u8);
            k += 1;
        }
        let h = Heap { mem, live: Vec::new() };
        proof {
            assert(h.allocs() =~= Seq::<AllocRec>::empty());
        }
        h
    }

    /// How many allocations are currently live.
    pub fn live_count(&self) -> (n: usize)
        ensures
            n == self.allocs().len(),
    {
        self.live.len()
    }

    /// The current size of the modeled memory in bytes.
    pub fn memory_size(&self) -> (n: usize)
        ensures
            n == self.bytes().len(),
    {
        self.mem.len()
    }

    /// Appends a fresh region of `size` bytes to memory and records it live.
    /// The new region starts at the old end of memory, so it is disjoint from
    /// every earlier allocation and every old byte keeps its value.
    fn grow(&mut self, size: usize, align: usize) -> (addr: usize)
        requires
            old(self).wf(),
            1 <= size,
            valid_alignment(align as int),
            old(self).bytes().len() + size + 7 <= MEM_LIMIT,
        ensures
            final(self).wf(),
            addr == old(self).bytes().len(),
            addr % align == 0,
            addr + size <= final(self).bytes().len(),
            final(self).bytes().len() <= old(self).bytes().len() + size + 7,
            final(self).bytes().subrange(0, old(self).bytes().len() as int) == old(self).bytes(),
            final(self).allocs() == old(self).allocs().push((AllocRec { addr, size, align })),
            final(self).is_live(addr as int, size as int, align as int),
    {
        let addr = self.mem.len();
        let units: usize = (size + 7) / 8;
        proof {
            lemma_fundamental_div_mod((size + 7) as int, 8);
            lemma_mod_bound((size + 7) as int, 8);
        }
        let total: usize = units * 8;
        proof {
            assert(size <= total <= size + 7);
            lemma_mod_multiples_basic(units as int, 8);
            lemma_add_mod_noop(addr as int, total as int, 8);
        }
        let mut k: usize = 0;
        while k < total
            invariant
                k <= total,
                self.bytes().len() == old(self).bytes().len() + k,
                forall|j: int|
                    0 <= j < old(self).bytes().len() ==> #[trigger] self.bytes()[j] == old(
                        self,
                    ).bytes()[j],
                self.allocs() == old(self).allocs(),
            decreases total - k,
        {
            self.mem.push(0u8);
            k += 1;
        }
        let rec = AllocRec { addr, size, align };
        self.live.push(rec);
        proof {
            let n = self.bytes().len() as int;
            assert(n == old(self).bytes().len() + total);
            assert(n % 8 == 0);
            lemma_aligned_of_eight(addr as int, align as int);
            assert(self.allocs() == old(self).allocs().push(rec));
            assert forall|i: int|
                0 <= i < self.allocs().len() implies (#[trigger] self.allocs()[i]).wf_in(n) by {
                if i < old(self).allocs().len() {
                    assert(self.allocs()[i] == old(self).allocs()[i]);
                    assert(old(self).allocs()[i].wf_in(old(self).bytes().len() as int));
                } else {
                    assert(self.allocs()[i] == rec);
                }
            }
            assert forall|i: int, j: int|
                0 <= i < j < self.allocs().len() implies (#[trigger] self.allocs()[i]).addr
                + self.allocs()[i].size <= (#[trigger] self.allocs()[j]).addr by {
                if j < old(self).allocs().len() {
                    assert(self.allocs()[i] == old(self).allocs()[i]);
                    assert(self.allocs()[j] == old(self).allocs()[j]);
                    assert(old(self).allocs()[i].addr + old(self).allocs()[i].size <= old(
                        self,
                    ).allocs()[j].addr);
                } else {
                    assert(self.allocs()[i] == old(self).allocs()[i]);
                    assert(old(self).allocs()[i].wf_in(old(self).bytes().len() as int));
                    assert(self.allocs()[j] == rec);
                }
            }
            assert(self.bytes().subrange(0, old(self).bytes().len() as int) =~= old(self).bytes());
            self.lemma_index_of_rec(old(self).allocs().len() as int);
        }
        addr
    }

    /// Allocates (or grows) a guest-owned region: the canonical-ABI
    /// reallocation entry point. A zero-size request returns the fixed
    /// sentinel without touching the allocator; otherwise a fresh region is
    /// allocated at the requested alignment, the old contents are copied over,
    /// and the old region is freed.
    pub fn canonical_abi_realloc(
        &mut self,
        original_ptr: usize,
        original_size: usize,
        alignment: usize,
        new_size: usize,
    ) -> (addr: usize)
        requires
            old(self).wf(),
            valid_alignment(alignment as int),
            original_size <= new_size,
            original_ptr != 0 && original_size > 0 ==> old(self).is_live(
                original_ptr as int,
                original_size as int,
                alignment as int,
            ),
            old(self).bytes().len() + new_size + 7 <= MEM_LIMIT,
        ensures
            final(self).wf(),
            new_size == 0 ==> addr == ZERO_SIZE_PTR && final(self).bytes() == old(self).bytes()
                && final(self).allocs() == old(self).allocs(),
            new_size > 0 ==> ({
                &&& 8 <= addr
                &&& addr % alignment == 0
                &&& old(self).bytes().len() <= addr
                &&& addr + new_size <= final(self).bytes().len()
                &&& final(self).bytes().len() <= old(self).bytes().len() + new_size + 7
                &&& final(self).is_live(addr as int, new_size as int, alignment as int)
                &&& final(self).bytes().subrange(0, old(self).bytes().len() as int) == old(
                    self,
                ).bytes()
                &&& (original_ptr != 0 && original_size > 0 ==> {
                    &&& final(self).bytes().subrange(addr as int, addr + original_size) == old(
                        self,
                    ).bytes().subrange(original_ptr as int, original_ptr + original_size)
                    &&& final(self).allocs() == old(self).allocs().remove(
                        old(self).alloc_index(original_ptr as int),
                    ).push((AllocRec { addr, size: new_size, align: alignment }))
                })
                &&& (!(original_ptr != 0 && original_size > 0) ==> final(self).allocs() == old(
                    self,
                ).allocs().push((AllocRec { addr, size: new_size, align: alignment })))
            }),
    {
        if new_size == 0 {
            return ZERO_SIZE_PTR;
        }
        let addr = self.grow(new_size, alignment);
        let ghost rec = AllocRec { addr, size: new_size, align: alignment };
        let ghost h1 = *self;
        if original_ptr != 0 && original_size > 0 {
            proof {
                old(self).lemma_alloc_index(original_ptr as int);
            }
            let ghost i0 = old(self).alloc_index(original_ptr as int);
            proof {
                assert(h1.allocs() == old(self).allocs().push(rec));
                assert(h1.allocs()[i0] == old(self).allocs()[i0]);
                assert(old(self).allocs()[i0].addr + old(self).allocs()[i0].size <= old(
                    self,
                ).bytes().len());
            }
            let mut k: usize = 0;
            while k < original_size
                invariant
                    k <= original_size,
                    original_ptr + original_size <= old(self).bytes().len(),
                    old(self).bytes().len() <= addr,
                    addr + original_size <= self.bytes().len(),
                    self.bytes().len() <= MEM_LIMIT,
                    self.bytes().len() == h1.bytes().len(),
                    self.allocs() == h1.allocs(),
                    forall|j: int|
                        0 <= j < old(self).bytes().len() ==> #[trigger] self.bytes()[j] == old(
                            self,
                        ).bytes()[j],
                    forall|j: int|
                        0 <= j < k ==> #[trigger] self.bytes()[addr + j] == old(self).bytes()[
                            original_ptr + j],
                decreases original_size - k,
            {
                proof {
                    assert(self.bytes()[original_ptr + k] == old(self).bytes()[original_ptr + k]);
                }
                let b = self.mem[original_ptr + k];
                self.mem[addr + k] = b;
                k += 1;
            }
            proof {
                assert(self.wf()) by {
                    assert(self.allocs() == h1.allocs());
                    assert(self.bytes().len() == h1.bytes().len());
                }
                old(self).lemma_alloc_index(original_ptr as int);
                assert(self.allocs()[i0] == old(self).allocs()[i0]);
                assert(self.allocs()[i0].addr == original_ptr);
                self.lemma_index_of_rec(i0);
                assert(self.is_live(original_ptr as int, original_size as int, alignment as int));
                assert forall|j: int| 0 <= j < original_size implies #[trigger] self.bytes().subrange(
                    addr as int,
                    addr + original_size,
                )[j] == old(self).bytes().subrange(
                    original_ptr as int,
                    original_ptr + original_size,
                )[j] by {
                    assert(self.bytes()[addr + j] == old(self).bytes()[original_ptr + j]);
                }
                assert(self.bytes().subrange(addr as int, addr + original_size) =~= old(
                    self,
                ).bytes().subrange(original_ptr as int, original_ptr + original_size));
                assert(self.bytes().subrange(0, old(self).bytes().len() as int) =~= old(
                    self,
                ).bytes());
            }
            let ghost h2 = *self;
            self.canonical_abi_free(original_ptr, original_size, alignment);
            proof {
                assert(self.bytes() == h2.bytes());
                assert(self.allocs() == h2.allocs().remove(i0));
                assert(self.bytes().subrange(addr as int, addr + original_size) == h2
                    .bytes().subrange(addr as int, addr + original_size));
                assert(self.bytes().subrange(0, old(self).bytes().len() as int) == h2
                    .bytes().subrange(0, old(self).bytes().len() as int));
                assert(self.allocs() =~= old(self).allocs().remove(i0).push(rec)) by {
                    old(self).allocs().push(rec).remove_ensures(i0);
                    old(self).allocs().remove_ensures(i0);
                }
                assert(self.allocs()[self.allocs().len() - 1] == rec);
                self.lemma_index_of_rec(self.allocs().len() - 1);
            }
        } else {
            proof {
                assert(self.bytes().subrange(0, old(self).bytes().len() as int) =~= old(
                    self,
                ).bytes());
            }
        }
        addr
    }

    /// Releases a guest-owned region: the canonical-ABI free entry point.
    /// A zero-size free is a no-op for any address and alignment; otherwise
    /// the `(address, size, alignment)` triple must match a live allocation,
    /// whose record is dropped. The bytes of memory are never changed.
    pub fn canonical_abi_free(&mut self, ptr: usize, size: usize, alignment: usize)
        requires
            old(self).wf(),
            size > 0 ==> old(self).is_live(ptr as int, size as int, alignment as int),
        ensures
            final(self).wf(),
            final(self).bytes() == old(self).bytes(),
            size == 0 ==> final(self).allocs() == old(self).allocs(),
            size > 0 ==> final(self).allocs() == old(self).allocs().remove(
                old(self).alloc_index(ptr as int),
            ),
    {
        if size == 0 {
            return ;
        }
        proof {
            old(self).lemma_alloc_index(ptr as int);
        }
        let n = self.live.len();
        let mut i: usize = 0;
        while i < n
            invariant
                i <= n,
                n == self.allocs().len(),
                old(self).wf(),
                old(self).is_live(ptr as int, size as int, alignment as int),
                self.allocs() == old(self).allocs(),
                self.bytes() == old(self).bytes(),
                forall|j: int| 0 <= j < i ==> (#[trigger] self.allocs()[j]).addr != ptr,
            decreases n - i,
        {
            if self.live[i].addr == ptr {
                proof {
                    old(self).lemma_alloc_index(ptr as int);
                    assert(old(self).allocs()[i as int].addr == ptr);
                    assert(i as int == old(self).alloc_index(ptr as int));
                }
                self.live.remove(i);
                proof {
                    let i0 = old(self).alloc_index(ptr as int);
                    let s = old(self).allocs();
                    s.remove_ensures(i0);
                    assert(self.allocs() == s.remove(i0));
                    assert forall|a: int|
                        0 <= a < self.allocs().len() implies (#[trigger] self.allocs()[a]).wf_in(
                        self.bytes().len() as int,
                    ) by {
                        if a < i0 {
                            assert(self.allocs()[a] == s[a]);
                        } else {
                            assert(self.allocs()[a] == s[a + 1]);
                        }
                        assert forall|b: int| 0 <= b < s.len() implies (#[trigger] s[b]).wf_in(
                            self.bytes().len() as int,
                        ) by {
                            assert(old(self).wf());
                        }
                    }
                    assert forall|a: int, b: int|
                        0 <= a < b < self.allocs().len() implies (#[trigger] self.allocs()[a]).addr
                        + self.allocs()[a].size <= (#[trigger] self.allocs()[b]).addr by {
                        let a0 = if a < i0 {
                            a
                        } else {
                            a + 1
                        };
                        let b0 = if b < i0 {
                            b
                        } else {
                            b + 1
                        };
                        assert(self.allocs()[a] == s[a0]);
                        assert(self.allocs()[b] == s[b0]);
                        assert(s[a0].addr + s[a0].size <= s[b0].addr);
                    }
                }
                return ;
            }
            i += 1;
        }
        proof {
            old(self).lemma_alloc_index(ptr as int);
            let i0 = old(self).alloc_index(ptr as int);
            assert(old(self).allocs()[i0].addr == ptr);
            assert(self.allocs()[i0].addr == ptr);
            assert(false);
        }
    }

    /// Writes `data` into the live allocation starting at `addr`, leaving
    /// every byte outside `[addr, addr + data.len())` unchanged.
    pub fn write_bytes(&mut self, addr: usize, data: &[u8])
        requires
            old(self).wf(),
            old(self).region_live(addr as int, data@.len() as int),
        ensures
            final(self).wf(),
            final(self).allocs() == old(self).allocs(),
            final(self).bytes().len() == old(self).bytes().len(),
            forall|j: int|
                0 <= j < data@.len() ==> #[trigger] final(self).bytes()[addr + j] == data@[j],
            forall|j: int|
                0 <= j < old(self).bytes().len() && !(addr <= j < addr + data@.len())
                    ==> #[trigger] final(self).bytes()[j] == old(self).bytes()[j],
    {
        proof {
            let i = choose|i: int|
                0 <= i < old(self).allocs().len() && (#[trigger] old(self).allocs()[i]).addr
                    == addr && data@.len() <= old(self).allocs()[i].size;
            assert(old(self).allocs()[i].wf_in(old(self).bytes().len() as int));
        }
        let len = data.len();
        let mut k: usize = 0;
        while k < len
            invariant
                k <= len,
                len == data@.len(),
                addr + len <= self.bytes().len(),
                self.bytes().len() == old(self).bytes().len(),
                self.bytes().len() <= MEM_LIMIT,
                self.allocs() == old(self).allocs(),
                forall|j: int| 0 <= j < k ==> #[trigger] self.bytes()[addr + j] == data@[j],
                forall|j: int|
                    0 <= j < self.bytes().len() && !(addr <= j < addr + k)
                        ==> #[trigger] self.bytes()[j] == old(self).bytes()[j],
            decreases len - k,
        {
            let b = data[k];
            self.mem[addr + k] = b;
            k += 1;
        }
    }

    /// Reads `len` bytes starting at `addr` out of the live allocation that
    /// starts there.
    pub fn read_bytes(&self, addr: usize, len: usize) -> (out: Vec<u8>)
        requires
            self.wf(),
            self.region_live(addr as int, len as int),
        ensures
            out@ == self.bytes().subrange(addr as int, addr + len),
    {
        proof {
            let i = choose|i: int|
                0 <= i < self.allocs().len() && (#[trigger] self.allocs()[i]).addr == addr && len
                    <= self.allocs()[i].size;
            assert(self.allocs()[i].wf_in(self.bytes().len() as int));
        }
        let mut out: Vec<u8> = Vec::new();
        let mut k: usize = 0;
        while k < len
            invariant
                k <= len,
                addr + len <= self.bytes().len(),
                self.bytes().len() <= MEM_LIMIT,
                out@.len() == k,
                forall|j: int| 0 <= j < k ==> #[trigger] out@[j] == self.bytes()[addr + j],
            decreases len - k,
        {
            out.push(self.mem[addr + k]);
            k += 1;
        }
        proof {
            assert(out@ =~= self.bytes().subrange(addr as int, addr + len));
        }
        out
    }
}

/// A multiple of eight is a multiple of every accepted alignment.
proof fn lemma_aligned_of_eight(x: int, a: int)
    requires
        0 <= x,
        x % 8 == 0,
        valid_alignment(a),
    ensures
        x % a == 0,
{
    lemma_fundamental_div_mod(x, 8);
    let q = x / 8;
    if a == 1 {
        lemma_mod_multiples_basic(x, 1);
    } else if a == 2 {
        assert(x == (4 * q) * 2);
        lemma_mod_multiples_basic(4 * q, 2);
    } else if a == 4 {
        assert(x == (2 * q) * 4);
        lemma_mod_multiples_basic(2 * q, 4);
    }
}

} // verus!
