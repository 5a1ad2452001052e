//! The wide pointer: the fixed 8-byte descriptor `[data_address: u32,
//! data_length: u32]`, little-endian, through which the host hands a
//! variable-length response back to the guest.
//!
//! The descriptor is itself a guest-owned buffer of length 8 and alignment 1;
//! it describes, but does not own, a second buffer holding the payload. Both
//! are freed independently by the reader.

use crate::heap::{AllocRec, Heap, MEM_LIMIT, ZERO_SIZE_PTR};
use vstd::bytes::{
    lemma_auto_spec_u32_to_from_le_bytes, spec_u32_from_le_bytes, spec_u32_to_le_bytes,
    u32_from_le_bytes, u32_to_le_bytes,
};
use vstd::prelude::*;
use vstd::slice::slice_subrange;

verus! {

/// The data address carried by the wide-pointer descriptor at `wide`.
pub open spec fn wide_data_addr(mem: Seq<u8>, wide: int) -> u32 {
    spec_u32_from_le_bytes(mem.subrange(wide, wide + 4))
}

/// The data length carried by the wide-pointer descriptor at `wide`.
pub open spec fn wide_data_len(mem: Seq<u8>, wide: int) -> u32 {
    spec_u32_from_le_bytes(mem.subrange(wide + 4, wide + 8))
}

/// The payload bytes the wide-pointer descriptor at `wide` refers to; a
/// zero-length response carries no payload and its data address is not read.
pub open spec fn response_payload(mem: Seq<u8>, wide: int) -> Seq<u8> {
    if wide_data_len(mem, wide) == 0 {
        Seq::empty()
    } else {
        mem.subrange(
            wide_data_addr(mem, wide) as int,
            wide_data_addr(mem, wide) + wide_data_len(mem, wide),
        )
    }
}

/// The wide pointer at `wide` describes a well-formed response: the
/// descriptor is a live 8-byte buffer of alignment 1 and, when the payload is
/// nonempty, the payload is a separate live buffer of alignment 1.
pub open spec fn response_wf(h: Heap, wide: int) -> bool {
    &&& h.is_live(wide, 8, 1)
    &&& (wide_data_len(h.bytes(), wide) > 0 ==> {
        let p = wide_data_addr(h.bytes(), wide) as int;
        let l = wide_data_len(h.bytes(), wide) as int;
        &&& h.is_live(p, l, 1)
        &&& p != wide
    })
}

/// Reads the two words of the wide-pointer descriptor at `wide`.
pub fn read_wide(h: &Heap, wide: usize) -> (r: (u32, u32))
    requires
        h.wf(),
        h.region_live(wide as int, 8),
    ensures
        r.0 == wide_data_addr(h.bytes(), wide as int),
        r.1 == wide_data_len(h.bytes(), wide as int),
{
    let desc = h.read_bytes(wide, 8);
    let a = u32_from_le_bytes(slice_subrange(desc.as_slice(), 0, 4));
    let b = u32_from_le_bytes(slice_subrange(desc.as_slice(), 4, 8));
    proof {
        assert(desc@.subrange(0, 4) =~= h.bytes().subrange(wide as int, wide + 4));
        assert(desc@.subrange(4, 8) =~= h.bytes().subrange(wide + 4, wide + 8));
    }
    (a, b)
}

/// Builds a complete response in the heap: allocates a payload buffer holding
/// exactly `data` (the zero-size sentinel when `data` is empty), then
/// allocates an 8-byte wide-pointer descriptor over it and returns the
/// descriptor's address. This is the host's side of the response protocol,
/// and the guest's own side when it exports a buffer to the host.
pub fn store_wide_response(h: &mut Heap, data: &[u8]) -> (wide: usize)
    requires
        old(h).wf(),
        old(h).bytes().len() + data@.len() + 22 <= MEM_LIMIT,
    ensures
        final(h).wf(),
        old(h).bytes().len() <= wide,
        wide + 8 <= final(h).bytes().len(),
        final(h).bytes().len() <= old(h).bytes().len() + data@.len() + 15,
        final(h).bytes().subrange(0, old(h).bytes().len() as int) == old(h).bytes(),
        response_wf(*final(h), wide as int),
        wide_data_len(final(h).bytes(), wide as int) == data@.len(),
        response_payload(final(h).bytes(), wide as int) == data@,
        data@.len() == 0 ==> ({
            &&& wide_data_addr(final(h).bytes(), wide as int) == ZERO_SIZE_PTR
            &&& final(h).allocs() == old(h).allocs().push((AllocRec { addr: wide, size: 8, align: 1 }))
        }),
        data@.len() > 0 ==> ({
            let p = wide_data_addr(final(h).bytes(), wide as int) as usize;
            &&& old(h).bytes().len() <= p
            &&& p + data@.len() <= wide
            &&& final(h).allocs() == old(h).allocs().push(
                (AllocRec { addr: p, size: data@.len() as usize, align: 1 }),
            ).push((AllocRec { addr: wide, size: 8, align: 1 }))
        }),
{
    let l = data.len();
    let p = h.canonical_abi_realloc(0, 0, 1, l);
    if l > 0 {
        proof {
            h.lemma_alloc_index(p as int);
            assert(h.region_live(p as int, l as int));
        }
        h.write_bytes(p, data);
    }
    let ghost h2 = *h;
    proof {
        assert(h2.bytes().subrange(0, old(h).bytes().len() as int) == old(h).bytes());
        if l > 0 {
            assert forall|j: int| 0 <= j < l implies #[trigger] h2.bytes()[p + j] == data@[j] by {}
        }
    }
    let wide = h.canonical_abi_realloc(0, 0, 1, 8);
    let ghost h3 = *h;
    proof {
        assert(h3.bytes().subrange(0, h2.bytes().len() as int) == h2.bytes());
        assert forall|j: int| 0 <= j < h2.bytes().len() implies #[trigger] h3.bytes()[j]
            == h2.bytes()[j] by {
            assert(h3.bytes().subrange(0, h2.bytes().len() as int)[j] == h3.bytes()[j]);
        }
    }
    let mut desc = u32_to_le_bytes(p as u32);
    let mut len_bytes = u32_to_le_bytes(l as u32);
    desc.append(&mut len_bytes);
    proof {
        assert(desc@ == spec_u32_to_le_bytes(p as u32) + spec_u32_to_le_bytes(l as u32));
        assert(desc@.len() == 8);
        h.lemma_alloc_index(wide as int);
        assert(h.region_live(wide as int, 8));
    }
    h.write_bytes(wide, desc.as_slice());
    proof {
        lemma_auto_spec_u32_to_from_le_bytes();
        assert(p <= MEM_LIMIT);
        assert(l <= MEM_LIMIT);
        assert(p as u32 as usize == p);
        assert(l as u32 as usize == l);
        // Descriptor words decode to the two values just written.
        assert forall|j: int| 0 <= j < 8 implies #[trigger] h.bytes()[wide + j] == desc@[j] by {}
        assert forall|j: int|
            0 <= j < 4 implies #[trigger] h.bytes()[wide + j] == spec_u32_to_le_bytes(
            p as u32,
        )[j] by {
            assert(h.bytes()[wide + j] == desc@[j]);
            assert(desc@[j] == (spec_u32_to_le_bytes(p as u32) + spec_u32_to_le_bytes(
                l as u32,
            ))[j]);
            assert((spec_u32_to_le_bytes(p as u32) + spec_u32_to_le_bytes(l as u32))[j]
                == spec_u32_to_le_bytes(p as u32)[j]);
        }
        assert forall|j: int|
            0 <= j < 4 implies #[trigger] h.bytes()[wide + 4 + j] == spec_u32_to_le_bytes(
            l as u32,
        )[j] by {
            assert(h.bytes()[wide + (4 + j)] == desc@[4 + j]);
            assert(desc@[4 + j] == (spec_u32_to_le_bytes(p as u32) + spec_u32_to_le_bytes(
                l as u32,
            ))[4 + j]);
            assert((spec_u32_to_le_bytes(p as u32) + spec_u32_to_le_bytes(l as u32))[4 + j]
                == spec_u32_to_le_bytes(l as u32)[j]);
        }
        assert(wide + 8 <= h.bytes().len());
        assert forall|j: int|
            0 <= j < 4 implies #[trigger] h.bytes().subrange(wide as int, wide + 4)[j]
            == spec_u32_to_le_bytes(p as u32)[j] by {
            assert(h.bytes().subrange(wide as int, wide + 4)[j] == h.bytes()[wide + j]);
        }
        assert forall|j: int|
            0 <= j < 4 implies #[trigger] h.bytes().subrange(wide + 4, wide + 8)[j]
            == spec_u32_to_le_bytes(l as u32)[j] by {
            assert(h.bytes().subrange(wide + 4, wide + 8)[j] == h.bytes()[wide + 4 + j]);
        }
        assert(h.bytes().subrange(wide as int, wide + 4) =~= spec_u32_to_le_bytes(p as u32));
        assert(h.bytes().subrange(wide + 4, wide + 8) =~= spec_u32_to_le_bytes(l as u32));
        assert(wide_data_addr(h.bytes(), wide as int) == p as u32);
        assert(wide_data_len(h.bytes(), wide as int) == l as u32);
        // Bytes below the descriptor kept their values through the last write.
        assert forall|j: int| 0 <= j < wide implies #[trigger] h.bytes()[j] == h3.bytes()[j] by {}
        assert(h.bytes().subrange(0, old(h).bytes().len() as int) =~= old(h).bytes()) by {
            assert forall|j: int| 0 <= j < old(h).bytes().len() implies #[trigger] h.bytes()[j]
                == old(h).bytes()[j] by {
                assert(h.bytes()[j] == h3.bytes()[j]);
                assert(h3.bytes()[j] == h2.bytes()[j]);
                assert(h2.bytes().subrange(0, old(h).bytes().len() as int)[j] == h2.bytes()[j]);
            }
        }
        // The payload region kept its contents as well.
        if l > 0 {
            assert(p + l <= wide);
            assert(response_payload(h.bytes(), wide as int) =~= data@) by {
                assert(wide_data_addr(h.bytes(), wide as int) as int == p);
                assert(wide_data_len(h.bytes(), wide as int) as int == l);
                assert(p + l <= h.bytes().len());
                assert forall|j: int|
                    0 <= j < l implies #[trigger] h.bytes().subrange(p as int, p + l)[j]
                    == data@[j] by {
                    assert(h.bytes().subrange(p as int, p + l)[j] == h.bytes()[p + j]);
                    assert(h.bytes()[p + j] == h3.bytes()[p + j]);
                    assert(h3.bytes()[p + j] == h2.bytes()[p + j]);
                    assert(h2.bytes()[p + j] == data@[j]);
                }
                assert(h.bytes().subrange(p as int, p + l) =~= data@);
            }
            // Both records are live: the payload sits just below the
            // descriptor record at the end of the allocation list.
            let n = h.allocs().len();
            assert(h.allocs()[n - 1] == (AllocRec { addr: wide, size: 8, align: 1 }));
            assert(h.allocs()[n - 2] == (AllocRec { addr: p, size: l, align: 1 }));
            h.lemma_index_of_rec(n - 1);
            h.lemma_index_of_rec(n - 2);
            assert(response_wf(*h, wide as int));
        } else {
            assert(response_payload(h.bytes(), wide as int) =~= data@);
            let n = h.allocs().len();
            assert(h.allocs()[n - 1] == (AllocRec { addr: wide, size: 8, align: 1 }));
            h.lemma_index_of_rec(n - 1);
            assert(response_wf(*h, wide as int));
        }
    }
    wide
}

} // verus!
