//! The invocation marshaller: stages argument strings as raw byte buffers for
//! the host to read, decodes the wide-pointer response into an owned text
//! value, and frees every buffer exactly once — payload first, descriptor
//! second — on the success path and on the decode-error path alike.

use crate::heap::{AllocRec, Heap, MEM_LIMIT, ZERO_SIZE_PTR};
use crate::wide::{
    response_payload, response_wf, read_wide, store_wide_response, wide_data_addr, wide_data_len,
};
use vstd::prelude::*;
use vstd::string::StringSliceAdditionalSpecFns;
use vstd::utf8::{decode_utf8, encode_utf8, encode_utf8_decode_utf8, valid_utf8};

verus! {

/// Why a single invocation failed. The allocator itself has no recoverable
/// failure: a request that cannot fit the 32-bit boundary address space is
/// reported here by the marshaller before any buffer is touched.
#[derive(Clone, Copy, Debug, PartialEq, Eq, Structural)]
pub enum MarshalError {
    /// The response payload was not valid text.
    InvalidText,
    /// The argument buffers and response cannot fit in the address space.
    OutOfMemory,
}

/// A staged argument: the address and byte length handed to the host as a
/// pair of plain call arguments. An empty argument is not allocated; its
/// address is a non-null placeholder the host must not dereference.
#[derive(Clone, Copy, Debug, PartialEq, Eq, Structural)]
pub struct ArgBuffer {
    pub addr: usize,
    pub len: usize,
}

/// Relies on core::str::from_utf8: it returns `Ok` exactly when the bytes
/// are valid UTF-8, and the returned string slice is then backed by exactly
/// the input bytes.
#[verifier::external_body]
fn checked_utf8(bytes: &[u8]) -> (r: Option<&str>)
    ensures
        match r {
            Some(s) => valid_utf8(bytes@) && s.spec_bytes() == bytes@,
            None => !valid_utf8(bytes@),
        },
{
    core::str::from_utf8(bytes).ok()
}

/// Copies `data` into a fresh guest buffer of alignment 1 so the host can
/// read it; empty data is represented by the placeholder address with no
/// allocation at all.
pub fn stage_bytes(h: &mut Heap, data: &[u8]) -> (b: ArgBuffer)
    requires
        old(h).wf(),
        old(h).bytes().len() + data@.len() + 7 <= MEM_LIMIT,
    ensures
        final(h).wf(),
        b.len == data@.len(),
        final(h).bytes().subrange(0, old(h).bytes().len() as int) == old(h).bytes(),
        old(h).bytes().len() <= final(h).bytes().len(),
        final(h).bytes().len() <= old(h).bytes().len() + data@.len() + 7,
        data@.len() == 0 ==> b.addr == ZERO_SIZE_PTR && final(h).bytes() == old(h).bytes()
            && final(h).allocs() == old(h).allocs(),
        data@.len() > 0 ==> ({
            &&& old(h).bytes().len() <= b.addr
            &&& b.addr + b.len <= final(h).bytes().len()
            &&& final(h).is_live(b.addr as int, b.len as int, 1)
            &&& final(h).bytes().subrange(b.addr as int, b.addr + b.len) == data@
            &&& final(h).allocs() == old(h).allocs().push(
                (AllocRec { addr: b.addr, size: b.len, align: 1 }),
            )
        }),
{
    let len = data.len();
    if len == 0 {
        proof {
            assert(h.bytes().subrange(0, old(h).bytes().len() as int) =~= old(h).bytes());
        }
        return ArgBuffer { addr: ZERO_SIZE_PTR, len: 0 };
    }
    let addr = h.canonical_abi_realloc(0, 0, 1, len);
    proof {
        h.lemma_alloc_index(addr as int);
        assert(h.region_live(addr as int, len as int));
    }
    h.write_bytes(addr, data);
    proof {
        assert forall|j: int|
            0 <= j < len implies #[trigger] h.bytes().subrange(addr as int, addr + len)[j]
            == data@[j] by {
            assert(h.bytes().subrange(addr as int, addr + len)[j] == h.bytes()[addr + j]);
        }
        assert(h.bytes().subrange(addr as int, addr + len) =~= data@);
        assert forall|j: int|
            0 <= j < old(h).bytes().len() implies #[trigger] h.bytes().subrange(
            0,
            old(h).bytes().len() as int,
        )[j] == old(h).bytes()[j] by {
            assert(h.bytes().subrange(0, old(h).bytes().len() as int)[j] == h.bytes()[j]);
            assert(h.bytes()[j] == old(h).bytes()[j]);
        }
        assert(h.bytes().subrange(0, old(h).bytes().len() as int) =~= old(h).bytes());
    }
    ArgBuffer { addr, len }
}

/// Stages one text argument, encoded as its raw UTF-8 bytes with the length
/// travelling alongside; refuses, changing nothing, when the bytes cannot fit
/// the boundary address space.
pub fn stage_arg(h: &mut Heap, text: &str) -> (r: Option<ArgBuffer>)
    requires
        old(h).wf(),
    ensures
        final(h).wf(),
        match r {
            Some(b) => {
                &&& b.len == encode_utf8(text@).len()
                &&& final(h).bytes().subrange(0, old(h).bytes().len() as int) == old(h).bytes()
                &&& final(h).bytes().len() <= old(h).bytes().len() + encode_utf8(text@).len() + 7
                &&& (b.len == 0 ==> b.addr == ZERO_SIZE_PTR && final(h).bytes() == old(h).bytes()
                    && final(h).allocs() == old(h).allocs())
                &&& (b.len > 0 ==> {
                    &&& old(h).bytes().len() <= b.addr
                    &&& final(h).is_live(b.addr as int, b.len as int, 1)
                    &&& final(h).bytes().subrange(b.addr as int, b.addr + b.len) == encode_utf8(
                        text@,
                    )
                    &&& final(h).allocs() == old(h).allocs().push(
                        (AllocRec { addr: b.addr, size: b.len, align: 1 }),
                    )
                })
            },
            None => {
                &&& final(h).bytes() == old(h).bytes()
                &&& final(h).allocs() == old(h).allocs()
                &&& old(h).bytes().len() + encode_utf8(text@).len() + 7 > MEM_LIMIT
            },
        },
{
    let bytes = text.as_bytes();
    proof {
        assert(bytes@ == encode_utf8(text@));
    }
    let size0 = h.memory_size();
    if size0 <= MEM_LIMIT - 7 && bytes.len() <= MEM_LIMIT - 7 - size0 {
        Some(stage_bytes(h, bytes))
    } else {
        None
    }
}

/// Releases a staged argument buffer after the call has returned; an empty
/// argument was never allocated, so releasing it is a no-op.
pub fn release_arg(h: &mut Heap, b: ArgBuffer)
    requires
        old(h).wf(),
        b.len > 0 ==> old(h).is_live(b.addr as int, b.len as int, 1),
    ensures
        final(h).wf(),
        final(h).bytes() == old(h).bytes(),
        b.len == 0 ==> final(h).allocs() == old(h).allocs(),
        b.len > 0 ==> final(h).allocs() == old(h).allocs().remove(
            old(h).alloc_index(b.addr as int),
        ),
{
    h.canonical_abi_free(b.addr, b.len, 1);
}

/// Reverses a byte string; the reference host used by the round-trip checks
/// answers with the argument bytes in reverse order.
pub fn reverse_bytes(data: &[u8]) -> (r: Vec<u8>)
    ensures
        r@ == data@.reverse(),
{
    let n = data.len();
    let mut r: Vec<u8> = Vec::new();
    let mut k: usize = 0;
    while k < n
        invariant
            k <= n,
            n == data@.len(),
            r@.len() == k,
            forall|j: int| 0 <= j < k ==> #[trigger] r@[j] == data@[n - 1 - j],
        decreases n - k,
    {
        r.push(data[n - 1 - k]);
        k += 1;
    }
    proof {
        assert(r@ =~= data@.reverse());
    }
    r
}

/// Decodes the wide-pointer response at `wide` and returns the payload as an
/// owned text value, or a decode error when the payload is not valid UTF-8.
/// On both paths the payload buffer is freed first and the descriptor buffer
/// second, each exactly once, and no byte of memory is changed.
pub fn complete_call(h: &mut Heap, wide: usize) -> (r: Result<String, MarshalError>)
    requires
        old(h).wf(),
        response_wf(*old(h), wide as int),
    ensures
        final(h).wf(),
        final(h).bytes() == old(h).bytes(),
        ({
            let p = wide_data_addr(old(h).bytes(), wide as int) as int;
            let l = wide_data_len(old(h).bytes(), wide as int) as int;
            let payload = response_payload(old(h).bytes(), wide as int);
            &&& (l == 0 ==> final(h).allocs() == old(h).allocs().remove(
                old(h).alloc_index(wide as int),
            ))
            &&& (l > 0 ==> ({
                let ip = old(h).alloc_index(p);
                let iw0 = old(h).alloc_index(wide as int);
                let iw = if iw0 <= ip {
                    iw0
                } else {
                    iw0 - 1
                };
                final(h).allocs() == old(h).allocs().remove(ip).remove(iw)
            }))
            &&& match r {
                Ok(s) => valid_utf8(payload) && s@ == decode_utf8(payload),
                Err(e) => !valid_utf8(payload) && e == MarshalError::InvalidText,
            }
        }),
{
    proof {
        old(h).lemma_alloc_index(wide as int);
        assert(old(h).region_live(wide as int, 8));
    }
    let (p32, l32) = read_wide(h, wide);
    let p = p32 as usize;
    let l = l32 as usize;
    let ghost ip = old(h).alloc_index(p as int);
    let ghost iw0 = old(h).alloc_index(wide as int);
    let mut payload: Vec<u8> = Vec::new();
    if l > 0 {
        proof {
            h.lemma_alloc_index(p as int);
            assert(h.region_live(p as int, l as int));
        }
        payload = h.read_bytes(p, l);
    }
    proof {
        assert(payload@ == response_payload(old(h).bytes(), wide as int));
    }
    h.canonical_abi_free(p, l, 1);
    let ghost h1 = *h;
    proof {
        if l > 0 {
            old(h).lemma_alloc_index(p as int);
            old(h).allocs().remove_ensures(ip);
            let j = if iw0 <= ip {
                iw0
            } else {
                iw0 - 1
            };
            assert(h1.allocs()[j] == old(h).allocs()[iw0]);
            h1.lemma_index_of_rec(j);
            assert(h1.is_live(wide as int, 8, 1));
            assert(h1.alloc_index(wide as int) == j);
        }
    }
    h.canonical_abi_free(wide, 8, 1);
    match checked_utf8(payload.as_slice()) {
        Some(s) => {
            proof {
                encode_utf8_decode_utf8(s@);
            }
            Ok(s.to_owned())
        },
        None => Err(MarshalError::InvalidText),
    }
}


/// The most recent allocation can be released again, restoring the list.
proof fn lemma_push_remove_last(s: Seq<AllocRec>, x: AllocRec)
    ensures
        s.push(x).remove(s.len() as int) == s,
{
    let n = s.len() as int;
    s.push(x).remove_ensures(n);
    assert(s.push(x).remove(n) =~= s);
}

/// Two allocations made in turn can be released first-first, restoring the
/// list.
proof fn lemma_push2_remove2(s: Seq<AllocRec>, x: AllocRec, y: AllocRec)
    ensures
        s.push(x).push(y).remove(s.len() as int).remove(s.len() as int) == s,
{
    let n = s.len() as int;
    let t = s.push(x).push(y);
    t.remove_ensures(n);
    assert(t.remove(n) =~= s.push(y));
    lemma_push_remove_last(s, y);
}

/// The host's answer and the guest's cleanup, shared by every reference
/// host: builds the wide-pointer response over `response`, decodes it, and
/// releases the three staged argument buffers. The ghost snapshots describe
/// how the arguments were staged; afterwards exactly the allocations of the
/// initial snapshot are live again and its bytes keep their values.
#[verifier::rlimit(100)]
fn finish_with_response(
    h: &mut Heap,
    bm: ArgBuffer,
    bn: ArgBuffer,
    ba: ArgBuffer,
    response: &[u8],
    Ghost(h0): Ghost<Heap>,
    Ghost(h_a): Ghost<Heap>,
    Ghost(h_b): Ghost<Heap>,
) -> (r: Result<String, MarshalError>)
    requires
        old(h).wf(),
        old(h).bytes().len() + response@.len() + 22 <= MEM_LIMIT,
        h0.bytes().len() <= h_a.bytes().len(),
        h_a.bytes().len() <= h_b.bytes().len(),
        h_b.bytes().len() <= old(h).bytes().len(),
        bm.len == 0 ==> h_a.allocs() == h0.allocs(),
        bm.len > 0 ==> h_a.allocs() == h0.allocs().push(
            (AllocRec { addr: bm.addr, size: bm.len, align: 1 }),
        ),
        bn.len == 0 ==> h_b.allocs() == h_a.allocs(),
        bn.len > 0 ==> h_b.allocs() == h_a.allocs().push(
            (AllocRec { addr: bn.addr, size: bn.len, align: 1 }),
        ),
        ba.len == 0 ==> old(h).allocs() == h_b.allocs(),
        ba.len > 0 ==> old(h).allocs() == h_b.allocs().push(
            (AllocRec { addr: ba.addr, size: ba.len, align: 1 }),
        ),
        h_a.bytes().subrange(0, h0.bytes().len() as int) == h0.bytes(),
        h_b.bytes().subrange(0, h_a.bytes().len() as int) == h_a.bytes(),
        old(h).bytes().subrange(0, h_b.bytes().len() as int) == h_b.bytes(),
    ensures
        final(h).wf(),
        final(h).allocs() == h0.allocs(),
        final(h).bytes().subrange(0, h0.bytes().len() as int) == h0.bytes(),
        match r {
            Ok(s) => valid_utf8(response@) && s@ == decode_utf8(response@),
            Err(e) => e == MarshalError::InvalidText && !valid_utf8(response@),
        },
{
    let wide = store_wide_response(h, response);
    let ghost h_d = *h;
    let ghost pv = wide_data_addr(h_d.bytes(), wide as int) as usize;
    let res = complete_call(h, wide);
    let ghost h_e = *h;
    proof {
        assert(response_payload(h_d.bytes(), wide as int) == response@);
        let nc = old(h).allocs().len() as int;
        if response@.len() > 0 {
            let rp = AllocRec { addr: pv, size: response@.len() as usize, align: 1 };
            let rw = AllocRec { addr: wide, size: 8, align: 1 };
            assert(h_d.allocs() == old(h).allocs().push(rp).push(rw));
            assert(h_d.allocs()[nc] == rp);
            assert(h_d.allocs()[nc + 1] == rw);
            h_d.lemma_index_of_rec(nc);
            h_d.lemma_index_of_rec(nc + 1);
            assert(h_d.alloc_index(pv as int) == nc);
            assert(h_d.alloc_index(wide as int) == nc + 1);
            lemma_push2_remove2(old(h).allocs(), rp, rw);
            assert(h_e.allocs() == old(h).allocs());
        } else {
            let rw = AllocRec { addr: wide, size: 8, align: 1 };
            assert(h_d.allocs() == old(h).allocs().push(rw));
            assert(h_d.allocs()[nc] == rw);
            h_d.lemma_index_of_rec(nc);
            lemma_push_remove_last(old(h).allocs(), rw);
            assert(h_e.allocs() == old(h).allocs());
        }
        assert(h_e.bytes() == h_d.bytes());
        if ba.len > 0 {
            let ra = AllocRec { addr: ba.addr, size: ba.len, align: 1 };
            assert(h_e.allocs() == h_b.allocs().push(ra));
            assert(h_e.allocs()[h_b.allocs().len() as int] == ra);
            h_e.lemma_index_of_rec(h_b.allocs().len() as int);
        }
    }
    release_arg(h, ba);
    let ghost h_f = *h;
    proof {
        if ba.len > 0 {
            lemma_push_remove_last(
                h_b.allocs(),
                AllocRec { addr: ba.addr, size: ba.len, align: 1 },
            );
        }
        assert(h_f.allocs() == h_b.allocs());
        if bn.len > 0 {
            let rn = AllocRec { addr: bn.addr, size: bn.len, align: 1 };
            assert(h_f.allocs() == h_a.allocs().push(rn));
            assert(h_f.allocs()[h_a.allocs().len() as int] == rn);
            h_f.lemma_index_of_rec(h_a.allocs().len() as int);
        }
    }
    release_arg(h, bn);
    let ghost h_g = *h;
    proof {
        if bn.len > 0 {
            lemma_push_remove_last(
                h_a.allocs(),
                AllocRec { addr: bn.addr, size: bn.len, align: 1 },
            );
        }
        assert(h_g.allocs() == h_a.allocs());
        if bm.len > 0 {
            let rm = AllocRec { addr: bm.addr, size: bm.len, align: 1 };
            assert(h_g.allocs() == h0.allocs().push(rm));
            assert(h_g.allocs()[h0.allocs().len() as int] == rm);
            h_g.lemma_index_of_rec(h0.allocs().len() as int);
        }
    }
    release_arg(h, bm);
    proof {
        if bm.len > 0 {
            lemma_push_remove_last(h0.allocs(), AllocRec { addr: bm.addr, size: bm.len, align: 1 });
        }
        assert(h.allocs() == h0.allocs());
        assert(h.bytes() == h_d.bytes());
        assert forall|j: int|
            0 <= j < h0.bytes().len() implies #[trigger] h.bytes().subrange(
            0,
            h0.bytes().len() as int,
        )[j] == h0.bytes()[j] by {
            assert(h.bytes().subrange(0, h0.bytes().len() as int)[j] == h.bytes()[j]);
            assert(h_d.bytes().subrange(0, old(h).bytes().len() as int)[j] == h_d.bytes()[j]);
            assert(old(h).bytes().subrange(0, h_b.bytes().len() as int)[j] == old(h).bytes()[j]);
            assert(h_b.bytes().subrange(0, h_a.bytes().len() as int)[j] == h_b.bytes()[j]);
            assert(h_a.bytes().subrange(0, h0.bytes().len() as int)[j] == h_a.bytes()[j]);
        }
        assert(h.bytes().subrange(0, h0.bytes().len() as int) =~= h0.bytes());
    }
    res
}

/// Carries one full invocation against a reference host that answers any
/// request with the raw bytes of the `args` string in reverse order: stages
/// the three argument strings, lets the host read the argument buffer out of
/// guest memory and build its wide-pointer response over the reversed bytes,
/// decodes the response, and releases every buffer. Afterwards exactly the
/// allocations that were live before are live again — nothing leaks and
/// nothing is freed twice, on the success path and on the decode-error path
/// alike — and every old byte of memory keeps its value.
#[verifier::rlimit(50)]
pub fn invoke_with_reverse_host(h: &mut Heap, module: &str, name: &str, args: &str) -> (r: Result<
    String,
    MarshalError,
>)
    requires
        old(h).wf(),
    ensures
        final(h).wf(),
        final(h).allocs() == old(h).allocs(),
        final(h).bytes().subrange(0, old(h).bytes().len() as int) == old(h).bytes(),
        ({
            let m = encode_utf8(module@).len();
            let n = encode_utf8(name@).len();
            let a = encode_utf8(args@).len();
            let resp = encode_utf8(args@).reverse();
            &&& ((r matches Err(e) && e == MarshalError::OutOfMemory) <==> old(h).bytes().len() + m
                + n + 2 * a + 43 > MEM_LIMIT)
            &&& (old(h).bytes().len() + m + n + 2 * a + 43 <= MEM_LIMIT ==> match r {
                Ok(s) => valid_utf8(resp) && s@ == decode_utf8(resp),
                Err(e) => e == MarshalError::InvalidText && !valid_utf8(resp),
            })
        }),
{
    let mb = module.as_bytes();
    let nb = name.as_bytes();
    let ab = args.as_bytes();
    proof {
        assert(mb@ == encode_utf8(module@));
        assert(nb@ == encode_utf8(name@));
        assert(ab@ == encode_utf8(args@));
        assert(h.bytes().subrange(0, old(h).bytes().len() as int) =~= old(h).bytes());
    }
    let size0 = h.memory_size();
    let mut budget: usize = MEM_LIMIT - size0;
    if mb.len() > budget {
        return Err(MarshalError::OutOfMemory);
    }
    budget = budget - mb.len();
    if nb.len() > budget {
        return Err(MarshalError::OutOfMemory);
    }
    budget = budget - nb.len();
    if ab.len() > budget {
        return Err(MarshalError::OutOfMemory);
    }
    budget = budget - ab.len();
    if ab.len() > budget {
        return Err(MarshalError::OutOfMemory);
    }
    budget = budget - ab.len();
    if budget < 43 {
        return Err(MarshalError::OutOfMemory);
    }
    let bm = stage_bytes(h, mb);
    let ghost h_a = *h;
    let bn = stage_bytes(h, nb);
    let ghost h_b = *h;
    let ba = stage_bytes(h, ab);
    // Host side: read the argument bytes back out of guest memory.
    let mut input: Vec<u8> = Vec::new();
    if ba.len > 0 {
        proof {
            h.lemma_alloc_index(ba.addr as int);
            assert(h.region_live(ba.addr as int, ba.len as int));
        }
        input = h.read_bytes(ba.addr, ba.len);
    }
    proof {
        assert(input@ =~= ab@);
    }
    let rev = reverse_bytes(input.as_slice());
    proof {
        assert(rev@ == encode_utf8(args@).reverse());
        assert(h.bytes().len() + rev@.len() + 22 <= MEM_LIMIT);
    }
    finish_with_response(h, bm, bn, ba, rev.as_slice(), Ghost(*old(h)), Ghost(h_a), Ghost(h_b))
}

/// Carries one full invocation against a host that ignores its arguments and
/// answers with the fixed byte string `response`: the same staging, decoding
/// and releasing as with any host. Afterwards exactly the allocations that
/// were live before are live again and every old byte keeps its value; the
/// call succeeds exactly when `response` is valid UTF-8.
#[verifier::rlimit(50)]
pub fn invoke_with_fixed_host(
    h: &mut Heap,
    module: &str,
    name: &str,
    args: &str,
    response: &[u8],
) -> (r: Result<String, MarshalError>)
    requires
        old(h).wf(),
    ensures
        final(h).wf(),
        final(h).allocs() == old(h).allocs(),
        final(h).bytes().subrange(0, old(h).bytes().len() as int) == old(h).bytes(),
        ({
            let m = encode_utf8(module@).len();
            let n = encode_utf8(name@).len();
            let a = encode_utf8(args@).len();
            &&& ((r matches Err(e) && e == MarshalError::OutOfMemory) <==> old(h).bytes().len() + m
                + n + a + response@.len() + 43 > MEM_LIMIT)
            &&& (old(h).bytes().len() + m + n + a + response@.len() + 43 <= MEM_LIMIT ==> match r {
                Ok(s) => valid_utf8(response@) && s@ == decode_utf8(response@),
                Err(e) => e == MarshalError::InvalidText && !valid_utf8(response@),
            })
        }),
{
    let mb = module.as_bytes();
    let nb = name.as_bytes();
    let ab = args.as_bytes();
    proof {
        assert(mb@ == encode_utf8(module@));
        assert(nb@ == encode_utf8(name@));
        assert(ab@ == encode_utf8(args@));
        assert(h.bytes().subrange(0, old(h).bytes().len() as int) =~= old(h).bytes());
    }
    let size0 = h.memory_size();
    let mut budget: usize = MEM_LIMIT - size0;
    if mb.len() > budget {
        return Err(MarshalError::OutOfMemory);
    }
    budget = budget - mb.len();
    if nb.len() > budget {
        return Err(MarshalError::OutOfMemory);
    }
    budget = budget - nb.len();
    if ab.len() > budget {
        return Err(MarshalError::OutOfMemory);
    }
    budget = budget - ab.len();
    if response.len() > budget {
        return Err(MarshalError::OutOfMemory);
    }
    budget = budget - response.len();
    if budget < 43 {
        return Err(MarshalError::OutOfMemory);
    }
    let bm = stage_bytes(h, mb);
    let ghost h_a = *h;
    let bn = stage_bytes(h, nb);
    let ghost h_b = *h;
    let ba = stage_bytes(h, ab);
    proof {
        assert(h.bytes().len() + response@.len() + 22 <= MEM_LIMIT);
    }
    finish_with_response(h, bm, bn, ba, response, Ghost(*old(h)), Ghost(h_a), Ghost(h_b))
}

} // verus!
