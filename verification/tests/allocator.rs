use javy_plugin::heap::Heap;

#[test]
fn alloc_roundtrip_all_alignments() {
    let aligns: [usize; 4] = [1, 2, 4, 8];
    for &a in aligns.iter() {
        let mut h = Heap::new();
        let addr = h.canonical_abi_realloc(0, 0, a, 16);
        assert_ne!(addr, 0);
        assert_ne!(addr, 1);
        assert_eq!(addr % a, 0);
        let pattern: Vec<u8> = (0u8..16).collect();
        h.write_bytes(addr, &pattern);
        let back = h.read_bytes(addr, 16);
        assert_eq!(back, pattern);
        h.canonical_abi_free(addr, 16, a);
        assert_eq!(h.live_count(), 0);
    }
}

#[test]
fn zero_size_sentinel() {
    for &a in [1usize, 2, 4, 8].iter() {
        let mut h = Heap::new();
        let addr = h.canonical_abi_realloc(0, 0, a, 0);
        assert_eq!(addr, 1);
        let before = h.memory_size();
        h.canonical_abi_free(addr, 0, a);
        h.canonical_abi_free(12345, 0, a);
        assert_eq!(h.live_count(), 0);
        assert_eq!(h.memory_size(), before);
    }
}

#[test]
fn growth_copy_preserves_prefix() {
    let mut h = Heap::new();
    let addr = h.canonical_abi_realloc(0, 0, 1, 4);
    h.write_bytes(addr, &[0xDE, 0xAD, 0xBE, 0xEF]);
    let new_addr = h.canonical_abi_realloc(addr, 4, 1, 10);
    assert_ne!(new_addr, addr);
    let back = h.read_bytes(new_addr, 4);
    assert_eq!(back, vec![0xDE, 0xAD, 0xBE, 0xEF]);
    assert_eq!(h.live_count(), 1);
    h.canonical_abi_free(new_addr, 10, 1);
    assert_eq!(h.live_count(), 0);
}

#[test]
fn growth_leaves_other_buffers_intact() {
    let mut h = Heap::new();
    let a = h.canonical_abi_realloc(0, 0, 4, 3);
    h.write_bytes(a, &[7, 8, 9]);
    let b = h.canonical_abi_realloc(0, 0, 1, 2);
    h.write_bytes(b, &[1, 2]);
    let b2 = h.canonical_abi_realloc(b, 2, 1, 5);
    assert_eq!(h.read_bytes(a, 3), vec![7, 8, 9]);
    assert_eq!(h.read_bytes(b2, 2), vec![1, 2]);
    assert_eq!(h.live_count(), 2);
    h.canonical_abi_free(b2, 5, 1);
    h.canonical_abi_free(a, 3, 4);
    assert_eq!(h.live_count(), 0);
}

#[test]
fn fresh_allocations_are_distinct() {
    let mut h = Heap::new();
    let a = h.canonical_abi_realloc(0, 0, 8, 1);
    let b = h.canonical_abi_realloc(0, 0, 8, 1);
    let c = h.canonical_abi_realloc(0, 0, 8, 1);
    assert_ne!(a, b);
    assert_ne!(b, c);
    assert_ne!(a, c);
    assert_eq!(h.live_count(), 3);
    h.canonical_abi_free(b, 1, 8);
    assert_eq!(h.live_count(), 2);
    h.canonical_abi_free(a, 1, 8);
    h.canonical_abi_free(c, 1, 8);
    assert_eq!(h.live_count(), 0);
}
