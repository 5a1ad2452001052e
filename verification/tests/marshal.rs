use javy_plugin::heap::Heap;
use javy_plugin::marshal::{
    complete_call, invoke_with_fixed_host, invoke_with_reverse_host, release_arg, reverse_bytes,
    stage_arg, MarshalError,
};
use javy_plugin::wide::{read_wide, store_wide_response};

#[test]
fn reverse_host_round_trip() {
    let mut h = Heap::new();
    let r = invoke_with_reverse_host(&mut h, "com.example.Greeter", "greet", "hello");
    assert_eq!(r, Ok(String::from("olleh")));
    assert_eq!(h.live_count(), 0);
}

#[test]
fn empty_argument_round_trip() {
    let mut h = Heap::new();
    let r = invoke_with_reverse_host(&mut h, "m", "f", "");
    assert_eq!(r, Ok(String::new()));
    assert_eq!(h.live_count(), 0);
}

#[test]
fn invalid_text_decode_still_frees() {
    let mut h = Heap::new();
    let r = invoke_with_fixed_host(&mut h, "m", "f", "x", &[0x80, 0xFF]);
    assert_eq!(r, Err(MarshalError::InvalidText));
    assert_eq!(h.live_count(), 0);
}

#[test]
fn reverse_of_multibyte_text_fails_decode() {
    let mut h = Heap::new();
    let r = invoke_with_reverse_host(&mut h, "m", "f", "h\u{e9}llo");
    assert_eq!(r, Err(MarshalError::InvalidText));
    assert_eq!(h.live_count(), 0);
}

#[test]
fn fixed_host_valid_text() {
    let mut h = Heap::new();
    let r = invoke_with_fixed_host(&mut h, "m", "f", "ignored", b"pong");
    assert_eq!(r, Ok(String::from("pong")));
    assert_eq!(h.live_count(), 0);
}

#[test]
fn fixed_host_empty_response() {
    let mut h = Heap::new();
    let r = invoke_with_fixed_host(&mut h, "m", "f", "args", b"");
    assert_eq!(r, Ok(String::new()));
    assert_eq!(h.live_count(), 0);
}

#[test]
fn stage_empty_argument_placeholder() {
    let mut h = Heap::new();
    let b = stage_arg(&mut h, "").unwrap();
    assert_eq!(b.addr, 1);
    assert_eq!(b.len, 0);
    assert_eq!(h.live_count(), 0);
    release_arg(&mut h, b);
    assert_eq!(h.live_count(), 0);
}

#[test]
fn stage_and_release_argument() {
    let mut h = Heap::new();
    let b = stage_arg(&mut h, "data").unwrap();
    assert_eq!(b.len, 4);
    assert_eq!(h.read_bytes(b.addr, 4), b"data".to_vec());
    assert_eq!(h.live_count(), 1);
    release_arg(&mut h, b);
    assert_eq!(h.live_count(), 0);
}

#[test]
fn wide_pointer_little_endian_layout() {
    let mut h = Heap::new();
    let wide = store_wide_response(&mut h, b"abc");
    let desc = h.read_bytes(wide, 8);
    let p = u32::from_le_bytes([desc[0], desc[1], desc[2], desc[3]]);
    let l = u32::from_le_bytes([desc[4], desc[5], desc[6], desc[7]]);
    assert_eq!(l, 3);
    assert_eq!(&desc[4..8], &[3, 0, 0, 0]);
    assert_eq!(h.read_bytes(p as usize, 3), b"abc".to_vec());
    let (p2, l2) = read_wide(&h, wide);
    assert_eq!((p2, l2), (p, l));
}

#[test]
fn zero_length_response_uses_sentinel_address() {
    let mut h = Heap::new();
    let wide = store_wide_response(&mut h, b"");
    let (p, l) = read_wide(&h, wide);
    assert_eq!(p, 1);
    assert_eq!(l, 0);
    assert_eq!(h.live_count(), 1);
}

#[test]
fn complete_call_frees_payload_and_descriptor() {
    let mut h = Heap::new();
    let wide = store_wide_response(&mut h, b"result");
    assert_eq!(h.live_count(), 2);
    let r = complete_call(&mut h, wide);
    assert_eq!(r, Ok(String::from("result")));
    assert_eq!(h.live_count(), 0);
}

#[test]
fn complete_call_empty_payload() {
    let mut h = Heap::new();
    let wide = store_wide_response(&mut h, b"");
    assert_eq!(h.live_count(), 1);
    let r = complete_call(&mut h, wide);
    assert_eq!(r, Ok(String::new()));
    assert_eq!(h.live_count(), 0);
}

#[test]
fn hand_built_response_decodes() {
    let mut h = Heap::new();
    let payload = h.canonical_abi_realloc(0, 0, 1, 2);
    h.write_bytes(payload, b"ok");
    let wide = h.canonical_abi_realloc(0, 0, 1, 8);
    let mut desc = (payload as u32).to_le_bytes().to_vec();
    desc.extend_from_slice(&2u32.to_le_bytes());
    h.write_bytes(wide, &desc);
    let r = complete_call(&mut h, wide);
    assert_eq!(r, Ok(String::from("ok")));
    assert_eq!(h.live_count(), 0);
}

#[test]
fn reverse_bytes_reverses() {
    assert_eq!(reverse_bytes(&[1, 2, 3]), vec![3, 2, 1]);
    assert_eq!(reverse_bytes(&[]), Vec::<u8>::new());
    assert_eq!(reverse_bytes(&[9]), vec![9]);
}
