use geohash::{deinterleave_bits, interleave_bits};

#[test]
fn interleave_places_bits_alternately() {
    assert_eq!(interleave_bits(0, 0), 0);
    assert_eq!(interleave_bits(1, 0), 1);
    assert_eq!(interleave_bits(0, 1), 2);
    assert_eq!(interleave_bits(0b11, 0b01), 0b0111);
    assert_eq!(interleave_bits(u32::MAX, 0), 0x5555555555555555);
    assert_eq!(interleave_bits(0, u32::MAX), 0xaaaaaaaaaaaaaaaa);
}

#[test]
fn deinterleave_inverts_interleave() {
    let values = [0u32, 1, 2, 0xdeadbeef, 0x12345678, u32::MAX, 0x80000000];
    for &a in &values {
        for &b in &values {
            assert_eq!(deinterleave_bits(interleave_bits(a, b)), (a, b));
        }
    }
    let (lat, lon) = deinterleave_bits(0xd041075c4b25766);
    assert_eq!(interleave_bits(lat, lon), 0xd041075c4b25766);
    assert_eq!(deinterleave_bits(0b0111), (0b11, 0b01));
}
