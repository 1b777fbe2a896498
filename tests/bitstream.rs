use emfir::bitstream::BitStream;

#[test]
fn test_bitstream_basic() {
    let data = vec![0b10110001];
    let mut bs = BitStream::new(&data);

    // least significant bits first within the byte
    assert_eq!(bs.get_bits(3), 0b001);
    assert_eq!(bs.get_bits(3), 0b110);
    assert_eq!(bs.get_bits(2), 0b10);
    assert!(bs.no_bits_left());
}

#[test]
fn full_width_read_spans_five_bytes() {
    let data = vec![0x80, 0x01, 0x00, 0x00, 0x40];
    let mut bs = BitStream::new(&data);
    assert_eq!(bs.get_bits(7), 0);
    assert_eq!(bs.get_bits(32), 0x8000_0003);
    assert!(!bs.no_bits_left());
    assert!(bs.has_bits(1));
    assert!(!bs.has_bits(2));
    assert_eq!(bs.get_bits(1), 0);
    assert!(bs.no_bits_left());
}

#[test]
fn reads_across_byte_boundaries() {
    let data = vec![0xAB, 0xCD, 0xEF];
    let mut bs = BitStream::new(&data);
    assert_eq!(bs.get_bits(4), 0xB);
    assert_eq!(bs.get_bits(12), 0xCDA);
    assert_eq!(bs.get_bits(0), 0);
    assert_eq!(bs.get_bits(8), 0xEF);
    assert!(bs.no_bits_left());
    assert!(bs.has_bits(0));
    assert!(!bs.has_bits(1));
}

#[test]
fn fields_put_back_together_give_the_buffer() {
    let data: Vec<u8> = vec![0x12, 0x34, 0x56, 0x78, 0x9A, 0xBC, 0xDE];
    let widths: [u32; 6] = [3, 17, 1, 32, 0, 3];
    let mut bs = BitStream::new(&data);
    let mut value: u128 = 0;
    let mut shift: u32 = 0;
    for w in widths {
        let field = bs.get_bits(w) as u128;
        value |= field << shift;
        shift += w;
    }
    assert_eq!(shift, 56);
    assert!(bs.no_bits_left());
    let rebuilt: Vec<u8> = (0..7).map(|j| ((value >> (8 * j)) & 0xFF) as u8).collect();
    assert_eq!(rebuilt, data);
}

#[test]
fn empty_buffer_has_no_bits() {
    let data: Vec<u8> = Vec::new();
    let bs = BitStream::new(&data);
    assert!(bs.no_bits_left());
    assert!(!bs.has_bits(1));
}
