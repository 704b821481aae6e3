use wordle_codec::bits::{read_bits, BitWriter};

#[test]
fn bit_writer_packs_least_significant_bit_first() {
    let mut w = BitWriter::new();
    assert_eq!(w.pending_bits(), 0);
    w.push_bits(0b101, 3);
    assert_eq!(w.pending_bits(), 3);
    w.push_bits(0b11, 2);
    w.push_bits(0x1ff, 9);
    assert_eq!(w.pending_bits(), 6);
    assert_eq!(w.finish(), vec![0b1111_1101, 0b0011_1111]);
}

#[test]
fn bit_writer_with_nothing_written() {
    let w = BitWriter::new();
    assert_eq!(w.finish(), Vec::<u8>::new());
    let mut w = BitWriter::new();
    w.push_bits(0xab, 8);
    assert_eq!(w.pending_bits(), 0);
    assert_eq!(w.finish(), vec![0xab]);
}

#[test]
fn read_bits_like_the_match_reader() {
    let bytes = vec![0b1111_1101, 0b0011_1111, 0x80];
    assert_eq!(read_bits(&bytes, 0, 3), 0b101);
    assert_eq!(read_bits(&bytes, 3, 2), 0b11);
    assert_eq!(read_bits(&bytes, 5, 9), 0x1ff);
    assert_eq!(read_bits(&bytes, 16, 8), 0x80);
    assert_eq!(read_bits(&bytes, 0, 16), 0x3ffd);
    // bytes past the end read as zero
    assert_eq!(read_bits(&bytes, 20, 14), 0x8);
    assert_eq!(read_bits(&bytes, 100, 14), 0);
    assert_eq!(read_bits(&bytes, 0, 0), 0);
}
