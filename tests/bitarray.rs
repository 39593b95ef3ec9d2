use konane::bitarray::BitArray;

#[test]
fn lib_simple_set() {
    let mut b1_u8 = BitArray::new(1, 8);
    b1_u8.set(4);
    assert_eq!(b1_u8.blocks(), &[0b0001_0000]);

    let mut b2_u8 = BitArray::new(2, 8);
    b2_u8.set(11);
    assert_eq!(b2_u8.blocks(), &[0b0000_1000, 0b0000_0000]);
}

#[test]
fn lib_simple_clear() {
    let mut b1_u8 = BitArray::from_blocks(vec![0b00010001], 8);
    b1_u8.clear(4);
    assert_eq!(b1_u8.blocks(), &[0b00000001]);

    let mut b2_u8 = BitArray::from_blocks(vec![0b00011111, 0b10000001], 8);
    b2_u8.clear(12);
    assert_eq!(b2_u8.blocks(), &[0b00001111, 0b10000001]);
}

#[test]
fn simple_get() {
    let b1_u8 = BitArray::from_blocks(vec![0b00010001], 8);
    assert_eq!(b1_u8.get(0), true);
    assert_eq!(b1_u8.get(4), true);

    let b2_u8 = BitArray::from_blocks(vec![0b00011111, 0b10000001], 8);
    assert_eq!(b2_u8.get(0), true);
    assert_eq!(b2_u8.get(7), true);

    assert_eq!(b2_u8.get(8), true);
    assert_eq!(b2_u8.get(9), true);
    assert_eq!(b2_u8.get(10), true);
    assert_eq!(b2_u8.get(11), true);
    assert_eq!(b2_u8.get(12), true);
}

#[test]
fn simple_rhs() {
    let b1_u8 = BitArray::from_blocks(vec![0b00011000], 8);
    let b1_u8 = b1_u8.shift_right(1);
    assert_eq!(b1_u8.blocks(), &[0b00001100]);
}

#[test]
fn simple_rhs_overflow_block() {
    let overflow = BitArray::from_blocks(vec![0b00000001, 0b00000000], 8);
    let overflow = overflow.shift_right(1);
    assert_eq!(overflow.blocks(), &[0b00000000, 0b10000000]);

    let overflow2 = BitArray::from_blocks(vec![0b00000001, 0b00000000], 8);
    let overflow2 = overflow2.shift_right(3);
    assert_eq!(overflow2.blocks(), &[0b00000000, 0b00100000]);
}

#[test]
fn simple_lsh_overflow_block() {
    let overflow = BitArray::from_blocks(vec![0b00000000, 0b10000000], 8);
    let overflow = overflow.shift_left(1);
    assert_eq!(overflow.blocks(), &[0b00000001, 0b00000000]);

    let overflow2 = BitArray::from_blocks(vec![0b00000000, 0b10000000], 8);
    let overflow2 = overflow2.shift_left(3);
    assert_eq!(overflow2.blocks(), &[0b00000100, 0b00000000]);
}

#[test]
fn set_range_full() {
    let mut all = BitArray::new(4, 64);
    let n = all.bits();
    all.set_range(0, n);
    assert_eq!(all, BitArray::new(4, 64).not())
}

#[test]
fn delta_swap_u8x1() {
    let mut every2 = BitArray::new(1, 8);
    let n = every2.bits();
    every2.set_range_step(0, n - 2, 2);

    let mut op = BitArray::from_blocks(vec![0b01011001], 8);
    op.detla_swap(&every2, 3);
    assert_eq!(op.blocks(), &[0b11001001]);
}

#[test]
fn first_bit_second_block_u64x2() {
    let mut arr = BitArray::new(2, 64);
    arr.set(64);
    arr.set(65);
    assert_eq!(arr.set_indices(), vec![64, 65]);
}

#[test]
fn iterator_walks_set_and_clear_bits() {
    let arr = BitArray::from_blocks(vec![0b1000_0001, 0b0100_0010], 8);
    let mut it = arr.iter_set();
    assert_eq!(it.next(), Some(1));
    assert_eq!(it.next(), Some(6));
    assert_eq!(it.next(), Some(8));
    assert_eq!(it.next(), Some(15));
    assert_eq!(it.next(), None);
    assert_eq!(arr.set_indices().len(), arr.count_set());
    let mut clear = arr.iter_clear();
    assert_eq!(clear.next(), Some(0));
    assert_eq!(clear.next(), Some(2));
    assert_eq!(arr.count_clear(), 12);
}

#[test]
fn first_and_last_queries() {
    let arr = BitArray::from_blocks(vec![0b0000_0100, 0b0001_0000], 8);
    assert_eq!(arr.first_set(), Some(4));
    assert_eq!(arr.last_set(), Some(10));
    assert_eq!(arr.first_clear(), Some(0));
    assert_eq!(arr.last_clear(), Some(15));
    let empty = BitArray::new(3, 16);
    assert_eq!(empty.first_set(), None);
    assert_eq!(empty.last_set(), None);
    assert!(empty.is_empty());
    let full = empty.not();
    assert_eq!(full.first_clear(), None);
    assert_eq!(full.last_clear(), None);
    assert_eq!(full.count_set(), 48);
}

#[test]
fn shift_round_trip_keeps_inner_bits() {
    let a = BitArray::from_blocks(vec![0xF0F0_0000_0000_000F, 0x8000_0000_0000_0001], 64);
    for s in [0usize, 1, 5, 63, 64, 65, 100, 128] {
        let back = a.shift_left(s).shift_right(s);
        let keep = BitArray::new(2, 64).not().shift_right(s);
        assert_eq!(back, a.and(&keep));
        let back = a.shift_right(s).shift_left(s);
        let keep = BitArray::new(2, 64).not().shift_left(s);
        assert_eq!(back, a.and(&keep));
    }
}

#[test]
fn shifts_keep_the_count_of_kept_bits() {
    let a = BitArray::from_blocks(vec![0b1011_0001, 0b0110_1001], 8);
    let mut low = a.clone();
    low.clear_range(16 - 3, 16);
    assert_eq!(a.shift_left(3).count_set(), low.count_set());
    let mut high = a.clone();
    high.clear_range(0, 3);
    assert_eq!(a.shift_right(3).count_set(), high.count_set());
}

#[test]
fn set_and_clear_single_bits() {
    let mut a = BitArray::new(2, 32);
    a.set(40);
    assert!(a.get(40));
    a.clear(40);
    assert!(!a.get(40));
}

#[test]
fn set_range_sets_exactly_the_range() {
    let mut a = BitArray::new(4, 64);
    a.set_range(60, 130);
    for i in 0..256 {
        assert_eq!(a.get(i), (60..130).contains(&i));
    }
    a.clear_range(64, 128);
    for i in 0..256 {
        assert_eq!(a.get(i), (60..64).contains(&i) || (128..130).contains(&i));
    }
    let mut b = BitArray::new(1, 16);
    b.set_range_step(1, 12, 5);
    assert_eq!(b.set_indices(), vec![1, 6, 11]);
}

#[test]
fn delta_swap_twice_is_identity() {
    let mut mask = BitArray::new(2, 16);
    mask.set_range_step(0, 10, 3);
    let op = BitArray::from_blocks(vec![0b1010_0110_0101_1100, 0b0011_1001_1110_0001], 16);
    let mut twice = op.clone();
    twice.detla_swap(&mask, 4);
    assert_ne!(twice, op);
    twice.detla_swap(&mask, 4);
    assert_eq!(twice, op);
}

#[test]
fn get_block_reads_across_blocks() {
    let a = BitArray::from_blocks(vec![0b1010_1010, 0b1100_0000], 8);
    assert_eq!(a.get_block(6), 0b1010_1011);
    assert_eq!(a.get_block(12), 0b0000_1010);
    assert_eq!(a.get_block(0), 0b1100_0000);
}

#[test]
fn bitwise_operations() {
    let a = BitArray::from_blocks(vec![0b1100, 0b1010], 4);
    let b = BitArray::from_blocks(vec![0b1010, 0b0110], 4);
    assert_eq!(a.and(&b).blocks(), &[0b1000, 0b0010]);
    assert_eq!(a.or(&b).blocks(), &[0b1110, 0b1110]);
    assert_eq!(a.xor(&b).blocks(), &[0b0110, 0b1100]);
    assert_eq!(a.and_not(&b).blocks(), &[0b0100, 0b1000]);
    assert_eq!(a.not().blocks(), &[0b0011, 0b0101]);
}

#[test]
fn reverse_iterators_walk_downwards() {
    let arr = BitArray::from_blocks(vec![0b1000_0001, 0b0100_0010], 8);
    let mut it = arr.iter_set_rev();
    assert_eq!(it.next(), Some(15));
    assert_eq!(it.next(), Some(8));
    assert_eq!(it.next(), Some(6));
    assert_eq!(it.next(), Some(1));
    assert_eq!(it.next(), None);
    let mut clear = arr.iter_clear_rev();
    assert_eq!(clear.next(), Some(14));
    assert_eq!(clear.next(), Some(13));
}

#[test]
fn searches_span_many_words() {
    let mut a = BitArray::new(5, 64);
    a.set(200);
    a.set(3);
    assert_eq!(a.first_set(), Some(3));
    assert_eq!(a.last_set(), Some(200));
    let full = BitArray::new(5, 64).not();
    let mut holes = full.clone();
    holes.clear(130);
    holes.clear(64);
    assert_eq!(holes.first_clear(), Some(64));
    assert_eq!(holes.last_clear(), Some(130));
    let mut it = holes.iter_clear();
    assert_eq!(it.next(), Some(64));
    assert_eq!(it.next(), Some(130));
    assert_eq!(it.next(), None);
}
