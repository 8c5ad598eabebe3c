use fountain_engine::algebra::finite_field::GF2;
use fountain_engine::algebra::linear_algebra::Matrix;
use fountain_engine::engine::binary_matrix::{BinaryMatrix, RowSetBitsIter};

#[test]
fn zero_width_matrix_num_rows() {
    let m = BinaryMatrix::new(0);
    assert_eq!(m.num_rows(), 0);
}

#[test]
fn push_row_and_get_set_flip() {
    let mut m = BinaryMatrix::new(10);
    let r0 = m.push_row();
    assert_eq!(r0, 0);
    assert!(!m.get(0, 3));
    m.set(0, 3);
    assert!(m.get(0, 3));
    m.flip(0, 3);
    assert!(!m.get(0, 3));
    m.flip(0, 3);
    assert!(m.get(0, 3));
}

#[test]
fn xor_rows_matches_byte_xor() {
    let mut m = BinaryMatrix::new(100);
    let a = m.push_row();
    let b = m.push_row();
    m.set(a, 1);
    m.set(a, 63);
    m.set(a, 64);
    m.set(b, 1);
    m.set(b, 2);
    m.set(b, 99);

    m.xor_rows(b, a, 100);
    assert!(m.get(a, 1));
    assert!(!m.get(b, 1));
    assert!(m.get(b, 2));
    assert!(m.get(b, 63));
    assert!(m.get(b, 64));
    assert!(m.get(b, 99));
}

#[test]
fn row_bytes_round_trip() {
    let mut m = BinaryMatrix::new(70);
    let r = m.push_row();
    m.set(r, 0);
    m.set(r, 63);
    m.set(r, 64);
    m.set(r, 69);
    let bytes = m.row_bytes(r, 70);
    assert_eq!(bytes.len(), 70);
    assert_eq!(bytes[0], 1);
    assert_eq!(bytes[63], 1);
    assert_eq!(bytes[64], 1);
    assert_eq!(bytes[69], 1);
    assert_eq!(bytes[1], 0);
}

#[test]
fn iter_set_bits_matches_row_bytes() {
    let mut m = BinaryMatrix::new(100);
    let r = m.push_row();
    for seq in [0, 1, 63, 64, 99] {
        m.set(r, seq);
    }
    let bytes = m.row_bytes(r, 100);
    let bits: Vec<usize> = m.iter_set_bits(r, 100);
    assert_eq!(bits, vec![0, 1, 63, 64, 99]);
    for (seq, &byte) in bytes.iter().enumerate() {
        assert_eq!(byte, if bits.contains(&seq) { 1 } else { 0 });
    }
}

#[test]
fn xor_row_bytes() {
    let mut m = BinaryMatrix::new(8);
    let r = m.push_row();
    m.xor_row_bytes(r, &[1, 0, 1, 0, 0, 0, 0, 1], 8);
    assert!(m.get(r, 0));
    assert!(!m.get(r, 1));
    assert!(m.get(r, 2));
    assert!(m.get(r, 7));
}

#[test]
fn multiple_rows_independent() {
    let mut m = BinaryMatrix::new(5);
    let r0 = m.push_row();
    let r1 = m.push_row();
    m.set(r0, 2);
    m.set(r1, 4);
    assert!(m.get(r0, 2));
    assert!(!m.get(r1, 2));
    assert!(m.get(r1, 4));
    m.xor_rows(r1, r0, 5);
    assert!(m.get(r1, 2));
    assert!(m.get(r1, 4));
}

#[test]
fn row_words_matches_row_bytes() {
    let mut m = BinaryMatrix::new(130);
    let r = m.push_row();
    m.set(r, 0);
    m.set(r, 63);
    m.set(r, 64);
    m.set(r, 129);
    let num_inactive = 130;
    let bytes = m.row_bytes(r, num_inactive);
    let mut copied = vec![0_u64; m.words_per_row()];
    m.copy_row_words(r, &mut copied, num_inactive);
    for (seq, &byte) in bytes.iter().enumerate() {
        let word = seq / 64;
        let bit = seq % 64;
        let bit_set = (copied[word] >> bit) & 1 == 1;
        assert_eq!(bit_set, byte == 1, "seq {seq}");
    }
}

#[test]
fn append_matrix_matches_append_all_rows_from() {
    let n = 20;
    let mut left = BinaryMatrix::new(n);
    let r0 = left.push_row();
    left.set(r0, 3);
    left.set(r0, 17);

    let mut tail = BinaryMatrix::new(n);
    let t0 = tail.push_row();
    tail.set(t0, 1);
    let t1 = tail.push_row();
    tail.set(t1, 19);

    let mut by_ref = left.clone();
    by_ref.append_all_rows_from(&tail, n);

    left.append_matrix(tail);
    assert_eq!(left.num_rows(), by_ref.num_rows());
    assert_eq!(left.row_bytes(0, n), by_ref.row_bytes(0, n));
    assert_eq!(left.row_bytes(1, n), by_ref.row_bytes(1, n));
    assert_eq!(left.row_bytes(2, n), by_ref.row_bytes(2, n));
}

#[test]
fn append_row_from_words_round_trip() {
    let mut m = BinaryMatrix::new(20);
    let r0 = m.push_row();
    m.set(r0, 3);
    m.set(r0, 17);
    let mut words = vec![0_u64; m.words_per_row()];
    m.copy_row_words(r0, &mut words, 20);
    let r1 = m.append_row_from_words(&words, 20);
    assert_eq!(m.row_bytes(r0, 20), m.row_bytes(r1, 20));
}

#[test]
fn xor_row_from_words_matches_xor_rows() {
    let mut m = BinaryMatrix::new(100);
    let a = m.push_row();
    let b = m.push_row();
    m.set(a, 1);
    m.set(a, 63);
    m.set(b, 1);
    m.set(b, 2);
    let mut src = vec![0_u64; m.words_per_row()];
    m.copy_row_words(a, &mut src, 100);
    m.xor_row_from_words(b, &src, 100);
    let mut m2 = BinaryMatrix::new(100);
    let a2 = m2.push_row();
    let b2 = m2.push_row();
    m2.set(a2, 1);
    m2.set(a2, 63);
    m2.set(b2, 1);
    m2.set(b2, 2);
    m2.xor_row_words(b2, a2, 100);
    assert_eq!(m.row_bytes(b, 100), m2.row_bytes(b2, 100));
}

#[test]
fn clear_bit() {
    let mut m = BinaryMatrix::new(4);
    let r = m.push_row();
    m.set(r, 2);
    assert!(m.get(r, 2));
    m.clear(r, 2);
    assert!(!m.get(r, 2));
    assert_eq!(m.width(), 4);
}

#[test]
fn swap_rows_preserves_other_rows() {
    let mut m = BinaryMatrix::new(8);
    let r0 = m.push_row();
    let r1 = m.push_row();
    let r2 = m.push_row();
    m.set(r0, 1);
    m.set(r1, 3);
    m.set(r2, 5);
    m.swap_rows(r0, r2);
    assert!(m.get(r0, 5));
    assert!(m.get(r1, 3));
    assert!(m.get(r2, 1));
}

fn pack_rows(bytes: &[Vec<u8>], n: usize) -> BinaryMatrix {
    let mut packed = BinaryMatrix::new(n);
    for row in bytes {
        let mut words = vec![0_u64; packed.words_per_row()];
        for (j, &v) in row.iter().enumerate() {
            if v != 0 {
                words[j / 64] |= 1_u64 << (j % 64);
            }
        }
        packed.append_row_from_words(&words, n);
    }
    packed
}

#[test]
fn lu_decomp_incr_gf2_matches_byte_lu() {
    let n = 32;
    let m = 28;
    let mut bytes: Vec<Vec<u8>> = (0..m)
        .map(|i: usize| {
            (0..n)
                .map(|j: usize| {
                    if i.wrapping_mul(17).wrapping_add(j.wrapping_mul(13)) % 5 != 0 {
                        0
                    } else {
                        1
                    }
                })
                .collect()
        })
        .collect();
    let mut packed = pack_rows(&bytes, n);

    let mut q_byte = (0..n).collect::<Vec<_>>();
    let mut q_pack = q_byte.clone();
    let r0 = 0;

    let (p_byte, r_byte) = Matrix::lu_decomp_incr(&GF2::new(), &mut bytes, &mut q_byte, r0);
    let (p_pack, r_pack) = packed.lu_decomp_incr_gf2(&mut q_pack, r0, n);

    assert_eq!(r_byte, r_pack);
    assert_eq!(p_byte, p_pack);
    assert_eq!(q_byte, q_pack);

    bytes.truncate(r_byte);
    packed.truncate_rows(r_pack);
    for (i, byte_row) in bytes.iter().enumerate() {
        assert_eq!(*byte_row, packed.row_bytes(i, n), "row {i} mismatch after LU");
    }
}

#[test]
fn lu_decomp_incr_gf2_incremental_matches_byte() {
    let n = 24;
    let mut bytes: Vec<Vec<u8>> = (0..20)
        .map(|i| (0..n).map(|j| u8::from((i + j) % 4 == 0)).collect())
        .collect();
    let mut packed = pack_rows(&bytes, n);

    let mut q_byte = (0..n).collect::<Vec<_>>();
    let mut q_pack = q_byte.clone();

    let (p1, r1) = Matrix::lu_decomp_incr(&GF2::new(), &mut bytes, &mut q_byte, 0);
    let (p2, r2) = packed.lu_decomp_incr_gf2(&mut q_pack, 0, n);
    assert_eq!(r1, r2);
    assert_eq!(p1, p2);

    for i in 0..5 {
        let row: Vec<u8> = (0..n).map(|j| u8::from((i + j + 7) % 3 == 0)).collect();
        bytes.push(row.clone());
        let mut words = vec![0_u64; packed.words_per_row()];
        for (j, &v) in row.iter().enumerate() {
            if v != 0 {
                words[j / 64] |= 1_u64 << (j % 64);
            }
        }
        packed.append_row_from_words(&words, n);
    }

    let (p_byte, r_byte) = Matrix::lu_decomp_incr(&GF2::new(), &mut bytes, &mut q_byte, r1);
    let (p_pack, r_pack) = packed.lu_decomp_incr_gf2(&mut q_pack, r1, n);
    assert_eq!(r_byte, r_pack);
    assert_eq!(p_byte, p_pack);
    assert_eq!(q_byte, q_pack);
}

#[test]
fn row_words_mut_writes_through() {
    let mut m = BinaryMatrix::new(70);
    m.push_row();
    m.push_row();
    {
        let words = m.row_words_mut(1);
        words[0] = 0b1010;
        words[1] = 0b1;
    }
    assert!(m.get(1, 1));
    assert!(m.get(1, 3));
    assert!(m.get(1, 64));
    assert!(!m.get(1, 0));
    assert!(!m.get(0, 1));
}

#[test]
fn row_set_bits_cursor_walks_the_live_columns() {
    let mut it = RowSetBitsIter::new(vec![(1u64 << 63) | 0b101, 0b11], 65);
    assert_eq!(it.next(), Some(0));
    assert_eq!(it.next(), Some(2));
    assert_eq!(it.next(), Some(63));
    assert_eq!(it.next(), Some(64));
    assert_eq!(it.next(), None);
    assert_eq!(it.next(), None);
}
