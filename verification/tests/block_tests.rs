use tinystorm::block::{add_symbols, reverse_chunk_swap, sub_symbols, swap_chunk};
use tinystorm::key::swap_key;

#[test]
fn swap_chunk_mixes_one_block() {
    let mut block = vec![1u8, 2, 3, 4];
    swap_chunk(&mut block, 41);
    assert_eq!(block, vec![12, 6, 19, 9]);
}

#[test]
fn reverse_chunk_swap_restores_the_block() {
    let mut block = vec![12u8, 6, 19, 9];
    reverse_chunk_swap(&mut block, 41);
    assert_eq!(block, vec![1, 2, 3, 4]);
}

#[test]
fn swap_key_mixes_one_block() {
    let mut block = vec![28u8, 29, 30, 31];
    swap_key(&mut block, 41);
    assert_eq!(block, vec![16, 5, 20, 8]);
}

#[test]
fn short_buffers_are_left_alone() {
    let mut short = vec![7u8, 8, 9];
    swap_chunk(&mut short, 41);
    assert_eq!(short, vec![7, 8, 9]);
    reverse_chunk_swap(&mut short, 41);
    assert_eq!(short, vec![7, 8, 9]);
    swap_key(&mut short, 41);
    assert_eq!(short, vec![7, 8, 9]);
    let mut empty: Vec<u8> = Vec::new();
    swap_chunk(&mut empty, 41);
    assert!(empty.is_empty());
    // no modulus is needed where nothing is mixed
    swap_chunk(&mut short, 0);
    reverse_chunk_swap(&mut short, 0);
    swap_key(&mut short, 0);
    assert_eq!(short, vec![7, 8, 9]);
}

#[test]
fn only_the_first_block_is_mixed() {
    let mut buffer = vec![1u8, 2, 3, 4, 5, 6];
    swap_chunk(&mut buffer, 41);
    assert_eq!(buffer, vec![12, 6, 19, 9, 5, 6]);
    reverse_chunk_swap(&mut buffer, 41);
    assert_eq!(buffer, vec![1, 2, 3, 4, 5, 6]);
}

#[test]
fn reverse_undoes_forward_for_small_moduli() {
    for m in 1u8..=7 {
        for a in 0..m {
            for b in 0..m {
                for c in 0..m {
                    for d in 0..m {
                        let mut block = vec![a, b, c, d];
                        swap_chunk(&mut block, m);
                        assert!(block.iter().all(|&x| x < m));
                        reverse_chunk_swap(&mut block, m);
                        assert_eq!(block, vec![a, b, c, d]);
                    }
                }
            }
        }
    }
}

#[test]
fn reverse_undoes_forward_for_the_largest_modulus() {
    let mut block = vec![254u8, 253, 200, 199];
    swap_chunk(&mut block, 255);
    reverse_chunk_swap(&mut block, 255);
    assert_eq!(block, vec![254, 253, 200, 199]);
}

#[test]
fn symbols_add_and_subtract_modulo() {
    assert_eq!(add_symbols(40, 39, 42), 37);
    assert_eq!(add_symbols(255, 255, 255), 0);
    assert_eq!(add_symbols(200, 100, 7), 6);
    assert_eq!(sub_symbols(3, 5, 42), 40);
    assert_eq!(sub_symbols(5, 3, 42), 2);
    assert_eq!(sub_symbols(0, 200, 7), 3);
    assert_eq!(sub_symbols(add_symbols(17, 30, 42), 30, 42), 17);
}
