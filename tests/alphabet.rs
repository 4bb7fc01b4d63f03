use smol_file::alphabet::{char_to_index, index_to_char, ESC, NUM, SPACE};
use smol_file::bits::{next_cursor, pull_symbol, Packer};
use smol_file::SmolBlob;

#[test]
fn alphabet_positions() {
    assert_eq!(char_to_index(' '), Some(0));
    assert_eq!(char_to_index('a'), Some(1));
    assert_eq!(char_to_index('z'), Some(26));
    assert_eq!(char_to_index('.'), Some(27));
    assert_eq!(char_to_index('!'), Some(28));
    assert_eq!(char_to_index('?'), Some(29));
    assert_eq!(char_to_index('A'), None);
    assert_eq!(char_to_index('1'), Some(30));
    assert_eq!(char_to_index('2'), Some(31));
    assert_eq!(char_to_index('3'), None);
    assert_eq!(char_to_index('\n'), None);
    assert_eq!((NUM, ESC, SPACE), (30, 31, 0));
}

#[test]
fn alphabet_characters() {
    let all: String = (0u8..32).map(index_to_char).collect();
    assert_eq!(all, " abcdefghijklmnopqrstuvwxyz.!?12");
    for i in 0u8..32 {
        assert_eq!(char_to_index(index_to_char(i)), Some(i));
    }
}

#[test]
fn packer_packs_low_bits_first() {
    let mut p = Packer::new();
    p.push_symbol(1);
    p.push_symbol(2);
    p.push_symbol(31);
    assert!(!p.is_aligned());
    let out = p.finish();
    // 1 | 2 << 5 | 31 << 10 = 0x7c41
    assert_eq!(out, vec![0x41u8, 0x7c]);
    assert_eq!(pull_symbol(&out, 0, 0), Some(1));
    assert_eq!(pull_symbol(&out, 0, 5), Some(2));
    assert_eq!(pull_symbol(&out, 1, 2), Some(31));
    assert_eq!(pull_symbol(&out, 1, 7), None);
    assert_eq!(pull_symbol(&out, 2, 0), None);
}

#[test]
fn packer_raw_bytes_are_aligned() {
    let mut p = Packer::new();
    p.push_symbol(3);
    p.align();
    assert!(p.is_aligned());
    p.push_raw(&vec![0xaau8, 0xbb]);
    p.push_symbol(4);
    assert_eq!(p.finish(), vec![3u8, 0xaa, 0xbb, 4]);
}

#[test]
fn default_blob_is_empty() {
    let blob = SmolBlob::default();
    assert_eq!(blob.version(), 3);
    assert_eq!(blob.symbol_count(), 0);
    assert!(blob.payload().is_empty());
    assert_eq!(SmolBlob::decode_blob(&blob), Ok(String::new()));
}

#[test]
fn cursor_moves_five_bits() {
    assert_eq!(next_cursor(0, 0), (0, 5));
    assert_eq!(next_cursor(0, 3), (1, 0));
    assert_eq!(next_cursor(2, 7), (3, 4));
}
