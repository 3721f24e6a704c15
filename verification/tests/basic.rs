use minimizer_iter::{KeyOrder, MinimizerBuilder};

#[test]
fn test_minimizer_iter() {
    let seq = b"TGATTGCACAATC";
    let minimizer_size = 3;
    let width = 4;
    let mut min_iter = MinimizerBuilder::new()
        .minimizer_size(minimizer_size)
        .width(width)
        .hasher(KeyOrder::Lex)
        .iter(seq);

    assert_eq!(min_iter.next(), Some((0b001111, 2))); // ATT
    assert_eq!(min_iter.next(), Some((0b010001, 6))); // CAC
    assert_eq!(min_iter.next(), Some((0b000100, 7))); // ACA
    assert_eq!(min_iter.next(), Some((0b000011, 9))); // AAT
    assert_eq!(min_iter.next(), None);
}

#[test]
fn test_minimizer_iter_pos() {
    let seq = b"TGATTGCACAATC";
    let minimizer_size = 3;
    let width = 4;
    let mut min_iter = MinimizerBuilder::new()
        .minimizer_size(minimizer_size)
        .width(width)
        .hasher(KeyOrder::Lex)
        .iter_pos(seq);

    assert_eq!(min_iter.next(), Some(2)); // ATT
    assert_eq!(min_iter.next(), Some(6)); // CAC
    assert_eq!(min_iter.next(), Some(7)); // ACA
    assert_eq!(min_iter.next(), Some(9)); // AAT
    assert_eq!(min_iter.next(), None);
}

#[test]
fn test_mod_minimizer_iter() {
    let seq = b"TGATTGCACAATC";
    let minimizer_size = 4;
    let width = 4;
    let mut min_iter = MinimizerBuilder::new_mod()
        .minimizer_size(minimizer_size)
        .width(width)
        .hasher(KeyOrder::Lex)
        .iter(seq);

    assert_eq!(min_iter.next(), Some((0b00111110, 2))); // ATTG
    assert_eq!(min_iter.next(), Some((0b01000100, 6))); // CACA
    assert_eq!(min_iter.next(), Some((0b00010000, 7))); // ACAA
    assert_eq!(min_iter.next(), Some((0b00001101, 9))); // AATC
    assert_eq!(min_iter.next(), None);
}

#[test]
fn test_mod_minimizer_iter_pos() {
    let seq = b"TGATTGCACAATC";
    let minimizer_size = 4;
    let width = 4;
    let mut min_iter = MinimizerBuilder::new_mod()
        .minimizer_size(minimizer_size)
        .width(width)
        .hasher(KeyOrder::Lex)
        .iter_pos(seq);

    assert_eq!(min_iter.next(), Some(2)); // ATTG
    assert_eq!(min_iter.next(), Some(6)); // CACA
    assert_eq!(min_iter.next(), Some(7)); // ACAA
    assert_eq!(min_iter.next(), Some(9)); // AATC
    assert_eq!(min_iter.next(), None);
}

#[test]
fn test_short_input_no_records() {
    // shorter than width + minimizer_size - 1 bases: no records at all
    let seq = b"ACGT";
    let mut it = MinimizerBuilder::new()
        .minimizer_size(3)
        .width(4)
        .hasher(KeyOrder::Lex)
        .iter(seq);
    assert_eq!(it.next(), None);
    assert_eq!(it.next(), None);

    let mut it_pos = MinimizerBuilder::new()
        .minimizer_size(3)
        .width(4)
        .hasher(KeyOrder::Lex)
        .iter_pos(seq);
    assert_eq!(it_pos.next(), None);

    let mut it_mod = MinimizerBuilder::new_mod()
        .minimizer_size(5)
        .width(3)
        .hasher(KeyOrder::Lex)
        .iter(seq);
    assert_eq!(it_mod.next(), None);

    let mut it_canon = MinimizerBuilder::new()
        .canonical()
        .minimizer_size(3)
        .width(5)
        .iter_pos(seq);
    assert_eq!(it_canon.next(), None);
}

#[test]
fn test_custom_encoding() {
    // with the default encoding the A-run wins; with a reversed encoding
    // the C wins instead
    let seq = b"AAAC";
    let mut it = MinimizerBuilder::new()
        .minimizer_size(1)
        .width(4)
        .hasher(KeyOrder::Lex)
        .iter(seq);
    assert_eq!(it.next(), Some((0, 0)));
    assert_eq!(it.next(), None);

    let mut it2 = MinimizerBuilder::new()
        .minimizer_size(1)
        .width(4)
        .hasher(KeyOrder::Lex)
        .encoding(3, 2, 1, 0)
        .iter(seq);
    assert_eq!(it2.next(), Some((2, 3)));
    assert_eq!(it2.next(), None);
}

#[test]
fn test_seeded_order_differs_from_lex() {
    // the seeded pseudo-random order must reorder candidates somewhere
    let mut seq = Vec::new();
    let mut state: u64 = 0x9E3779B97F4A7C15;
    for _ in 0..300 {
        state = state
            .wrapping_mul(6364136223846793005)
            .wrapping_add(1442695040888963407);
        seq.push(match (state >> 33) & 3 {
            0 => b'A',
            1 => b'C',
            2 => b'G',
            _ => b'T',
        });
    }
    let mut lex = Vec::new();
    let mut it = MinimizerBuilder::new()
        .minimizer_size(7)
        .width(4)
        .hasher(KeyOrder::Lex)
        .iter_pos(&seq);
    while let Some(p) = it.next() {
        lex.push(p);
    }
    let mut seeded = Vec::new();
    let mut it = MinimizerBuilder::new()
        .minimizer_size(7)
        .width(4)
        .iter_pos(&seq);
    while let Some(p) = it.next() {
        seeded.push(p);
    }
    assert_ne!(lex, seeded);
}
