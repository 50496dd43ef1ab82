use torrent::download::bitfield::{accepts_bitfield, is_seed, Bitfield};

#[test]
fn test_is_seed() {
    let v1 = vec![0b11111111];
    assert!(is_seed(8, &v1));

    let v2 = vec![0b11111100];
    assert!(is_seed(6, &v2));

    let v3 = vec![0b11111111, 0b11000000];
    assert!(!is_seed(11, &v3));

    let v4 = vec![0b11111111, 0b11100000];
    assert!(is_seed(11, &v4));

    let v5 = vec![0b11111111, 0b11111110];
    assert!(!is_seed(16, &v5));

    let v6 = vec![0b11111111, 0b11111111];
    assert!(is_seed(16, &v6));
}

#[test]
fn test_has() {
    // torrent with 12 pieces:
    // 1010 1101 1100 0000

    let bitfield = Bitfield::from_vec(12, vec![0b10101101, 0b11000000]);
    println!("{}", bitfield.to_string());
    // Has piece 0
    assert!(bitfield.has(0));
    // Doesn't have piece 1
    assert!(!bitfield.has(1));
    // Has piece 7
    assert!(bitfield.has(7));
    // Has piece 9
    assert!(bitfield.has(9));
    // Doesn't have piece 10
    assert!(!bitfield.has(10));
}

#[test]
fn test_set() {
    //ownership vector with 8 pieces:
    // 0000 0000
    // |
    // conf
    let mut bitfield = Bitfield::from_vec(8, vec![0b00000000]);
    bitfield.confirmed = 0;

    bitfield.set(1);
    bitfield.set(2);
    bitfield.set(4);
    // At this point ownership is as follows:
    // 0110 1000
    // |
    // conf

    bitfield.set(0);
    assert_eq!(3, bitfield.confirmed);
    println!("{}", bitfield.to_string());
    // At this point ownership is as follows:
    // 0110 1000
    //    |
    //   conf
}

#[test]
fn test_pick_piece() {
    //ownership vector with 8 pieces:
    // 0000 0000
    // |      |
    // conf  curr
    let mut bitfield = Bitfield::from_vec(8, vec![0b00000000]);
    bitfield.cur = 6;
    bitfield.confirmed = 0;

    let mut next = 5;
    for _ in 0..100 {
        next = (next + 1) % 8;
        assert_eq!(Some(next), bitfield.pick_piece());
    }

    //ownership vector with 8 pieces:
    // 1111 1111 x
    //         | |
    //    curr-- --conf
    let mut bitfield = Bitfield::from_vec(8, vec![0b00000000]);
    bitfield.cur = 7;
    bitfield.confirmed = 8;

    assert_eq!(None, bitfield.pick_piece());
    assert_eq!(None, bitfield.pick_piece());
    assert_eq!(None, bitfield.pick_piece());

    //ownership vector with 12 pieces:
    // 0000 0000 1000 0000
    // |      |
    // curr  conf
    let mut bitfield = Bitfield::from_vec(12, vec![0b00000000, 0b10000000]);
    bitfield.cur = 6;
    bitfield.confirmed = 0;

    assert_eq!(Some(6), bitfield.pick_piece());
    assert_eq!(Some(7), bitfield.pick_piece());
    assert_eq!(Some(9), bitfield.pick_piece());

    //ownership vector with 8 pieces:
    //      cur
    //       |
    // 1100 1000
    //   |
    //  conf
    let mut bitfield = Bitfield::from_vec(8, vec![0b1100_1000]);
    bitfield.cur = 5;
    bitfield.confirmed = 2;

    assert_eq!(Some(5), bitfield.pick_piece());
    assert_eq!(Some(6), bitfield.pick_piece());
    assert_eq!(Some(7), bitfield.pick_piece());
    assert_eq!(Some(2), bitfield.pick_piece());
    assert_eq!(Some(3), bitfield.pick_piece());
    assert_eq!(Some(5), bitfield.pick_piece());

    //ownership vector with 8 pieces:
    //        cur
    //         |
    // 1111 0111
    //      |
    //     conf
    let mut bitfield = Bitfield::from_vec(8, vec![0b1111_0111]);
    bitfield.cur = 7;
    bitfield.confirmed = 4;

    assert_eq!(Some(4), bitfield.pick_piece());
    assert_eq!(Some(4), bitfield.pick_piece());
    assert_eq!(Some(4), bitfield.pick_piece());

    //ownership vector with 8 pieces:
    // cur
    // |
    // 1111 0111
    // |
    // cur
    let mut bitfield = Bitfield::from_vec(8, vec![0b0000_0000]);

    // Starts at 0.
    assert_eq!(Some(0), bitfield.pick_piece());
    assert_eq!(Some(1), bitfield.pick_piece());
    assert_eq!(Some(2), bitfield.pick_piece());
}

#[test]
fn test_remaining() {
    let bitfield = Bitfield::from_vec(8, vec![0b11111111]);
    assert_eq!(0, bitfield.remaining());

    let bitfield = Bitfield::from_vec(8, vec![0b11111100]);
    assert_eq!(2, bitfield.remaining());

    let bitfield = Bitfield::from_vec(12, vec![0b11011011, 0b11000000]);
    assert_eq!(4, bitfield.remaining());

    let bitfield = Bitfield::zero(1931);
    assert_eq!(1931, bitfield.remaining());
}

#[test]
fn bits_are_shown_byte_by_byte() {
    let bitfield = Bitfield::from_vec(12, vec![0b10101101, 0b11000000]);
    assert_eq!(bitfield.to_string(), "10101101 11000000 ");
}

#[test]
fn setting_a_piece_counts_once() {
    let mut bitfield = Bitfield::zero(12);
    bitfield.set(7);
    assert_eq!(bitfield.remaining(), 11);
    bitfield.set(7);
    assert_eq!(bitfield.remaining(), 11);
    assert!(bitfield.has(7));
    assert!(!bitfield.has(6));
}

#[test]
fn nothing_remains_when_every_piece_is_owned() {
    let mut bitfield = Bitfield::zero(11);
    for piece in (0..11).rev() {
        assert_ne!(bitfield.remaining(), 0);
        assert!(bitfield.allows_set(piece));
        bitfield.set(piece);
    }
    assert_eq!(bitfield.remaining(), 0);
    assert_eq!(bitfield.confirmed, 11);
    assert_eq!(bitfield.pick_piece(), None);
}

#[test]
fn last_piece_of_a_full_byte_is_set() {
    for total in [8, 16, 24] {
        let mut bitfield = Bitfield::zero(total);
        for piece in 0..total {
            assert_eq!(bitfield.remaining(), total - piece);
            assert!(bitfield.allows_set(piece));
            bitfield.set(piece);
            assert_eq!(bitfield.confirmed, piece as usize + 1);
        }
        assert!(bitfield.has(total - 1));
        assert_eq!(bitfield.remaining(), 0);
        assert_eq!(bitfield.pick_piece(), None);
        assert!(!bitfield.allows_set(total));
    }
}

#[test]
fn confirmed_catches_up_to_the_last_piece() {
    let mut bitfield = Bitfield::zero(8);
    for piece in (0..8).rev() {
        bitfield.set(piece);
    }
    assert_eq!(bitfield.confirmed, 8);
    assert_eq!(bitfield.pick_piece(), None);
}

#[test]
fn picks_yield_each_missing_piece_once() {
    let mut bitfield = Bitfield::zero(13);
    for piece in [0, 1, 4, 9, 12] {
        bitfield.set(piece);
    }
    for start in 0..20 {
        let mut other = bitfield.clone();
        for _ in 0..start {
            other.pick_piece();
        }
        let mut picked: Vec<u32> = (0..other.remaining())
            .map(|_| other.pick_piece().unwrap())
            .collect();
        picked.sort();
        assert_eq!(picked, [2, 3, 5, 6, 7, 8, 10, 11]);
    }
}

#[test]
fn every_missing_piece_comes_up() {
    let mut bitfield = Bitfield::from_vec(12, vec![0b10100101, 0b01000000]);
    bitfield.confirmed = 1;
    let mut picked = Vec::new();
    for _ in 0..7 {
        assert_eq!(bitfield.peek_piece(), bitfield.clone().pick_piece());
        picked.push(bitfield.pick_piece().unwrap());
    }
    assert_eq!(picked, vec![1, 3, 4, 6, 8, 10, 11]);
}

#[test]
fn bitfields_have_to_have_enough_bits() {
    assert!(!accepts_bitfield(1, &[]));
    assert!(!accepts_bitfield(9, &[0xff]));
    assert!(accepts_bitfield(9, &[0xfe]));
    assert!(!is_seed(9, &[0xfe]));
    assert!(accepts_bitfield(8, &[0xff]));
    assert!(accepts_bitfield(3, &[0xff, 0xff]));
    assert!(!is_seed(3, &[0xf0, 0xff]));
}
