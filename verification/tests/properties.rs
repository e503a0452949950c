use purecipher::{
    decipher_bytes, encipher_bytes, ByteMapping, NullCipher, PureCipher, SubstitutionBuilder,
    SubstitutionCipher,
};

#[test]
fn swap_chaining_example() {
    let mut builder = SubstitutionBuilder::new();
    builder.swap(b'A', b'B'); // A->B, B->A
    builder.swap(b'A', b'D'); // A->D, B->A, D->B
    let cipher = builder.into_cipher();

    assert_eq!(b'D', cipher.encipher(b'A'));
    assert_eq!(b'A', cipher.encipher(b'B'));
    assert_eq!(b'C', cipher.encipher(b'C'));
    assert_eq!(b'B', cipher.encipher(b'D'));
}

#[test]
fn swap_with_itself_is_no_op() {
    let mut builder = SubstitutionBuilder::new();
    builder.swap(b'q', b'q');
    let cipher = builder.into_cipher();
    for b in 0..=u8::MAX {
        assert_eq!(b, cipher.encipher(b));
    }
}

#[test]
fn rotate_small_range_example() {
    let mut builder = SubstitutionBuilder::new();
    builder.rotate_range(b'A', b'C', 1);
    let cipher = builder.into_cipher();

    assert_eq!(b'B', cipher.encipher(b'A'));
    assert_eq!(b'C', cipher.encipher(b'B'));
    assert_eq!(b'A', cipher.encipher(b'C'));
    assert_eq!(b'D', cipher.encipher(b'D'));
}

#[test]
fn rotate_negative_offset_goes_backwards() {
    let mut builder = SubstitutionBuilder::new();
    builder.rotate_range(b'A', b'C', -1);
    let cipher = builder.into_cipher();

    assert_eq!(b'C', cipher.encipher(b'A'));
    assert_eq!(b'A', cipher.encipher(b'B'));
    assert_eq!(b'B', cipher.encipher(b'C'));
    assert_eq!(b'@', cipher.encipher(b'@'));
}

#[test]
fn rotate_single_entry_range_is_no_op() {
    let mut builder = SubstitutionBuilder::new();
    builder.rotate_range(b'M', b'M', 5);
    builder.rotate_range(0, 0, -3);
    builder.rotate_range(255, 255, 1);
    let cipher = builder.into_cipher();
    for b in 0..=u8::MAX {
        assert_eq!(b, cipher.encipher(b));
    }
}

#[test]
fn rotate_uses_offset_modulo_width() {
    for offset in [4isize, 30, -22, 26 * 1000 + 4, -26 * 77 + 4] {
        let mut builder = SubstitutionBuilder::new();
        builder.rotate_range(b'a', b'z', offset);
        let cipher = builder.into_cipher();
        assert_eq!(b'e', cipher.encipher(b'a'));
        assert_eq!(b'd', cipher.encipher(b'z'));
        assert_eq!(b'a', cipher.decipher(b'e'));
    }

    let mut builder = SubstitutionBuilder::new();
    builder.rotate_range(b'a', b'z', 26);
    builder.rotate_range(b'A', b'Z', -52);
    builder.rotate_range(0, 255, 0);
    let cipher = builder.into_cipher();
    for b in 0..=u8::MAX {
        assert_eq!(b, cipher.encipher(b));
    }
}

#[test]
fn rotate_accepts_extreme_offsets() {
    // The size of isize::MIN is a power of two above 256, so a whole number of turns;
    // isize::MAX is one less, so one place short of a whole number of turns.
    let mut builder = SubstitutionBuilder::new();
    builder.rotate_range(0, 255, isize::MIN);
    builder.rotate_range(0, 255, isize::MAX);
    let cipher = builder.into_cipher();
    for b in 0..=u8::MAX {
        assert_eq!(b.wrapping_sub(1), cipher.encipher(b));
        assert_eq!(b, cipher.decipher(cipher.encipher(b)));
    }
}

#[test]
fn full_rotation_is_wrapping_add_for_every_offset() {
    for offset in -255isize..=255 {
        let mut builder = SubstitutionBuilder::new();
        builder.rotate_range(0, u8::MAX, offset);
        let cipher = builder.into_cipher();
        for b in 0..=u8::MAX {
            let expected = (b as isize + offset).rem_euclid(256) as u8;
            assert_eq!(expected, cipher.encipher(b));
            assert_eq!(b, cipher.decipher(expected));
        }
    }
}

#[test]
fn rotation_on_edited_table_moves_current_targets() {
    let mut builder = SubstitutionBuilder::new();
    builder.swap(b'A', b'z'); // A->z, z->A
    builder.rotate_range(b'A', b'C', 1); // A takes B's target, B takes C's, C takes A's
    let cipher = builder.into_cipher();

    assert_eq!(b'B', cipher.encipher(b'A'));
    assert_eq!(b'C', cipher.encipher(b'B'));
    assert_eq!(b'z', cipher.encipher(b'C'));
    assert_eq!(b'A', cipher.encipher(b'z'));
    for b in 0..=u8::MAX {
        assert_eq!(b, cipher.decipher(cipher.encipher(b)));
        assert_eq!(b, cipher.encipher(cipher.decipher(b)));
    }
}

#[test]
fn any_edit_sequence_round_trips() {
    let mut builder = SubstitutionBuilder::new();
    let mut seed: u32 = 0x2545_f491;
    for _ in 0..200 {
        seed = seed.wrapping_mul(1_664_525).wrapping_add(1_013_904_223);
        let a = (seed >> 8) as u8;
        let b = (seed >> 16) as u8;
        let offset = ((seed >> 3) % 1024) as isize - 512;
        if seed & 1 == 0 {
            builder.swap(a, b);
        } else {
            builder.rotate_range(a.min(b), a.max(b), offset);
        }
    }
    let cipher = builder.into_cipher();
    let mut seen = [false; 256];
    for b in 0..=u8::MAX {
        let enc = cipher.encipher(b);
        assert!(!seen[enc as usize]);
        seen[enc as usize] = true;
        assert_eq!(b, cipher.decipher(enc));
        assert_eq!(b, cipher.encipher(cipher.decipher(b)));
    }
}

#[test]
fn byte_mapping_default_is_identity() {
    let table = ByteMapping::default();
    for b in 0..=u8::MAX {
        assert_eq!(b, table.at(b));
    }
    assert!(table.remapped().is_empty());
}

#[test]
fn byte_mapping_set_changes_one_entry() {
    let mut table = ByteMapping::default();
    table.set(b'A', b'Z');
    table.set(255, 0);
    for b in 0..=u8::MAX {
        let expected = match b {
            b'A' => b'Z',
            255 => 0,
            _ => b,
        };
        assert_eq!(expected, table.at(b));
    }
    assert_eq!(vec![(b'A', b'Z'), (255, 0)], table.remapped());
}

#[test]
fn byte_mapping_zeroed_is_all_zero() {
    let table = ByteMapping::zeroed();
    for b in 0..=u8::MAX {
        assert_eq!(0, table.at(b));
    }
    assert_eq!(255, table.remapped().len());
    assert_eq!((1, 0), table.remapped()[0]);
}

#[test]
fn unchecked_cipher_from_bijection_round_trips() {
    let mut table = ByteMapping::default();
    for b in 0..=u8::MAX {
        table.set(b, 255 - b);
    }
    let cipher = SubstitutionCipher::from_bytes_unchecked(table);
    for b in 0..=u8::MAX {
        assert_eq!(255 - b, cipher.encipher(b));
        assert_eq!(255 - b, cipher.decipher(b));
    }
}

#[test]
fn unchecked_cipher_with_collision_keeps_last_write() {
    // 3 and 9 both map to 7; nothing maps to 3 or to 9.
    let mut table = ByteMapping::default();
    table.set(3, 7);
    table.set(9, 7);
    table.set(7, 7);
    let cipher = SubstitutionCipher::from_bytes_unchecked(table);

    assert_eq!(7, cipher.encipher(3));
    assert_eq!(7, cipher.encipher(7));
    assert_eq!(7, cipher.encipher(9));
    // the last entry that maps to 7 wins
    assert_eq!(9, cipher.decipher(7));
    // a byte that is nobody's target is deciphered to zero
    assert_eq!(0, cipher.decipher(3));
    assert_eq!(0, cipher.decipher(9));
    assert_eq!(5, cipher.decipher(5));
}

#[test]
fn unchecked_cipher_of_zero_table() {
    let cipher = SubstitutionCipher::from_bytes_unchecked(ByteMapping::zeroed());
    assert_eq!(0, cipher.encipher(200));
    assert_eq!(255, cipher.decipher(0));
    assert_eq!(0, cipher.decipher(1));
}

#[test]
fn conversions_agree_with_builders() {
    let from_null = SubstitutionCipher::from(NullCipher {});
    let mut builder = SubstitutionBuilder::new();
    builder.rotate_range(b'a', b'c', 1);
    let from_builder: SubstitutionCipher = builder.into();
    for b in 0..=u8::MAX {
        assert_eq!(b, from_null.encipher(b));
        assert_eq!(b, from_null.decipher(b));
    }
    assert_eq!(b'b', from_builder.encipher(b'a'));
    assert_eq!(b'a', from_builder.encipher(b'c'));
    assert_eq!(b'c', from_builder.decipher(b'a'));
}

#[test]
fn null_cipher_changes_nothing() {
    let cipher = NullCipher {};
    for b in 0..=u8::MAX {
        assert_eq!(b, cipher.encipher(b));
        assert_eq!(b, cipher.decipher(b));
    }
    let mut buffer = b"as it was".to_vec();
    cipher.encipher_inplace(&mut buffer);
    assert_eq!(b"as it was".as_ref(), buffer.as_slice());
    cipher.decipher_inplace(&mut buffer);
    assert_eq!(b"as it was".as_ref(), buffer.as_slice());
}

struct ShiftOne;

impl PureCipher for ShiftOne {
    fn encipher(&self, token: u8) -> u8 {
        if token == u8::MAX {
            0
        } else {
            token + 1
        }
    }

    fn decipher(&self, token: u8) -> u8 {
        if token == 0 {
            u8::MAX
        } else {
            token - 1
        }
    }
}

#[test]
fn user_cipher_gets_buffer_operations() {
    let cipher = ShiftOne;
    assert_eq!(b'B', cipher.encipher(b'A'));
    assert_eq!(b'A', cipher.decipher(b'B'));

    let mut buffer = vec![0, 1, 254, 255];
    cipher.encipher_inplace(&mut buffer);
    assert_eq!(vec![1, 2, 255, 0], buffer);
    cipher.decipher_inplace(&mut buffer);
    assert_eq!(vec![0, 1, 254, 255], buffer);

    assert_eq!(vec![b'b', b'c'], encipher_bytes(&cipher, b"ab"));
    assert_eq!(vec![b'a', b'b'], decipher_bytes(&cipher, b"bc"));
}

#[test]
fn inplace_on_empty_buffer_is_no_op() {
    let mut builder = SubstitutionBuilder::new();
    builder.rotate_range(0, 255, 7);
    let cipher = builder.into_cipher();
    let mut buffer: [u8; 0] = [];
    cipher.encipher_inplace(&mut buffer);
    cipher.decipher_inplace(&mut buffer);
    assert!(encipher_bytes(&cipher, &buffer).is_empty());
    assert!(decipher_bytes(&cipher, &buffer).is_empty());
}

#[test]
fn inplace_agrees_with_single_bytes() {
    let mut builder = SubstitutionBuilder::new();
    builder.rotate_range(b'0', b'9', 3);
    builder.swap(b'0', b' ');
    let cipher = builder.into_cipher();

    let plain = b"call 0123 456 789".to_vec();
    let mut buffer = plain.clone();
    cipher.encipher_inplace(&mut buffer);
    let expected: Vec<u8> = plain.iter().map(|&b| cipher.encipher(b)).collect();
    assert_eq!(expected, buffer);
    assert_eq!(expected, encipher_bytes(&cipher, &plain));
    cipher.decipher_inplace(&mut buffer);
    assert_eq!(plain, buffer);
    assert_eq!(plain, decipher_bytes(&cipher, &expected));
}
