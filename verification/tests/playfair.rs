use playfair::key_table::{Coordinate, KeyTable};
use playfair::plaintext::Plaintext;
use playfair::{decrypt, encrypt, CipherError};

#[test]
fn plaintext_with_padding() {
    let plaintext = "HELLO";
    let r = Plaintext::from_str(plaintext).unwrap();
    assert_eq!(r, Plaintext::from_str("HELZLO").unwrap());
}

#[test]
fn setup_key_table() {
    let rows = [
        ['H', 'E', 'L', 'O', 'T'],
        ['R', 'A', 'B', 'C', 'D'],
        ['F', 'G', 'I', 'K', 'M'],
        ['N', 'P', 'Q', 'S', 'U'],
        ['V', 'W', 'X', 'Y', 'Z'],
    ];
    let mut cells = Vec::new();
    for y in 1..=5usize {
        for x in 1..=5usize {
            cells.push(Coordinate {
                x,
                y,
                content: rows[y - 1][x - 1],
            });
        }
    }
    let table = KeyTable(cells);
    let key = "HELLO THERE";
    let r = KeyTable::new(key);
    assert_eq!(r, table);
}

#[test]
fn encrypt_plaintext() {
    let plaintext = "instruments";
    let key = "monarchy";
    let encrypted_string = encrypt(key, plaintext).unwrap();
    assert_eq!(
        encrypted_string,
        "gatlmzclrqtx".to_string().to_ascii_uppercase()
    );
}

#[test]
fn decrypt_plaintext() {
    let ciphertext = "gatlmzclrqtx";
    let key = "monarchy";
    let decrypted_string = decrypt(key, ciphertext).unwrap();
    assert_eq!(
        decrypted_string,
        "instrumentsz".to_string().to_ascii_uppercase()
    );
}

// The key square is a bijection for any keyword: every letter of the
// 25-letter alphabet occupies exactly one cell, whatever the keyword holds.
#[test]
fn key_square_bijection_for_odd_keywords() {
    let alphabet = "ABCDEFGHIKLMNOPQRSTUVWXYZ";
    for key in ["", "  jJzz!?  123 ", "balloon balloon", "pizza"] {
        let table = KeyTable::new(key);
        assert_eq!(table.0.len(), 25);
        for c in alphabet.chars() {
            let occurrences = table.0.iter().filter(|cell| cell.content == c).count();
            assert_eq!(occurrences, 1);
        }
        for (i, cell) in table.0.iter().enumerate() {
            assert_eq!(cell.x, i % 5 + 1);
            assert_eq!(cell.y, i / 5 + 1);
        }
    }
}

#[test]
fn empty_key_gives_plain_alphabet_grid() {
    let table = KeyTable::new("");
    let letters: String = table.0.iter().map(|cell| cell.content).collect();
    assert_eq!(letters, "ABCDEFGHIKLMNOPQRSTUVWXYZ");
}

// Round trip: decryption returns the normalized plaintext, fillers intact.
#[test]
fn round_trip_returns_normalized_plaintext() {
    let key = "monarchy";
    let ct = encrypt(key, "balloon").unwrap();
    assert_eq!(decrypt(key, &ct).unwrap(), "BALZLOON");

    let key2 = "keyword";
    let ct2 = encrypt(key2, "SOMETEXT").unwrap();
    assert_eq!(decrypt(key2, &ct2).unwrap(), "SOMETEXT");
}

// The rectangle rule is self-inverse: applying it to the coordinates of its
// own results returns the original letters.
#[test]
fn rectangle_swap_is_self_inverse() {
    let table = KeyTable::new("");
    let c1 = table.find_by_char('A').unwrap();
    let c2 = table.find_by_char('G').unwrap();
    let (l1, l2) = table.get_by_rule_rectangle(&c1, &c2);
    assert_eq!((l1, l2), ('B', 'F'));
    let d1 = table.find_by_char(l1).unwrap();
    let d2 = table.find_by_char(l2).unwrap();
    let (m1, m2) = table.get_by_rule_rectangle(&d1, &d2);
    assert_eq!((m1, m2), ('A', 'G'));
}

// Row-shift and column-shift encryption and decryption are exact inverses
// at every grid position, wrap-around included.
#[test]
fn shift_rules_are_inverses_everywhere() {
    let table = KeyTable::new("monarchy");
    for x in 1..=5usize {
        for y in 1..=5usize {
            let original = table
                .0
                .iter()
                .find(|cell| cell.x == x && cell.y == y)
                .unwrap()
                .content;

            let shifted = table.get_by_enc_rule_same_row(x, y);
            let down = table.find_by_char(shifted).unwrap();
            assert_eq!(table.get_by_dec_rule_same_row(down.x, down.y), original);

            let shifted = table.get_by_dec_rule_same_row(x, y);
            let up = table.find_by_char(shifted).unwrap();
            assert_eq!(table.get_by_enc_rule_same_row(up.x, up.y), original);

            let shifted = table.get_by_enc_rule_same_column(x, y);
            let right = table.find_by_char(shifted).unwrap();
            assert_eq!(table.get_by_dec_rule_same_column(right.x, right.y), original);

            let shifted = table.get_by_dec_rule_same_column(x, y);
            let left = table.find_by_char(shifted).unwrap();
            assert_eq!(table.get_by_enc_rule_same_column(left.x, left.y), original);
        }
    }
}

#[test]
fn normalization_pads_odd_length_and_doubled_pairs() {
    assert_eq!(Plaintext::from_str("instruments").unwrap().0, "INSTRUMENTSZ");
    assert_eq!(Plaintext::from_str("Z").unwrap().0, "ZX");
    assert_eq!(Plaintext::from_str("BAZZ").unwrap().0, "BAZZZX");
    assert_eq!(Plaintext::from_str("").unwrap().0, "");
    assert_eq!(Plaintext::from_str("jam").unwrap().0, "IAMZ");
    // The scan advances over the grown text, so a doubled pair that an
    // earlier insertion pushed rightward is still broken up.
    assert_eq!(Plaintext::from_str("AAAA").unwrap().0, "AZAZAZAZ");
    // A doubled filler pair cannot be broken by the filler itself; the
    // trailing pad then falls back to the other filler.
    assert_eq!(Plaintext::from_str("zz").unwrap().0, "ZZZX");
}

// J is treated as I on the encryption path.
#[test]
fn encrypt_merges_j_into_i() {
    let key = "monarchy";
    assert_eq!(encrypt(key, "jam").unwrap(), encrypt(key, "iam").unwrap());
}

#[test]
fn round_trip_with_doubled_filler() {
    let key = "monarchy";
    let ct = encrypt(key, "zz").unwrap();
    assert_eq!(decrypt(key, &ct).unwrap(), "ZZZX");
}

#[test]
fn encrypt_rejects_characters_outside_the_alphabet() {
    assert_eq!(encrypt("key", "with space"), Err(CipherError::InvalidInput));
    assert_eq!(encrypt("key", "punct!"), Err(CipherError::InvalidInput));
}

#[test]
fn decrypt_rejects_malformed_ciphertext() {
    assert_eq!(decrypt("key", "ABC"), Err(CipherError::InvalidInput));
    assert_eq!(decrypt("key", "AB CD"), Err(CipherError::InvalidInput));
    assert_eq!(decrypt("key", ""), Ok(String::new()));
}

#[test]
fn encrypt_of_empty_plaintext_is_empty() {
    assert_eq!(encrypt("monarchy", ""), Ok(String::new()));
}

// Ciphertext is case-folded before decryption, with J collapsed into I.
#[test]
fn decrypt_case_folds_its_input() {
    let key = "monarchy";
    let upper = decrypt(key, "GATLMZCLRQTX").unwrap();
    let lower = decrypt(key, "gatlmzclrqtx").unwrap();
    assert_eq!(upper, lower);
}
