use synapse::PieceField;

#[test]
fn new_field_is_clear() {
    let f = PieceField::new(10);
    assert_eq!(f.len(), 10);
    for i in 0..10 {
        assert!(!f.has_piece(i));
    }
    assert!(!f.complete());
}

#[test]
fn set_is_idempotent_and_complete() {
    let mut f = PieceField::new(3);
    f.set_piece(1);
    f.set_piece(1);
    assert!(f.has_piece(1));
    assert!(!f.has_piece(0));
    f.set_piece(0);
    f.set_piece(2);
    assert!(f.complete());
    f.unset_piece(2);
    assert!(!f.complete());
}

#[test]
fn empty_field_is_complete() {
    assert!(PieceField::new(0).complete());
}

#[test]
fn usable_needs_a_bit_missing_here() {
    let mut a = PieceField::new(4);
    let mut b = PieceField::new(4);
    assert!(!a.usable(&b));
    b.set_piece(2);
    assert!(a.usable(&b));
    a.set_piece(2);
    assert!(!a.usable(&b));
    a.set_piece(3);
    assert!(!a.usable(&b));
}

#[test]
fn iter_from_yields_set_bits_in_order() {
    let mut f = PieceField::new(8);
    for i in [1u32, 3, 4, 7] {
        f.set_piece(i);
    }
    assert_eq!(f.iter_from(0), vec![1, 3, 4, 7]);
    assert_eq!(f.iter_from(4), vec![4, 7]);
    assert_eq!(f.iter_from(8), Vec::<u32>::new());
    assert_eq!(f.iter_from(20), Vec::<u32>::new());
}

#[test]
fn bits_in_the_same_byte_stay_independent() {
    let mut f = PieceField::new(19);
    f.set_piece(9);
    f.set_piece(18);
    for i in 0..19 {
        assert_eq!(f.has_piece(i), i == 9 || i == 18);
    }
    f.set_piece(8);
    f.unset_piece(9);
    for i in 0..19 {
        assert_eq!(f.has_piece(i), i == 8 || i == 18);
    }
    assert_eq!(f.iter_from(0), vec![8, 18]);
}
