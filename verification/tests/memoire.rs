use slab_allocator::memoire::{ecrire_mot, lire_mot};

#[test]
fn mot_petit_boutiste() {
    let mut octets = vec![0u8; 8];
    ecrire_mot(&mut octets, 2, 0x0403_0201);
    assert_eq!(octets, vec![0, 0, 1, 2, 3, 4, 0, 0]);
    assert_eq!(lire_mot(&octets, 2), 0x0403_0201);
}

#[test]
fn mot_aller_retour() {
    let mut octets = vec![0x55u8; 16];
    for valeur in [0u32, 1, 255, 256, 65535, 65536, 0x00FF_FFFF, 0x0100_0000, 0xDEAD_BEEF, u32::MAX] {
        ecrire_mot(&mut octets, 12, valeur);
        assert_eq!(lire_mot(&octets, 12), valeur);
        assert_eq!(&octets[..12], &[0x55u8; 12][..]);
    }
}

#[test]
fn mot_lu_depuis_les_octets() {
    let octets = vec![0x78u8, 0x56, 0x34, 0x12, 0xFF, 0xFF, 0xFF, 0xFF];
    assert_eq!(lire_mot(&octets, 0), 0x1234_5678);
    assert_eq!(lire_mot(&octets, 4), u32::MAX);
    assert_eq!(lire_mot(&octets, 1), 0xFF12_3456);
}
