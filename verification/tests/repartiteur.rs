use slab_allocator::repartiteur::{AllocateurSlab, NB_CLASSES, TAILLE_MAX_CLASSE};
use slab_allocator::slab::TAILLE_SLAB;

fn classe(a: &mut AllocateurSlab, taille: usize) -> Option<usize> {
    a.selectionner_cache(taille).map(|c| c.taille_objet())
}

#[test]
fn constantes_du_repartiteur() {
    assert_eq!(NB_CLASSES, 8);
    assert_eq!(TAILLE_MAX_CLASSE, 1024);
}

#[test]
fn cinq_cents_va_a_la_classe_512() {
    let mut a = AllocateurSlab::nouveau();
    assert_eq!(classe(&mut a, 500), Some(512));
}

#[test]
fn deux_mille_n_est_pas_servi() {
    let mut a = AllocateurSlab::nouveau();
    assert!(a.selectionner_cache(2000).is_none());
    assert!(a.selectionner_cache(1025).is_none());
    assert!(a.selectionner_cache(usize::MAX).is_none());
}

#[test]
fn bornes_des_classes() {
    let mut a = AllocateurSlab::nouveau();
    let mut bas = 0usize;
    for c in [8usize, 16, 32, 64, 128, 256, 512, 1024] {
        assert_eq!(classe(&mut a, bas), Some(c));
        assert_eq!(classe(&mut a, c - 1), Some(c));
        assert_eq!(classe(&mut a, c), Some(c));
        bas = c + 1;
    }
    assert_eq!(classe(&mut a, 1), Some(8));
    assert_eq!(classe(&mut a, bas), None);
}

#[test]
fn chaque_taille_a_la_plus_petite_classe_qui_la_contient() {
    let mut a = AllocateurSlab::nouveau();
    for taille in 0..=1024usize {
        let c = classe(&mut a, taille).unwrap();
        assert!(c >= taille);
        assert!(c == 8 || c / 2 < taille);
        assert!(c.is_power_of_two());
    }
}

#[test]
fn les_caches_sont_independants() {
    let mut a = AllocateurSlab::nouveau();
    let c64 = a.selectionner_cache(40).unwrap();
    assert_eq!(c64.enregistrer_page(0x10000, vec![0u8; TAILLE_SLAB]), Ok(()));
    assert_eq!(c64.allouer(), Some(0x10000));
    // the request goes to the same cache again, and to no other
    assert_eq!(a.selectionner_cache(64).unwrap().allouer(), Some(0x10040));
    assert_eq!(a.selectionner_cache(33).unwrap().bilan().utilises, 2);
    assert_eq!(a.selectionner_cache(32).unwrap().allouer(), None);
    assert_eq!(a.selectionner_cache(65).unwrap().allouer(), None);
    a.selectionner_cache(64).unwrap().liberer(0x10000);
    assert_eq!(a.selectionner_cache(64).unwrap().bilan().utilises, 1);
}
