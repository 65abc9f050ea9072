use slab_allocator::cache::{Bilan, ErreurPage, SlabCache};
use slab_allocator::slab::TAILLE_SLAB;

fn page() -> Vec<u8> {
    vec![0u8; TAILLE_SLAB]
}

fn bilan(partiels: usize, pleins: usize, vides: usize, utilises: usize) -> Bilan {
    Bilan { partiels, pleins, vides, utilises }
}

#[test]
fn taille_minimale() {
    assert_eq!(SlabCache::nouveau(0).taille_objet(), 4);
    assert_eq!(SlabCache::nouveau(1).taille_objet(), 4);
    assert_eq!(SlabCache::nouveau(3).taille_objet(), 4);
    assert_eq!(SlabCache::nouveau(4).taille_objet(), 4);
    assert_eq!(SlabCache::nouveau(5).taille_objet(), 5);
    assert_eq!(SlabCache::nouveau(1024).taille_objet(), 1024);
}

#[test]
fn cache_sans_slab_n_alloue_rien() {
    let mut cache = SlabCache::nouveau(64);
    for _ in 0..100 {
        assert_eq!(cache.allouer(), None);
    }
    assert_eq!(cache.bilan(), bilan(0, 0, 0, 0));
}

#[test]
fn une_page_donne_soixante_trois_objets_de_64() {
    let mut cache = SlabCache::nouveau(64);
    assert_eq!(cache.enregistrer_page(0x4000, page()), Ok(()));
    assert_eq!(cache.bilan(), bilan(0, 0, 1, 0));
    for i in 0..63 {
        assert_eq!(cache.allouer(), Some(0x4000 + 64 * i));
        if i < 62 {
            assert_eq!(cache.bilan(), bilan(1, 0, 0, i + 1));
        }
    }
    assert_eq!(cache.bilan(), bilan(0, 1, 0, 63));
    assert_eq!(cache.allouer(), None);
    assert_eq!(cache.bilan(), bilan(0, 1, 0, 63));
}

#[test]
fn nombre_d_objets_par_slab() {
    for (taille, attendu) in [(4usize, 1012usize), (8, 506), (100, 40), (1024, 3), (2024, 2), (2025, 1), (4048, 1)] {
        let mut cache = SlabCache::nouveau(taille);
        assert_eq!(cache.enregistrer_page(0x10000, page()), Ok(()));
        let mut n = 0;
        while cache.allouer().is_some() {
            n += 1;
        }
        assert_eq!(n, attendu);
    }
}

#[test]
fn pages_refusees() {
    let mut cache = SlabCache::nouveau(64);
    assert_eq!(cache.enregistrer_page(0x4000, vec![0u8; 4095]), Err(ErreurPage::TailleInvalide));
    assert_eq!(cache.enregistrer_page(0x4000, vec![0u8; 4097]), Err(ErreurPage::TailleInvalide));
    assert_eq!(cache.enregistrer_page(0x4000, Vec::new()), Err(ErreurPage::TailleInvalide));
    assert_eq!(cache.enregistrer_page(usize::MAX - 4095, page()), Err(ErreurPage::HorsEspace));
    assert_eq!(cache.enregistrer_page(usize::MAX, page()), Err(ErreurPage::HorsEspace));
    assert_eq!(cache.bilan(), bilan(0, 0, 0, 0));
    assert_eq!(cache.enregistrer_page(usize::MAX - 4096, page()), Ok(()));
    assert_eq!(cache.enregistrer_page(0x4000, page()), Ok(()));
    assert_eq!(cache.enregistrer_page(0x4000, page()), Err(ErreurPage::Chevauchement));
    assert_eq!(cache.enregistrer_page(0x4000 - 4095, page()), Err(ErreurPage::Chevauchement));
    assert_eq!(cache.enregistrer_page(0x4000 + 4095, page()), Err(ErreurPage::Chevauchement));
    assert_eq!(cache.bilan(), bilan(0, 0, 2, 0));
    assert_eq!(cache.enregistrer_page(0x4000 - 4096, page()), Ok(()));
    assert_eq!(cache.enregistrer_page(0x4000 + 4096, page()), Ok(()));
    assert_eq!(cache.bilan(), bilan(0, 0, 4, 0));
}

#[test]
fn ordre_des_refus() {
    // a wrong length is reported before anything else
    let mut trop_large = SlabCache::nouveau(5000);
    assert_eq!(trop_large.enregistrer_page(usize::MAX, vec![0u8; 10]), Err(ErreurPage::TailleInvalide));
    // then the end of the page, then the capacity
    assert_eq!(trop_large.enregistrer_page(usize::MAX, page()), Err(ErreurPage::HorsEspace));
    assert_eq!(trop_large.enregistrer_page(0x4000, page()), Err(ErreurPage::CapaciteNulle));
    assert_eq!(trop_large.allouer(), None);
    let mut juste = SlabCache::nouveau(4049);
    assert_eq!(juste.enregistrer_page(0x4000, page()), Err(ErreurPage::CapaciteNulle));
    let mut limite = SlabCache::nouveau(4048);
    assert_eq!(limite.enregistrer_page(0x4000, page()), Ok(()));
}

#[test]
fn la_derniere_page_enregistree_sert_la_premiere() {
    let mut cache = SlabCache::nouveau(1024);
    assert_eq!(cache.enregistrer_page(0x10000, page()), Ok(()));
    assert_eq!(cache.enregistrer_page(0x20000, page()), Ok(()));
    assert_eq!(cache.bilan(), bilan(0, 0, 2, 0));
    assert_eq!(cache.allouer(), Some(0x20000));
    assert_eq!(cache.bilan(), bilan(1, 0, 1, 1));
    assert_eq!(cache.allouer(), Some(0x20400));
    assert_eq!(cache.allouer(), Some(0x20800));
    assert_eq!(cache.bilan(), bilan(0, 1, 1, 3));
    assert_eq!(cache.allouer(), Some(0x10000));
    assert_eq!(cache.bilan(), bilan(1, 1, 0, 4));
    assert_eq!(cache.allouer(), Some(0x10400));
    assert_eq!(cache.allouer(), Some(0x10800));
    assert_eq!(cache.bilan(), bilan(0, 2, 0, 6));
    assert_eq!(cache.allouer(), None);
}

#[test]
fn un_slab_plein_redevient_partiel_puis_vide() {
    let mut cache = SlabCache::nouveau(1024);
    assert_eq!(cache.enregistrer_page(0x10000, page()), Ok(()));
    let a = cache.allouer().unwrap();
    let b = cache.allouer().unwrap();
    let c = cache.allouer().unwrap();
    assert_eq!(cache.bilan(), bilan(0, 1, 0, 3));
    cache.liberer(b);
    assert_eq!(cache.bilan(), bilan(1, 0, 0, 2));
    cache.liberer(a);
    assert_eq!(cache.bilan(), bilan(1, 0, 0, 1));
    cache.liberer(c);
    assert_eq!(cache.bilan(), bilan(0, 0, 1, 0));
    // the slot released last comes back first
    assert_eq!(cache.allouer(), Some(c));
    assert_eq!(cache.allouer(), Some(a));
    assert_eq!(cache.allouer(), Some(b));
    assert_eq!(cache.allouer(), None);
}

#[test]
fn liberation_au_milieu_d_une_liste() {
    let mut cache = SlabCache::nouveau(1024);
    for k in 1..=4usize {
        assert_eq!(cache.enregistrer_page(k * 0x10000, page()), Ok(()));
    }
    let mut adresses = Vec::new();
    while let Some(p) = cache.allouer() {
        adresses.push(p);
    }
    assert_eq!(adresses.len(), 12);
    assert_eq!(cache.bilan(), bilan(0, 4, 0, 12));
    // the full list is now 1, 2, 3, 4 from its head: release in the third, then the last,
    // then the first
    cache.liberer(0x30400);
    assert_eq!(cache.bilan(), bilan(1, 3, 0, 11));
    cache.liberer(0x10000);
    assert_eq!(cache.bilan(), bilan(2, 2, 0, 10));
    cache.liberer(0x40800);
    assert_eq!(cache.bilan(), bilan(3, 1, 0, 9));
    // the partial list is 4, 1, 3 from its head
    assert_eq!(cache.allouer(), Some(0x40800));
    assert_eq!(cache.bilan(), bilan(2, 2, 0, 10));
    assert_eq!(cache.allouer(), Some(0x10000));
    assert_eq!(cache.allouer(), Some(0x30400));
    assert_eq!(cache.bilan(), bilan(0, 4, 0, 12));
    assert_eq!(cache.allouer(), None);
    // empty a slab that sits in the middle of the partial list
    cache.liberer(0x20000);
    cache.liberer(0x30000);
    cache.liberer(0x10000);
    assert_eq!(cache.bilan(), bilan(3, 1, 0, 9));
    cache.liberer(0x30400);
    cache.liberer(0x30800);
    assert_eq!(cache.bilan(), bilan(2, 1, 1, 7));
    // the partial list is 1, 2: the head serves first, the empty slab last
    assert_eq!(cache.allouer(), Some(0x10000));
    assert_eq!(cache.allouer(), Some(0x20000));
    assert_eq!(cache.allouer(), Some(0x30800));
    assert_eq!(cache.bilan(), bilan(1, 3, 0, 10));
}

#[test]
fn slabs_d_un_seul_slot() {
    let mut cache = SlabCache::nouveau(3000);
    assert_eq!(cache.enregistrer_page(0x10000, page()), Ok(()));
    assert_eq!(cache.enregistrer_page(0x20000, page()), Ok(()));
    assert_eq!(cache.allouer(), Some(0x20000));
    // the slab is full and stays at the head of the partial list
    assert_eq!(cache.bilan(), bilan(1, 0, 1, 1));
    assert_eq!(cache.allouer(), Some(0x10000));
    assert_eq!(cache.bilan(), bilan(2, 0, 0, 2));
    assert_eq!(cache.allouer(), None);
    cache.liberer(0x20000);
    assert_eq!(cache.bilan(), bilan(1, 0, 1, 1));
    assert_eq!(cache.allouer(), Some(0x20000));
    cache.liberer(0x10000);
    cache.liberer(0x20000);
    assert_eq!(cache.bilan(), bilan(0, 0, 2, 0));
}

#[test]
fn le_compte_suit_les_allocations_et_les_liberations() {
    let mut cache = SlabCache::nouveau(512);
    assert_eq!(cache.enregistrer_page(0x10000, page()), Ok(()));
    assert_eq!(cache.enregistrer_page(0x20000, page()), Ok(()));
    let mut vivants: Vec<usize> = Vec::new();
    let mut reussies = 0usize;
    let mut liberees = 0usize;
    let etapes = [1, 1, 1, 0, 1, 1, 1, 1, 1, 1, 1, 1, 1, 1, 1, 1, 1, 0, 0, 0, 1, 0, 1, 1, 1, 1, 0, 0, 0, 0, 0, 0];
    for (n, e) in etapes.iter().enumerate() {
        if *e == 1 {
            if let Some(p) = cache.allouer() {
                assert!(!vivants.contains(&p));
                vivants.push(p);
                reussies += 1;
            } else {
                assert_eq!(vivants.len(), 14);
            }
        } else {
            let p = vivants.remove((n * 7) % vivants.len());
            cache.liberer(p);
            liberees += 1;
        }
        let b = cache.bilan();
        assert_eq!(b.utilises, reussies - liberees);
        assert_eq!(b.utilises, vivants.len());
        assert_eq!(b.partiels + b.pleins + b.vides, 2);
    }
}

#[test]
fn est_alloue_et_liberation_verifiee() {
    let mut cache = SlabCache::nouveau(1024);
    assert!(!cache.est_alloue(0x10000));
    assert!(!cache.liberer_verifie(0x10000));
    assert_eq!(cache.enregistrer_page(0x10000, page()), Ok(()));
    assert!(!cache.est_alloue(0x10000));
    assert!(!cache.liberer_verifie(0x10000));
    let a = cache.allouer().unwrap();
    let b = cache.allouer().unwrap();
    assert!(cache.est_alloue(a));
    assert!(cache.est_alloue(b));
    assert!(!cache.est_alloue(a + 8));
    assert!(!cache.est_alloue(0x10800));
    assert!(!cache.est_alloue(0x50000));
    // a foreign address and an address inside a slot change nothing
    assert!(!cache.liberer_verifie(0x50000));
    assert!(!cache.liberer_verifie(a + 8));
    assert_eq!(cache.bilan(), bilan(1, 0, 0, 2));
    // a release is taken once
    assert!(cache.liberer_verifie(a));
    assert!(!cache.liberer_verifie(a));
    assert_eq!(cache.bilan(), bilan(1, 0, 0, 1));
    assert!(cache.liberer_verifie(b));
    assert_eq!(cache.bilan(), bilan(0, 0, 1, 0));
    // in a full slab too
    let c = cache.allouer().unwrap();
    cache.allouer().unwrap();
    cache.allouer().unwrap();
    assert_eq!(cache.bilan(), bilan(0, 1, 0, 3));
    assert!(cache.est_alloue(c));
    assert!(cache.liberer_verifie(c));
    assert_eq!(cache.bilan(), bilan(1, 0, 0, 2));
}

#[test]
fn l_enregistrement_ne_touche_pas_aux_objets() {
    let mut cache = SlabCache::nouveau(1024);
    assert_eq!(cache.enregistrer_page(0x10000, page()), Ok(()));
    let a = cache.allouer().unwrap();
    assert_eq!(cache.enregistrer_page(0x20000, page()), Ok(()));
    assert!(cache.est_alloue(a));
    assert_eq!(cache.bilan(), bilan(1, 0, 1, 1));
    // the partial slab still serves before the new empty one
    assert_eq!(cache.allouer(), Some(0x10400));
}
