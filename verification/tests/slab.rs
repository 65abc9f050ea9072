use slab_allocator::slab::{Slab, AUCUN, TAILLE_ENTETE, TAILLE_MIN_OBJET, TAILLE_SLAB};

const BASE: usize = 0x10_0000;

fn slab(taille_objet: usize, nb_objets: usize) -> Slab {
    Slab::nouveau(BASE, vec![0u8; TAILLE_SLAB], taille_objet, nb_objets)
}

#[test]
fn constantes() {
    assert_eq!(TAILLE_SLAB, 4096);
    assert_eq!(TAILLE_ENTETE, 48);
    assert_eq!(TAILLE_MIN_OBJET, 4);
    assert_eq!(AUCUN, u32::MAX);
}

#[test]
fn slab_neuf_est_vide_et_sans_lien() {
    let s = slab(64, 5);
    assert!(s.est_vide());
    assert!(!s.est_plein());
    assert_eq!(s.utilises(), 0);
    assert_eq!(s.base(), BASE);
    assert_eq!(s.prochain(), None);
}

#[test]
fn cinq_allocations_puis_refus() {
    let mut s = slab(64, 5);
    let mut adresses = Vec::new();
    for _ in 0..5 {
        adresses.push(s.allouer().expect("un slot devrait rester"));
    }
    for i in 0..5 {
        for j in 0..5 {
            if i != j {
                assert_ne!(adresses[i], adresses[j]);
            }
        }
    }
    assert_eq!(s.allouer(), None);
    assert!(s.est_plein());
    assert_eq!(s.utilises(), 5);
}

#[test]
fn adresses_dans_l_ordre_des_slots() {
    let mut s = slab(64, 5);
    assert_eq!(s.allouer(), Some(BASE));
    assert_eq!(s.allouer(), Some(BASE + 64));
    assert_eq!(s.allouer(), Some(BASE + 128));
    assert_eq!(s.allouer(), Some(BASE + 192));
    assert_eq!(s.allouer(), Some(BASE + 256));
    assert_eq!(s.allouer(), None);
}

#[test]
fn liberer_le_deuxieme_puis_le_reprendre() {
    let mut s = slab(64, 5);
    let mut adresses = Vec::new();
    for _ in 0..5 {
        adresses.push(s.allouer().unwrap());
    }
    assert!(s.est_plein());
    s.liberer(adresses[1]);
    assert!(!s.est_plein());
    assert_eq!(s.allouer(), Some(adresses[1]));
    assert!(s.est_plein());
}

#[test]
fn tout_liberer_dans_un_ordre_quelconque() {
    for ordre in [[0usize, 1, 2, 3, 4], [4, 3, 2, 1, 0], [2, 0, 4, 1, 3], [1, 4, 0, 3, 2]] {
        let mut s = slab(64, 5);
        let mut adresses = Vec::new();
        for _ in 0..5 {
            adresses.push(s.allouer().unwrap());
        }
        for (n, i) in ordre.iter().enumerate() {
            assert!(!s.est_vide());
            s.liberer(adresses[*i]);
            assert_eq!(s.utilises(), 4 - n);
        }
        assert!(s.est_vide());
        assert!(!s.est_plein());
    }
}

#[test]
fn reutilisation_en_ordre_inverse() {
    let mut s = slab(32, 8);
    let a = s.allouer().unwrap();
    let b = s.allouer().unwrap();
    s.liberer(b);
    let c = s.allouer().unwrap();
    assert_eq!(c, b);
    assert_ne!(c, a);
    // two releases come back last released first
    s.liberer(a);
    s.liberer(c);
    assert_eq!(s.allouer(), Some(c));
    assert_eq!(s.allouer(), Some(a));
    // then the untouched part of the chain goes on
    assert_eq!(s.allouer(), Some(BASE + 64));
}

#[test]
fn chaque_adresse_appartient_au_slab() {
    let mut s = slab(48, 84);
    for i in 0..84 {
        let p = s.allouer().unwrap();
        assert!(s.objet_appartient(p));
        assert!(p >= BASE && p < BASE + 84 * 48);
        assert_eq!((p - BASE) % 48, 0);
        assert_eq!(p, BASE + i * 48);
    }
    assert_eq!(s.allouer(), None);
}

#[test]
fn objet_appartient_aux_bornes() {
    let s = slab(64, 5);
    assert!(!s.objet_appartient(BASE - 1));
    assert!(s.objet_appartient(BASE));
    assert!(s.objet_appartient(BASE + 1));
    assert!(s.objet_appartient(BASE + 5 * 64 - 1));
    assert!(!s.objet_appartient(BASE + 5 * 64));
    assert!(!s.objet_appartient(BASE + TAILLE_SLAB));
    assert!(!s.objet_appartient(0));
}

#[test]
fn plein_et_vide_ne_vont_pas_ensemble() {
    let mut s = slab(16, 3);
    assert!(s.est_vide() && !s.est_plein());
    let a = s.allouer().unwrap();
    assert!(!s.est_vide() && !s.est_plein());
    let b = s.allouer().unwrap();
    assert!(!s.est_vide() && !s.est_plein());
    let c = s.allouer().unwrap();
    assert!(!s.est_vide() && s.est_plein());
    s.liberer(a);
    s.liberer(b);
    s.liberer(c);
    assert!(s.est_vide() && !s.est_plein());
}

#[test]
fn slab_sans_slot() {
    let mut s = slab(64, 0);
    assert!(s.est_vide());
    assert!(s.est_plein());
    assert_eq!(s.allouer(), None);
    assert!(!s.objet_appartient(BASE));
}

#[test]
fn slab_d_un_seul_slot() {
    let mut s = slab(4048, 1);
    assert!(s.est_vide() && !s.est_plein());
    assert_eq!(s.allouer(), Some(BASE));
    assert!(!s.est_vide() && s.est_plein());
    assert_eq!(s.allouer(), None);
    s.liberer(BASE);
    assert!(s.est_vide() && !s.est_plein());
    assert_eq!(s.allouer(), Some(BASE));
}

#[test]
fn plus_petits_slots_et_page_remplie() {
    let mut s = slab(TAILLE_MIN_OBJET, 1012);
    let mut dernier = 0;
    for i in 0..1012 {
        dernier = s.allouer().unwrap();
        assert_eq!(dernier, BASE + 4 * i);
    }
    assert_eq!(s.allouer(), None);
    s.liberer(dernier);
    s.liberer(BASE);
    assert_eq!(s.allouer(), Some(BASE));
    assert_eq!(s.allouer(), Some(dernier));
    assert_eq!(s.allouer(), None);
}

#[test]
fn le_contenu_initial_de_la_page_est_sans_effet() {
    let mut a = Slab::nouveau(BASE, vec![0xAAu8; TAILLE_SLAB], 8, 20);
    let mut b = Slab::nouveau(BASE, vec![0u8; TAILLE_SLAB], 8, 20);
    for _ in 0..21 {
        assert_eq!(a.allouer(), b.allouer());
    }
}

#[test]
fn est_alloue_suit_les_appels() {
    let mut s = slab(64, 5);
    assert!(!s.est_alloue(BASE));
    let a = s.allouer().unwrap();
    let b = s.allouer().unwrap();
    assert!(s.est_alloue(a));
    assert!(s.est_alloue(b));
    assert!(!s.est_alloue(a + 1));
    assert!(!s.est_alloue(BASE + 128));
    assert!(!s.est_alloue(BASE - 64));
    assert!(!s.est_alloue(BASE + 5 * 64));
    s.liberer(a);
    assert!(!s.est_alloue(a));
    assert!(s.est_alloue(b));
}

#[test]
fn le_lien_est_independant_du_pool() {
    let mut s = slab(64, 5);
    s.lier(Some(7));
    assert_eq!(s.prochain(), Some(7));
    let a = s.allouer().unwrap();
    assert_eq!(s.prochain(), Some(7));
    s.liberer(a);
    assert_eq!(s.prochain(), Some(7));
    s.lier(None);
    assert_eq!(s.prochain(), None);
    assert!(s.est_vide());
}

#[test]
fn allocations_et_liberations_melees() {
    let mut s = slab(64, 4);
    let mut vivants: Vec<usize> = Vec::new();
    let etapes = [1, 1, 0, 1, 1, 1, 1, 0, 0, 1, 0, 0, 0, 1];
    for e in etapes {
        if e == 1 {
            match s.allouer() {
                Some(p) => {
                    assert!(!vivants.contains(&p));
                    vivants.push(p);
                }
                None => assert_eq!(vivants.len(), 4),
            }
        } else {
            let p = vivants.remove(0);
            s.liberer(p);
        }
        assert_eq!(s.utilises(), vivants.len());
        assert_eq!(s.est_plein(), vivants.len() == 4);
        assert_eq!(s.est_vide(), vivants.is_empty());
    }
}
