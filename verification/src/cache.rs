//! The slabs of one size class, kept in three intrusive lists.

use crate::arene::{
    chaine, etrangers, lemme_ajout, lemme_deplacement, lemme_etrangers_symetrique,
    lemme_liste_intacte, lemme_remplacement, maillon, vues,
};
use crate::modele::{
    lemme_cache_allocation, lemme_cache_enregistrement, lemme_cache_liberation, lemme_cache_neuf,
    lemme_capacite, lemme_proprietaire, liste_possede, pages_disjointes, somme_utilises, VueCache,
};
use crate::slab::{
    lemme_bornes, lemme_libres_bornes, Slab, VueSlab, TAILLE_ENTETE, TAILLE_MIN_OBJET, TAILLE_SLAB,
};
use vstd::prelude::*;

verus! {

/// Why a page was turned away by a cache.
#[derive(Clone, Copy, Debug, PartialEq, Eq)]
pub enum ErreurPage {
    /// The region is not exactly one page long.
    TailleInvalide,
    /// The page would end beyond the address space.
    HorsEspace,
    /// The cache's slot is too wide for a page to hold even one.
    CapaciteNulle,
    /// The page overlaps one that the cache already holds.
    Chevauchement,
}

/// The reason for which a cache turns away a region of `longueur` bytes at `base`, if it
/// does. The tests are made in this order: the length, the end of the page, the capacity of a
/// slab, the overlap with the pages that the cache holds.
pub open spec fn refus(c: VueCache, base: int, longueur: int) -> Option<ErreurPage> {
    if longueur != TAILLE_SLAB {
        Some(ErreurPage::TailleInvalide)
    } else if base + TAILLE_SLAB > usize::MAX {
        Some(ErreurPage::HorsEspace)
    } else if c.objets_par_slab < 1 {
        Some(ErreurPage::CapaciteNulle)
    } else if !c.libre_de(base) {
        Some(ErreurPage::Chevauchement)
    } else {
        None
    }
}

/// Head counts of a cache: the length of each list and the slots in use.
#[derive(Clone, Copy, Debug, PartialEq, Eq)]
pub struct Bilan {
    /// Slabs in the partial list.
    pub partiels: usize,
    /// Slabs in the full list.
    pub pleins: usize,
    /// Slabs in the empty list.
    pub vides: usize,
    /// Allocated slots over all the slabs.
    pub utilises: usize,
}

/// The slabs of one size class. The slabs live in an arena and are named by their index in
/// it; each of the three lists is threaded through the slabs' own links.
pub struct SlabCache {
    taille_objet: usize,
    objets_par_slab: usize,
    partiels: Option<usize>,
    pleins: Option<usize>,
    vides: Option<usize>,
    slabs: Vec<Slab>,
    ordre_partiels: Ghost<Seq<int>>,
    ordre_pleins: Ghost<Seq<int>>,
    ordre_vides: Ghost<Seq<int>>,
}

impl View for SlabCache {
    type V = VueCache;

    closed spec fn view(&self) -> VueCache {
        VueCache {
            taille_objet: self.taille_objet as int,
            objets_par_slab: self.objets_par_slab as int,
            partiels: vues(self.slabs@, self.ordre_partiels@),
            pleins: vues(self.slabs@, self.ordre_pleins@),
            vides: vues(self.slabs@, self.ordre_vides@),
        }
    }
}

impl SlabCache {
    /// The arena and the links of its slabs agree with the model: each list is a chain, the
    /// lists share no slab, every slab of the arena is in one of them, and every slab is well
    /// formed.
    pub closed spec fn representation(&self) -> bool {
        &&& chaine(self.slabs@, self.partiels, self.ordre_partiels@)
        &&& chaine(self.slabs@, self.pleins, self.ordre_pleins@)
        &&& chaine(self.slabs@, self.vides, self.ordre_vides@)
        &&& etrangers(self.ordre_partiels@, self.ordre_pleins@)
        &&& etrangers(self.ordre_partiels@, self.ordre_vides@)
        &&& etrangers(self.ordre_pleins@, self.ordre_vides@)
        &&& forall|i: int|
            0 <= i < self.slabs@.len() ==> self.ordre_partiels@.contains(i)
                || self.ordre_pleins@.contains(i) || self.ordre_vides@.contains(i)
        &&& forall|i: int| 0 <= i < self.slabs@.len() ==> (#[trigger] self.slabs@[i]).bien_forme()
    }

    /// The cache's invariant.
    pub open spec fn bien_forme(&self) -> bool {
        &&& self@.valide()
        &&& self.representation()
    }

    /// A cache without any slab for objects of `taille_objet` bytes. A size below the width
    /// of a free-list link is raised to it.
    pub fn nouveau(taille_objet: usize) -> (cache: SlabCache)
        ensures
            cache.bien_forme(),
            cache@ == VueCache::neuf(taille_objet as int),
    {
        let taille: usize = if taille_objet < TAILLE_MIN_OBJET {
            TAILLE_MIN_OBJET
        } else {
            taille_objet
        };
        let objets_par_slab: usize = (TAILLE_SLAB - TAILLE_ENTETE) / taille;
        let cache = SlabCache {
            taille_objet: taille,
            objets_par_slab,
            partiels: None,
            pleins: None,
            vides: None,
            slabs: Vec::new(),
            ordre_partiels: Ghost(Seq::empty()),
            ordre_pleins: Ghost(Seq::empty()),
            ordre_vides: Ghost(Seq::empty()),
        };
        proof {
            lemme_cache_neuf(taille_objet as int);
        }
        assert(cache@.partiels =~= Seq::<VueSlab>::empty());
        assert(cache@.pleins =~= Seq::<VueSlab>::empty());
        assert(cache@.vides =~= Seq::<VueSlab>::empty());
        cache
    }

    /// Hands out one slot. The first partial slab serves the request if it has a free slot,
    /// and moves to the head of the full list if that was its last one. Otherwise the first
    /// empty slab moves to the head of the partial list and serves it. Without either, the
    /// cache has no capacity and the answer is `None`: pages come from outside.
    pub fn allouer(&mut self) -> (r: Option<usize>)
        requires
            old(self).bien_forme(),
        ensures
            final(self).bien_forme(),
            final(self)@ == old(self)@.apres_allocation(),
            r is None <==> old(self)@.adresse_suivante() is None,
            r matches Some(p) ==> {
                &&& old(self)@.adresse_suivante() == Some(p as int)
                &&& !old(self)@.alloue(p as int)
                &&& final(self)@.alloue(p as int)
                &&& forall|q: int| q != p ==> final(self)@.alloue(q) == old(self)@.alloue(q)
                &&& final(self)@.utilises_total() == old(self)@.utilises_total() + 1
            },
            r is None ==> final(self)@.utilises_total() == old(self)@.utilises_total(),
    {
        let ghost c = self@;
        let ghost op = self.ordre_partiels@;
        let ghost ol = self.ordre_pleins@;
        let ghost ov = self.ordre_vides@;
        let ghost depart = self.slabs@;
        proof {
            lemme_cache_allocation(c);
        }
        if let Some(h) = self.partiels {
            assert(h == op[0]);
            assert(c.partiels[0] == depart[h as int]@);
            let obj = self.slabs[h].allouer();
            proof {
                lemme_remplacement(
                    depart,
                    self.slabs@,
                    self.partiels,
                    op,
                    self.pleins,
                    ol,
                    self.vides,
                    ov,
                    0,
                );
            }
            if let Some(p) = obj {
                let ghost milieu = self.slabs@;
                if self.slabs[h].est_plein() {
                    let ghost tp = self.partiels;
                    let ghost tl = self.pleins;
                    self.partiels = self.slabs[h].prochain();
                    self.slabs[h].lier(self.pleins);
                    self.pleins = Some(h);
                    proof {
                        lemme_deplacement(milieu, self.slabs@, tp, op, tl, ol, self.vides, ov, 0);
                        self.ordre_partiels@ = op.remove(0);
                        self.ordre_pleins@ = seq![h as int] + ol;
                        assert(vues(milieu, op).remove(0) =~= c.partiels.remove(0));
                    }
                }
                assert(self@ == c.apres_allocation());
                return Some(p);
            }
            assert(self@ == c) by {
                assert(vues(self.slabs@, op) =~= c.partiels);
            }
        }
        let ghost milieu = self.slabs@;
        if let Some(h) = self.vides {
            assert(h == ov[0]);
            assert(c.vides[0] == milieu[h as int]@);
            assert(c.conforme(c.vides[0]));
            let ghost tv = self.vides;
            let ghost tp = self.partiels;
            self.vides = self.slabs[h].prochain();
            self.slabs[h].lier(self.partiels);
            self.partiels = Some(h);
            let r = self.slabs[h].allouer();
            proof {
                lemme_etrangers_symetrique(op, ov);
                lemme_etrangers_symetrique(ol, ov);
                lemme_deplacement(milieu, self.slabs@, tv, ov, tp, op, self.pleins, ol, 0);
                self.ordre_vides@ = ov.remove(0);
                self.ordre_partiels@ = seq![h as int] + op;
                assert(self@ == c.apres_allocation());
            }
            return r;
        }
        None
    }

    /// Walks the list that starts at `tete` and stops at the first slab that covers `ptr`.
    /// Returns that slab and the one before it in the list, with the slab's position.
    fn chercher_dans(&self, tete: Option<usize>, ptr: usize, Ghost(ordre): Ghost<Seq<int>>) -> (r: (
        Option<(Option<usize>, usize)>,
        Ghost<int>,
    ))
        requires
            chaine(self.slabs@, tete, ordre),
            forall|i: int| 0 <= i < self.slabs@.len() ==> (#[trigger] self.slabs@[i]).bien_forme(),
        ensures
            r.0 is None ==> forall|k: int|
                0 <= k < ordre.len() ==> !(#[trigger] vues(self.slabs@, ordre)[k]).possede(ptr as int),
            r.0 matches Some((precedent, h)) ==> {
                &&& 0 <= r.1@ < ordre.len()
                &&& h == ordre[r.1@]
                &&& precedent == maillon(ordre, r.1@ - 1)
                &&& vues(self.slabs@, ordre)[r.1@].possede(ptr as int)
            },
    {
        let mut courant = tete;
        let mut precedent: Option<usize> = None;
        let ghost mut k: int = 0;
        loop
            invariant
                chaine(self.slabs@, tete, ordre),
                forall|i: int|
                    0 <= i < self.slabs@.len() ==> (#[trigger] self.slabs@[i]).bien_forme(),
                0 <= k <= ordre.len(),
                courant == maillon(ordre, k),
                precedent == maillon(ordre, k - 1),
                forall|m: int|
                    0 <= m < k ==> !(#[trigger] vues(self.slabs@, ordre)[m]).possede(ptr as int),
            decreases ordre.len() - k,
        {
            match courant {
                None => {
                    return (None, Ghost(k));
                },
                Some(h) => {
                    assert(h == ordre[k]);
                    if self.slabs[h].objet_appartient(ptr) {
                        return (Some((precedent, h)), Ghost(k));
                    }
                    precedent = Some(h);
                    courant = self.slabs[h].prochain();
                    proof {
                        k = k + 1;
                    }
                },
            }
        }
    }

    /// Gives the slot at `ptr` back to the slab `h`, which is at position `j` of the full list
    /// behind `precedent`, and moves that slab to the head of the partial list.
    fn rendre_a_plein(&mut self, ptr: usize, precedent: Option<usize>, h: usize, Ghost(j): Ghost<int>)
        requires
            old(self).bien_forme(),
            old(self)@.alloue(ptr as int),
            0 <= j < old(self)@.pleins.len(),
            old(self)@.pleins[j].possede(ptr as int),
            h == old(self).ordre_pleins@[j],
            precedent == maillon(old(self).ordre_pleins@, j - 1),
        ensures
            final(self).representation(),
            final(self)@ == old(self)@.apres_liberation(ptr as int),
    {
        let ghost c = self@;
        let ghost op = self.ordre_partiels@;
        let ghost ol = self.ordre_pleins@;
        let ghost ov = self.ordre_vides@;
        let ghost depart = self.slabs@;
        let ghost tl = self.pleins;
        let ghost tp = self.partiels;
        proof {
            lemme_proprietaire(c, ptr as int);
            assert(c.pleins[j] == depart[h as int]@);
        }
        self.slabs[h].liberer(ptr);
        let suivant = self.slabs[h].prochain();
        match precedent {
            Some(p) => {
                assert(p == ol[j - 1]);
                self.slabs[p].lier(suivant);
            },
            None => {
                self.pleins = suivant;
            },
        }
        self.slabs[h].lier(self.partiels);
        self.partiels = Some(h);
        proof {
            lemme_etrangers_symetrique(op, ol);
            lemme_deplacement(depart, self.slabs@, tl, ol, tp, op, self.vides, ov, j);
            self.ordre_pleins@ = ol.remove(j);
            self.ordre_partiels@ = seq![h as int] + op;
            assert(liste_possede(c.pleins, ptr as int));
            assert(self@.pleins == c.pleins.remove(j));
            assert(self@.partiels == seq![c.pleins[j].apres_liberation(ptr as int)] + c.partiels);
            assert(self@.vides == c.vides);
        }
    }

    /// Gives the slot at `ptr` back to the slab `h`, which is at position `j` of the partial
    /// list behind `precedent`, and moves that slab to the head of the empty list if it has no
    /// allocated slot left.
    fn rendre_a_partiel(
        &mut self,
        ptr: usize,
        precedent: Option<usize>,
        h: usize,
        Ghost(j): Ghost<int>,
    )
        requires
            old(self).bien_forme(),
            old(self)@.alloue(ptr as int),
            !liste_possede(old(self)@.pleins, ptr as int),
            0 <= j < old(self)@.partiels.len(),
            old(self)@.partiels[j].possede(ptr as int),
            h == old(self).ordre_partiels@[j],
            precedent == maillon(old(self).ordre_partiels@, j - 1),
        ensures
            final(self).representation(),
            final(self)@ == old(self)@.apres_liberation(ptr as int),
    {
        let ghost c = self@;
        let ghost op = self.ordre_partiels@;
        let ghost ol = self.ordre_pleins@;
        let ghost ov = self.ordre_vides@;
        let ghost depart = self.slabs@;
        proof {
            lemme_proprietaire(c, ptr as int);
            assert(c.partiels[j] == depart[h as int]@);
            assert(liste_possede(c.partiels, ptr as int));
        }
        self.slabs[h].liberer(ptr);
        if self.slabs[h].est_vide() {
            let ghost tp = self.partiels;
            let ghost tv = self.vides;
            let suivant = self.slabs[h].prochain();
            match precedent {
                Some(p) => {
                    assert(p == op[j - 1]);
                    self.slabs[p].lier(suivant);
                },
                None => {
                    self.partiels = suivant;
                },
            }
            self.slabs[h].lier(self.vides);
            self.vides = Some(h);
            proof {
                lemme_deplacement(depart, self.slabs@, tp, op, tv, ov, self.pleins, ol, j);
                self.ordre_partiels@ = op.remove(j);
                self.ordre_vides@ = seq![h as int] + ov;
                assert(self@.partiels == c.partiels.remove(j));
                assert(self@.vides == seq![c.partiels[j].apres_liberation(ptr as int)] + c.vides);
                assert(self@.pleins == c.pleins);
            }
        } else {
            proof {
                lemme_remplacement(
                    depart,
                    self.slabs@,
                    self.partiels,
                    op,
                    self.pleins,
                    ol,
                    self.vides,
                    ov,
                    j,
                );
                assert(self@.partiels == c.partiels.update(j, c.partiels[j].apres_liberation(ptr as int)));
            }
        }
    }

    /// Takes back the slot at `ptr`. The full list is searched first, for the slab that
    /// covers `ptr`: that slab gets the slot back and moves to the head of the partial list.
    /// Otherwise the slab is in the partial list: it gets the slot back, and moves to the head
    /// of the empty list if that was its last allocated one.
    pub fn liberer(&mut self, ptr: usize)
        requires
            old(self).bien_forme(),
            old(self)@.alloue(ptr as int),
        ensures
            final(self).bien_forme(),
            final(self)@ == old(self)@.apres_liberation(ptr as int),
            !final(self)@.alloue(ptr as int),
            forall|q: int| q != ptr ==> final(self)@.alloue(q) == old(self)@.alloue(q),
            final(self)@.utilises_total() == old(self)@.utilises_total() - 1,
    {
        proof {
            lemme_cache_liberation(self@, ptr as int);
            lemme_proprietaire(self@, ptr as int);
        }
        let (dans_pleins, Ghost(j)) = self.chercher_dans(self.pleins, ptr, Ghost(self.ordre_pleins@));
        if let Some((precedent, h)) = dans_pleins {
            self.rendre_a_plein(ptr, precedent, h, Ghost(j));
        } else {
            let (dans_partiels, Ghost(j)) = self.chercher_dans(
                self.partiels,
                ptr,
                Ghost(self.ordre_partiels@),
            );
            if let Some((precedent, h)) = dans_partiels {
                self.rendre_a_partiel(ptr, precedent, h, Ghost(j));
            }
        }
    }

    /// Whether `ptr` is the address of a slot that this cache handed out and did not get back.
    pub fn est_alloue(&self, ptr: usize) -> (r: bool)
        requires
            self.bien_forme(),
        ensures
            r == self@.alloue(ptr as int),
    {
        proof {
            if self@.alloue(ptr as int) {
                lemme_proprietaire(self@, ptr as int);
            }
        }
        let (dans_pleins, Ghost(j)) = self.chercher_dans(self.pleins, ptr, Ghost(self.ordre_pleins@));
        if let Some((_, h)) = dans_pleins {
            assert(self@.pleins[j] == self.slabs@[h as int]@);
            return self.slabs[h].est_alloue(ptr);
        }
        let (dans_partiels, Ghost(j)) = self.chercher_dans(
            self.partiels,
            ptr,
            Ghost(self.ordre_partiels@),
        );
        if let Some((_, h)) = dans_partiels {
            assert(self@.partiels[j] == self.slabs@[h as int]@);
            return self.slabs[h].est_alloue(ptr);
        }
        false
    }

    /// Takes back the slot at `ptr` if the cache holds it allocated, and says whether it did.
    /// An address that the cache did not hand out, or that it got back already, changes
    /// nothing.
    pub fn liberer_verifie(&mut self, ptr: usize) -> (r: bool)
        requires
            old(self).bien_forme(),
        ensures
            final(self).bien_forme(),
            r == old(self)@.alloue(ptr as int),
            r ==> final(self)@ == old(self)@.apres_liberation(ptr as int),
            !r ==> final(self)@ == old(self)@,
            !final(self)@.alloue(ptr as int),
            forall|q: int| q != ptr ==> final(self)@.alloue(q) == old(self)@.alloue(q),
            final(self)@.utilises_total() == old(self)@.utilises_total() - if r {
                1int
            } else {
                0int
            },
    {
        if self.est_alloue(ptr) {
            self.liberer(ptr);
            true
        } else {
            false
        }
    }

    /// Whether the page at `base` overlaps a page that the cache holds.
    fn chevauche(&self, base: usize) -> (r: bool)
        requires
            self.bien_forme(),
            base + TAILLE_SLAB <= usize::MAX,
        ensures
            r == !self@.libre_de(base as int),
    {
        let ghost c = self@;
        let ghost op = self.ordre_partiels@;
        let ghost ol = self.ordre_pleins@;
        let ghost ov = self.ordre_vides@;
        let ghost neuf = VueSlab::neuf(base as int, c.taille_objet, c.objets_par_slab);
        let mut trouve = false;
        let mut i: usize = 0;
        while i < self.slabs.len() && !trouve
            invariant
                forall|m: int|
                    0 <= m < self.slabs@.len() ==> (#[trigger] self.slabs@[m]).bien_forme(),
                0 <= i <= self.slabs.len(),
                base + TAILLE_SLAB <= usize::MAX,
                neuf.base == base,
                forall|m: int| 0 <= m < i ==> pages_disjointes(neuf, (#[trigger] self.slabs@[m])@),
                trouve ==> i < self.slabs.len() && !pages_disjointes(neuf, self.slabs@[i as int]@),
            decreases self.slabs.len() - i + (if trouve { 0int } else { 1int }),
        {
            let autre: usize = self.slabs[i].base();
            if base + TAILLE_SLAB <= autre || autre + TAILLE_SLAB <= base {
                i = i + 1;
            } else {
                trouve = true;
            }
        }
        proof {
            if trouve {
                let m = i as int;
                if op.contains(m) {
                    let k = choose|k: int| 0 <= k < op.len() && op[k] == m;
                    assert(!pages_disjointes(neuf, c.partiels[k]));
                } else if ol.contains(m) {
                    let k = choose|k: int| 0 <= k < ol.len() && ol[k] == m;
                    assert(!pages_disjointes(neuf, c.pleins[k]));
                } else {
                    let k = choose|k: int| 0 <= k < ov.len() && ov[k] == m;
                    assert(!pages_disjointes(neuf, c.vides[k]));
                }
            } else {
                assert forall|k: int| 0 <= k < c.partiels.len() implies pages_disjointes(
                    neuf,
                    #[trigger] c.partiels[k],
                ) by {
                    assert(c.partiels[k] == self.slabs@[op[k]]@);
                }
                assert forall|k: int| 0 <= k < c.pleins.len() implies pages_disjointes(
                    neuf,
                    #[trigger] c.pleins[k],
                ) by {
                    assert(c.pleins[k] == self.slabs@[ol[k]]@);
                }
                assert forall|k: int| 0 <= k < c.vides.len() implies pages_disjointes(
                    neuf,
                    #[trigger] c.vides[k],
                ) by {
                    assert(c.vides[k] == self.slabs@[ov[k]]@);
                }
            }
        }
        trouve
    }

    /// Takes over the page `memoire`, whose first byte has the address `base`, as a new empty
    /// slab at the head of the empty list. A region that is not one page long, that ends
    /// beyond the address space or that overlaps a page of the cache is turned away, and so
    /// is any page when a slab of this cache could not hold a single slot.
    pub fn enregistrer_page(&mut self, base: usize, memoire: Vec<u8>) -> (r: Result<(), ErreurPage>)
        requires
            old(self).bien_forme(),
        ensures
            final(self).bien_forme(),
            match refus(old(self)@, base as int, memoire@.len() as int) {
                Some(e) => r == Err::<(), ErreurPage>(e) && final(self)@ == old(self)@,
                None => r is Ok && old(self)@.accepte(base as int) && final(self)@ == old(
                    self,
                )@.apres_enregistrement(base as int),
            },
            forall|q: int| final(self)@.alloue(q) == old(self)@.alloue(q),
            final(self)@.utilises_total() == old(self)@.utilises_total(),
    {
        let ghost c = self@;
        let ghost op = self.ordre_partiels@;
        let ghost ol = self.ordre_pleins@;
        let ghost ov = self.ordre_vides@;
        let ghost depart = self.slabs@;
        if memoire.len() != TAILLE_SLAB {
            return Err(ErreurPage::TailleInvalide);
        }
        if base > usize::MAX - TAILLE_SLAB {
            return Err(ErreurPage::HorsEspace);
        }
        if self.objets_par_slab == 0 {
            return Err(ErreurPage::CapaciteNulle);
        }
        if self.chevauche(base) {
            return Err(ErreurPage::Chevauchement);
        }
        proof {
            lemme_cache_enregistrement(c, base as int);
            vstd::arithmetic::div_mod::lemma_fundamental_div_mod(
                TAILLE_SLAB - TAILLE_ENTETE,
                self.taille_objet as int,
            );
            assert(self.taille_objet * self.objets_par_slab == self.objets_par_slab
                * self.taille_objet) by (nonlinear_arith);
        }
        let mut slab = Slab::nouveau(base, memoire, self.taille_objet, self.objets_par_slab);
        slab.lier(self.vides);
        let h: usize = self.slabs.len();
        let ghost tv = self.vides;
        self.slabs.push(slab);
        self.vides = Some(h);
        proof {
            assert(self.slabs.len() == depart.len() + 1);
            lemme_ajout(depart, slab, tv, ov);
            lemme_liste_intacte(depart, self.slabs@, self.partiels, op);
            lemme_liste_intacte(depart, self.slabs@, self.pleins, ol);
            self.ordre_vides@ = seq![h as int] + ov;
            let ov2 = self.ordre_vides@;
            assert(etrangers(op, ov2)) by {
                assert forall|a: int, b: int| 0 <= a < op.len() && 0 <= b < ov2.len() implies #[trigger] op[a]
                    != #[trigger] ov2[b] by {
                    if b > 0 {
                        assert(ov2[b] == ov[b - 1]);
                    }
                }
            }
            assert(etrangers(ol, ov2)) by {
                assert forall|a: int, b: int| 0 <= a < ol.len() && 0 <= b < ov2.len() implies #[trigger] ol[a]
                    != #[trigger] ov2[b] by {
                    if b > 0 {
                        assert(ov2[b] == ov[b - 1]);
                    }
                }
            }
            assert forall|m: int| 0 <= m < self.slabs@.len() implies op.contains(m) || ol.contains(m)
                || ov2.contains(m) by {
                if m == h {
                    assert(ov2[0] == m);
                } else if ov.contains(m) {
                    let k = choose|k: int| 0 <= k < ov.len() && ov[k] == m;
                    assert(ov2[k + 1] == m);
                }
            }
            assert(self@ == c.apres_enregistrement(base as int));
        }
        Ok(())
    }

    /// Walks the list that starts at `tete` and counts its slabs and their allocated slots.
    fn parcourir(&self, tete: Option<usize>, Ghost(ordre): Ghost<Seq<int>>) -> (r: (usize, usize))
        requires
            chaine(self.slabs@, tete, ordre),
            forall|i: int| 0 <= i < self.slabs@.len() ==> (#[trigger] self.slabs@[i]).bien_forme(),
            ordre.len() * 1012 <= usize::MAX,
        ensures
            r.0 == ordre.len(),
            r.1 == somme_utilises(vues(self.slabs@, ordre)),
    {
        let ghost l = vues(self.slabs@, ordre);
        let mut courant = tete;
        let mut nombre: usize = 0;
        let mut somme: usize = 0;
        proof {
            assert(l.take(0) =~= Seq::<VueSlab>::empty());
        }
        loop
            invariant
                chaine(self.slabs@, tete, ordre),
                forall|i: int|
                    0 <= i < self.slabs@.len() ==> (#[trigger] self.slabs@[i]).bien_forme(),
                ordre.len() * 1012 <= usize::MAX,
                l == vues(self.slabs@, ordre),
                0 <= nombre <= ordre.len(),
                courant == maillon(ordre, nombre as int),
                somme == somme_utilises(l.take(nombre as int)),
                somme <= nombre * 1012,
            decreases ordre.len() - nombre,
        {
            match courant {
                None => {
                    assert(l.take(nombre as int) =~= l);
                    return (nombre, somme);
                },
                Some(h) => {
                    assert(h == ordre[nombre as int]);
                    let u: usize = self.slabs[h].utilises();
                    proof {
                        let k = nombre as int;
                        lemme_bornes(l[k]);
                        lemme_libres_bornes(l[k]);
                        assert(l.take(k + 1).drop_last() =~= l.take(k));
                        assert(l.take(k + 1).last() == l[k]);
                    }
                    somme = somme + u;
                    nombre = nombre + 1;
                    courant = self.slabs[h].prochain();
                },
            }
        }
    }

    /// Counts the slabs of each list and the slots in use.
    pub fn bilan(&self) -> (r: Bilan)
        requires
            self.bien_forme(),
        ensures
            r.partiels == self@.partiels.len(),
            r.pleins == self@.pleins.len(),
            r.vides == self@.vides.len(),
            r.utilises == self@.utilises_total(),
    {
        proof {
            lemme_capacite(self@);
        }
        let (partiels, a) = self.parcourir(self.partiels, Ghost(self.ordre_partiels@));
        let (pleins, b) = self.parcourir(self.pleins, Ghost(self.ordre_pleins@));
        let (vides, c) = self.parcourir(self.vides, Ghost(self.ordre_vides@));
        Bilan { partiels, pleins, vides, utilises: a + b + c }
    }

    /// The size of the objects that this cache serves.
    pub fn taille_objet(&self) -> (r: usize)
        ensures
            r == self@.taille_objet,
    {
        self.taille_objet
    }
}

} // verus!
