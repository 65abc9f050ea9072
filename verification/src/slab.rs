//! One page managed as a pool of equal-size slots.

use crate::memoire::{ecrire_mot, lire_mot, mot};
use vstd::prelude::*;

verus! {

/// Size in bytes of the region behind every slab.
pub const TAILLE_SLAB: usize = 4096;

/// Bytes of a page that are set aside for the slab's own bookkeeping.
pub const TAILLE_ENTETE: usize = 48;

/// Smallest slot width: a free slot must hold one free-list link.
pub const TAILLE_MIN_OBJET: usize = 4;

/// Link value that ends the free list; as a head it means that no slot is free.
pub const AUCUN: u32 = 0xFFFF_FFFF;

/// Mathematical model of a slab.
pub struct VueSlab {
    /// Address of the first byte of the page.
    pub base: int,
    /// Width of one slot in bytes.
    pub taille_objet: int,
    /// Number of slots.
    pub nb_objets: int,
    /// Indices of the free slots, in the order in which they will be handed out.
    pub libres: Seq<int>,
}

impl VueSlab {
    /// The invariant of the model: the slots fit in the page, the page fits in the address
    /// space, and the free list names each free slot once.
    pub open spec fn valide(self) -> bool {
        &&& self.taille_objet >= TAILLE_MIN_OBJET
        &&& 0 <= self.nb_objets
        &&& self.nb_objets * self.taille_objet <= TAILLE_SLAB - TAILLE_ENTETE
        &&& 0 <= self.base
        &&& self.base + TAILLE_SLAB <= usize::MAX
        &&& self.libres.no_duplicates()
        &&& forall|k: int| 0 <= k < self.libres.len() ==> 0 <= #[trigger] self.libres[k] < self.nb_objets
    }

    /// A slab in which every slot is free, in ascending order.
    pub open spec fn neuf(base: int, taille_objet: int, nb_objets: int) -> VueSlab {
        VueSlab { base, taille_objet, nb_objets, libres: Seq::new(nb_objets as nat, |k: int| k) }
    }

    /// Number of slots that are currently allocated.
    pub open spec fn utilises(self) -> int {
        self.nb_objets - self.libres.len()
    }

    /// No slot is free.
    pub open spec fn plein(self) -> bool {
        self.libres.len() == 0
    }

    /// No slot is allocated.
    pub open spec fn vide(self) -> bool {
        self.utilises() == 0
    }

    /// Address of the slot `indice`.
    pub open spec fn adresse(self, indice: int) -> int {
        self.base + indice * self.taille_objet
    }

    /// Index of the slot that holds the address `ptr`.
    pub open spec fn indice(self, ptr: int) -> int {
        (ptr - self.base) / self.taille_objet
    }

    /// `ptr` lies in the range of addresses that the slots cover.
    pub open spec fn possede(self, ptr: int) -> bool {
        self.base <= ptr < self.base + self.nb_objets * self.taille_objet
    }

    /// `ptr` is the address of a slot that is currently allocated.
    pub open spec fn alloue(self, ptr: int) -> bool {
        &&& self.possede(ptr)
        &&& (ptr - self.base) % self.taille_objet == 0
        &&& !self.libres.contains(self.indice(ptr))
    }

    /// What the next allocation returns.
    pub open spec fn adresse_suivante(self) -> Option<int> {
        if self.plein() {
            None
        } else {
            Some(self.adresse(self.libres[0]))
        }
    }

    /// The slab after one allocation: the head of the free list is gone.
    pub open spec fn apres_allocation(self) -> VueSlab {
        if self.plein() {
            self
        } else {
            VueSlab { libres: self.libres.skip(1), ..self }
        }
    }

    /// The slab after `ptr` was freed: its slot is the new head of the free list.
    pub open spec fn apres_liberation(self, ptr: int) -> VueSlab {
        VueSlab { libres: seq![self.indice(ptr)] + self.libres, ..self }
    }
}

/// The byte at `decalage` belongs to the link field of one of the first `nb_objets` slots:
/// it is one of the first four bytes of such a slot.
pub open spec fn dans_un_lien(decalage: int, taille_objet: int, nb_objets: int) -> bool {
    0 <= decalage < nb_objets * taille_objet && decalage % taille_objet < 4
}

/// The first four bytes of the slot `i` belong to a link field of the first `i + 1` slots.
pub proof fn lemme_dans_un_lien(decalage: int, taille_objet: int, i: int)
    requires
        taille_objet >= TAILLE_MIN_OBJET,
        0 <= i,
        i * taille_objet <= decalage < i * taille_objet + 4,
    ensures
        dans_un_lien(decalage, taille_objet, i + 1),
{
    let d = decalage - i * taille_objet;
    vstd::arithmetic::div_mod::lemma_fundamental_div_mod_converse(decalage, taille_objet, i, d);
    assert((i + 1) * taille_objet == i * taille_objet + taille_objet) by (nonlinear_arith);
}

/// Head of a free list as the slab stores it.
pub open spec fn tete(libres: Seq<int>) -> int {
    if libres.len() == 0 {
        AUCUN as int
    } else {
        libres[0]
    }
}

/// Link that the `k`-th free slot stores: the slot after it, or the end mark.
pub open spec fn lien_suivant(libres: Seq<int>, k: int) -> int {
    if k + 1 < libres.len() {
        libres[k + 1]
    } else {
        AUCUN as int
    }
}

/// One page and the bookkeeping that turns it into a pool of slots.
pub struct Slab {
    prochain: Option<usize>,
    utilises: usize,
    liste_libre: u32,
    base: usize,
    memoire: Vec<u8>,
    taille_objet: usize,
    nb_objets: usize,
    libres: Ghost<Seq<int>>,
}

impl View for Slab {
    type V = VueSlab;

    closed spec fn view(&self) -> VueSlab {
        VueSlab {
            base: self.base as int,
            taille_objet: self.taille_objet as int,
            nb_objets: self.nb_objets as int,
            libres: self.libres@,
        }
    }
}

/// In a valid slab a slot index stays far below the end mark, and every slot lies inside the
/// range that the slots cover.
pub proof fn lemme_bornes(v: VueSlab)
    requires
        v.valide(),
    ensures
        v.nb_objets <= 1012,
        forall|i: int|
            0 <= i < v.nb_objets ==> 0 <= #[trigger] (i * v.taille_objet) && i * v.taille_objet
                + v.taille_objet <= v.nb_objets * v.taille_objet,
{
    assert(v.nb_objets * 4 <= v.nb_objets * v.taille_objet) by (nonlinear_arith)
        requires
            0 <= v.nb_objets,
            4 <= v.taille_objet,
    ;
    assert forall|i: int| 0 <= i < v.nb_objets implies 0 <= #[trigger] (i * v.taille_objet) && i
        * v.taille_objet + v.taille_objet <= v.nb_objets * v.taille_objet by {
        assert(0 <= i * v.taille_objet && (i + 1) * v.taille_objet <= v.nb_objets * v.taille_objet
            && (i + 1) * v.taille_objet == i * v.taille_objet + v.taille_objet)
            by (nonlinear_arith)
            requires
                0 <= i < v.nb_objets,
                4 <= v.taille_objet,
        ;
    }
}

impl Slab {
    /// The link to the next slab of the list that holds this one.
    pub closed spec fn lien(&self) -> Option<usize> {
        self.prochain
    }

    /// The bytes of the page.
    pub closed spec fn octets(&self) -> Seq<u8> {
        self.memoire@
    }

    /// The head of the free list as the slab stores it: a slot index, or the end mark.
    pub closed spec fn tete_stockee(&self) -> u32 {
        self.liste_libre
    }

    /// The count of allocated slots as the slab stores it.
    pub closed spec fn compteur(&self) -> usize {
        self.utilises
    }

    /// The page and the counters agree with the model. The free list lives in the free slots
    /// themselves: the stored head names the first free slot, and the first four bytes of
    /// each free slot hold the index of the next one, or the end mark in the last. The bytes of
    /// an allocated slot are not constrained.
    pub open spec fn representation(&self) -> bool {
        &&& self.octets().len() == TAILLE_SLAB
        &&& self.compteur() == self@.utilises()
        &&& self.tete_stockee() == tete(self@.libres)
        &&& forall|k: int|
            0 <= k < self@.libres.len() ==> mot(
                self.octets(),
                #[trigger] self@.libres[k] * self@.taille_objet,
            ) == lien_suivant(self@.libres, k)
    }

    /// The slab's invariant.
    pub open spec fn bien_forme(&self) -> bool {
        &&& self@.valide()
        &&& self.representation()
    }

    /// Takes over the page `memoire`, whose first byte has the address `base`, and threads the
    /// free list through its slots: slot `i` links to slot `i + 1`, the last one ends the list.
    pub fn nouveau(base: usize, memoire: Vec<u8>, taille_objet: usize, nb_objets: usize) -> (slab:
        Slab)
        requires
            memoire@.len() == TAILLE_SLAB,
            base + TAILLE_SLAB <= usize::MAX,
            taille_objet >= TAILLE_MIN_OBJET,
            nb_objets * taille_objet <= TAILLE_SLAB - TAILLE_ENTETE,
        ensures
            slab.bien_forme(),
            slab@ == VueSlab::neuf(base as int, taille_objet as int, nb_objets as int),
            slab.lien() is None,
            forall|k: int|
                0 <= k < TAILLE_SLAB && !dans_un_lien(k, taille_objet as int, nb_objets as int)
                    ==> slab.octets()[k] == memoire@[k],
    {
        let ghost depart = memoire@;
        let mut memoire = memoire;
        let ghost libres = Seq::new(nb_objets as nat, |k: int| k);
        let ghost v = VueSlab::neuf(base as int, taille_objet as int, nb_objets as int);
        proof {
            lemme_bornes(v);
        }
        let mut i: usize = 0;
        while i < nb_objets
            invariant
                i <= nb_objets,
                v.valide(),
                v.taille_objet == taille_objet,
                v.nb_objets == nb_objets,
                libres == v.libres,
                libres.len() == nb_objets,
                forall|k: int| 0 <= k < nb_objets ==> libres[k] == k,
                memoire@.len() == TAILLE_SLAB,
                depart.len() == TAILLE_SLAB,
                forall|k: int|
                    0 <= k < TAILLE_SLAB && !dans_un_lien(k, taille_objet as int, i as int)
                        ==> memoire@[k] == depart[k],
                forall|k: int|
                    0 <= k < i ==> mot(memoire@, #[trigger] libres[k] * taille_objet) == lien_suivant(
                        libres,
                        k,
                    ),
            decreases nb_objets - i,
        {
            proof {
                lemme_bornes(v);
                assert(0 <= i * taille_objet && i * taille_objet + taille_objet <= nb_objets * taille_objet);
            }
            let decalage: usize = i * taille_objet;
            let lien: u32 = if i + 1 < nb_objets {
                (i + 1) as u32
            } else {
                AUCUN
            };
            let ghost avant = memoire@;
            ecrire_mot(&mut memoire, decalage, lien);
            proof {
                assert forall|k: int|
                    0 <= k < TAILLE_SLAB && !dans_un_lien(
                        k,
                        taille_objet as int,
                        i + 1,
                    ) implies memoire@[k] == depart[k] by {
                    if decalage <= k < decalage + 4 {
                        lemme_dans_un_lien(k, taille_objet as int, i as int);
                    }
                    assert(i * taille_objet <= (i + 1) * taille_objet) by (nonlinear_arith);
                }
                assert forall|k: int| 0 <= k < i + 1 implies mot(
                    memoire@,
                    #[trigger] libres[k] * taille_objet,
                ) == lien_suivant(libres, k) by {
                    if k < i {
                        lemme_slots_separes(k, i as int, taille_objet as int);
                        assert(mot(avant, libres[k] * taille_objet) == lien_suivant(libres, k));
                    }
                }
            }
            i = i + 1;
        }
        Slab {
            prochain: None,
            utilises: 0,
            liste_libre: if nb_objets > 0 {
                0
            } else {
                AUCUN
            },
            base,
            memoire,
            taille_objet,
            nb_objets,
            libres: Ghost(libres),
        }
    }

    /// Hands out the slot at the head of the free list, or nothing when the slab is full.
    pub fn allouer(&mut self) -> (r: Option<usize>)
        requires
            old(self).bien_forme(),
        ensures
            final(self).bien_forme(),
            final(self).lien() == old(self).lien(),
            final(self)@ == old(self)@.apres_allocation(),
            final(self).octets() == old(self).octets(),
            r is None <==> old(self)@.plein(),
            r matches Some(p) ==> {
                &&& Some(p as int) == old(self)@.adresse_suivante()
                &&& final(self)@.possede(p as int)
                &&& !old(self)@.alloue(p as int)
                &&& final(self)@.alloue(p as int)
                &&& forall|q: int| q != p ==> final(self)@.alloue(q) == old(self)@.alloue(q)
                &&& final(self)@.utilises() == old(self)@.utilises() + 1
            },
    {
        proof {
            lemme_bornes(self@);
        }
        if self.liste_libre == AUCUN {
            return None;
        }
        let ghost avant = self@;
        let indice: usize = self.liste_libre as usize;
        assert(indice == avant.libres[0]);
        assert(0 <= indice * self.taille_objet && indice * self.taille_objet + self.taille_objet
            <= self.nb_objets * self.taille_objet);
        let decalage: usize = indice * self.taille_objet;
        self.liste_libre = lire_mot(&self.memoire, decalage);
        self.utilises = self.utilises + 1;
        self.libres = Ghost(self.libres@.skip(1));
        proof {
            let apres = self@;
            assert(apres == avant.apres_allocation());
            lemme_allocation(avant);
            assert forall|k: int| 0 <= k < apres.libres.len() implies mot(
                self.memoire@,
                #[trigger] apres.libres[k] * self.taille_objet,
            ) == lien_suivant(apres.libres, k) by {
                assert(apres.libres[k] == avant.libres[k + 1]);
                assert(lien_suivant(apres.libres, k) == lien_suivant(avant.libres, k + 1));
            }
        }
        Some(self.base + decalage)
    }

    /// Takes back the slot at `ptr`, which becomes the next one to be handed out.
    pub fn liberer(&mut self, ptr: usize)
        requires
            old(self).bien_forme(),
            old(self)@.alloue(ptr as int),
        ensures
            final(self).bien_forme(),
            final(self).lien() == old(self).lien(),
            final(self)@ == old(self)@.apres_liberation(ptr as int),
            mot(final(self).octets(), ptr - old(self)@.base) == old(self).tete_stockee(),
            forall|k: int|
                0 <= k < TAILLE_SLAB && !(ptr - old(self)@.base <= k < ptr - old(self)@.base + 4)
                    ==> final(self).octets()[k] == old(self).octets()[k],
            !final(self)@.alloue(ptr as int),
            forall|q: int| q != ptr ==> final(self)@.alloue(q) == old(self)@.alloue(q),
            final(self)@.utilises() == old(self)@.utilises() - 1,
    {
        let ghost avant = self@;
        proof {
            lemme_bornes(avant);
            lemme_liberation(avant, ptr as int);
        }
        let decalage: usize = ptr - self.base;
        let indice: usize = decalage / self.taille_objet;
        assert(decalage == indice * self.taille_objet) by {
            vstd::arithmetic::div_mod::lemma_fundamental_div_mod(
                decalage as int,
                self.taille_objet as int,
            );
            assert(self.taille_objet * indice == indice * self.taille_objet) by (nonlinear_arith);
        }
        assert(0 <= indice < self.nb_objets) by (nonlinear_arith)
            requires
                indice * self.taille_objet < self.nb_objets * self.taille_objet,
                self.taille_objet >= 4,
        ;
        let ghost octets = self.memoire@;
        ecrire_mot(&mut self.memoire, decalage, self.liste_libre);
        self.liste_libre = indice as u32;
        self.utilises = self.utilises - 1;
        self.libres = Ghost(seq![indice as int] + self.libres@);
        proof {
            let apres = self@;
            assert(apres == avant.apres_liberation(ptr as int));
            assert forall|k: int| 0 <= k < apres.libres.len() implies mot(
                self.memoire@,
                #[trigger] apres.libres[k] * self.taille_objet,
            ) == lien_suivant(apres.libres, k) by {
                if k > 0 {
                    let autre = avant.libres[k - 1];
                    assert(apres.libres[k] == autre);
                    assert(avant.libres.contains(autre));
                    lemme_slots_separes(autre, indice as int, self.taille_objet as int);
                    assert(0 <= autre * self.taille_objet && autre * self.taille_objet
                        + self.taille_objet <= self.nb_objets * self.taille_objet);
                    assert(mot(octets, autre * self.taille_objet) == lien_suivant(
                        avant.libres,
                        k - 1,
                    ));
                    assert(lien_suivant(apres.libres, k) == lien_suivant(avant.libres, k - 1));
                }
            }
        }
    }

    /// Whether no slot is allocated.
    pub fn est_vide(&self) -> (r: bool)
        requires
            self.bien_forme(),
        ensures
            r == self@.vide(),
    {
        self.utilises == 0
    }

    /// Whether no slot is free.
    pub fn est_plein(&self) -> (r: bool)
        requires
            self.bien_forme(),
        ensures
            r == self@.plein(),
    {
        proof {
            lemme_bornes(self@);
        }
        self.liste_libre == AUCUN
    }

    /// Whether `ptr` falls inside the range of addresses that the slots cover. The test does
    /// not look at slot boundaries.
    pub fn objet_appartient(&self, ptr: usize) -> (r: bool)
        requires
            self.bien_forme(),
        ensures
            r == self@.possede(ptr as int),
    {
        let taille_totale: usize = self.nb_objets * self.taille_objet;
        ptr >= self.base && ptr < self.base + taille_totale
    }

    /// Whether `ptr` is the address of a slot that is allocated now. The test walks the free
    /// list, so that a caller who cannot vouch for an address can ask before it releases it.
    pub fn est_alloue(&self, ptr: usize) -> (r: bool)
        requires
            self.bien_forme(),
        ensures
            r == self@.alloue(ptr as int),
    {
        if !self.objet_appartient(ptr) {
            return false;
        }
        let decalage: usize = ptr - self.base;
        if decalage % self.taille_objet != 0 {
            return false;
        }
        let indice: usize = decalage / self.taille_objet;
        let ghost libres = self.libres@;
        let mut courant: u32 = self.liste_libre;
        let ghost mut k: int = 0;
        proof {
            lemme_bornes(self@);
        }
        while courant != AUCUN
            invariant
                self.bien_forme(),
                libres == self@.libres,
                0 <= k <= libres.len(),
                courant == tete(libres.skip(k)),
                indice == self@.indice(ptr as int),
                self@.possede(ptr as int),
                (ptr - self@.base) % self@.taille_objet == 0,
                forall|m: int| 0 <= m < k ==> libres[m] != indice,
            decreases libres.len() - k,
        {
            proof {
                lemme_bornes(self@);
                assert(0 <= libres[k] < self.nb_objets);
                assert(0 <= libres[k] * self.taille_objet && libres[k] * self.taille_objet
                    + self.taille_objet <= self.nb_objets * self.taille_objet);
            }
            if courant as usize == indice {
                assert(libres.contains(indice as int));
                return false;
            }
            courant = lire_mot(&self.memoire, courant as usize * self.taille_objet);
            proof {
                assert(lien_suivant(libres, k) == tete(libres.skip(k + 1)));
                k = k + 1;
            }
        }
        assert(!libres.contains(indice as int)) by {
            if libres.contains(indice as int) {
                let m = choose|m: int| 0 <= m < libres.len() && libres[m] == indice;
                assert(libres[m] != indice);
            }
        }
        true
    }

    /// Address of the first byte of the page.
    pub fn base(&self) -> (r: usize)
        ensures
            r == self@.base,
    {
        self.base
    }

    /// Number of slots that are currently allocated.
    pub fn utilises(&self) -> (r: usize)
        requires
            self.bien_forme(),
        ensures
            r == self@.utilises(),
    {
        self.utilises
    }

    /// The slab that follows this one in its list.
    pub fn prochain(&self) -> (r: Option<usize>)
        ensures
            r == self.lien(),
    {
        self.prochain
    }

    /// Sets the slab that follows this one in its list. The pool itself is not touched.
    pub fn lier(&mut self, suivant: Option<usize>)
        ensures
            final(self).lien() == suivant,
            final(self)@ == old(self)@,
            final(self).octets() == old(self).octets(),
            final(self).tete_stockee() == old(self).tete_stockee(),
            final(self).compteur() == old(self).compteur(),
    {
        self.prochain = suivant;
    }
}

/// A sequence without repetition whose items lie in `0..n` has at most `n` items, and fewer
/// as soon as one number of that range is missing from it.
pub proof fn lemme_suite_bornee(l: Seq<int>, n: int)
    requires
        0 <= n,
        l.no_duplicates(),
        forall|k: int| 0 <= k < l.len() ==> 0 <= #[trigger] l[k] < n,
    ensures
        l.len() <= n,
        forall|i: int| 0 <= i < n && !l.contains(i) ==> l.len() < n,
{
    let tous = vstd::set_lib::set_int_range(0, n);
    let pris = l.to_set();
    vstd::set_lib::lemma_int_range(0, n);
    l.unique_seq_to_set();
    assert(pris.subset_of(tous)) by {
        assert forall|i: int| pris.contains(i) implies tous.contains(i) by {
            let k = choose|k: int| 0 <= k < l.len() && l[k] == i;
            assert(0 <= l[k] < n);
        }
    }
    vstd::set_lib::lemma_len_subset(pris, tous);
    assert forall|i: int| 0 <= i < n && !l.contains(i) implies l.len() < n by {
        pris.lemma_subset_not_in_lt(tous, i);
    }
}

/// The free list of a valid slab is no longer than the slab has slots, and it is shorter as
/// soon as one slot is missing from it.
pub proof fn lemme_libres_bornes(v: VueSlab)
    requires
        v.valide(),
    ensures
        v.libres.len() <= v.nb_objets,
        0 <= v.utilises() <= v.nb_objets,
        forall|i: int| 0 <= i < v.nb_objets && !v.libres.contains(i) ==> v.libres.len() < v.nb_objets,
{
    lemme_suite_bornee(v.libres, v.nb_objets);
}

/// One allocation from a slab that is not full: the slot handed out was free and is now
/// allocated, every other slot keeps its state, and the slab stays valid.
pub proof fn lemme_allocation(v: VueSlab)
    requires
        v.valide(),
        !v.plein(),
    ensures
        v.apres_allocation().valide(),
        v.apres_allocation().utilises() == v.utilises() + 1,
        v.adresse_suivante() matches Some(p) && {
            &&& v.possede(p)
            &&& (p - v.base) % v.taille_objet == 0
            &&& v.indice(p) == v.libres[0]
            &&& !v.alloue(p)
            &&& v.apres_allocation().alloue(p)
            &&& forall|q: int| q != p ==> v.apres_allocation().alloue(q) == v.alloue(q)
        },
{
    let w = v.apres_allocation();
    let i = v.libres[0];
    let p = v.adresse(i);
    let t = v.taille_objet;
    lemme_bornes(v);
    assert(0 <= i < v.nb_objets);
    assert(0 <= i * t && i * t + t <= v.nb_objets * t);
    assert((i * t) % t == 0 && (i * t) / t == i) by (nonlinear_arith)
        requires
            t >= 4,
    ;
    assert(v.libres.contains(i));
    assert(!w.libres.contains(i)) by {
        if w.libres.contains(i) {
            let k = choose|k: int| 0 <= k < w.libres.len() && w.libres[k] == i;
            assert(v.libres[k + 1] == i);
        }
    }
    assert forall|q: int| q != p implies w.alloue(q) == v.alloue(q) by {
        if v.possede(q) && (q - v.base) % t == 0 {
            let j = v.indice(q);
            assert(j != i) by {
                vstd::arithmetic::div_mod::lemma_fundamental_div_mod(q - v.base, t);
                assert(t * j == j * t) by (nonlinear_arith);
            }
            lemme_suite_contient(v.libres, j);
        }
    }
    assert(w.libres.no_duplicates());
}

/// Dropping the head of a list without repetition removes the head and nothing else.
pub proof fn lemme_suite_contient(l: Seq<int>, j: int)
    requires
        l.len() > 0,
        j != l[0],
    ensures
        l.skip(1).contains(j) == l.contains(j),
{
    if l.contains(j) {
        let k = choose|k: int| 0 <= k < l.len() && l[k] == j;
        assert(l.skip(1)[k - 1] == j);
    }
    if l.skip(1).contains(j) {
        let k = choose|k: int| 0 <= k < l.skip(1).len() && l.skip(1)[k] == j;
        assert(l[k + 1] == j);
    }
}

/// Freeing an allocated slot: it becomes free, every other slot keeps its state, one slot
/// fewer is in use, and the slab stays valid.
pub proof fn lemme_liberation(v: VueSlab, ptr: int)
    requires
        v.valide(),
        v.alloue(ptr),
    ensures
        v.apres_liberation(ptr).valide(),
        v.utilises() >= 1,
        v.apres_liberation(ptr).utilises() == v.utilises() - 1,
        0 <= v.indice(ptr) < v.nb_objets,
        !v.apres_liberation(ptr).alloue(ptr),
        forall|q: int| q != ptr ==> v.apres_liberation(ptr).alloue(q) == v.alloue(q),
{
    let w = v.apres_liberation(ptr);
    let t = v.taille_objet;
    let i = v.indice(ptr);
    lemme_bornes(v);
    vstd::arithmetic::div_mod::lemma_fundamental_div_mod(ptr - v.base, t);
    assert(t * i == i * t) by (nonlinear_arith);
    assert(0 <= i < v.nb_objets) by (nonlinear_arith)
        requires
            0 <= i * t < v.nb_objets * t,
            t >= 4,
    ;
    lemme_libres_bornes(v);
    assert(w.libres[0] == i);
    assert(w.libres.contains(i));
    assert forall|a: int, b: int| 0 <= a < w.libres.len() && 0 <= b < w.libres.len() && a
        != b implies w.libres[a] != w.libres[b] by {
        if a > 0 {
            assert(v.libres.contains(v.libres[a - 1]));
        }
        if b > 0 {
            assert(v.libres.contains(v.libres[b - 1]));
        }
    }
    assert forall|k: int| 0 <= k < w.libres.len() implies 0 <= #[trigger] w.libres[k]
        < w.nb_objets by {
        if k > 0 {
            assert(w.libres[k] == v.libres[k - 1]);
        }
    }
    assert forall|q: int| q != ptr implies w.alloue(q) == v.alloue(q) by {
        if v.possede(q) && (q - v.base) % t == 0 {
            let j = v.indice(q);
            assert(j != i) by {
                vstd::arithmetic::div_mod::lemma_fundamental_div_mod(q - v.base, t);
                assert(t * j == j * t) by (nonlinear_arith);
            }
            if v.libres.contains(j) {
                let k = choose|k: int| 0 <= k < v.libres.len() && v.libres[k] == j;
                assert(w.libres[k + 1] == j);
            }
            if w.libres.contains(j) {
                let k = choose|k: int| 0 <= k < w.libres.len() && w.libres[k] == j;
                assert(v.libres[k - 1] == j);
            }
        }
    }
}

/// The link fields of two different slots do not overlap.
pub proof fn lemme_slots_separes(i: int, j: int, taille_objet: int)
    requires
        i != j,
        taille_objet >= TAILLE_MIN_OBJET,
    ensures
        i * taille_objet + 4 <= j * taille_objet || j * taille_objet + 4 <= i * taille_objet,
{
    assert(i * taille_objet + taille_objet <= j * taille_objet || j * taille_objet + taille_objet
        <= i * taille_objet) by (nonlinear_arith)
        requires
            i != j,
            taille_objet >= 4,
    ;
}

} // verus!
