//! Mathematical model of a cache of slabs: three lists of slab models and the transitions
//! that allocation, release and registration of a page make on them.

use crate::slab::{
    lemme_allocation, lemme_liberation, lemme_libres_bornes, lemme_suite_bornee, VueSlab,
    TAILLE_ENTETE, TAILLE_MIN_OBJET, TAILLE_SLAB,
};
use vstd::prelude::*;

verus! {

/// The pages of two slabs have no byte in common.
pub open spec fn pages_disjointes(a: VueSlab, b: VueSlab) -> bool {
    a.base + TAILLE_SLAB <= b.base || b.base + TAILLE_SLAB <= a.base
}

/// No two slabs of the list share a byte.
pub open spec fn sans_chevauchement(l: Seq<VueSlab>) -> bool {
    forall|a: int, b: int| 0 <= a < b < l.len() ==> pages_disjointes(#[trigger] l[a], #[trigger] l[b])
}

/// No slab of the first list shares a byte with one of the second.
pub open spec fn separees(l1: Seq<VueSlab>, l2: Seq<VueSlab>) -> bool {
    forall|a: int, b: int|
        0 <= a < l1.len() && 0 <= b < l2.len() ==> pages_disjointes(
            #[trigger] l1[a],
            #[trigger] l2[b],
        )
}

/// Some slab of the list covers the address `ptr`.
pub open spec fn liste_possede(l: Seq<VueSlab>, ptr: int) -> bool {
    exists|k: int| 0 <= k < l.len() && (#[trigger] l[k]).possede(ptr)
}

/// Position in the list of a slab that covers `ptr`.
pub open spec fn rang(l: Seq<VueSlab>, ptr: int) -> int {
    choose|k: int| 0 <= k < l.len() && (#[trigger] l[k]).possede(ptr)
}

/// `ptr` is the address of an allocated slot of some slab of the list.
pub open spec fn liste_alloue(l: Seq<VueSlab>, ptr: int) -> bool {
    exists|k: int| 0 <= k < l.len() && (#[trigger] l[k]).alloue(ptr)
}

/// Number of allocated slots over the slabs of the list.
pub open spec fn somme_utilises(l: Seq<VueSlab>) -> int
    decreases l.len(),
{
    if l.len() == 0 {
        0
    } else {
        somme_utilises(l.drop_last()) + l.last().utilises()
    }
}

/// Mathematical model of a cache: its size class and its three lists, heads first.
pub struct VueCache {
    /// Width of one slot, after it was raised to the minimum.
    pub taille_objet: int,
    /// Number of slots in each slab.
    pub objets_par_slab: int,
    /// Slabs that are the first candidates for an allocation.
    pub partiels: Seq<VueSlab>,
    /// Slabs without a free slot.
    pub pleins: Seq<VueSlab>,
    /// Slabs without an allocated slot.
    pub vides: Seq<VueSlab>,
}

impl VueCache {
    /// A cache without any slab for slots of `taille_demandee` bytes.
    pub open spec fn neuf(taille_demandee: int) -> VueCache {
        let taille = if taille_demandee < TAILLE_MIN_OBJET {
            TAILLE_MIN_OBJET as int
        } else {
            taille_demandee
        };
        VueCache {
            taille_objet: taille,
            objets_par_slab: (TAILLE_SLAB - TAILLE_ENTETE) / taille,
            partiels: Seq::empty(),
            pleins: Seq::empty(),
            vides: Seq::empty(),
        }
    }

    /// `s` is a valid slab of this cache's size class.
    pub open spec fn conforme(self, s: VueSlab) -> bool {
        &&& s.valide()
        &&& s.taille_objet == self.taille_objet
        &&& s.nb_objets == self.objets_par_slab
    }

    /// Every slab of the list is a valid slab of this cache's size class.
    pub open spec fn liste_conforme(self, l: Seq<VueSlab>) -> bool {
        forall|k: int| 0 <= k < l.len() ==> self.conforme(#[trigger] l[k])
    }

    /// The invariant of the model. A slab has as many slots as fit in a page beside the
    /// bookkeeping, which is at least one unless a slot is too wide. Every slab has at least
    /// one slot and the size of the cache's class; no two slabs overlap; a slab in the full list is full, one in the empty
    /// list is empty, and one in the partial list is never empty. With two slots or more per
    /// slab, a slab in the partial list is not full either. With a single slot per slab, a
    /// slab in use stays in the partial list and the full list stays empty.
    pub open spec fn valide(self) -> bool {
        &&& self.taille_objet >= TAILLE_MIN_OBJET
        &&& self.objets_par_slab == (TAILLE_SLAB - TAILLE_ENTETE) / self.taille_objet
        &&& self.objets_par_slab >= 1 <==> self.taille_objet <= TAILLE_SLAB - TAILLE_ENTETE
        &&& self.liste_conforme(self.partiels)
        &&& self.liste_conforme(self.pleins)
        &&& self.liste_conforme(self.vides)
        &&& self.partiels.len() + self.pleins.len() + self.vides.len() > 0 ==> self.objets_par_slab >= 1
        &&& sans_chevauchement(self.partiels)
        &&& sans_chevauchement(self.pleins)
        &&& sans_chevauchement(self.vides)
        &&& separees(self.partiels, self.pleins)
        &&& separees(self.partiels, self.vides)
        &&& separees(self.pleins, self.vides)
        &&& forall|k: int| 0 <= k < self.pleins.len() ==> (#[trigger] self.pleins[k]).plein()
        &&& forall|k: int| 0 <= k < self.vides.len() ==> (#[trigger] self.vides[k]).vide()
        &&& forall|k: int| 0 <= k < self.partiels.len() ==> !(#[trigger] self.partiels[k]).vide()
        &&& self.objets_par_slab >= 2 ==> forall|k: int|
            0 <= k < self.partiels.len() ==> !(#[trigger] self.partiels[k]).plein()
        &&& self.objets_par_slab < 2 ==> self.pleins.len() == 0
    }

    /// `s` is one of the slabs of the cache.
    pub open spec fn contient(self, s: VueSlab) -> bool {
        self.partiels.contains(s) || self.pleins.contains(s) || self.vides.contains(s)
    }

    /// `ptr` is the address of a slot that this cache handed out and did not get back.
    pub open spec fn alloue(self, ptr: int) -> bool {
        liste_alloue(self.partiels, ptr) || liste_alloue(self.pleins, ptr) || liste_alloue(
            self.vides,
            ptr,
        )
    }

    /// Number of allocated slots over all the slabs of the cache.
    pub open spec fn utilises_total(self) -> int {
        somme_utilises(self.partiels) + somme_utilises(self.pleins) + somme_utilises(self.vides)
    }

    /// What the next allocation returns: a slot of the first partial slab if that slab has
    /// one, else a slot of the first empty slab, else nothing.
    pub open spec fn adresse_suivante(self) -> Option<int> {
        if self.partiels.len() > 0 && !self.partiels[0].plein() {
            self.partiels[0].adresse_suivante()
        } else if self.vides.len() > 0 {
            self.vides[0].adresse_suivante()
        } else {
            None
        }
    }

    /// The cache after one allocation. A partial slab that became full moves to the head of
    /// the full list; an empty slab that served the request moves to the head of the partial
    /// list.
    pub open spec fn apres_allocation(self) -> VueCache {
        if self.partiels.len() > 0 && !self.partiels[0].plein() {
            let s = self.partiels[0].apres_allocation();
            if s.plein() {
                VueCache { partiels: self.partiels.remove(0), pleins: seq![s] + self.pleins, ..self }
            } else {
                VueCache { partiels: self.partiels.update(0, s), ..self }
            }
        } else if self.vides.len() > 0 {
            let s = self.vides[0].apres_allocation();
            VueCache { vides: self.vides.remove(0), partiels: seq![s] + self.partiels, ..self }
        } else {
            self
        }
    }

    /// The cache after `ptr` was freed. A slab of the full list that covers `ptr` moves to the
    /// head of the partial list. Otherwise a slab of the partial list that covers `ptr` stays
    /// where it is, unless it became empty: then it moves to the head of the empty list.
    pub open spec fn apres_liberation(self, ptr: int) -> VueCache {
        if liste_possede(self.pleins, ptr) {
            let j = rang(self.pleins, ptr);
            let s = self.pleins[j].apres_liberation(ptr);
            VueCache { pleins: self.pleins.remove(j), partiels: seq![s] + self.partiels, ..self }
        } else if liste_possede(self.partiels, ptr) {
            let j = rang(self.partiels, ptr);
            let s = self.partiels[j].apres_liberation(ptr);
            if s.vide() {
                VueCache { partiels: self.partiels.remove(j), vides: seq![s] + self.vides, ..self }
            } else {
                VueCache { partiels: self.partiels.update(j, s), ..self }
            }
        } else {
            self
        }
    }

    /// The page at `base` overlaps no page that the cache holds.
    pub open spec fn libre_de(self, base: int) -> bool {
        let s = VueSlab::neuf(base, self.taille_objet, self.objets_par_slab);
        &&& forall|k: int|
            0 <= k < self.partiels.len() ==> pages_disjointes(s, #[trigger] self.partiels[k])
        &&& forall|k: int| 0 <= k < self.pleins.len() ==> pages_disjointes(s, #[trigger] self.pleins[k])
        &&& forall|k: int| 0 <= k < self.vides.len() ==> pages_disjointes(s, #[trigger] self.vides[k])
    }

    /// A page at `base` can join the cache: the cache's slabs have at least one slot, the page
    /// ends inside the address space, and it overlaps no page that the cache holds.
    pub open spec fn accepte(self, base: int) -> bool {
        &&& self.objets_par_slab >= 1
        &&& 0 <= base
        &&& base + TAILLE_SLAB <= usize::MAX
        &&& self.libre_de(base)
    }

    /// The cache after the page at `base` joined it as a new empty slab, at the head of the
    /// empty list.
    pub open spec fn apres_enregistrement(self, base: int) -> VueCache {
        VueCache {
            vides: seq![VueSlab::neuf(base, self.taille_objet, self.objets_par_slab)] + self.vides,
            ..self
        }
    }
}

/// A cache without any slab is valid and has no slot in use.
pub proof fn lemme_cache_neuf(taille_demandee: int)
    ensures
        VueCache::neuf(taille_demandee).valide(),
        VueCache::neuf(taille_demandee).utilises_total() == 0,
        VueCache::neuf(taille_demandee).adresse_suivante() is None,
{
    let c = VueCache::neuf(taille_demandee);
    let q = c.objets_par_slab;
    let t = c.taille_objet;
    vstd::arithmetic::div_mod::lemma_fundamental_div_mod(TAILLE_SLAB - TAILLE_ENTETE, t);
    vstd::arithmetic::div_mod::lemma_mod_bound(TAILLE_SLAB - TAILLE_ENTETE, t);
    vstd::arithmetic::div_mod::lemma_div_pos_is_pos(TAILLE_SLAB - TAILLE_ENTETE, t);
    assert(q >= 1 <==> t <= 4048) by (nonlinear_arith)
        requires
            4048 == t * q + (4048int % t),
            0 <= 4048int % t < t,
            q >= 0,
    ;
}

/// A slab put at the head of a list adds its allocated slots to the list's count.
pub proof fn lemme_somme_ajout(s: VueSlab, l: Seq<VueSlab>)
    ensures
        somme_utilises(seq![s] + l) == s.utilises() + somme_utilises(l),
    decreases l.len(),
{
    let m = seq![s] + l;
    if l.len() == 0 {
        assert(m.drop_last() =~= Seq::<VueSlab>::empty());
        assert(somme_utilises(m.drop_last()) == 0);
    } else {
        assert(m.drop_last() =~= seq![s] + l.drop_last());
        assert(m.last() == l.last());
        lemme_somme_ajout(s, l.drop_last());
    }
}

/// A slab taken out of a list takes its allocated slots out of the list's count.
pub proof fn lemme_somme_retrait(l: Seq<VueSlab>, j: int)
    requires
        0 <= j < l.len(),
    ensures
        somme_utilises(l) == l[j].utilises() + somme_utilises(l.remove(j)),
    decreases l.len(),
{
    if j == l.len() - 1 {
        assert(l.remove(j) =~= l.drop_last());
    } else {
        assert(l.remove(j).drop_last() =~= l.drop_last().remove(j));
        assert(l.remove(j).last() == l.last());
        lemme_somme_retrait(l.drop_last(), j);
    }
}

/// A slab replaced in a list changes the list's count by the difference of the two.
pub proof fn lemme_somme_remplacement(l: Seq<VueSlab>, j: int, s: VueSlab)
    requires
        0 <= j < l.len(),
    ensures
        somme_utilises(l.update(j, s)) == somme_utilises(l) - l[j].utilises() + s.utilises(),
{
    lemme_somme_retrait(l, j);
    lemme_somme_retrait(l.update(j, s), j);
    assert(l.update(j, s).remove(j) =~= l.remove(j));
}

/// What a list holds allocated is what its head holds and what the rest holds.
pub proof fn lemme_alloue_ajout(s: VueSlab, l: Seq<VueSlab>, ptr: int)
    ensures
        liste_alloue(seq![s] + l, ptr) == (s.alloue(ptr) || liste_alloue(l, ptr)),
{
    let m = seq![s] + l;
    if s.alloue(ptr) {
        assert(m[0].alloue(ptr));
    }
    if liste_alloue(l, ptr) {
        let k = choose|k: int| 0 <= k < l.len() && (#[trigger] l[k]).alloue(ptr);
        assert(m[k + 1].alloue(ptr));
    }
    if liste_alloue(m, ptr) {
        let k = choose|k: int| 0 <= k < m.len() && (#[trigger] m[k]).alloue(ptr);
        if k > 0 {
            assert(l[k - 1].alloue(ptr));
        }
    }
}

/// What a list holds allocated is what one of its slabs holds and what the others hold.
pub proof fn lemme_alloue_retrait(l: Seq<VueSlab>, j: int, ptr: int)
    requires
        0 <= j < l.len(),
    ensures
        liste_alloue(l, ptr) == (l[j].alloue(ptr) || liste_alloue(l.remove(j), ptr)),
{
    let m = l.remove(j);
    if liste_alloue(m, ptr) {
        let k = choose|k: int| 0 <= k < m.len() && (#[trigger] m[k]).alloue(ptr);
        if k < j {
            assert(l[k].alloue(ptr));
        } else {
            assert(l[k + 1].alloue(ptr));
        }
    }
    if liste_alloue(l, ptr) {
        let k = choose|k: int| 0 <= k < l.len() && (#[trigger] l[k]).alloue(ptr);
        if k < j {
            assert(m[k].alloue(ptr));
        } else if k > j {
            assert(m[k - 1].alloue(ptr));
        }
    }
}

/// After a slab was replaced, the list holds allocated what the new slab holds and what the
/// others hold.
pub proof fn lemme_alloue_remplacement(l: Seq<VueSlab>, j: int, s: VueSlab, ptr: int)
    requires
        0 <= j < l.len(),
    ensures
        liste_alloue(l.update(j, s), ptr) == (s.alloue(ptr) || liste_alloue(l.remove(j), ptr)),
{
    lemme_alloue_retrait(l.update(j, s), j, ptr);
    assert(l.update(j, s).remove(j) =~= l.remove(j));
}

/// Separation of two lists does not depend on the order in which they are named.
pub proof fn lemme_separees_symetrique(l1: Seq<VueSlab>, l2: Seq<VueSlab>)
    requires
        separees(l1, l2),
    ensures
        separees(l2, l1),
{
    assert forall|a: int, b: int| 0 <= a < l2.len() && 0 <= b < l1.len() implies pages_disjointes(
        #[trigger] l2[a],
        #[trigger] l1[b],
    ) by {
        assert(pages_disjointes(l1[b], l2[a]));
    }
}

/// Moving a slab from one list to the head of another, possibly in a new state but on the
/// same page, keeps all the pages apart.
pub proof fn lemme_deplacement_disjoint(
    x: Seq<VueSlab>,
    y: Seq<VueSlab>,
    z: Seq<VueSlab>,
    j: int,
    s: VueSlab,
)
    requires
        0 <= j < x.len(),
        s.base == x[j].base,
        sans_chevauchement(x),
        sans_chevauchement(y),
        sans_chevauchement(z),
        separees(x, y),
        separees(x, z),
        separees(y, z),
    ensures
        sans_chevauchement(x.remove(j)),
        sans_chevauchement(seq![s] + y),
        separees(x.remove(j), seq![s] + y),
        separees(seq![s] + y, x.remove(j)),
        separees(x.remove(j), z),
        separees(z, x.remove(j)),
        separees(seq![s] + y, z),
        separees(z, seq![s] + y),
{
    let x2 = x.remove(j);
    let y2 = seq![s] + y;
    assert forall|a: int| 0 <= a < x2.len() implies #[trigger] x2[a] == x[if a < j {
        a
    } else {
        a + 1
    }] by {}
    assert forall|a: int| 0 < a < y2.len() implies #[trigger] y2[a] == y[a - 1] by {}
    assert forall|a: int, b: int| 0 <= a < b < x2.len() implies pages_disjointes(
        #[trigger] x2[a],
        #[trigger] x2[b],
    ) by {
        let a1 = if a < j { a } else { a + 1 };
        let b1 = if b < j { b } else { b + 1 };
        assert(pages_disjointes(x[a1], x[b1]));
    }
    assert forall|a: int, b: int| 0 <= a < b < y2.len() implies pages_disjointes(
        #[trigger] y2[a],
        #[trigger] y2[b],
    ) by {
        if a == 0 {
            assert(pages_disjointes(x[j], y[b - 1]));
        } else {
            assert(pages_disjointes(y[a - 1], y[b - 1]));
        }
    }
    assert forall|a: int, b: int| 0 <= a < x2.len() && 0 <= b < y2.len() implies pages_disjointes(
        #[trigger] x2[a],
        #[trigger] y2[b],
    ) by {
        let a1 = if a < j { a } else { a + 1 };
        if b == 0 {
            if a1 < j {
                assert(pages_disjointes(x[a1], x[j]));
            } else {
                assert(pages_disjointes(x[j], x[a1]));
            }
        } else {
            assert(pages_disjointes(x[a1], y[b - 1]));
        }
    }
    assert forall|a: int, b: int| 0 <= a < x2.len() && 0 <= b < z.len() implies pages_disjointes(
        #[trigger] x2[a],
        #[trigger] z[b],
    ) by {
        let a1 = if a < j { a } else { a + 1 };
        assert(pages_disjointes(x[a1], z[b]));
    }
    assert forall|a: int, b: int| 0 <= a < y2.len() && 0 <= b < z.len() implies pages_disjointes(
        #[trigger] y2[a],
        #[trigger] z[b],
    ) by {
        if a == 0 {
            assert(pages_disjointes(x[j], z[b]));
        } else {
            assert(pages_disjointes(y[a - 1], z[b]));
        }
    }
    lemme_separees_symetrique(x2, y2);
    lemme_separees_symetrique(x2, z);
    lemme_separees_symetrique(y2, z);
}

/// Replacing a slab by another state of the same page keeps all the pages apart.
pub proof fn lemme_remplacement_disjoint(
    x: Seq<VueSlab>,
    y: Seq<VueSlab>,
    j: int,
    s: VueSlab,
)
    requires
        0 <= j < x.len(),
        s.base == x[j].base,
        sans_chevauchement(x),
        separees(x, y),
    ensures
        sans_chevauchement(x.update(j, s)),
        separees(x.update(j, s), y),
{
    let x2 = x.update(j, s);
    assert forall|a: int, b: int| 0 <= a < b < x2.len() implies pages_disjointes(
        #[trigger] x2[a],
        #[trigger] x2[b],
    ) by {
        assert(pages_disjointes(x[a], x[b]));
    }
    assert forall|a: int, b: int| 0 <= a < x2.len() && 0 <= b < y.len() implies pages_disjointes(
        #[trigger] x2[a],
        #[trigger] y[b],
    ) by {
        assert(pages_disjointes(x[a], y[b]));
    }
}

/// An address inside the slots of one slab is outside every slab on another page.
pub proof fn lemme_page_unique(s: VueSlab, t: VueSlab, ptr: int)
    requires
        s.valide(),
        t.valide(),
        pages_disjointes(s, t),
        s.possede(ptr),
    ensures
        !t.possede(ptr),
        !t.alloue(ptr),
{
}

/// An address inside the slots of a slab is outside every list whose pages are apart from
/// that slab's page.
pub proof fn lemme_hors_liste(s: VueSlab, l: Seq<VueSlab>, ptr: int)
    requires
        s.valide(),
        s.possede(ptr),
        forall|k: int| 0 <= k < l.len() ==> (#[trigger] l[k]).valide() && pages_disjointes(s, l[k]),
    ensures
        !liste_possede(l, ptr),
        !liste_alloue(l, ptr),
{
    assert forall|k: int| 0 <= k < l.len() implies !(#[trigger] l[k]).possede(ptr) && !l[k].alloue(
        ptr,
    ) by {
        lemme_page_unique(s, l[k], ptr);
    }
}

/// A slab without an allocated slot holds no allocated address.
pub proof fn lemme_vide_sans_alloue(s: VueSlab, ptr: int)
    requires
        s.valide(),
        s.vide(),
    ensures
        !s.alloue(ptr),
{
    if s.alloue(ptr) {
        lemme_liberation(s, ptr);
    }
}

/// One allocation on a valid cache. The cache stays valid; the request fails exactly when
/// the first partial slab, if there is one, is full and no slab is empty; a slot handed out
/// was not allocated before and is allocated afterwards; no other slot changes its state; the
/// count of allocated slots goes up by one for a success and stays for a failure.
pub proof fn lemme_cache_allocation(c: VueCache)
    requires
        c.valide(),
    ensures
        c.apres_allocation().valide(),
        c.adresse_suivante() is None <==> (c.partiels.len() == 0 || c.partiels[0].plein())
            && c.vides.len() == 0,
        c.adresse_suivante() is None ==> c.apres_allocation() == c,
        c.adresse_suivante() matches Some(p) ==> {
            &&& !c.alloue(p)
            &&& c.apres_allocation().alloue(p)
            &&& forall|q: int| q != p ==> c.apres_allocation().alloue(q) == c.alloue(q)
            &&& c.apres_allocation().utilises_total() == c.utilises_total() + 1
        },
{
    let d = c.apres_allocation();
    if c.partiels.len() > 0 && !c.partiels[0].plein() {
        let s0 = c.partiels[0];
        let s = s0.apres_allocation();
        let p = s0.adresse_suivante()->0;
        assert(c.conforme(s0));
        lemme_allocation(s0);
        assert(!liste_alloue(c.partiels.remove(0), p)) by {
            let r = c.partiels.remove(0);
            assert forall|k: int| 0 <= k < r.len() implies (#[trigger] r[k]).valide()
                && pages_disjointes(s0, r[k]) by {
                assert(r[k] == c.partiels[k + 1]);
                assert(c.conforme(c.partiels[k + 1]));
                assert(pages_disjointes(c.partiels[0], c.partiels[k + 1]));
            }
            lemme_hors_liste(s0, r, p);
        }
        assert(!liste_alloue(c.pleins, p)) by {
            assert forall|k: int| 0 <= k < c.pleins.len() implies (#[trigger] c.pleins[k]).valide()
                && pages_disjointes(s0, c.pleins[k]) by {
                assert(c.conforme(c.pleins[k]));
                assert(pages_disjointes(c.partiels[0], c.pleins[k]));
            }
            lemme_hors_liste(s0, c.pleins, p);
        }
        assert(!liste_alloue(c.vides, p)) by {
            assert forall|k: int| 0 <= k < c.vides.len() implies (#[trigger] c.vides[k]).valide()
                && pages_disjointes(s0, c.vides[k]) by {
                assert(c.conforme(c.vides[k]));
                assert(pages_disjointes(c.partiels[0], c.vides[k]));
            }
            lemme_hors_liste(s0, c.vides, p);
        }
        lemme_alloue_retrait(c.partiels, 0, p);
        lemme_somme_retrait(c.partiels, 0);
        if s.plein() {
            lemme_deplacement_disjoint(c.partiels, c.pleins, c.vides, 0, s);
            lemme_somme_ajout(s, c.pleins);
            lemme_alloue_ajout(s, c.pleins, p);
            assert forall|q: int| q != p implies d.alloue(q) == c.alloue(q) by {
                lemme_alloue_retrait(c.partiels, 0, q);
                lemme_alloue_ajout(s, c.pleins, q);
            }
            assert(d.liste_conforme(d.partiels)) by {
                assert forall|k: int| 0 <= k < d.partiels.len() implies d.conforme(
                    #[trigger] d.partiels[k],
                ) by {
                    assert(c.conforme(c.partiels[k + 1]));
                }
            }
            assert(d.liste_conforme(d.pleins)) by {
                assert forall|k: int| 0 <= k < d.pleins.len() implies d.conforme(
                    #[trigger] d.pleins[k],
                ) by {
                    if k > 0 {
                        assert(c.conforme(c.pleins[k - 1]));
                    }
                }
            }
            assert forall|k: int| 0 <= k < d.pleins.len() implies (#[trigger] d.pleins[k]).plein() by {
                if k > 0 {
                    assert(c.pleins[k - 1].plein());
                }
            }
            assert forall|k: int| 0 <= k < d.partiels.len() implies !(
            #[trigger] d.partiels[k]).vide() by {
                assert(!c.partiels[k + 1].vide());
            }
            if c.objets_par_slab >= 2 {
                assert forall|k: int| 0 <= k < d.partiels.len() implies !(
                #[trigger] d.partiels[k]).plein() by {
                    assert(!c.partiels[k + 1].plein());
                }
            } else {
                // with one slot the first partial slab would have been full
                assert(!c.partiels[0].vide());
                assert(false);
            }
            assert(d.liste_conforme(d.vides));
            assert(d.valide());
        } else {
            lemme_remplacement_disjoint(c.partiels, c.pleins, 0, s);
            lemme_remplacement_disjoint(c.partiels, c.vides, 0, s);
            lemme_somme_remplacement(c.partiels, 0, s);
            lemme_alloue_remplacement(c.partiels, 0, s, p);
            assert forall|q: int| q != p implies d.alloue(q) == c.alloue(q) by {
                lemme_alloue_retrait(c.partiels, 0, q);
                lemme_alloue_remplacement(c.partiels, 0, s, q);
            }
            assert(d.liste_conforme(d.partiels)) by {
                assert forall|k: int| 0 <= k < d.partiels.len() implies d.conforme(
                    #[trigger] d.partiels[k],
                ) by {
                    assert(c.conforme(c.partiels[k]));
                }
            }
            lemme_libres_bornes(s0);
            assert forall|k: int| 0 <= k < d.partiels.len() implies !(
            #[trigger] d.partiels[k]).vide() by {
                assert(!c.partiels[k].vide());
            }
            if c.objets_par_slab >= 2 {
                assert forall|k: int| 0 <= k < d.partiels.len() implies !(
                #[trigger] d.partiels[k]).plein() by {
                    if k > 0 {
                        assert(!c.partiels[k].plein());
                    }
                }
            }
            assert(d.valide());
        }
    } else if c.vides.len() > 0 {
        let s0 = c.vides[0];
        let s = s0.apres_allocation();
        assert(c.conforme(s0));
        assert(s0.vide());
        assert(!s0.plein());
        let p = s0.adresse_suivante()->0;
        lemme_allocation(s0);
        assert(!liste_alloue(c.vides.remove(0), p)) by {
            let r = c.vides.remove(0);
            assert forall|k: int| 0 <= k < r.len() implies (#[trigger] r[k]).valide()
                && pages_disjointes(s0, r[k]) by {
                assert(r[k] == c.vides[k + 1]);
                assert(c.conforme(c.vides[k + 1]));
                assert(pages_disjointes(c.vides[0], c.vides[k + 1]));
            }
            lemme_hors_liste(s0, r, p);
        }
        assert(!liste_alloue(c.pleins, p)) by {
            assert forall|k: int| 0 <= k < c.pleins.len() implies (#[trigger] c.pleins[k]).valide()
                && pages_disjointes(s0, c.pleins[k]) by {
                assert(c.conforme(c.pleins[k]));
                assert(pages_disjointes(c.pleins[k], c.vides[0]));
            }
            lemme_hors_liste(s0, c.pleins, p);
        }
        assert(!liste_alloue(c.partiels, p)) by {
            assert forall|k: int| 0 <= k < c.partiels.len() implies (
            #[trigger] c.partiels[k]).valide() && pages_disjointes(s0, c.partiels[k]) by {
                assert(c.conforme(c.partiels[k]));
                assert(pages_disjointes(c.partiels[k], c.vides[0]));
            }
            lemme_hors_liste(s0, c.partiels, p);
        }
        lemme_alloue_retrait(c.vides, 0, p);
        lemme_somme_retrait(c.vides, 0);
        lemme_separees_symetrique(c.partiels, c.vides);
        lemme_separees_symetrique(c.pleins, c.vides);
        lemme_separees_symetrique(c.partiels, c.pleins);
        lemme_deplacement_disjoint(c.vides, c.partiels, c.pleins, 0, s);
        lemme_somme_ajout(s, c.partiels);
        lemme_alloue_ajout(s, c.partiels, p);
        assert forall|q: int| q != p implies d.alloue(q) == c.alloue(q) by {
            lemme_alloue_retrait(c.vides, 0, q);
            lemme_alloue_ajout(s, c.partiels, q);
        }
        assert(d.liste_conforme(d.vides)) by {
            assert forall|k: int| 0 <= k < d.vides.len() implies d.conforme(#[trigger] d.vides[k]) by {
                assert(c.conforme(c.vides[k + 1]));
            }
        }
        assert(d.liste_conforme(d.partiels)) by {
            assert forall|k: int| 0 <= k < d.partiels.len() implies d.conforme(
                #[trigger] d.partiels[k],
            ) by {
                if k > 0 {
                    assert(c.conforme(c.partiels[k - 1]));
                }
            }
        }
        assert forall|k: int| 0 <= k < d.vides.len() implies (#[trigger] d.vides[k]).vide() by {
            assert(c.vides[k + 1].vide());
        }
        assert forall|k: int| 0 <= k < d.partiels.len() implies !(#[trigger] d.partiels[k]).vide() by {
            if k > 0 {
                assert(!c.partiels[k - 1].vide());
            }
        }
        if c.objets_par_slab >= 2 {
            assert forall|k: int| 0 <= k < d.partiels.len() implies !(
            #[trigger] d.partiels[k]).plein() by {
                if k > 0 {
                    assert(!c.partiels[k - 1].plein());
                }
            }
        }
        assert(d.valide());
    } else {
    }
}

/// In a valid cache at most one slab covers a given address.
pub proof fn lemme_proprietaire_unique(c: VueCache, ptr: int)
    requires
        c.valide(),
    ensures
        forall|a: int, b: int|
            0 <= a < c.partiels.len() && 0 <= b < c.partiels.len() && (
            #[trigger] c.partiels[a]).possede(ptr) && (#[trigger] c.partiels[b]).possede(ptr) ==> a
                == b,
        forall|a: int, b: int|
            0 <= a < c.pleins.len() && 0 <= b < c.pleins.len() && (#[trigger] c.pleins[a]).possede(
                ptr,
            ) && (#[trigger] c.pleins[b]).possede(ptr) ==> a == b,
        forall|a: int, b: int|
            0 <= a < c.vides.len() && 0 <= b < c.vides.len() && (#[trigger] c.vides[a]).possede(ptr)
                && (#[trigger] c.vides[b]).possede(ptr) ==> a == b,
        liste_possede(c.partiels, ptr) ==> !liste_possede(c.pleins, ptr) && !liste_possede(
            c.vides,
            ptr,
        ),
        liste_possede(c.pleins, ptr) ==> !liste_possede(c.vides, ptr),
{
    assert forall|a: int, b: int|
        0 <= a < c.partiels.len() && 0 <= b < c.partiels.len() && (#[trigger] c.partiels[a]).possede(
            ptr,
        ) && (#[trigger] c.partiels[b]).possede(ptr) implies a == b by {
        assert(c.conforme(c.partiels[a]) && c.conforme(c.partiels[b]));
        if a < b {
            lemme_page_unique(c.partiels[a], c.partiels[b], ptr);
        } else if b < a {
            lemme_page_unique(c.partiels[b], c.partiels[a], ptr);
        }
    }
    assert forall|a: int, b: int|
        0 <= a < c.pleins.len() && 0 <= b < c.pleins.len() && (#[trigger] c.pleins[a]).possede(ptr)
            && (#[trigger] c.pleins[b]).possede(ptr) implies a == b by {
        assert(c.conforme(c.pleins[a]) && c.conforme(c.pleins[b]));
        if a < b {
            lemme_page_unique(c.pleins[a], c.pleins[b], ptr);
        } else if b < a {
            lemme_page_unique(c.pleins[b], c.pleins[a], ptr);
        }
    }
    assert forall|a: int, b: int|
        0 <= a < c.vides.len() && 0 <= b < c.vides.len() && (#[trigger] c.vides[a]).possede(ptr) && (
        #[trigger] c.vides[b]).possede(ptr) implies a == b by {
        assert(c.conforme(c.vides[a]) && c.conforme(c.vides[b]));
        if a < b {
            lemme_page_unique(c.vides[a], c.vides[b], ptr);
        } else if b < a {
            lemme_page_unique(c.vides[b], c.vides[a], ptr);
        }
    }
    if liste_possede(c.partiels, ptr) {
        let a = rang(c.partiels, ptr);
        assert(c.conforme(c.partiels[a]));
        assert forall|k: int| 0 <= k < c.pleins.len() implies (#[trigger] c.pleins[k]).valide()
            && pages_disjointes(c.partiels[a], c.pleins[k]) by {
            assert(c.conforme(c.pleins[k]));
        }
        lemme_hors_liste(c.partiels[a], c.pleins, ptr);
        assert forall|k: int| 0 <= k < c.vides.len() implies (#[trigger] c.vides[k]).valide()
            && pages_disjointes(c.partiels[a], c.vides[k]) by {
            assert(c.conforme(c.vides[k]));
        }
        lemme_hors_liste(c.partiels[a], c.vides, ptr);
    }
    if liste_possede(c.pleins, ptr) {
        let a = rang(c.pleins, ptr);
        assert(c.conforme(c.pleins[a]));
        assert forall|k: int| 0 <= k < c.vides.len() implies (#[trigger] c.vides[k]).valide()
            && pages_disjointes(c.pleins[a], c.vides[k]) by {
            assert(c.conforme(c.vides[k]));
        }
        lemme_hors_liste(c.pleins[a], c.vides, ptr);
    }
}

/// The slab that covers an allocated address is the one that holds it allocated, and it sits
/// in the full list or in the partial list.
pub proof fn lemme_proprietaire(c: VueCache, ptr: int)
    requires
        c.valide(),
        c.alloue(ptr),
    ensures
        liste_possede(c.pleins, ptr) != liste_possede(c.partiels, ptr),
        !liste_possede(c.vides, ptr),
        forall|k: int|
            0 <= k < c.pleins.len() && (#[trigger] c.pleins[k]).possede(ptr) ==> rang(
                c.pleins,
                ptr,
            ) == k && c.pleins[k].alloue(ptr),
        forall|k: int|
            0 <= k < c.partiels.len() && (#[trigger] c.partiels[k]).possede(ptr) ==> rang(
                c.partiels,
                ptr,
            ) == k && c.partiels[k].alloue(ptr),
{
    lemme_proprietaire_unique(c, ptr);
    assert(!liste_alloue(c.vides, ptr)) by {
        assert forall|k: int| 0 <= k < c.vides.len() implies !(#[trigger] c.vides[k]).alloue(ptr) by {
            assert(c.conforme(c.vides[k]));
            lemme_vide_sans_alloue(c.vides[k], ptr);
        }
    }
    if liste_alloue(c.pleins, ptr) {
        let a = choose|k: int| 0 <= k < c.pleins.len() && (#[trigger] c.pleins[k]).alloue(ptr);
        assert(c.pleins[a].possede(ptr));
        assert(liste_possede(c.pleins, ptr));
        lemme_separees_symetrique(c.partiels, c.pleins);
        assert(!liste_possede(c.partiels, ptr));
    } else {
        let a = choose|k: int| 0 <= k < c.partiels.len() && (#[trigger] c.partiels[k]).alloue(ptr);
        assert(c.partiels[a].possede(ptr));
        assert(liste_possede(c.partiels, ptr));
    }
}

/// Freeing an allocated address on a valid cache. The cache stays valid, the address is no
/// longer allocated, no other slot changes its state, and one slot fewer is in use.
pub proof fn lemme_cache_liberation(c: VueCache, ptr: int)
    requires
        c.valide(),
        c.alloue(ptr),
    ensures
        c.apres_liberation(ptr).valide(),
        !c.apres_liberation(ptr).alloue(ptr),
        forall|q: int| q != ptr ==> c.apres_liberation(ptr).alloue(q) == c.alloue(q),
        c.apres_liberation(ptr).utilises_total() == c.utilises_total() - 1,
{
    let d = c.apres_liberation(ptr);
    lemme_proprietaire(c, ptr);
    lemme_proprietaire_unique(c, ptr);
    assert(!liste_alloue(c.vides, ptr)) by {
        assert forall|k: int| 0 <= k < c.vides.len() implies !(#[trigger] c.vides[k]).alloue(ptr) by {
            assert(c.conforme(c.vides[k]));
            lemme_vide_sans_alloue(c.vides[k], ptr);
        }
    }
    if liste_possede(c.pleins, ptr) {
        let j = rang(c.pleins, ptr);
        let s0 = c.pleins[j];
        let s = s0.apres_liberation(ptr);
        assert(c.conforme(s0));
        assert(s0.plein());
        lemme_liberation(s0, ptr);
        assert(c.objets_par_slab >= 2);
        assert(!liste_alloue(c.partiels, ptr)) by {
            assert forall|k: int| 0 <= k < c.partiels.len() implies !(
            #[trigger] c.partiels[k]).alloue(ptr) by {
                if c.partiels[k].alloue(ptr) {
                    assert(c.partiels[k].possede(ptr));
                }
            }
        }
        assert(!liste_alloue(c.pleins.remove(j), ptr)) by {
            let r = c.pleins.remove(j);
            assert forall|k: int| 0 <= k < r.len() implies !(#[trigger] r[k]).alloue(ptr) by {
                let k1 = if k < j { k } else { k + 1 };
                assert(r[k] == c.pleins[k1]);
                if c.pleins[k1].alloue(ptr) {
                    assert(c.pleins[k1].possede(ptr));
                }
            }
        }
        lemme_separees_symetrique(c.partiels, c.pleins);
        lemme_deplacement_disjoint(c.pleins, c.partiels, c.vides, j, s);
        lemme_somme_retrait(c.pleins, j);
        lemme_somme_ajout(s, c.partiels);
        lemme_alloue_ajout(s, c.partiels, ptr);
        assert forall|q: int| q != ptr implies d.alloue(q) == c.alloue(q) by {
            lemme_alloue_retrait(c.pleins, j, q);
            lemme_alloue_ajout(s, c.partiels, q);
        }
        assert(d.liste_conforme(d.pleins)) by {
            assert forall|k: int| 0 <= k < d.pleins.len() implies d.conforme(#[trigger] d.pleins[k]) by {
                let k1 = if k < j { k } else { k + 1 };
                assert(c.conforme(c.pleins[k1]));
            }
        }
        assert(d.liste_conforme(d.partiels)) by {
            assert forall|k: int| 0 <= k < d.partiels.len() implies d.conforme(
                #[trigger] d.partiels[k],
            ) by {
                if k > 0 {
                    assert(c.conforme(c.partiels[k - 1]));
                }
            }
        }
        assert forall|k: int| 0 <= k < d.pleins.len() implies (#[trigger] d.pleins[k]).plein() by {
            let k1 = if k < j { k } else { k + 1 };
            assert(c.pleins[k1].plein());
        }
        assert forall|k: int| 0 <= k < d.partiels.len() implies !(#[trigger] d.partiels[k]).vide()
            && !d.partiels[k].plein() by {
            if k > 0 {
                assert(!c.partiels[k - 1].vide());
                assert(!c.partiels[k - 1].plein());
            }
        }
        assert(d.valide());
    } else {
        let j = rang(c.partiels, ptr);
        let s0 = c.partiels[j];
        let s = s0.apres_liberation(ptr);
        assert(c.conforme(s0));
        lemme_liberation(s0, ptr);
        assert(!liste_alloue(c.pleins, ptr)) by {
            assert forall|k: int| 0 <= k < c.pleins.len() implies !(#[trigger] c.pleins[k]).alloue(
                ptr,
            ) by {
                if c.pleins[k].alloue(ptr) {
                    assert(c.pleins[k].possede(ptr));
                }
            }
        }
        assert(!liste_alloue(c.partiels.remove(j), ptr)) by {
            let r = c.partiels.remove(j);
            assert forall|k: int| 0 <= k < r.len() implies !(#[trigger] r[k]).alloue(ptr) by {
                let k1 = if k < j { k } else { k + 1 };
                assert(r[k] == c.partiels[k1]);
                if c.partiels[k1].alloue(ptr) {
                    assert(c.partiels[k1].possede(ptr));
                }
            }
        }
        lemme_somme_retrait(c.partiels, j);
        if s.vide() {
            lemme_deplacement_disjoint(c.partiels, c.vides, c.pleins, j, s);
            lemme_somme_ajout(s, c.vides);
            lemme_alloue_ajout(s, c.vides, ptr);
            assert forall|q: int| q != ptr implies d.alloue(q) == c.alloue(q) by {
                lemme_alloue_retrait(c.partiels, j, q);
                lemme_alloue_ajout(s, c.vides, q);
            }
            assert(d.liste_conforme(d.partiels)) by {
                assert forall|k: int| 0 <= k < d.partiels.len() implies d.conforme(
                    #[trigger] d.partiels[k],
                ) by {
                    let k1 = if k < j { k } else { k + 1 };
                    assert(c.conforme(c.partiels[k1]));
                }
            }
            assert(d.liste_conforme(d.vides)) by {
                assert forall|k: int| 0 <= k < d.vides.len() implies d.conforme(
                    #[trigger] d.vides[k],
                ) by {
                    if k > 0 {
                        assert(c.conforme(c.vides[k - 1]));
                    }
                }
            }
            assert forall|k: int| 0 <= k < d.vides.len() implies (#[trigger] d.vides[k]).vide() by {
                if k > 0 {
                    assert(c.vides[k - 1].vide());
                }
            }
            assert forall|k: int| 0 <= k < d.partiels.len() implies !(
            #[trigger] d.partiels[k]).vide() by {
                let k1 = if k < j { k } else { k + 1 };
                assert(!c.partiels[k1].vide());
            }
            if c.objets_par_slab >= 2 {
                assert forall|k: int| 0 <= k < d.partiels.len() implies !(
                #[trigger] d.partiels[k]).plein() by {
                    let k1 = if k < j { k } else { k + 1 };
                    assert(!c.partiels[k1].plein());
                }
            }
            assert(d.valide());
        } else {
            lemme_remplacement_disjoint(c.partiels, c.pleins, j, s);
            lemme_remplacement_disjoint(c.partiels, c.vides, j, s);
            lemme_somme_remplacement(c.partiels, j, s);
            lemme_alloue_remplacement(c.partiels, j, s, ptr);
            assert forall|q: int| q != ptr implies d.alloue(q) == c.alloue(q) by {
                lemme_alloue_retrait(c.partiels, j, q);
                lemme_alloue_remplacement(c.partiels, j, s, q);
            }
            assert(d.liste_conforme(d.partiels)) by {
                assert forall|k: int| 0 <= k < d.partiels.len() implies d.conforme(
                    #[trigger] d.partiels[k],
                ) by {
                    assert(c.conforme(c.partiels[k]));
                }
            }
            assert forall|k: int| 0 <= k < d.partiels.len() implies !(
            #[trigger] d.partiels[k]).vide() by {
                assert(!c.partiels[k].vide());
            }
            if c.objets_par_slab >= 2 {
                assert forall|k: int| 0 <= k < d.partiels.len() implies !(
                #[trigger] d.partiels[k]).plein() by {
                    if k != j {
                        assert(!c.partiels[k].plein());
                    }
                }
            }
            assert(d.valide());
        }
    }
}

/// A fresh slab is valid, has every slot free and none allocated.
pub proof fn lemme_slab_neuf(base: int, taille_objet: int, nb_objets: int)
    requires
        taille_objet >= TAILLE_MIN_OBJET,
        0 <= nb_objets,
        nb_objets * taille_objet <= TAILLE_SLAB - TAILLE_ENTETE,
        0 <= base,
        base + TAILLE_SLAB <= usize::MAX,
    ensures
        VueSlab::neuf(base, taille_objet, nb_objets).valide(),
        VueSlab::neuf(base, taille_objet, nb_objets).vide(),
        nb_objets > 0 ==> !VueSlab::neuf(base, taille_objet, nb_objets).plein(),
{
}

/// Registering an acceptable page on a valid cache. The cache stays valid and no slot
/// changes its state.
pub proof fn lemme_cache_enregistrement(c: VueCache, base: int)
    requires
        c.valide(),
        c.accepte(base),
    ensures
        c.apres_enregistrement(base).valide(),
        forall|q: int| c.apres_enregistrement(base).alloue(q) == c.alloue(q),
        c.apres_enregistrement(base).utilises_total() == c.utilises_total(),
{
    let d = c.apres_enregistrement(base);
    let s = VueSlab::neuf(base, c.taille_objet, c.objets_par_slab);
    assert(c.objets_par_slab * c.taille_objet <= TAILLE_SLAB - TAILLE_ENTETE) by {
        vstd::arithmetic::div_mod::lemma_fundamental_div_mod(
            TAILLE_SLAB - TAILLE_ENTETE,
            c.taille_objet,
        );
        assert(c.taille_objet * c.objets_par_slab == c.objets_par_slab * c.taille_objet)
            by (nonlinear_arith);
    }
    lemme_slab_neuf(base, c.taille_objet, c.objets_par_slab);
    lemme_somme_ajout(s, c.vides);
    assert forall|q: int| d.alloue(q) == c.alloue(q) by {
        lemme_alloue_ajout(s, c.vides, q);
        lemme_vide_sans_alloue(s, q);
    }
    assert(d.liste_conforme(d.vides)) by {
        assert forall|k: int| 0 <= k < d.vides.len() implies d.conforme(#[trigger] d.vides[k]) by {
            if k > 0 {
                assert(c.conforme(c.vides[k - 1]));
            }
        }
    }
    assert forall|k: int| 0 <= k < d.vides.len() implies (#[trigger] d.vides[k]).vide() by {
        if k > 0 {
            assert(c.vides[k - 1].vide());
        }
    }
    assert(sans_chevauchement(d.vides)) by {
        assert forall|a: int, b: int| 0 <= a < b < d.vides.len() implies pages_disjointes(
            #[trigger] d.vides[a],
            #[trigger] d.vides[b],
        ) by {
            if a == 0 {
                assert(pages_disjointes(s, c.vides[b - 1]));
            } else {
                assert(pages_disjointes(c.vides[a - 1], c.vides[b - 1]));
            }
        }
    }
    assert(separees(d.partiels, d.vides)) by {
        assert forall|a: int, b: int|
            0 <= a < d.partiels.len() && 0 <= b < d.vides.len() implies pages_disjointes(
            #[trigger] d.partiels[a],
            #[trigger] d.vides[b],
        ) by {
            if b == 0 {
                assert(pages_disjointes(s, c.partiels[a]));
            } else {
                assert(pages_disjointes(c.partiels[a], c.vides[b - 1]));
            }
        }
    }
    assert(separees(d.pleins, d.vides)) by {
        assert forall|a: int, b: int|
            0 <= a < d.pleins.len() && 0 <= b < d.vides.len() implies pages_disjointes(
            #[trigger] d.pleins[a],
            #[trigger] d.vides[b],
        ) by {
            if b == 0 {
                assert(pages_disjointes(s, c.pleins[a]));
            } else {
                assert(pages_disjointes(c.pleins[a], c.vides[b - 1]));
            }
        }
    }
}

/// Slabs on pages that do not overlap are no more than the address space has pages.
pub proof fn lemme_nombre_de_pages(l: Seq<VueSlab>)
    requires
        sans_chevauchement(l),
        forall|k: int| 0 <= k < l.len() ==> (#[trigger] l[k]).valide(),
    ensures
        l.len() * TAILLE_SLAB <= usize::MAX,
{
    let numeros = Seq::new(l.len(), |k: int| l[k].base / (TAILLE_SLAB as int));
    let n = (usize::MAX as int) / (TAILLE_SLAB as int);
    assert forall|k: int| 0 <= k < numeros.len() implies 0 <= #[trigger] numeros[k] < n by {
        assert(l[k].valide());
    }
    assert(numeros.no_duplicates()) by {
        assert forall|a: int, b: int|
            0 <= a < numeros.len() && 0 <= b < numeros.len() && a != b implies numeros[a]
            != numeros[b] by {
            if a < b {
                assert(pages_disjointes(l[a], l[b]));
            } else {
                assert(pages_disjointes(l[b], l[a]));
            }
        }
    }
    lemme_suite_bornee(numeros, n);
}

/// The allocated slots of a list of valid slabs with `nb` slots each are between none and
/// `nb` for each slab.
pub proof fn lemme_somme_bornee(l: Seq<VueSlab>, nb: int)
    requires
        forall|k: int| 0 <= k < l.len() ==> (#[trigger] l[k]).valide() && l[k].nb_objets == nb,
    ensures
        0 <= somme_utilises(l) <= nb * l.len(),
    decreases l.len(),
{
    if l.len() > 0 {
        let d = l.drop_last();
        assert forall|k: int| 0 <= k < d.len() implies (#[trigger] d[k]).valide() && d[k].nb_objets
            == nb by {
            assert(d[k] == l[k]);
        }
        lemme_somme_bornee(d, nb);
        assert(l.last() == l[l.len() - 1]);
        lemme_libres_bornes(l.last());
        assert(nb * l.len() == nb * d.len() + nb) by (nonlinear_arith)
            requires
                l.len() == d.len() + 1,
        ;
    }
}

/// A valid cache holds no more slabs than the address space has pages, and no more
/// allocated slots than the address space has bytes.
pub proof fn lemme_capacite(c: VueCache)
    requires
        c.valide(),
    ensures
        (c.partiels.len() + c.pleins.len() + c.vides.len()) * TAILLE_SLAB <= usize::MAX,
        0 <= c.objets_par_slab <= 1012,
        0 <= somme_utilises(c.partiels) <= c.objets_par_slab * c.partiels.len(),
        0 <= somme_utilises(c.pleins) <= c.objets_par_slab * c.pleins.len(),
        0 <= somme_utilises(c.vides) <= c.objets_par_slab * c.vides.len(),
        0 <= c.utilises_total() <= usize::MAX,
{
    let t = c.partiels + c.pleins + c.vides;
    let np = c.partiels.len() as int;
    let nl = c.pleins.len() as int;
    assert forall|k: int| 0 <= k < t.len() implies (#[trigger] t[k]).valide() by {
        if k < np {
            assert(c.conforme(c.partiels[k]));
        } else if k < np + nl {
            assert(c.conforme(c.pleins[k - np]));
        } else {
            assert(c.conforme(c.vides[k - np - nl]));
        }
    }
    assert(sans_chevauchement(t)) by {
        assert forall|a: int, b: int| 0 <= a < b < t.len() implies pages_disjointes(
            #[trigger] t[a],
            #[trigger] t[b],
        ) by {
            if b < np {
                assert(pages_disjointes(c.partiels[a], c.partiels[b]));
            } else if b < np + nl {
                if a < np {
                    assert(pages_disjointes(c.partiels[a], c.pleins[b - np]));
                } else {
                    assert(pages_disjointes(c.pleins[a - np], c.pleins[b - np]));
                }
            } else {
                if a < np {
                    assert(pages_disjointes(c.partiels[a], c.vides[b - np - nl]));
                } else if a < np + nl {
                    assert(pages_disjointes(c.pleins[a - np], c.vides[b - np - nl]));
                } else {
                    assert(pages_disjointes(c.vides[a - np - nl], c.vides[b - np - nl]));
                }
            }
        }
    }
    lemme_nombre_de_pages(t);
    assert(0 <= c.objets_par_slab <= 1012) by (nonlinear_arith)
        requires
            c.taille_objet >= 4,
            c.objets_par_slab == 4048int / c.taille_objet,
    ;
    assert forall|k: int| 0 <= k < c.partiels.len() implies (#[trigger] c.partiels[k]).valide()
        && c.partiels[k].nb_objets == c.objets_par_slab by {
        assert(c.conforme(c.partiels[k]));
    }
    assert forall|k: int| 0 <= k < c.pleins.len() implies (#[trigger] c.pleins[k]).valide()
        && c.pleins[k].nb_objets == c.objets_par_slab by {
        assert(c.conforme(c.pleins[k]));
    }
    assert forall|k: int| 0 <= k < c.vides.len() implies (#[trigger] c.vides[k]).valide()
        && c.vides[k].nb_objets == c.objets_par_slab by {
        assert(c.conforme(c.vides[k]));
    }
    lemme_somme_bornee(c.partiels, c.objets_par_slab);
    lemme_somme_bornee(c.pleins, c.objets_par_slab);
    lemme_somme_bornee(c.vides, c.objets_par_slab);
    let n = t.len() as int;
    assert(c.objets_par_slab * np + c.objets_par_slab * nl + c.objets_par_slab * (n - np - nl)
        <= 1012 * n) by (nonlinear_arith)
        requires
            0 <= c.objets_par_slab <= 1012,
            0 <= np,
            0 <= nl,
            0 <= n - np - nl,
    ;
}

} // verus!
