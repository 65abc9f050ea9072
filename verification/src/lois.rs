//! What holds of a slab, of a cache and of the dispatcher, over whole histories of calls
//! where the statement speaks of more than one call.

use crate::modele::{
    lemme_cache_allocation, lemme_cache_enregistrement, lemme_cache_liberation, pages_disjointes,
    VueCache,
};
use crate::repartiteur::{taille_classe, NB_CLASSES};
use crate::slab::{
    lemme_allocation, lemme_liberation, VueSlab, TAILLE_ENTETE, TAILLE_MIN_OBJET, TAILLE_SLAB,
};
use vstd::arithmetic::power2::{lemma2_to64, pow2};
use vstd::prelude::*;

verus! {

/// One call on a slab.
pub enum AppelSlab {
    /// A request for a slot.
    Allouer,
    /// The release of the slot at the given address.
    Liberer(int),
}

/// The call respects the slab's contract: only an allocated address is released.
pub open spec fn slab_permet(v: VueSlab, appel: AppelSlab) -> bool {
    match appel {
        AppelSlab::Allouer => true,
        AppelSlab::Liberer(ptr) => v.alloue(ptr),
    }
}

/// The slab after the call.
pub open spec fn slab_apres(v: VueSlab, appel: AppelSlab) -> VueSlab {
    match appel {
        AppelSlab::Allouer => v.apres_allocation(),
        AppelSlab::Liberer(ptr) => v.apres_liberation(ptr),
    }
}

/// The slab after the first `k` calls of a history.
pub open spec fn slab_etat(v: VueSlab, appels: Seq<AppelSlab>, k: int) -> VueSlab
    decreases k,
{
    if k <= 0 {
        v
    } else {
        slab_apres(slab_etat(v, appels, k - 1), appels[k - 1])
    }
}

/// Every call of the history respects the contract in the state in which it is made.
pub open spec fn slab_histoire_permise(v: VueSlab, appels: Seq<AppelSlab>) -> bool {
    forall|k: int| 0 <= k < appels.len() ==> slab_permet(slab_etat(v, appels, k), #[trigger] appels[k])
}

/// A valid slab stays valid through any history that respects the contract, on the same page
/// and with the same slots.
pub proof fn loi_slab_toujours_valide(v: VueSlab, appels: Seq<AppelSlab>, k: int)
    requires
        v.valide(),
        slab_histoire_permise(v, appels),
        0 <= k <= appels.len(),
    ensures
        slab_etat(v, appels, k).valide(),
        slab_etat(v, appels, k).base == v.base,
        slab_etat(v, appels, k).taille_objet == v.taille_objet,
        slab_etat(v, appels, k).nb_objets == v.nb_objets,
    decreases k,
{
    if k > 0 {
        loi_slab_toujours_valide(v, appels, k - 1);
        let w = slab_etat(v, appels, k - 1);
        assert(slab_permet(w, appels[k - 1]));
        match appels[k - 1] {
            AppelSlab::Allouer => {
                if !w.plein() {
                    lemme_allocation(w);
                }
            },
            AppelSlab::Liberer(ptr) => {
                lemme_liberation(w, ptr);
            },
        }
    }
}

/// An address stays allocated as long as no call releases it.
proof fn lemme_reste_alloue(v: VueSlab, appels: Seq<AppelSlab>, i: int, k: int, ptr: int)
    requires
        v.valide(),
        slab_histoire_permise(v, appels),
        0 <= i <= k <= appels.len(),
        slab_etat(v, appels, i).alloue(ptr),
        forall|m: int| i <= m < k ==> #[trigger] appels[m] != AppelSlab::Liberer(ptr),
    ensures
        slab_etat(v, appels, k).alloue(ptr),
    decreases k - i,
{
    if i < k {
        lemme_reste_alloue(v, appels, i, k - 1, ptr);
        loi_slab_toujours_valide(v, appels, k - 1);
        let w = slab_etat(v, appels, k - 1);
        assert(slab_permet(w, appels[k - 1]));
        assert(appels[k - 1] != AppelSlab::Liberer(ptr));
        match appels[k - 1] {
            AppelSlab::Allouer => {
                if !w.plein() {
                    lemme_allocation(w);
                }
            },
            AppelSlab::Liberer(autre) => {
                lemme_liberation(w, autre);
            },
        }
    }
}

/// Uniqueness. In any history on a valid slab, a fresh one in particular, two allocations
/// never return the same address while the first of the two is still allocated: if the calls
/// `i` and `j` both hand out a slot and no call between them releases the slot of call `i`,
/// the two addresses differ.
pub proof fn loi_unicite(v: VueSlab, appels: Seq<AppelSlab>, i: int, j: int)
    requires
        v.valide(),
        slab_histoire_permise(v, appels),
        0 <= i < j < appels.len(),
        appels[i] == AppelSlab::Allouer,
        appels[j] == AppelSlab::Allouer,
        slab_etat(v, appels, i).adresse_suivante() is Some,
        slab_etat(v, appels, j).adresse_suivante() is Some,
        forall|m: int|
            i < m < j ==> #[trigger] appels[m] != AppelSlab::Liberer(
                slab_etat(v, appels, i).adresse_suivante()->0,
            ),
    ensures
        slab_etat(v, appels, i).adresse_suivante() != slab_etat(v, appels, j).adresse_suivante(),
{
    let avant = slab_etat(v, appels, i);
    let p = avant.adresse_suivante()->0;
    loi_slab_toujours_valide(v, appels, i);
    lemme_allocation(avant);
    assert(slab_etat(v, appels, i + 1) == avant.apres_allocation());
    lemme_reste_alloue(v, appels, i + 1, j, p);
    loi_slab_toujours_valide(v, appels, j);
    lemme_allocation(slab_etat(v, appels, j));
}

/// Containment. The address that a valid slab hands out lies in the range that the slab
/// covers, at a whole number of slots from the page's first byte.
pub proof fn loi_appartenance(v: VueSlab)
    requires
        v.valide(),
        !v.plein(),
    ensures
        v.adresse_suivante() matches Some(p) && {
            &&& v.possede(p)
            &&& v.apres_allocation().possede(p)
            &&& v.base <= p < v.base + v.nb_objets * v.taille_objet
            &&& (p - v.base) % v.taille_objet == 0
        },
{
    lemme_allocation(v);
}

/// Reuse in reverse order of release. The slot that was released last is the next one that
/// the slab hands out. In particular, after two allocations and the release of the second, a
/// third allocation returns the address of the second.
pub proof fn loi_reutilisation(v: VueSlab, ptr: int)
    requires
        v.valide(),
        v.alloue(ptr),
    ensures
        v.apres_liberation(ptr).adresse_suivante() == Some(ptr),
{
    lemme_liberation(v, ptr);
    vstd::arithmetic::div_mod::lemma_fundamental_div_mod(ptr - v.base, v.taille_objet);
    assert(v.taille_objet * v.indice(ptr) == v.indice(ptr) * v.taille_objet) by (nonlinear_arith);
}

/// The second of two allocations, released at once, is what the third allocation returns.
pub proof fn loi_reutilisation_du_dernier(v: VueSlab)
    requires
        v.valide(),
        v.libres.len() >= 2,
    ensures
        ({
            let un = v.apres_allocation();
            let deux = un.apres_allocation();
            let b = un.adresse_suivante()->0;
            un.adresse_suivante() is Some && deux.apres_liberation(b).adresse_suivante() == Some(b)
        }),
{
    let un = v.apres_allocation();
    lemme_allocation(v);
    lemme_allocation(un);
    loi_reutilisation(un.apres_allocation(), un.adresse_suivante()->0);
}

/// A slab with at least one slot is never full and empty at once.
pub proof fn loi_plein_ou_vide(v: VueSlab)
    requires
        v.valide(),
        v.nb_objets > 0,
    ensures
        !(v.plein() && v.vide()),
{
}

/// Exactly as many allocations as slots. On a fresh slab with `nb_objets` slots, in a history
/// made of allocations only, the first `nb_objets` calls get a slot and every later one gets
/// none; after `nb_objets` calls the slab is full.
pub proof fn loi_capacite(
    base: int,
    taille_objet: int,
    nb_objets: int,
    appels: Seq<AppelSlab>,
    k: int,
)
    requires
        VueSlab::neuf(base, taille_objet, nb_objets).valide(),
        forall|m: int| 0 <= m < appels.len() ==> #[trigger] appels[m] == AppelSlab::Allouer,
        0 <= k <= appels.len(),
    ensures
        ({
            let etat = slab_etat(VueSlab::neuf(base, taille_objet, nb_objets), appels, k);
            &&& etat.valide()
            &&& etat.nb_objets == nb_objets
            &&& etat.utilises() == if k < nb_objets {
                k
            } else {
                nb_objets
            }
            &&& (etat.adresse_suivante() is Some) == (k < nb_objets)
            &&& etat.plein() == (k >= nb_objets)
        }),
    decreases k,
{
    let v = VueSlab::neuf(base, taille_objet, nb_objets);
    let etat = slab_etat(v, appels, k);
    if k > 0 {
        loi_capacite(base, taille_objet, nb_objets, appels, k - 1);
        let w = slab_etat(v, appels, k - 1);
        assert(appels[k - 1] == AppelSlab::Allouer);
        assert(etat == w.apres_allocation());
        if !w.plein() {
            lemme_allocation(w);
        }
    } else {
        assert(v.libres.len() == nb_objets);
    }
}

/// Empty after as many releases as allocations. From a valid slab, a history made of
/// releases only, each of an address that is allocated when it is released, takes one
/// allocated slot away with every call, in whatever order the addresses come. After as many
/// releases as the slab had slots in use, the slab is empty.
pub proof fn loi_liberations(v: VueSlab, appels: Seq<AppelSlab>, k: int)
    requires
        v.valide(),
        slab_histoire_permise(v, appels),
        forall|m: int| 0 <= m < appels.len() ==> #[trigger] appels[m] is Liberer,
        0 <= k <= appels.len(),
    ensures
        slab_etat(v, appels, k).utilises() == v.utilises() - k,
        k == v.utilises() ==> slab_etat(v, appels, k).vide(),
    decreases k,
{
    if k > 0 {
        loi_liberations(v, appels, k - 1);
        loi_slab_toujours_valide(v, appels, k - 1);
        let w = slab_etat(v, appels, k - 1);
        assert(slab_permet(w, appels[k - 1]));
        assert(appels[k - 1] is Liberer);
        match appels[k - 1] {
            AppelSlab::Allouer => {},
            AppelSlab::Liberer(ptr) => {
                lemme_liberation(w, ptr);
            },
        }
    }
}

/// One call on a cache.
pub enum AppelCache {
    /// A request for a slot.
    Allouer,
    /// The release of the slot at the given address.
    Liberer(int),
    /// The registration of a page at the given address.
    Enregistrer(int),
}

/// The call respects the cache's contract: only an allocated address is released, and only a
/// page that the cache accepts joins it.
pub open spec fn cache_permet(c: VueCache, appel: AppelCache) -> bool {
    match appel {
        AppelCache::Allouer => true,
        AppelCache::Liberer(ptr) => c.alloue(ptr),
        AppelCache::Enregistrer(base) => c.accepte(base),
    }
}

/// The cache after the call.
pub open spec fn cache_apres(c: VueCache, appel: AppelCache) -> VueCache {
    match appel {
        AppelCache::Allouer => c.apres_allocation(),
        AppelCache::Liberer(ptr) => c.apres_liberation(ptr),
        AppelCache::Enregistrer(base) => c.apres_enregistrement(base),
    }
}

/// The cache after the first `k` calls of a history.
pub open spec fn cache_etat(c: VueCache, appels: Seq<AppelCache>, k: int) -> VueCache
    decreases k,
{
    if k <= 0 {
        c
    } else {
        cache_apres(cache_etat(c, appels, k - 1), appels[k - 1])
    }
}

/// Every call of the history respects the contract in the state in which it is made.
pub open spec fn cache_histoire_permise(c: VueCache, appels: Seq<AppelCache>) -> bool {
    forall|k: int|
        0 <= k < appels.len() ==> cache_permet(cache_etat(c, appels, k), #[trigger] appels[k])
}

/// Number of allocations among the first `k` calls that got a slot.
pub open spec fn reussites(c: VueCache, appels: Seq<AppelCache>, k: int) -> int
    decreases k,
{
    if k <= 0 {
        0
    } else {
        reussites(c, appels, k - 1) + if appels[k - 1] == AppelCache::Allouer && cache_etat(
            c,
            appels,
            k - 1,
        ).adresse_suivante() is Some {
            1int
        } else {
            0int
        }
    }
}

/// Number of releases among the first `k` calls.
pub open spec fn liberations(appels: Seq<AppelCache>, k: int) -> int
    decreases k,
{
    if k <= 0 {
        0
    } else {
        liberations(appels, k - 1) + if appels[k - 1] is Liberer {
            1int
        } else {
            0int
        }
    }
}

/// List membership is an invariant. A valid cache, one without slabs in particular, stays
/// valid through any history of allocations, releases and registrations that respects the
/// contract.
pub proof fn loi_cache_toujours_valide(c: VueCache, appels: Seq<AppelCache>, k: int)
    requires
        c.valide(),
        cache_histoire_permise(c, appels),
        0 <= k <= appels.len(),
    ensures
        cache_etat(c, appels, k).valide(),
    decreases k,
{
    if k > 0 {
        loi_cache_toujours_valide(c, appels, k - 1);
        let d = cache_etat(c, appels, k - 1);
        assert(cache_permet(d, appels[k - 1]));
        match appels[k - 1] {
            AppelCache::Allouer => {
                lemme_cache_allocation(d);
            },
            AppelCache::Liberer(ptr) => {
                lemme_cache_liberation(d, ptr);
            },
            AppelCache::Enregistrer(base) => {
                lemme_cache_enregistrement(d, base);
            },
        }
    }
}

/// Accounting. Through any history that respects the contract, the slots in use over all the
/// slabs of a cache are those in use at the start, plus one for each allocation that got a
/// slot, minus one for each release. From a cache without slabs, they are the successful
/// allocations minus the releases.
pub proof fn loi_comptabilite(c: VueCache, appels: Seq<AppelCache>, k: int)
    requires
        c.valide(),
        cache_histoire_permise(c, appels),
        0 <= k <= appels.len(),
    ensures
        cache_etat(c, appels, k).utilises_total() == c.utilises_total() + reussites(c, appels, k)
            - liberations(appels, k),
    decreases k,
{
    if k > 0 {
        loi_comptabilite(c, appels, k - 1);
        loi_cache_toujours_valide(c, appels, k - 1);
        let d = cache_etat(c, appels, k - 1);
        assert(cache_permet(d, appels[k - 1]));
        match appels[k - 1] {
            AppelCache::Allouer => {
                lemme_cache_allocation(d);
            },
            AppelCache::Liberer(ptr) => {
                lemme_cache_liberation(d, ptr);
            },
            AppelCache::Enregistrer(base) => {
                lemme_cache_enregistrement(d, base);
            },
        }
    }
}

/// List membership follows the state. In a valid cache every slab is in one list only, and
/// once in it. A slab is in the empty list exactly when it is empty. Where the slabs have two
/// slots or more, a slab is in the full list exactly when it is full, and in the partial list
/// exactly when it is neither full nor empty.
pub proof fn loi_listes_selon_etat(c: VueCache)
    requires
        c.valide(),
    ensures
        (c.partiels + c.pleins + c.vides).no_duplicates(),
        forall|s: VueSlab| #[trigger] c.contient(s) ==> (c.vides.contains(s) <==> s.vide()),
        c.objets_par_slab >= 2 ==> forall|s: VueSlab| #[trigger]
            c.contient(s) ==> (c.pleins.contains(s) <==> s.plein()) && (c.partiels.contains(s)
                <==> !s.plein() && !s.vide()),
{
    let t = c.partiels + c.pleins + c.vides;
    let np = c.partiels.len() as int;
    let nl = c.pleins.len() as int;
    assert forall|a: int, b: int| 0 <= a < t.len() && 0 <= b < t.len() && a != b implies t[a]
        != t[b] by {
        let (x, y) = if a < b {
            (a, b)
        } else {
            (b, a)
        };
        assert(pages_disjointes(t[x], t[y])) by {
            if y < np {
                assert(pages_disjointes(c.partiels[x], c.partiels[y]));
            } else if y < np + nl {
                if x < np {
                    assert(pages_disjointes(c.partiels[x], c.pleins[y - np]));
                } else {
                    assert(pages_disjointes(c.pleins[x - np], c.pleins[y - np]));
                }
            } else {
                if x < np {
                    assert(pages_disjointes(c.partiels[x], c.vides[y - np - nl]));
                } else if x < np + nl {
                    assert(pages_disjointes(c.pleins[x - np], c.vides[y - np - nl]));
                } else {
                    assert(pages_disjointes(c.vides[x - np - nl], c.vides[y - np - nl]));
                }
            }
        }
    }
    assert forall|s: VueSlab| #[trigger] c.contient(s) implies (c.vides.contains(s) <==> s.vide()) by {
        if c.vides.contains(s) {
            let k = choose|k: int| 0 <= k < c.vides.len() && c.vides[k] == s;
            assert(c.vides[k].vide());
        } else if c.partiels.contains(s) {
            let k = choose|k: int| 0 <= k < c.partiels.len() && c.partiels[k] == s;
            assert(!c.partiels[k].vide());
        } else {
            let k = choose|k: int| 0 <= k < c.pleins.len() && c.pleins[k] == s;
            assert(c.pleins[k].plein());
            assert(c.conforme(c.pleins[k]));
        }
    }
    if c.objets_par_slab >= 2 {
        assert forall|s: VueSlab| #[trigger] c.contient(s) implies (c.pleins.contains(s)
            <==> s.plein()) && (c.partiels.contains(s) <==> !s.plein() && !s.vide()) by {
            if c.vides.contains(s) {
                let k = choose|k: int| 0 <= k < c.vides.len() && c.vides[k] == s;
                assert(c.vides[k].vide());
                assert(c.conforme(c.vides[k]));
            }
            if c.partiels.contains(s) {
                let k = choose|k: int| 0 <= k < c.partiels.len() && c.partiels[k] == s;
                assert(!c.partiels[k].vide());
                assert(!c.partiels[k].plein());
            }
            if c.pleins.contains(s) {
                let k = choose|k: int| 0 <= k < c.pleins.len() && c.pleins[k] == s;
                assert(c.pleins[k].plein());
                assert(c.conforme(c.pleins[k]));
            }
        }
    }
}

/// Slots per slab. The slabs of a cache have as many slots as fit in a page beside the
/// bookkeeping: where `nombre` slots of the cache's size fit and one more does not, each slab
/// has `nombre` slots.
pub proof fn loi_objets_par_slab(taille_demandee: int, nombre: int)
    requires
        taille_demandee >= TAILLE_MIN_OBJET,
        nombre * taille_demandee <= TAILLE_SLAB - TAILLE_ENTETE < (nombre + 1) * taille_demandee,
    ensures
        VueCache::neuf(taille_demandee).taille_objet == taille_demandee,
        VueCache::neuf(taille_demandee).objets_par_slab == nombre,
{
    let reste = TAILLE_SLAB - TAILLE_ENTETE - nombre * taille_demandee;
    assert(0 <= reste < taille_demandee) by (nonlinear_arith)
        requires
            reste == 4048 - nombre * taille_demandee,
            nombre * taille_demandee <= 4048 < (nombre + 1) * taille_demandee,
    ;
    vstd::arithmetic::div_mod::lemma_fundamental_div_mod_converse(
        TAILLE_SLAB - TAILLE_ENTETE,
        taille_demandee,
        nombre,
        reste,
    );
}

/// Size classes. The classes of the dispatcher are powers of two: 8 bytes for the first, and
/// twice as much from one class to the next.
pub proof fn loi_classes_puissances_de_deux(i: int)
    requires
        0 <= i < NB_CLASSES,
    ensures
        taille_classe(i) == 8 * pow2(i as nat),
        i > 0 ==> taille_classe(i) == 2 * taille_classe(i - 1),
{
    lemma2_to64();
}

} // verus!
