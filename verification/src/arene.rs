//! Intrusive lists over an arena of slabs: each slab is named by its index in the arena and
//! links to the next slab of the list that holds it.

use crate::slab::{Slab, VueSlab};
use vstd::prelude::*;

verus! {

/// The `k`-th handle of a list as a link, or the end of the list.
pub open spec fn maillon(ordre: Seq<int>, k: int) -> Option<usize> {
    if 0 <= k < ordre.len() {
        Some(ordre[k] as usize)
    } else {
        None
    }
}

/// The links of the slabs spell the list `ordre`, from the head `tete` on: every handle is a
/// slab of the arena, none comes twice, and each slab links to the one after it.
pub open spec fn chaine(slabs: Seq<Slab>, tete: Option<usize>, ordre: Seq<int>) -> bool {
    &&& slabs.len() <= usize::MAX
    &&& forall|k: int| 0 <= k < ordre.len() ==> 0 <= #[trigger] ordre[k] < slabs.len()
    &&& ordre.no_duplicates()
    &&& tete == maillon(ordre, 0)
    &&& forall|k: int|
        0 <= k < ordre.len() ==> slabs[#[trigger] ordre[k]].lien() == maillon(ordre, k + 1)
}

/// No handle is in both lists.
pub open spec fn etrangers(o1: Seq<int>, o2: Seq<int>) -> bool {
    forall|a: int, b: int| 0 <= a < o1.len() && 0 <= b < o2.len() ==> #[trigger] o1[a] != #[trigger] o2[b]
}

/// The models of the slabs that a list of handles names.
pub open spec fn vues(slabs: Seq<Slab>, ordre: Seq<int>) -> Seq<VueSlab> {
    Seq::new(ordre.len(), |k: int| slabs[ordre[k]]@)
}

/// Moving the slab at position `j` of the list `ox` to the head of the list `oy`: once the
/// links around it are rewritten, the three lists are chains again, they still share no
/// handle, and their models are the old ones with that one slab moved.
pub proof fn lemme_deplacement(
    avant: Seq<Slab>,
    apres: Seq<Slab>,
    tx: Option<usize>,
    ox: Seq<int>,
    ty: Option<usize>,
    oy: Seq<int>,
    tz: Option<usize>,
    oz: Seq<int>,
    j: int,
)
    requires
        chaine(avant, tx, ox),
        chaine(avant, ty, oy),
        chaine(avant, tz, oz),
        etrangers(ox, oy),
        etrangers(ox, oz),
        etrangers(oy, oz),
        0 <= j < ox.len(),
        apres.len() == avant.len(),
        apres[ox[j]].lien() == ty,
        j > 0 ==> apres[ox[j - 1]].lien() == maillon(ox, j + 1),
        forall|i: int|
            0 <= i < avant.len() && i != ox[j] && (j == 0 || i != ox[j - 1]) ==> (
            #[trigger] apres[i]).lien() == avant[i].lien(),
        forall|i: int| 0 <= i < avant.len() && i != ox[j] ==> (#[trigger] apres[i])@ == avant[i]@,
    ensures
        chaine(
            apres,
            if j == 0 {
                maillon(ox, 1)
            } else {
                tx
            },
            ox.remove(j),
        ),
        chaine(apres, Some(ox[j] as usize), seq![ox[j]] + oy),
        chaine(apres, tz, oz),
        etrangers(ox.remove(j), seq![ox[j]] + oy),
        etrangers(seq![ox[j]] + oy, ox.remove(j)),
        etrangers(ox.remove(j), oz),
        etrangers(oz, ox.remove(j)),
        etrangers(seq![ox[j]] + oy, oz),
        etrangers(oz, seq![ox[j]] + oy),
        vues(apres, ox.remove(j)) == vues(avant, ox).remove(j),
        vues(apres, seq![ox[j]] + oy) == seq![apres[ox[j]]@] + vues(avant, oy),
        vues(apres, oz) == vues(avant, oz),
        forall|i: int|
            ox.contains(i) || oy.contains(i) || oz.contains(i) ==> ox.remove(j).contains(i) || (
            seq![ox[j]] + oy).contains(i) || oz.contains(i),
{
    let h = ox[j];
    let x2 = ox.remove(j);
    let y2 = seq![h] + oy;
    assert forall|a: int| 0 <= a < x2.len() implies #[trigger] x2[a] == ox[if a < j {
        a
    } else {
        a + 1
    }] by {}
    assert forall|a: int| 0 < a < y2.len() implies #[trigger] y2[a] == oy[a - 1] by {}
    assert(y2[0] == h);
    // the shortened list
    assert forall|k: int| 0 <= k < x2.len() implies apres[#[trigger] x2[k]].lien() == maillon(
        x2,
        k + 1,
    ) by {
        let k1 = if k < j { k } else { k + 1 };
        assert(x2[k] == ox[k1]);
        assert(ox[k1] != h);
        if k + 1 < x2.len() {
            let n1 = if k + 1 < j { k + 1 } else { k + 2 };
            assert(x2[k + 1] == ox[n1]);
        }
        if j > 0 && k1 == j - 1 {
        } else {
            if j > 0 {
                assert(ox[k1] != ox[j - 1]);
            }
            assert(apres[ox[k1]].lien() == avant[ox[k1]].lien());
        }
    }
    assert(x2.no_duplicates()) by {
        assert forall|a: int, b: int| 0 <= a < x2.len() && 0 <= b < x2.len() && a != b implies x2[a]
            != x2[b] by {
            let a1 = if a < j { a } else { a + 1 };
            let b1 = if b < j { b } else { b + 1 };
            assert(ox[a1] != ox[b1]);
        }
    }
    // the lengthened list
    assert(y2.no_duplicates()) by {
        assert forall|a: int, b: int| 0 <= a < y2.len() && 0 <= b < y2.len() && a != b implies y2[a]
            != y2[b] by {
            if a == 0 {
                assert(ox[j] != oy[b - 1]);
            } else if b == 0 {
                assert(ox[j] != oy[a - 1]);
            } else {
                assert(oy[a - 1] != oy[b - 1]);
            }
        }
    }
    assert forall|k: int| 0 <= k < y2.len() implies apres[#[trigger] y2[k]].lien() == maillon(
        y2,
        k + 1,
    ) by {
        if k == 0 {
            assert(maillon(y2, 1) == maillon(oy, 0));
        } else {
            assert(y2[k] == oy[k - 1]);
            assert(ox[j] != oy[k - 1]);
            if j > 0 {
                assert(ox[j - 1] != oy[k - 1]);
            }
            assert(apres[oy[k - 1]].lien() == avant[oy[k - 1]].lien());
            assert(maillon(y2, k + 1) == maillon(oy, k));
        }
    }
    // the list that is not touched
    assert forall|k: int| 0 <= k < oz.len() implies apres[#[trigger] oz[k]].lien() == maillon(
        oz,
        k + 1,
    ) by {
        assert(ox[j] != oz[k]);
        if j > 0 {
            assert(ox[j - 1] != oz[k]);
        }
        assert(apres[oz[k]].lien() == avant[oz[k]].lien());
    }
    assert(etrangers(x2, y2)) by {
        assert forall|a: int, b: int| 0 <= a < x2.len() && 0 <= b < y2.len() implies #[trigger] x2[a]
            != #[trigger] y2[b] by {
            let a1 = if a < j { a } else { a + 1 };
            if b == 0 {
                assert(ox[a1] != ox[j]);
            } else {
                assert(ox[a1] != oy[b - 1]);
            }
        }
    }
    assert(etrangers(x2, oz)) by {
        assert forall|a: int, b: int| 0 <= a < x2.len() && 0 <= b < oz.len() implies #[trigger] x2[a]
            != #[trigger] oz[b] by {
            let a1 = if a < j { a } else { a + 1 };
            assert(ox[a1] != oz[b]);
        }
    }
    assert(etrangers(y2, oz)) by {
        assert forall|a: int, b: int| 0 <= a < y2.len() && 0 <= b < oz.len() implies #[trigger] y2[a]
            != #[trigger] oz[b] by {
            if a == 0 {
                assert(ox[j] != oz[b]);
            } else {
                assert(oy[a - 1] != oz[b]);
            }
        }
    }
    lemme_etrangers_symetrique(x2, y2);
    lemme_etrangers_symetrique(x2, oz);
    lemme_etrangers_symetrique(y2, oz);
    assert(vues(apres, x2) =~= vues(avant, ox).remove(j)) by {
        assert forall|k: int| 0 <= k < x2.len() implies vues(apres, x2)[k] == vues(avant, ox).remove(
            j,
        )[k] by {
            let k1 = if k < j { k } else { k + 1 };
            assert(x2[k] == ox[k1]);
            assert(ox[k1] != ox[j]);
        }
    }
    assert(vues(apres, y2) =~= seq![apres[h]@] + vues(avant, oy)) by {
        assert forall|k: int| 0 <= k < y2.len() implies vues(apres, y2)[k] == (seq![apres[h]@]
            + vues(avant, oy))[k] by {
            if k > 0 {
                assert(y2[k] == oy[k - 1]);
                assert(ox[j] != oy[k - 1]);
            }
        }
    }
    assert(vues(apres, oz) =~= vues(avant, oz)) by {
        assert forall|k: int| 0 <= k < oz.len() implies vues(apres, oz)[k] == vues(avant, oz)[k] by {
            assert(ox[j] != oz[k]);
        }
    }
    assert forall|i: int| ox.contains(i) || oy.contains(i) || oz.contains(i) implies x2.contains(i)
        || y2.contains(i) || oz.contains(i) by {
        if ox.contains(i) {
            let k = choose|k: int| 0 <= k < ox.len() && ox[k] == i;
            if k < j {
                assert(x2[k] == i);
            } else if k == j {
                assert(y2[0] == i);
            } else {
                assert(x2[k - 1] == i);
            }
        } else if oy.contains(i) {
            let k = choose|k: int| 0 <= k < oy.len() && oy[k] == i;
            assert(y2[k + 1] == i);
        }
    }
}

/// Sharing no handle does not depend on the order in which two lists are named.
pub proof fn lemme_etrangers_symetrique(o1: Seq<int>, o2: Seq<int>)
    requires
        etrangers(o1, o2),
    ensures
        etrangers(o2, o1),
{
    assert forall|a: int, b: int| 0 <= a < o2.len() && 0 <= b < o1.len() implies #[trigger] o2[a]
        != #[trigger] o1[b] by {
        assert(o1[b] != o2[a]);
    }
}

/// A change to the arena that keeps the link of every slab of a list keeps the list; one
/// that keeps the model of every slab of the list keeps the list's models.
pub proof fn lemme_liste_intacte(
    avant: Seq<Slab>,
    apres: Seq<Slab>,
    tete: Option<usize>,
    ordre: Seq<int>,
)
    requires
        chaine(avant, tete, ordre),
        avant.len() <= apres.len() <= usize::MAX,
        forall|k: int|
            0 <= k < ordre.len() ==> apres[#[trigger] ordre[k]].lien() == avant[ordre[k]].lien(),
    ensures
        chaine(apres, tete, ordre),
        (forall|k: int| 0 <= k < ordre.len() ==> apres[#[trigger] ordre[k]]@ == avant[ordre[k]]@)
            ==> vues(apres, ordre) == vues(avant, ordre),
{
    if forall|k: int| 0 <= k < ordre.len() ==> apres[#[trigger] ordre[k]]@ == avant[ordre[k]]@ {
        assert(vues(apres, ordre) =~= vues(avant, ordre));
    }
}

/// A slab rewritten in place, with the link it had: the three lists are the chains they
/// were, and the models are the old ones with that one slab replaced.
pub proof fn lemme_remplacement(
    avant: Seq<Slab>,
    apres: Seq<Slab>,
    tx: Option<usize>,
    ox: Seq<int>,
    ty: Option<usize>,
    oy: Seq<int>,
    tz: Option<usize>,
    oz: Seq<int>,
    j: int,
)
    requires
        chaine(avant, tx, ox),
        chaine(avant, ty, oy),
        chaine(avant, tz, oz),
        etrangers(ox, oy),
        etrangers(ox, oz),
        0 <= j < ox.len(),
        apres.len() == avant.len(),
        apres[ox[j]].lien() == avant[ox[j]].lien(),
        forall|i: int| 0 <= i < avant.len() && i != ox[j] ==> #[trigger] apres[i] == avant[i],
    ensures
        chaine(apres, tx, ox),
        chaine(apres, ty, oy),
        chaine(apres, tz, oz),
        vues(apres, ox) == vues(avant, ox).update(j, apres[ox[j]]@),
        vues(apres, oy) == vues(avant, oy),
        vues(apres, oz) == vues(avant, oz),
{
    assert forall|k: int| 0 <= k < ox.len() implies apres[#[trigger] ox[k]].lien() == avant[ox[k]].lien() by {}
    assert forall|k: int| 0 <= k < oy.len() implies apres[#[trigger] oy[k]] == avant[oy[k]] by {
        assert(ox[j] != oy[k]);
    }
    assert forall|k: int| 0 <= k < oz.len() implies apres[#[trigger] oz[k]] == avant[oz[k]] by {
        assert(ox[j] != oz[k]);
    }
    lemme_liste_intacte(avant, apres, tx, ox);
    lemme_liste_intacte(avant, apres, ty, oy);
    lemme_liste_intacte(avant, apres, tz, oz);
    assert(vues(apres, ox) =~= vues(avant, ox).update(j, apres[ox[j]]@)) by {
        assert forall|k: int| 0 <= k < ox.len() implies vues(apres, ox)[k] == vues(avant, ox).update(
            j,
            apres[ox[j]]@,
        )[k] by {
            if k != j {
                assert(ox[k] != ox[j]);
            }
        }
    }
}

/// A slab appended to the arena and linked in front of a list: the list grows at its head,
/// and nothing else moves.
pub proof fn lemme_ajout(
    avant: Seq<Slab>,
    nouveau: Slab,
    tete: Option<usize>,
    ordre: Seq<int>,
)
    requires
        chaine(avant, tete, ordre),
        nouveau.lien() == tete,
        avant.len() < usize::MAX,
    ensures
        chaine(avant.push(nouveau), Some(avant.len() as usize), seq![avant.len() as int] + ordre),
        vues(avant.push(nouveau), seq![avant.len() as int] + ordre) == seq![nouveau@] + vues(
            avant,
            ordre,
        ),
{
    let apres = avant.push(nouveau);
    let n = avant.len() as int;
    let o2 = seq![n] + ordre;
    assert forall|k: int| 0 < k < o2.len() implies #[trigger] o2[k] == ordre[k - 1] by {}
    assert(o2.no_duplicates()) by {
        assert forall|a: int, b: int| 0 <= a < o2.len() && 0 <= b < o2.len() && a != b implies o2[a]
            != o2[b] by {
            if a > 0 {
                assert(o2[a] == ordre[a - 1]);
            }
            if b > 0 {
                assert(o2[b] == ordre[b - 1]);
            }
        }
    }
    assert forall|k: int| 0 <= k < o2.len() implies apres[#[trigger] o2[k]].lien() == maillon(
        o2,
        k + 1,
    ) by {
        if k == 0 {
            assert(maillon(o2, 1) == maillon(ordre, 0));
        } else {
            assert(o2[k] == ordre[k - 1]);
            assert(apres[ordre[k - 1]] == avant[ordre[k - 1]]);
            assert(maillon(o2, k + 1) == maillon(ordre, k));
        }
    }
    assert(vues(apres, o2) =~= seq![nouveau@] + vues(avant, ordre)) by {
        assert forall|k: int| 0 <= k < o2.len() implies vues(apres, o2)[k] == (seq![nouveau@] + vues(
            avant,
            ordre,
        ))[k] by {
            if k > 0 {
                assert(o2[k] == ordre[k - 1]);
                assert(apres[ordre[k - 1]] == avant[ordre[k - 1]]);
            }
        }
    }
}

} // verus!
