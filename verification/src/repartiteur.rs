//! The dispatcher that picks a cache by request size.

use crate::cache::SlabCache;
use crate::modele::VueCache;
use vstd::prelude::*;

verus! {

/// Number of size classes of the dispatcher.
pub const NB_CLASSES: usize = 8;

/// Size of the largest class; a larger request is not served by the dispatcher.
pub const TAILLE_MAX_CLASSE: usize = 1024;

/// Size of the class of rank `i`.
pub open spec fn taille_classe(i: int) -> int {
    if i <= 0 {
        8
    } else if i == 1 {
        16
    } else if i == 2 {
        32
    } else if i == 3 {
        64
    } else if i == 4 {
        128
    } else if i == 5 {
        256
    } else if i == 6 {
        512
    } else {
        1024
    }
}

/// The class of rank `i` is the smallest one that holds `taille` bytes.
pub open spec fn couvre(i: int, taille: int) -> bool {
    &&& 0 <= i < NB_CLASSES
    &&& taille <= taille_classe(i)
    &&& i > 0 ==> taille_classe(i - 1) < taille
}

/// Rank of the smallest class that holds `taille` bytes.
pub open spec fn rang_classe(taille: int) -> int {
    choose|i: int| couvre(i, taille)
}

/// A bank of caches, one for each size class from 8 to 1024 bytes.
pub struct AllocateurSlab {
    cache_8: SlabCache,
    cache_16: SlabCache,
    cache_32: SlabCache,
    cache_64: SlabCache,
    cache_128: SlabCache,
    cache_256: SlabCache,
    cache_512: SlabCache,
    cache_1024: SlabCache,
}

impl View for AllocateurSlab {
    type V = Seq<VueCache>;

    open spec fn view(&self) -> Seq<VueCache> {
        Seq::new(NB_CLASSES as nat, |i: int| self.caches()[i]@)
    }
}

impl AllocateurSlab {
    /// The caches, by rank of their class.
    pub closed spec fn caches(&self) -> Seq<SlabCache> {
        seq![
            self.cache_8,
            self.cache_16,
            self.cache_32,
            self.cache_64,
            self.cache_128,
            self.cache_256,
            self.cache_512,
            self.cache_1024,
        ]
    }

    /// The dispatcher's invariant: eight well-formed caches, each for the size of its class.
    pub open spec fn bien_forme(&self) -> bool {
        &&& self.caches().len() == NB_CLASSES
        &&& forall|i: int|
            0 <= i < NB_CLASSES ==> (#[trigger] self.caches()[i]).bien_forme()
                && self.caches()[i]@.taille_objet == taille_classe(i)
    }

    /// A dispatcher whose caches hold no slab yet.
    pub fn nouveau() -> (a: AllocateurSlab)
        ensures
            a.bien_forme(),
            forall|i: int|
                0 <= i < NB_CLASSES ==> (#[trigger] a.caches()[i])@ == VueCache::neuf(
                    taille_classe(i),
                ),
    {
        AllocateurSlab {
            cache_8: SlabCache::nouveau(8),
            cache_16: SlabCache::nouveau(16),
            cache_32: SlabCache::nouveau(32),
            cache_64: SlabCache::nouveau(64),
            cache_128: SlabCache::nouveau(128),
            cache_256: SlabCache::nouveau(256),
            cache_512: SlabCache::nouveau(512),
            cache_1024: SlabCache::nouveau(1024),
        }
    }

    /// The cache of the smallest class that holds `taille` bytes, or nothing for a request
    /// above the largest class. The dispatcher only routes: whatever the caller makes of the
    /// cache it gets is what the dispatcher holds afterwards, and no other cache changes.
    pub fn selectionner_cache(&mut self, taille: usize) -> (r: Option<&mut SlabCache>)
        ensures
            final(self).caches().len() == NB_CLASSES,
            r is Some <==> taille <= TAILLE_MAX_CLASSE,
            r is None ==> *final(self) == *old(self),
            r matches Some(cache) ==> {
                &&& couvre(rang_classe(taille as int), taille as int)
                &&& *cache == old(self).caches()[rang_classe(taille as int)]
                &&& final(self).caches() == old(self).caches().update(
                    rang_classe(taille as int),
                    *final(cache),
                )
            },
    {
        proof {
            lemme_classe_unique(taille as int);
        }
        match taille {
            0..=8 => {
                assert(couvre(0, taille as int));
                Some(&mut self.cache_8)
            },
            9..=16 => {
                assert(couvre(1, taille as int));
                Some(&mut self.cache_16)
            },
            17..=32 => {
                assert(couvre(2, taille as int));
                Some(&mut self.cache_32)
            },
            33..=64 => {
                assert(couvre(3, taille as int));
                Some(&mut self.cache_64)
            },
            65..=128 => {
                assert(couvre(4, taille as int));
                Some(&mut self.cache_128)
            },
            129..=256 => {
                assert(couvre(5, taille as int));
                Some(&mut self.cache_256)
            },
            257..=512 => {
                assert(couvre(6, taille as int));
                Some(&mut self.cache_512)
            },
            513..=1024 => {
                assert(couvre(7, taille as int));
                Some(&mut self.cache_1024)
            },
            _ => None,
        }
    }
}

/// The classes split the sizes up to the largest class into ranges that neither overlap nor
/// leave a gap: every such size has one class that covers it, and only one.
pub proof fn lemme_classe_unique(taille: int)
    ensures
        taille <= TAILLE_MAX_CLASSE ==> couvre(rang_classe(taille), taille),
        taille > TAILLE_MAX_CLASSE ==> forall|i: int| !couvre(i, taille),
        forall|i: int| couvre(i, taille) ==> i == rang_classe(taille),
{
    if taille <= TAILLE_MAX_CLASSE {
        let i: int = if taille <= 8 {
            0
        } else if taille <= 16 {
            1
        } else if taille <= 32 {
            2
        } else if taille <= 64 {
            3
        } else if taille <= 128 {
            4
        } else if taille <= 256 {
            5
        } else if taille <= 512 {
            6
        } else {
            7
        };
        assert(couvre(i, taille));
    }
}

} // verus!
