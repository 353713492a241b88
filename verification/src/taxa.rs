//! NCBI taxonomy nodes: ranks, tree nodes with their per-read interval
//! bookkeeping, and the rank name conversions.
use vstd::prelude::*;

use crate::util::bytes_eq;

verus! {

/// The taxonomic ranks, finest first.
#[derive(PartialEq, Eq, Structural, Clone, Copy, Debug)]
pub enum Rank {
    STRAIN,
    VARIETAS,
    SUBSPECIES,
    SPECIES,
    SPECIESSUBGROUP,
    SPECIESGROUP,
    SUBGENUS,
    GENUS,
    SUPERGENUS,
    SUBFAMILY,
    FAMILY,
    SUPERFAMILY,
    SUBTRIBE,
    TRIBE,
    FORMA,
    COHORT,
    PARVORDER,
    SUBORDER,
    ORDER,
    INFRAORDER,
    SUPERORDER,
    SUBCLASS,
    CLASS,
    INFRACLASS,
    SUPERCLASS,
    SUBPHYLUM,
    PHYLUM,
    SUPERPHYLUM,
    SUBKINGDOM,
    KINGDOM,
    SUPERKINGDOM,
    DOMAINE,
    LIFE,
    UNCLASSIFIED,
}

/// The canonical name of a rank.
pub open spec fn rank_str(r: Rank) -> Seq<u8> {
    match r {
        Rank::STRAIN => seq![110u8, 111u8, 32u8, 114u8, 97u8, 110u8, 107u8],
        Rank::VARIETAS => seq![118u8, 97u8, 114u8, 105u8, 101u8, 116u8, 97u8, 115u8],
        Rank::SUBSPECIES => seq![115u8, 117u8, 98u8, 115u8, 112u8, 101u8, 99u8, 105u8, 101u8, 115u8],
        Rank::SPECIES => seq![115u8, 112u8, 101u8, 99u8, 105u8, 101u8, 115u8],
        Rank::SPECIESSUBGROUP => seq![115u8, 112u8, 101u8, 99u8, 105u8, 101u8, 115u8, 32u8, 115u8, 117u8, 98u8, 103u8, 114u8, 111u8, 117u8, 112u8],
        Rank::SPECIESGROUP => seq![115u8, 112u8, 101u8, 99u8, 105u8, 101u8, 115u8, 32u8, 103u8, 114u8, 111u8, 117u8, 112u8],
        Rank::SUBGENUS => seq![115u8, 117u8, 98u8, 103u8, 101u8, 110u8, 117u8, 115u8],
        Rank::GENUS => seq![103u8, 101u8, 110u8, 117u8, 115u8],
        Rank::SUPERGENUS => seq![115u8, 117u8, 112u8, 101u8, 114u8, 103u8, 101u8, 110u8, 117u8, 115u8],
        Rank::SUBFAMILY => seq![115u8, 117u8, 98u8, 102u8, 97u8, 109u8, 105u8, 108u8, 121u8],
        Rank::FAMILY => seq![102u8, 97u8, 109u8, 105u8, 108u8, 121u8],
        Rank::SUPERFAMILY => seq![115u8, 117u8, 112u8, 101u8, 114u8, 102u8, 97u8, 109u8, 105u8, 108u8, 121u8],
        Rank::SUBTRIBE => seq![115u8, 117u8, 98u8, 116u8, 114u8, 105u8, 98u8, 101u8],
        Rank::TRIBE => seq![116u8, 114u8, 105u8, 98u8, 101u8],
        Rank::FORMA => seq![102u8, 111u8, 114u8, 109u8, 97u8],
        Rank::COHORT => seq![99u8, 111u8, 104u8, 111u8, 114u8, 116u8],
        Rank::PARVORDER => seq![112u8, 97u8, 114u8, 118u8, 111u8, 114u8, 100u8, 101u8, 114u8],
        Rank::SUBORDER => seq![115u8, 117u8, 98u8, 111u8, 114u8, 100u8, 101u8, 114u8],
        Rank::ORDER => seq![111u8, 114u8, 100u8, 101u8, 114u8],
        Rank::INFRAORDER => seq![105u8, 110u8, 102u8, 114u8, 97u8, 111u8, 114u8, 100u8, 101u8, 114u8],
        Rank::SUPERORDER => seq![115u8, 117u8, 112u8, 101u8, 114u8, 111u8, 114u8, 100u8, 101u8, 114u8],
        Rank::SUBCLASS => seq![115u8, 117u8, 98u8, 99u8, 108u8, 97u8, 115u8, 115u8],
        Rank::CLASS => seq![99u8, 108u8, 97u8, 115u8, 115u8],
        Rank::INFRACLASS => seq![105u8, 110u8, 102u8, 114u8, 97u8, 99u8, 108u8, 97u8, 115u8, 115u8],
        Rank::SUPERCLASS => seq![115u8, 117u8, 112u8, 101u8, 114u8, 99u8, 108u8, 97u8, 115u8, 115u8],
        Rank::SUBPHYLUM => seq![115u8, 117u8, 98u8, 112u8, 104u8, 121u8, 108u8, 117u8, 109u8],
        Rank::PHYLUM => seq![112u8, 104u8, 121u8, 108u8, 117u8, 109u8],
        Rank::SUPERPHYLUM => seq![115u8, 117u8, 112u8, 101u8, 114u8, 112u8, 104u8, 121u8, 108u8, 117u8, 109u8],
        Rank::SUBKINGDOM => seq![115u8, 117u8, 98u8, 107u8, 105u8, 110u8, 103u8, 100u8, 111u8, 109u8],
        Rank::KINGDOM => seq![107u8, 105u8, 110u8, 103u8, 100u8, 111u8, 109u8],
        Rank::SUPERKINGDOM => seq![115u8, 117u8, 112u8, 101u8, 114u8, 107u8, 105u8, 110u8, 103u8, 100u8, 111u8, 109u8],
        Rank::DOMAINE => seq![100u8, 111u8, 109u8, 97u8, 105u8, 110u8],
        Rank::LIFE => seq![108u8, 105u8, 102u8, 101u8],
        Rank::UNCLASSIFIED => seq![117u8, 110u8, 99u8, 108u8, 97u8, 115u8, 115u8, 105u8, 102u8, 105u8, 101u8, 100u8],
    }
}

/// The rank named by a byte string, if any.
pub open spec fn str_rank(s: Seq<u8>) -> Option<Rank> {
    if s == seq![110u8, 111u8, 32u8, 114u8, 97u8, 110u8, 107u8] {
        Option::Some(Rank::STRAIN)
    } else if s == seq![118u8, 97u8, 114u8, 105u8, 101u8, 116u8, 97u8, 115u8] {
        Option::Some(Rank::VARIETAS)
    } else if s == seq![115u8, 117u8, 98u8, 115u8, 112u8, 101u8, 99u8, 105u8, 101u8, 115u8] {
        Option::Some(Rank::SUBSPECIES)
    } else if s == seq![115u8, 112u8, 101u8, 99u8, 105u8, 101u8, 115u8] {
        Option::Some(Rank::SPECIES)
    } else if s == seq![115u8, 112u8, 101u8, 99u8, 105u8, 101u8, 115u8, 32u8, 115u8, 117u8, 98u8, 103u8, 114u8, 111u8, 117u8, 112u8] {
        Option::Some(Rank::SPECIESSUBGROUP)
    } else if s == seq![115u8, 112u8, 101u8, 99u8, 105u8, 101u8, 115u8, 32u8, 103u8, 114u8, 111u8, 117u8, 112u8] {
        Option::Some(Rank::SPECIESGROUP)
    } else if s == seq![115u8, 117u8, 98u8, 103u8, 101u8, 110u8, 117u8, 115u8] {
        Option::Some(Rank::SUBGENUS)
    } else if s == seq![103u8, 101u8, 110u8, 117u8, 115u8] {
        Option::Some(Rank::GENUS)
    } else if s == seq![115u8, 117u8, 112u8, 101u8, 114u8, 103u8, 101u8, 110u8, 117u8, 115u8] {
        Option::Some(Rank::SUPERGENUS)
    } else if s == seq![115u8, 117u8, 98u8, 102u8, 97u8, 109u8, 105u8, 108u8, 121u8] {
        Option::Some(Rank::SUBFAMILY)
    } else if s == seq![102u8, 97u8, 109u8, 105u8, 108u8, 121u8] {
        Option::Some(Rank::FAMILY)
    } else if s == seq![115u8, 117u8, 112u8, 101u8, 114u8, 102u8, 97u8, 109u8, 105u8, 108u8, 121u8] {
        Option::Some(Rank::SUPERFAMILY)
    } else if s == seq![115u8, 117u8, 98u8, 116u8, 114u8, 105u8, 98u8, 101u8] {
        Option::Some(Rank::SUBTRIBE)
    } else if s == seq![116u8, 114u8, 105u8, 98u8, 101u8] {
        Option::Some(Rank::TRIBE)
    } else if s == seq![102u8, 111u8, 114u8, 109u8, 97u8] {
        Option::Some(Rank::FORMA)
    } else if s == seq![99u8, 111u8, 104u8, 111u8, 114u8, 116u8] {
        Option::Some(Rank::COHORT)
    } else if s == seq![112u8, 97u8, 114u8, 118u8, 111u8, 114u8, 100u8, 101u8, 114u8] {
        Option::Some(Rank::PARVORDER)
    } else if s == seq![115u8, 117u8, 98u8, 111u8, 114u8, 100u8, 101u8, 114u8] {
        Option::Some(Rank::SUBORDER)
    } else if s == seq![111u8, 114u8, 100u8, 101u8, 114u8] {
        Option::Some(Rank::ORDER)
    } else if s == seq![105u8, 110u8, 102u8, 114u8, 97u8, 111u8, 114u8, 100u8, 101u8, 114u8] {
        Option::Some(Rank::INFRAORDER)
    } else if s == seq![115u8, 117u8, 112u8, 101u8, 114u8, 111u8, 114u8, 100u8, 101u8, 114u8] {
        Option::Some(Rank::SUPERORDER)
    } else if s == seq![115u8, 117u8, 98u8, 99u8, 108u8, 97u8, 115u8, 115u8] {
        Option::Some(Rank::SUBCLASS)
    } else if s == seq![99u8, 108u8, 97u8, 115u8, 115u8] {
        Option::Some(Rank::CLASS)
    } else if s == seq![105u8, 110u8, 102u8, 114u8, 97u8, 99u8, 108u8, 97u8, 115u8, 115u8] {
        Option::Some(Rank::INFRACLASS)
    } else if s == seq![115u8, 117u8, 112u8, 101u8, 114u8, 99u8, 108u8, 97u8, 115u8, 115u8] {
        Option::Some(Rank::SUPERCLASS)
    } else if s == seq![115u8, 117u8, 98u8, 112u8, 104u8, 121u8, 108u8, 117u8, 109u8] {
        Option::Some(Rank::SUBPHYLUM)
    } else if s == seq![112u8, 104u8, 121u8, 108u8, 117u8, 109u8] {
        Option::Some(Rank::PHYLUM)
    } else if s == seq![115u8, 117u8, 112u8, 101u8, 114u8, 112u8, 104u8, 121u8, 108u8, 117u8, 109u8] {
        Option::Some(Rank::SUPERPHYLUM)
    } else if s == seq![115u8, 117u8, 98u8, 107u8, 105u8, 110u8, 103u8, 100u8, 111u8, 109u8] {
        Option::Some(Rank::SUBKINGDOM)
    } else if s == seq![107u8, 105u8, 110u8, 103u8, 100u8, 111u8, 109u8] {
        Option::Some(Rank::KINGDOM)
    } else if s == seq![115u8, 117u8, 112u8, 101u8, 114u8, 107u8, 105u8, 110u8, 103u8, 100u8, 111u8, 109u8] {
        Option::Some(Rank::SUPERKINGDOM)
    } else if s == seq![100u8, 111u8, 109u8, 97u8, 105u8, 110u8] {
        Option::Some(Rank::DOMAINE)
    } else if s == seq![108u8, 105u8, 102u8, 101u8] {
        Option::Some(Rank::LIFE)
    } else {
        Option::None
    }
}

/// Which end of a paired read an interval list belongs to.
#[derive(PartialEq, Eq, Structural, Clone, Copy)]
pub enum ReadEnd {
    LEFT,
    RIGHT,
}

/// A half-open alignment interval on a read end.
#[derive(PartialEq, Eq, Structural, Clone, Copy)]
pub struct Interval {
    pub begin: u32,
    pub end: u32,
}

impl Interval {
    pub fn new(begin: u32, end: u32) -> (r: Interval)
        ensures
            r == (Interval { begin, end }),
    {
        Interval { begin, end }
    }
}

} // verus!

verus! {

impl TaxaNode {
    /// Parses a rank name; `None` exactly on unknown names.
    pub fn str_to_rank(rankstr: &[u8]) -> (r: Option<Rank>)
    ensures
        r == str_rank(rankstr@),
{
    let w: Vec<u8> = vec![110u8, 111u8, 32u8, 114u8, 97u8, 110u8, 107u8];
    if bytes_eq(rankstr, w.as_slice()) {
        proof {
            assert(w@ =~= seq![110u8, 111u8, 32u8, 114u8, 97u8, 110u8, 107u8]);
        }
        return Option::Some(Rank::STRAIN);
    }
    let w: Vec<u8> = vec![118u8, 97u8, 114u8, 105u8, 101u8, 116u8, 97u8, 115u8];
    if bytes_eq(rankstr, w.as_slice()) {
        proof {
            assert(w@ =~= seq![118u8, 97u8, 114u8, 105u8, 101u8, 116u8, 97u8, 115u8]);
        }
        return Option::Some(Rank::VARIETAS);
    }
    let w: Vec<u8> = vec![115u8, 117u8, 98u8, 115u8, 112u8, 101u8, 99u8, 105u8, 101u8, 115u8];
    if bytes_eq(rankstr, w.as_slice()) {
        proof {
            assert(w@ =~= seq![115u8, 117u8, 98u8, 115u8, 112u8, 101u8, 99u8, 105u8, 101u8, 115u8]);
        }
        return Option::Some(Rank::SUBSPECIES);
    }
    let w: Vec<u8> = vec![115u8, 112u8, 101u8, 99u8, 105u8, 101u8, 115u8];
    if bytes_eq(rankstr, w.as_slice()) {
        proof {
            assert(w@ =~= seq![115u8, 112u8, 101u8, 99u8, 105u8, 101u8, 115u8]);
        }
        return Option::Some(Rank::SPECIES);
    }
    let w: Vec<u8> = vec![115u8, 112u8, 101u8, 99u8, 105u8, 101u8, 115u8, 32u8, 115u8, 117u8, 98u8, 103u8, 114u8, 111u8, 117u8, 112u8];
    if bytes_eq(rankstr, w.as_slice()) {
        proof {
            assert(w@ =~= seq![115u8, 112u8, 101u8, 99u8, 105u8, 101u8, 115u8, 32u8, 115u8, 117u8, 98u8, 103u8, 114u8, 111u8, 117u8, 112u8]);
        }
        return Option::Some(Rank::SPECIESSUBGROUP);
    }
    let w: Vec<u8> = vec![115u8, 112u8, 101u8, 99u8, 105u8, 101u8, 115u8, 32u8, 103u8, 114u8, 111u8, 117u8, 112u8];
    if bytes_eq(rankstr, w.as_slice()) {
        proof {
            assert(w@ =~= seq![115u8, 112u8, 101u8, 99u8, 105u8, 101u8, 115u8, 32u8, 103u8, 114u8, 111u8, 117u8, 112u8]);
        }
        return Option::Some(Rank::SPECIESGROUP);
    }
    let w: Vec<u8> = vec![115u8, 117u8, 98u8, 103u8, 101u8, 110u8, 117u8, 115u8];
    if bytes_eq(rankstr, w.as_slice()) {
        proof {
            assert(w@ =~= seq![115u8, 117u8, 98u8, 103u8, 101u8, 110u8, 117u8, 115u8]);
        }
        return Option::Some(Rank::SUBGENUS);
    }
    let w: Vec<u8> = vec![103u8, 101u8, 110u8, 117u8, 115u8];
    if bytes_eq(rankstr, w.as_slice()) {
        proof {
            assert(w@ =~= seq![103u8, 101u8, 110u8, 117u8, 115u8]);
        }
        return Option::Some(Rank::GENUS);
    }
    let w: Vec<u8> = vec![115u8, 117u8, 112u8, 101u8, 114u8, 103u8, 101u8, 110u8, 117u8, 115u8];
    if bytes_eq(rankstr, w.as_slice()) {
        proof {
            assert(w@ =~= seq![115u8, 117u8, 112u8, 101u8, 114u8, 103u8, 101u8, 110u8, 117u8, 115u8]);
        }
        return Option::Some(Rank::SUPERGENUS);
    }
    let w: Vec<u8> = vec![115u8, 117u8, 98u8, 102u8, 97u8, 109u8, 105u8, 108u8, 121u8];
    if bytes_eq(rankstr, w.as_slice()) {
        proof {
            assert(w@ =~= seq![115u8, 117u8, 98u8, 102u8, 97u8, 109u8, 105u8, 108u8, 121u8]);
        }
        return Option::Some(Rank::SUBFAMILY);
    }
    let w: Vec<u8> = vec![102u8, 97u8, 109u8, 105u8, 108u8, 121u8];
    if bytes_eq(rankstr, w.as_slice()) {
        proof {
            assert(w@ =~= seq![102u8, 97u8, 109u8, 105u8, 108u8, 121u8]);
        }
        return Option::Some(Rank::FAMILY);
    }
    let w: Vec<u8> = vec![115u8, 117u8, 112u8, 101u8, 114u8, 102u8, 97u8, 109u8, 105u8, 108u8, 121u8];
    if bytes_eq(rankstr, w.as_slice()) {
        proof {
            assert(w@ =~= seq![115u8, 117u8, 112u8, 101u8, 114u8, 102u8, 97u8, 109u8, 105u8, 108u8, 121u8]);
        }
        return Option::Some(Rank::SUPERFAMILY);
    }
    let w: Vec<u8> = vec![115u8, 117u8, 98u8, 116u8, 114u8, 105u8, 98u8, 101u8];
    if bytes_eq(rankstr, w.as_slice()) {
        proof {
            assert(w@ =~= seq![115u8, 117u8, 98u8, 116u8, 114u8, 105u8, 98u8, 101u8]);
        }
        return Option::Some(Rank::SUBTRIBE);
    }
    let w: Vec<u8> = vec![116u8, 114u8, 105u8, 98u8, 101u8];
    if bytes_eq(rankstr, w.as_slice()) {
        proof {
            assert(w@ =~= seq![116u8, 114u8, 105u8, 98u8, 101u8]);
        }
        return Option::Some(Rank::TRIBE);
    }
    let w: Vec<u8> = vec![102u8, 111u8, 114u8, 109u8, 97u8];
    if bytes_eq(rankstr, w.as_slice()) {
        proof {
            assert(w@ =~= seq![102u8, 111u8, 114u8, 109u8, 97u8]);
        }
        return Option::Some(Rank::FORMA);
    }
    let w: Vec<u8> = vec![99u8, 111u8, 104u8, 111u8, 114u8, 116u8];
    if bytes_eq(rankstr, w.as_slice()) {
        proof {
            assert(w@ =~= seq![99u8, 111u8, 104u8, 111u8, 114u8, 116u8]);
        }
        return Option::Some(Rank::COHORT);
    }
    let w: Vec<u8> = vec![112u8, 97u8, 114u8, 118u8, 111u8, 114u8, 100u8, 101u8, 114u8];
    if bytes_eq(rankstr, w.as_slice()) {
        proof {
            assert(w@ =~= seq![112u8, 97u8, 114u8, 118u8, 111u8, 114u8, 100u8, 101u8, 114u8]);
        }
        return Option::Some(Rank::PARVORDER);
    }
    let w: Vec<u8> = vec![115u8, 117u8, 98u8, 111u8, 114u8, 100u8, 101u8, 114u8];
    if bytes_eq(rankstr, w.as_slice()) {
        proof {
            assert(w@ =~= seq![115u8, 117u8, 98u8, 111u8, 114u8, 100u8, 101u8, 114u8]);
        }
        return Option::Some(Rank::SUBORDER);
    }
    let w: Vec<u8> = vec![111u8, 114u8, 100u8, 101u8, 114u8];
    if bytes_eq(rankstr, w.as_slice()) {
        proof {
            assert(w@ =~= seq![111u8, 114u8, 100u8, 101u8, 114u8]);
        }
        return Option::Some(Rank::ORDER);
    }
    let w: Vec<u8> = vec![105u8, 110u8, 102u8, 114u8, 97u8, 111u8, 114u8, 100u8, 101u8, 114u8];
    if bytes_eq(rankstr, w.as_slice()) {
        proof {
            assert(w@ =~= seq![105u8, 110u8, 102u8, 114u8, 97u8, 111u8, 114u8, 100u8, 101u8, 114u8]);
        }
        return Option::Some(Rank::INFRAORDER);
    }
    let w: Vec<u8> = vec![115u8, 117u8, 112u8, 101u8, 114u8, 111u8, 114u8, 100u8, 101u8, 114u8];
    if bytes_eq(rankstr, w.as_slice()) {
        proof {
            assert(w@ =~= seq![115u8, 117u8, 112u8, 101u8, 114u8, 111u8, 114u8, 100u8, 101u8, 114u8]);
        }
        return Option::Some(Rank::SUPERORDER);
    }
    let w: Vec<u8> = vec![115u8, 117u8, 98u8, 99u8, 108u8, 97u8, 115u8, 115u8];
    if bytes_eq(rankstr, w.as_slice()) {
        proof {
            assert(w@ =~= seq![115u8, 117u8, 98u8, 99u8, 108u8, 97u8, 115u8, 115u8]);
        }
        return Option::Some(Rank::SUBCLASS);
    }
    let w: Vec<u8> = vec![99u8, 108u8, 97u8, 115u8, 115u8];
    if bytes_eq(rankstr, w.as_slice()) {
        proof {
            assert(w@ =~= seq![99u8, 108u8, 97u8, 115u8, 115u8]);
        }
        return Option::Some(Rank::CLASS);
    }
    let w: Vec<u8> = vec![105u8, 110u8, 102u8, 114u8, 97u8, 99u8, 108u8, 97u8, 115u8, 115u8];
    if bytes_eq(rankstr, w.as_slice()) {
        proof {
            assert(w@ =~= seq![105u8, 110u8, 102u8, 114u8, 97u8, 99u8, 108u8, 97u8, 115u8, 115u8]);
        }
        return Option::Some(Rank::INFRACLASS);
    }
    let w: Vec<u8> = vec![115u8, 117u8, 112u8, 101u8, 114u8, 99u8, 108u8, 97u8, 115u8, 115u8];
    if bytes_eq(rankstr, w.as_slice()) {
        proof {
            assert(w@ =~= seq![115u8, 117u8, 112u8, 101u8, 114u8, 99u8, 108u8, 97u8, 115u8, 115u8]);
        }
        return Option::Some(Rank::SUPERCLASS);
    }
    let w: Vec<u8> = vec![115u8, 117u8, 98u8, 112u8, 104u8, 121u8, 108u8, 117u8, 109u8];
    if bytes_eq(rankstr, w.as_slice()) {
        proof {
            assert(w@ =~= seq![115u8, 117u8, 98u8, 112u8, 104u8, 121u8, 108u8, 117u8, 109u8]);
        }
        return Option::Some(Rank::SUBPHYLUM);
    }
    let w: Vec<u8> = vec![112u8, 104u8, 121u8, 108u8, 117u8, 109u8];
    if bytes_eq(rankstr, w.as_slice()) {
        proof {
            assert(w@ =~= seq![112u8, 104u8, 121u8, 108u8, 117u8, 109u8]);
        }
        return Option::Some(Rank::PHYLUM);
    }
    let w: Vec<u8> = vec![115u8, 117u8, 112u8, 101u8, 114u8, 112u8, 104u8, 121u8, 108u8, 117u8, 109u8];
    if bytes_eq(rankstr, w.as_slice()) {
        proof {
            assert(w@ =~= seq![115u8, 117u8, 112u8, 101u8, 114u8, 112u8, 104u8, 121u8, 108u8, 117u8, 109u8]);
        }
        return Option::Some(Rank::SUPERPHYLUM);
    }
    let w: Vec<u8> = vec![115u8, 117u8, 98u8, 107u8, 105u8, 110u8, 103u8, 100u8, 111u8, 109u8];
    if bytes_eq(rankstr, w.as_slice()) {
        proof {
            assert(w@ =~= seq![115u8, 117u8, 98u8, 107u8, 105u8, 110u8, 103u8, 100u8, 111u8, 109u8]);
        }
        return Option::Some(Rank::SUBKINGDOM);
    }
    let w: Vec<u8> = vec![107u8, 105u8, 110u8, 103u8, 100u8, 111u8, 109u8];
    if bytes_eq(rankstr, w.as_slice()) {
        proof {
            assert(w@ =~= seq![107u8, 105u8, 110u8, 103u8, 100u8, 111u8, 109u8]);
        }
        return Option::Some(Rank::KINGDOM);
    }
    let w: Vec<u8> = vec![115u8, 117u8, 112u8, 101u8, 114u8, 107u8, 105u8, 110u8, 103u8, 100u8, 111u8, 109u8];
    if bytes_eq(rankstr, w.as_slice()) {
        proof {
            assert(w@ =~= seq![115u8, 117u8, 112u8, 101u8, 114u8, 107u8, 105u8, 110u8, 103u8, 100u8, 111u8, 109u8]);
        }
        return Option::Some(Rank::SUPERKINGDOM);
    }
    let w: Vec<u8> = vec![100u8, 111u8, 109u8, 97u8, 105u8, 110u8];
    if bytes_eq(rankstr, w.as_slice()) {
        proof {
            assert(w@ =~= seq![100u8, 111u8, 109u8, 97u8, 105u8, 110u8]);
        }
        return Option::Some(Rank::DOMAINE);
    }
    let w: Vec<u8> = vec![108u8, 105u8, 102u8, 101u8];
    if bytes_eq(rankstr, w.as_slice()) {
        proof {
            assert(w@ =~= seq![108u8, 105u8, 102u8, 101u8]);
        }
        return Option::Some(Rank::LIFE);
    }
    proof {
        assert(rankstr@ != seq![110u8, 111u8, 32u8, 114u8, 97u8, 110u8, 107u8]);
        assert(rankstr@ != seq![118u8, 97u8, 114u8, 105u8, 101u8, 116u8, 97u8, 115u8]);
        assert(rankstr@ != seq![115u8, 117u8, 98u8, 115u8, 112u8, 101u8, 99u8, 105u8, 101u8, 115u8]);
        assert(rankstr@ != seq![115u8, 112u8, 101u8, 99u8, 105u8, 101u8, 115u8]);
        assert(rankstr@ != seq![115u8, 112u8, 101u8, 99u8, 105u8, 101u8, 115u8, 32u8, 115u8, 117u8, 98u8, 103u8, 114u8, 111u8, 117u8, 112u8]);
        assert(rankstr@ != seq![115u8, 112u8, 101u8, 99u8, 105u8, 101u8, 115u8, 32u8, 103u8, 114u8, 111u8, 117u8, 112u8]);
        assert(rankstr@ != seq![115u8, 117u8, 98u8, 103u8, 101u8, 110u8, 117u8, 115u8]);
        assert(rankstr@ != seq![103u8, 101u8, 110u8, 117u8, 115u8]);
        assert(rankstr@ != seq![115u8, 117u8, 112u8, 101u8, 114u8, 103u8, 101u8, 110u8, 117u8, 115u8]);
        assert(rankstr@ != seq![115u8, 117u8, 98u8, 102u8, 97u8, 109u8, 105u8, 108u8, 121u8]);
        assert(rankstr@ != seq![102u8, 97u8, 109u8, 105u8, 108u8, 121u8]);
        assert(rankstr@ != seq![115u8, 117u8, 112u8, 101u8, 114u8, 102u8, 97u8, 109u8, 105u8, 108u8, 121u8]);
        assert(rankstr@ != seq![115u8, 117u8, 98u8, 116u8, 114u8, 105u8, 98u8, 101u8]);
        assert(rankstr@ != seq![116u8, 114u8, 105u8, 98u8, 101u8]);
        assert(rankstr@ != seq![102u8, 111u8, 114u8, 109u8, 97u8]);
        assert(rankstr@ != seq![99u8, 111u8, 104u8, 111u8, 114u8, 116u8]);
        assert(rankstr@ != seq![112u8, 97u8, 114u8, 118u8, 111u8, 114u8, 100u8, 101u8, 114u8]);
        assert(rankstr@ != seq![115u8, 117u8, 98u8, 111u8, 114u8, 100u8, 101u8, 114u8]);
        assert(rankstr@ != seq![111u8, 114u8, 100u8, 101u8, 114u8]);
        assert(rankstr@ != seq![105u8, 110u8, 102u8, 114u8, 97u8, 111u8, 114u8, 100u8, 101u8, 114u8]);
        assert(rankstr@ != seq![115u8, 117u8, 112u8, 101u8, 114u8, 111u8, 114u8, 100u8, 101u8, 114u8]);
        assert(rankstr@ != seq![115u8, 117u8, 98u8, 99u8, 108u8, 97u8, 115u8, 115u8]);
        assert(rankstr@ != seq![99u8, 108u8, 97u8, 115u8, 115u8]);
        assert(rankstr@ != seq![105u8, 110u8, 102u8, 114u8, 97u8, 99u8, 108u8, 97u8, 115u8, 115u8]);
        assert(rankstr@ != seq![115u8, 117u8, 112u8, 101u8, 114u8, 99u8, 108u8, 97u8, 115u8, 115u8]);
        assert(rankstr@ != seq![115u8, 117u8, 98u8, 112u8, 104u8, 121u8, 108u8, 117u8, 109u8]);
        assert(rankstr@ != seq![112u8, 104u8, 121u8, 108u8, 117u8, 109u8]);
        assert(rankstr@ != seq![115u8, 117u8, 112u8, 101u8, 114u8, 112u8, 104u8, 121u8, 108u8, 117u8, 109u8]);
        assert(rankstr@ != seq![115u8, 117u8, 98u8, 107u8, 105u8, 110u8, 103u8, 100u8, 111u8, 109u8]);
        assert(rankstr@ != seq![107u8, 105u8, 110u8, 103u8, 100u8, 111u8, 109u8]);
        assert(rankstr@ != seq![115u8, 117u8, 112u8, 101u8, 114u8, 107u8, 105u8, 110u8, 103u8, 100u8, 111u8, 109u8]);
        assert(rankstr@ != seq![100u8, 111u8, 109u8, 97u8, 105u8, 110u8]);
        assert(rankstr@ != seq![108u8, 105u8, 102u8, 101u8]);
    }
    Option::None
}

    /// Renders a rank's canonical name.
    pub fn rank_to_string(r: &Rank) -> (out: Vec<u8>)
    ensures
        out@ == rank_str(*r),
{
    match *r {
        Rank::STRAIN => {
            let w: Vec<u8> = vec![110u8, 111u8, 32u8, 114u8, 97u8, 110u8, 107u8];
            proof {
                assert(w@ =~= seq![110u8, 111u8, 32u8, 114u8, 97u8, 110u8, 107u8]);
            }
            w
        },
        Rank::VARIETAS => {
            let w: Vec<u8> = vec![118u8, 97u8, 114u8, 105u8, 101u8, 116u8, 97u8, 115u8];
            proof {
                assert(w@ =~= seq![118u8, 97u8, 114u8, 105u8, 101u8, 116u8, 97u8, 115u8]);
            }
            w
        },
        Rank::SUBSPECIES => {
            let w: Vec<u8> = vec![115u8, 117u8, 98u8, 115u8, 112u8, 101u8, 99u8, 105u8, 101u8, 115u8];
            proof {
                assert(w@ =~= seq![115u8, 117u8, 98u8, 115u8, 112u8, 101u8, 99u8, 105u8, 101u8, 115u8]);
            }
            w
        },
        Rank::SPECIES => {
            let w: Vec<u8> = vec![115u8, 112u8, 101u8, 99u8, 105u8, 101u8, 115u8];
            proof {
                assert(w@ =~= seq![115u8, 112u8, 101u8, 99u8, 105u8, 101u8, 115u8]);
            }
            w
        },
        Rank::SPECIESSUBGROUP => {
            let w: Vec<u8> = vec![115u8, 112u8, 101u8, 99u8, 105u8, 101u8, 115u8, 32u8, 115u8, 117u8, 98u8, 103u8, 114u8, 111u8, 117u8, 112u8];
            proof {
                assert(w@ =~= seq![115u8, 112u8, 101u8, 99u8, 105u8, 101u8, 115u8, 32u8, 115u8, 117u8, 98u8, 103u8, 114u8, 111u8, 117u8, 112u8]);
            }
            w
        },
        Rank::SPECIESGROUP => {
            let w: Vec<u8> = vec![115u8, 112u8, 101u8, 99u8, 105u8, 101u8, 115u8, 32u8, 103u8, 114u8, 111u8, 117u8, 112u8];
            proof {
                assert(w@ =~= seq![115u8, 112u8, 101u8, 99u8, 105u8, 101u8, 115u8, 32u8, 103u8, 114u8, 111u8, 117u8, 112u8]);
            }
            w
        },
        Rank::SUBGENUS => {
            let w: Vec<u8> = vec![115u8, 117u8, 98u8, 103u8, 101u8, 110u8, 117u8, 115u8];
            proof {
                assert(w@ =~= seq![115u8, 117u8, 98u8, 103u8, 101u8, 110u8, 117u8, 115u8]);
            }
            w
        },
        Rank::GENUS => {
            let w: Vec<u8> = vec![103u8, 101u8, 110u8, 117u8, 115u8];
            proof {
                assert(w@ =~= seq![103u8, 101u8, 110u8, 117u8, 115u8]);
            }
            w
        },
        Rank::SUPERGENUS => {
            let w: Vec<u8> = vec![115u8, 117u8, 112u8, 101u8, 114u8, 103u8, 101u8, 110u8, 117u8, 115u8];
            proof {
                assert(w@ =~= seq![115u8, 117u8, 112u8, 101u8, 114u8, 103u8, 101u8, 110u8, 117u8, 115u8]);
            }
            w
        },
        Rank::SUBFAMILY => {
            let w: Vec<u8> = vec![115u8, 117u8, 98u8, 102u8, 97u8, 109u8, 105u8, 108u8, 121u8];
            proof {
                assert(w@ =~= seq![115u8, 117u8, 98u8, 102u8, 97u8, 109u8, 105u8, 108u8, 121u8]);
            }
            w
        },
        Rank::FAMILY => {
            let w: Vec<u8> = vec![102u8, 97u8, 109u8, 105u8, 108u8, 121u8];
            proof {
                assert(w@ =~= seq![102u8, 97u8, 109u8, 105u8, 108u8, 121u8]);
            }
            w
        },
        Rank::SUPERFAMILY => {
            let w: Vec<u8> = vec![115u8, 117u8, 112u8, 101u8, 114u8, 102u8, 97u8, 109u8, 105u8, 108u8, 121u8];
            proof {
                assert(w@ =~= seq![115u8, 117u8, 112u8, 101u8, 114u8, 102u8, 97u8, 109u8, 105u8, 108u8, 121u8]);
            }
            w
        },
        Rank::SUBTRIBE => {
            let w: Vec<u8> = vec![115u8, 117u8, 98u8, 116u8, 114u8, 105u8, 98u8, 101u8];
            proof {
                assert(w@ =~= seq![115u8, 117u8, 98u8, 116u8, 114u8, 105u8, 98u8, 101u8]);
            }
            w
        },
        Rank::TRIBE => {
            let w: Vec<u8> = vec![116u8, 114u8, 105u8, 98u8, 101u8];
            proof {
                assert(w@ =~= seq![116u8, 114u8, 105u8, 98u8, 101u8]);
            }
            w
        },
        Rank::FORMA => {
            let w: Vec<u8> = vec![102u8, 111u8, 114u8, 109u8, 97u8];
            proof {
                assert(w@ =~= seq![102u8, 111u8, 114u8, 109u8, 97u8]);
            }
            w
        },
        Rank::COHORT => {
            let w: Vec<u8> = vec![99u8, 111u8, 104u8, 111u8, 114u8, 116u8];
            proof {
                assert(w@ =~= seq![99u8, 111u8, 104u8, 111u8, 114u8, 116u8]);
            }
            w
        },
        Rank::PARVORDER => {
            let w: Vec<u8> = vec![112u8, 97u8, 114u8, 118u8, 111u8, 114u8, 100u8, 101u8, 114u8];
            proof {
                assert(w@ =~= seq![112u8, 97u8, 114u8, 118u8, 111u8, 114u8, 100u8, 101u8, 114u8]);
            }
            w
        },
        Rank::SUBORDER => {
            let w: Vec<u8> = vec![115u8, 117u8, 98u8, 111u8, 114u8, 100u8, 101u8, 114u8];
            proof {
                assert(w@ =~= seq![115u8, 117u8, 98u8, 111u8, 114u8, 100u8, 101u8, 114u8]);
            }
            w
        },
        Rank::ORDER => {
            let w: Vec<u8> = vec![111u8, 114u8, 100u8, 101u8, 114u8];
            proof {
                assert(w@ =~= seq![111u8, 114u8, 100u8, 101u8, 114u8]);
            }
            w
        },
        Rank::INFRAORDER => {
            let w: Vec<u8> = vec![105u8, 110u8, 102u8, 114u8, 97u8, 111u8, 114u8, 100u8, 101u8, 114u8];
            proof {
                assert(w@ =~= seq![105u8, 110u8, 102u8, 114u8, 97u8, 111u8, 114u8, 100u8, 101u8, 114u8]);
            }
            w
        },
        Rank::SUPERORDER => {
            let w: Vec<u8> = vec![115u8, 117u8, 112u8, 101u8, 114u8, 111u8, 114u8, 100u8, 101u8, 114u8];
            proof {
                assert(w@ =~= seq![115u8, 117u8, 112u8, 101u8, 114u8, 111u8, 114u8, 100u8, 101u8, 114u8]);
            }
            w
        },
        Rank::SUBCLASS => {
            let w: Vec<u8> = vec![115u8, 117u8, 98u8, 99u8, 108u8, 97u8, 115u8, 115u8];
            proof {
                assert(w@ =~= seq![115u8, 117u8, 98u8, 99u8, 108u8, 97u8, 115u8, 115u8]);
            }
            w
        },
        Rank::CLASS => {
            let w: Vec<u8> = vec![99u8, 108u8, 97u8, 115u8, 115u8];
            proof {
                assert(w@ =~= seq![99u8, 108u8, 97u8, 115u8, 115u8]);
            }
            w
        },
        Rank::INFRACLASS => {
            let w: Vec<u8> = vec![105u8, 110u8, 102u8, 114u8, 97u8, 99u8, 108u8, 97u8, 115u8, 115u8];
            proof {
                assert(w@ =~= seq![105u8, 110u8, 102u8, 114u8, 97u8, 99u8, 108u8, 97u8, 115u8, 115u8]);
            }
            w
        },
        Rank::SUPERCLASS => {
            let w: Vec<u8> = vec![115u8, 117u8, 112u8, 101u8, 114u8, 99u8, 108u8, 97u8, 115u8, 115u8];
            proof {
                assert(w@ =~= seq![115u8, 117u8, 112u8, 101u8, 114u8, 99u8, 108u8, 97u8, 115u8, 115u8]);
            }
            w
        },
        Rank::SUBPHYLUM => {
            let w: Vec<u8> = vec![115u8, 117u8, 98u8, 112u8, 104u8, 121u8, 108u8, 117u8, 109u8];
            proof {
                assert(w@ =~= seq![115u8, 117u8, 98u8, 112u8, 104u8, 121u8, 108u8, 117u8, 109u8]);
            }
            w
        },
        Rank::PHYLUM => {
            let w: Vec<u8> = vec![112u8, 104u8, 121u8, 108u8, 117u8, 109u8];
            proof {
                assert(w@ =~= seq![112u8, 104u8, 121u8, 108u8, 117u8, 109u8]);
            }
            w
        },
        Rank::SUPERPHYLUM => {
            let w: Vec<u8> = vec![115u8, 117u8, 112u8, 101u8, 114u8, 112u8, 104u8, 121u8, 108u8, 117u8, 109u8];
            proof {
                assert(w@ =~= seq![115u8, 117u8, 112u8, 101u8, 114u8, 112u8, 104u8, 121u8, 108u8, 117u8, 109u8]);
            }
            w
        },
        Rank::SUBKINGDOM => {
            let w: Vec<u8> = vec![115u8, 117u8, 98u8, 107u8, 105u8, 110u8, 103u8, 100u8, 111u8, 109u8];
            proof {
                assert(w@ =~= seq![115u8, 117u8, 98u8, 107u8, 105u8, 110u8, 103u8, 100u8, 111u8, 109u8]);
            }
            w
        },
        Rank::KINGDOM => {
            let w: Vec<u8> = vec![107u8, 105u8, 110u8, 103u8, 100u8, 111u8, 109u8];
            proof {
                assert(w@ =~= seq![107u8, 105u8, 110u8, 103u8, 100u8, 111u8, 109u8]);
            }
            w
        },
        Rank::SUPERKINGDOM => {
            let w: Vec<u8> = vec![115u8, 117u8, 112u8, 101u8, 114u8, 107u8, 105u8, 110u8, 103u8, 100u8, 111u8, 109u8];
            proof {
                assert(w@ =~= seq![115u8, 117u8, 112u8, 101u8, 114u8, 107u8, 105u8, 110u8, 103u8, 100u8, 111u8, 109u8]);
            }
            w
        },
        Rank::DOMAINE => {
            let w: Vec<u8> = vec![100u8, 111u8, 109u8, 97u8, 105u8, 110u8];
            proof {
                assert(w@ =~= seq![100u8, 111u8, 109u8, 97u8, 105u8, 110u8]);
            }
            w
        },
        Rank::LIFE => {
            let w: Vec<u8> = vec![108u8, 105u8, 102u8, 101u8];
            proof {
                assert(w@ =~= seq![108u8, 105u8, 102u8, 101u8]);
            }
            w
        },
        Rank::UNCLASSIFIED => {
            let w: Vec<u8> = vec![117u8, 110u8, 99u8, 108u8, 97u8, 115u8, 115u8, 105u8, 102u8, 105u8, 101u8, 100u8];
            proof {
                assert(w@ =~= seq![117u8, 110u8, 99u8, 108u8, 97u8, 115u8, 115u8, 105u8, 102u8, 105u8, 101u8, 100u8]);
            }
            w
        },
    }
}
}

} // verus!

verus! {

/// Total length covered by an interval list.
pub open spec fn intervals_length(s: Seq<Interval>) -> int
    decreases s.len(),
{
    if s.len() == 0 {
        0
    } else {
        intervals_length(s.drop_last()) + if s.last().begin <= s.last().end {
            s.last().end - s.last().begin
        } else {
            0int
        }
    }
}

/// Intervals ordered by begin, ties by end.
pub open spec fn intervals_sorted(s: Seq<Interval>) -> bool {
    forall|i: int, j: int|
        0 <= i < j < s.len() ==> ((#[trigger] s[i]).begin < (#[trigger] s[j]).begin || (s[i].begin
            == s[j].begin && s[i].end <= s[j].end))
}

/// Sorts intervals by begin position, ties by end position; the result is
/// a permutation of the input.
#[verifier::loop_isolation(false)]
pub fn sort(intervals: Vec<Interval>) -> (r: Vec<Interval>)
    ensures
        r@.len() == intervals@.len(),
        r@.to_multiset() == intervals@.to_multiset(),
        intervals_sorted(r@),
{
    let mut rest = intervals;
    let ghost all = rest@;
    let mut out: Vec<Interval> = Vec::new();
    proof {
        broadcast use vstd::seq_lib::group_to_multiset_ensures;
    }
    while rest.len() > 0
        invariant
            out@.len() + rest@.len() == all.len(),
            out@.to_multiset().add(rest@.to_multiset()) == all.to_multiset(),
            intervals_sorted(out@),
            forall|a: int, m: int|
                0 <= a < out@.len() && 0 <= m < rest@.len() ==> ((#[trigger] out@[a]).begin < (
                #[trigger] rest@[m]).begin || (out@[a].begin == rest@[m].begin && out@[a].end
                    <= rest@[m].end)),
        decreases rest.len(),
    {
        let mut min_idx: usize = 0;
        let mut i: usize = 1;
        while i < rest.len()
            invariant
                0 <= min_idx < i <= rest@.len(),
                forall|k: int|
                    0 <= k < i ==> ((#[trigger] rest@[min_idx as int]).begin < (
                    #[trigger] rest@[k]).begin || (rest@[min_idx as int].begin == rest@[k].begin
                        && rest@[min_idx as int].end <= rest@[k].end) || rest@[min_idx as int]
                        == rest@[k]),
            decreases rest.len() - i,
        {
            if rest[i].begin < rest[min_idx].begin || (rest[i].begin == rest[min_idx].begin
                && rest[i].end < rest[min_idx].end) {
                min_idx = i;
            }
            i = i + 1;
        }
        let chosen = rest.remove(min_idx);
        proof {
            broadcast use vstd::seq_lib::group_to_multiset_ensures;
        }
        out.push(chosen);
        proof {
            assert(out@.to_multiset().add(rest@.to_multiset()) =~= all.to_multiset());
        }
    }
    out
}

/// A node of the taxonomy tree, with the per-read interval bookkeeping the
/// scoring walk uses.
pub struct TaxaNode {
    pub id: usize,
    pub parent_id: usize,
    pub rank: Rank,
    pub score: u64,
    pub not_incorporated_children_counter: u64,
    pub active_children: Vec<usize>,
    pub left_fw: bool,
    pub right_fw: bool,
    pub l_pos: u32,
    pub r_pos: u32,
    pub l_intervals: Vec<Interval>,
    pub r_intervals: Vec<Interval>,
    pub is_cleaned: bool,
    pub paired: bool,
}

impl TaxaNode {
    /// The pending-children counter counts the active children.
    pub open spec fn wf(self) -> bool {
        self.not_incorporated_children_counter == self.active_children@.len()
            && self.active_children@.len() <= 0xffff_ffff_ffff_0000u64
    }

    /// A node that is its own parent is the root of life and gets no
    /// parent.
    pub fn new(id: usize, parent_id: usize, rank: Rank) -> (r: TaxaNode)
        ensures
            r.wf(),
            r.id == id,
            id == parent_id ==> r.rank == Rank::LIFE && r.parent_id == usize::MAX,
            id != parent_id ==> r.rank == rank && r.parent_id == parent_id,
            r.score == 0,
            r.active_children@.len() == 0,
            r.l_intervals@.len() == 0,
            r.r_intervals@.len() == 0,
            !r.is_cleaned,
    {
        let (the_rank, the_parent) = if id == parent_id {
            (Rank::LIFE, usize::MAX)
        } else {
            (rank, parent_id)
        };
        TaxaNode {
            id,
            parent_id: the_parent,
            rank: the_rank,
            score: 0,
            not_incorporated_children_counter: 0,
            active_children: Vec::new(),
            left_fw: true,
            right_fw: false,
            l_pos: 0,
            r_pos: 0,
            l_intervals: Vec::new(),
            r_intervals: Vec::new(),
            is_cleaned: false,
            paired: false,
        }
    }

    pub fn new_with_id(id: usize) -> (r: TaxaNode)
        ensures
            r.wf(),
            r.id == id,
            r.parent_id == usize::MAX,
            r.rank == Rank::STRAIN,
    {
        TaxaNode {
            id,
            parent_id: usize::MAX,
            rank: Rank::STRAIN,
            score: 0,
            not_incorporated_children_counter: 0,
            active_children: Vec::new(),
            left_fw: true,
            right_fw: false,
            l_pos: 0,
            r_pos: 0,
            l_intervals: Vec::new(),
            r_intervals: Vec::new(),
            is_cleaned: false,
            paired: false,
        }
    }

    pub fn is_root(&self) -> (r: bool)
        ensures
            r == (self.rank == Rank::LIFE),
    {
        self.rank == Rank::LIFE
    }

    pub fn is_ripe(&self) -> (r: bool)
        ensures
            r == (self.not_incorporated_children_counter != 0),
    {
        self.not_incorporated_children_counter != 0
    }

    pub fn get_id(&self) -> (r: usize)
        ensures
            r == self.id,
    {
        self.id
    }

    pub fn get_parent_id(&self) -> (r: usize)
        ensures
            r == self.parent_id,
    {
        self.parent_id
    }

    pub fn get_pos(&self, read_end: ReadEnd) -> (r: u32)
        ensures
            read_end == ReadEnd::LEFT ==> r == self.l_pos,
            read_end == ReadEnd::RIGHT ==> r == self.r_pos,
    {
        match read_end {
            ReadEnd::LEFT => self.l_pos,
            ReadEnd::RIGHT => self.r_pos,
        }
    }

    /// Adds the lengths of both interval lists to the node's score.
    #[verifier::loop_isolation(false)]
    pub fn update_score(&mut self)
        requires
            old(self).l_intervals@.len() + old(self).r_intervals@.len() <= 0xffff_ffff,
            old(self).score + intervals_length(old(self).l_intervals@) + intervals_length(
                old(self).r_intervals@,
            ) <= u64::MAX,
        ensures
            final(self).score == old(self).score + intervals_length(old(self).l_intervals@)
                + intervals_length(old(self).r_intervals@),
            final(self).l_intervals@ == old(self).l_intervals@,
            final(self).r_intervals@ == old(self).r_intervals@,
            final(self).id == old(self).id,
            final(self).rank == old(self).rank,
    {
        let mut acc: u64 = self.score;
        let mut i: usize = 0;
        while i < self.l_intervals.len()
            invariant
                0 <= i <= self.l_intervals@.len(),
                *self == *old(self),
                acc == old(self).score + intervals_length(self.l_intervals@.take(i as int)),
                acc <= old(self).score + intervals_length(self.l_intervals@.take(i as int)),
            decreases self.l_intervals.len() - i,
        {
            proof {
                assert(self.l_intervals@.take(i + 1).drop_last() =~= self.l_intervals@.take(
                    i as int,
                ));
                lemma_intervals_length_prefix(self.l_intervals@, i + 1);
                lemma_intervals_length_prefix(self.r_intervals@, self.r_intervals@.len() as int);
                assert(self.r_intervals@.take(self.r_intervals@.len() as int)
                    =~= self.r_intervals@);
            }
            let it = self.l_intervals[i];
            if it.begin <= it.end {
                acc = acc + ((it.end - it.begin) as u64);
            }
            i = i + 1;
        }
        proof {
            assert(self.l_intervals@.take(self.l_intervals@.len() as int) =~= self.l_intervals@);
        }
        let mut j: usize = 0;
        while j < self.r_intervals.len()
            invariant
                0 <= j <= self.r_intervals@.len(),
                *self == *old(self),
                acc == old(self).score + intervals_length(self.l_intervals@) + intervals_length(
                    self.r_intervals@.take(j as int),
                ),
            decreases self.r_intervals.len() - j,
        {
            proof {
                assert(self.r_intervals@.take(j + 1).drop_last() =~= self.r_intervals@.take(
                    j as int,
                ));
                lemma_intervals_length_prefix(self.r_intervals@, j + 1);
            }
            let it = self.r_intervals[j];
            if it.begin <= it.end {
                acc = acc + ((it.end - it.begin) as u64);
            }
            j = j + 1;
        }
        proof {
            assert(self.r_intervals@.take(self.r_intervals@.len() as int) =~= self.r_intervals@);
        }
        self.score = acc;
    }

    /// Registers a child unless it is already active; reports whether it
    /// was new.
    #[verifier::loop_isolation(false)]
    pub fn add_child(&mut self, child: &TaxaNode) -> (added: bool)
        requires
            old(self).wf(),
            old(self).active_children@.len() < 0xffff_ffff_ffff_0000u64,
        ensures
            final(self).wf(),
            added == !old(self).active_children@.contains(child.id),
            added ==> final(self).active_children@ == old(self).active_children@.push(child.id),
            !added ==> final(self).active_children@ == old(self).active_children@,
    {
        let mut i: usize = 0;
        while i < self.active_children.len()
            invariant
                0 <= i <= self.active_children@.len(),
                *self == *old(self),
                forall|k: int| 0 <= k < i ==> #[trigger] self.active_children@[k] != child.id,
            decreases self.active_children.len() - i,
        {
            if self.active_children[i] == child.id {
                proof {
                    assert(self.active_children@.contains(child.id));
                }
                return false;
            }
            i = i + 1;
        }
        proof {
            if self.active_children@.contains(child.id) {
                let k = choose|k: int|
                    0 <= k < self.active_children@.len() && self.active_children@[k] == child.id;
                assert(false);
            }
        }
        self.active_children.push(child.id);
        let c = self.not_incorporated_children_counter;
        self.not_incorporated_children_counter = c + 1;
        true
    }

    pub fn is_concordant(&self) -> (r: bool)
        ensures
            r == (self.l_intervals@.len() == self.r_intervals@.len()),
    {
        self.l_intervals.len() == self.r_intervals.len()
    }

    /// Clears the per-read bookkeeping back to the defaults.
    pub fn reset(&mut self)
        ensures
            final(self).l_intervals@.len() == 0,
            final(self).r_intervals@.len() == 0,
            final(self).active_children@.len() == 0,
            final(self).not_incorporated_children_counter == 0,
            final(self).score == 0,
            final(self).id == old(self).id,
            final(self).parent_id == old(self).parent_id,
            final(self).rank == old(self).rank,
            final(self).wf(),
    {
        self.l_intervals = Vec::new();
        self.r_intervals = Vec::new();
        self.active_children = Vec::new();
        self.not_incorporated_children_counter = 0;
        self.score = 0;
    }
}

/// A prefix of an interval list covers no more than the whole.
proof fn lemma_intervals_length_prefix(s: Seq<Interval>, i: int)
    requires
        0 <= i <= s.len(),
    ensures
        0 <= intervals_length(s.take(i)) <= intervals_length(s),
    decreases s.len() - i,
{
    if i == s.len() {
        assert(s.take(i) =~= s);
        lemma_intervals_length_nonneg(s);
    } else {
        lemma_intervals_length_prefix(s, i + 1);
        assert(s.take(i + 1).drop_last() =~= s.take(i));
        lemma_intervals_length_nonneg(s.take(i));
    }
}

proof fn lemma_intervals_length_nonneg(s: Seq<Interval>)
    ensures
        intervals_length(s) >= 0,
    decreases s.len(),
{
    if s.len() > 0 {
        lemma_intervals_length_nonneg(s.drop_last());
    }
}

/// An interval list of bounded length covers a bounded total.
proof fn lemma_intervals_length_cap(s: Seq<Interval>)
    ensures
        0 <= intervals_length(s) <= s.len() * 0x1_0000_0000,
    decreases s.len(),
{
    if s.len() > 0 {
        lemma_intervals_length_cap(s.drop_last());
        assert((s.len() - 1) * 0x1_0000_0000 + 0x1_0000_0000 == s.len() * 0x1_0000_0000)
            by (nonlinear_arith);
    }
}

/// Aggregated per-taxon counters.
pub struct TaxaInfo {
    pub cnt: u64,
    pub sub_tree_cnt: u64,
    pub rank: Rank,
}

impl TaxaInfo {
    pub fn new() -> (r: TaxaInfo)
        ensures
            r.cnt == 0,
            r.sub_tree_cnt == 0,
            r.rank == Rank::STRAIN,
    {
        TaxaInfo { cnt: 0, sub_tree_cnt: 0, rank: Rank::STRAIN }
    }

    pub fn new_with_values(cnt: u64, rank: Rank) -> (r: TaxaInfo)
        ensures
            r.cnt == cnt,
            r.sub_tree_cnt == 0,
            r.rank == rank,
    {
        TaxaInfo { cnt, sub_tree_cnt: 0, rank }
    }
}

} // verus!

verus! {

/// Every interval ends before any later one begins.
pub open spec fn intervals_disjoint(s: Seq<Interval>) -> bool {
    forall|i: int, j: int| 0 <= i < j < s.len() ==> (#[trigger] s[i]).end < (#[trigger] s[j]).begin
}

/// Interval start positions in non-decreasing order.
pub open spec fn begins_sorted(s: Seq<Interval>) -> bool {
    forall|i: int, j: int|
        0 <= i < j < s.len() ==> (#[trigger] s[i]).begin <= (#[trigger] s[j]).begin
}

/// Whether two interval lists are elementwise equal.
fn intervals_eq(a: &Vec<Interval>, b: &Vec<Interval>) -> (r: bool)
    ensures
        r == (a@ == b@),
{
    if a.len() != b.len() {
        return false;
    }
    let mut i: usize = 0;
    while i < a.len()
        invariant
            0 <= i <= a@.len(),
            a@.len() == b@.len(),
            forall|k: int| 0 <= k < i ==> a@[k] == b@[k],
        decreases a.len() - i,
    {
        if a[i].begin != b[i].begin || a[i].end != b[i].end {
            proof {
                assert(a@[i as int] != b@[i as int]);
            }
            return false;
        }
        i = i + 1;
    }
    proof {
        assert(a@ =~= b@);
    }
    true
}

/// Merges a sorted interval list into pairwise-disjoint intervals, never
/// growing the list.
#[verifier::loop_isolation(false)]
#[verifier::rlimit(60)]
fn merge_intervals(sorted_list: &Vec<Interval>) -> (r: Vec<Interval>)
    requires
        intervals_sorted(sorted_list@),
    ensures
        begins_sorted(r@),
        intervals_disjoint(r@),
        r@.len() <= sorted_list@.len(),
{
    let mut merged: Vec<Interval> = Vec::new();
    let n = sorted_list.len();
    let mut i: usize = 0;
    while i < n
        invariant
            0 <= i <= n,
            n == sorted_list@.len(),
            begins_sorted(merged@),
            intervals_disjoint(merged@),
            merged@.len() <= i,
            merged@.len() > 0 && i < n ==> merged@.last().begin <= sorted_list@[i as int].begin,
        decreases n - i,
    {
        let it = sorted_list[i];
        let mlen = merged.len();
        if mlen == 0 {
            merged.push(it);
        } else {
            let last = merged[mlen - 1];
            if last.end >= it.begin {
                if last.end < it.end {
                    let ghost pre_m = merged@;
                    merged[mlen - 1] = Interval { begin: last.begin, end: it.end };
                    proof {
                        assert forall|a: int, b: int|
                            0 <= a < b < merged@.len() implies (#[trigger] merged@[a]).begin <= (
                        #[trigger] merged@[b]).begin by {
                            assert(pre_m[a] == merged@[a]);
                            assert(merged@[b].begin == pre_m[b].begin);
                        }
                        assert forall|a: int, b: int|
                            0 <= a < b < merged@.len() implies (#[trigger] merged@[a]).end < (
                        #[trigger] merged@[b]).begin by {
                            assert(pre_m[a] == merged@[a]);
                            assert(merged@[b].begin == pre_m[b].begin);
                        }
                    }
                }
            } else {
                let ghost pre_m = merged@;
                merged.push(it);
                proof {
                    assert forall|a: int, b: int|
                        0 <= a < b < merged@.len() implies (#[trigger] merged@[a]).begin <= (
                    #[trigger] merged@[b]).begin by {
                        assert(pre_m[a] == merged@[a]);
                        if b < merged@.len() - 1 {
                            assert(pre_m[b] == merged@[b]);
                        } else {
                            assert(merged@[b] == it);
                            assert(pre_m[a].begin <= pre_m[pre_m.len() - 1].begin);
                        }
                    }
                    assert forall|a: int, b: int|
                        0 <= a < b < merged@.len() implies (#[trigger] merged@[a]).end < (
                    #[trigger] merged@[b]).begin by {
                        assert(pre_m[a] == merged@[a]);
                        if b < merged@.len() - 1 {
                            assert(pre_m[b] == merged@[b]);
                        } else {
                            assert(merged@[b] == it);
                            if a < pre_m.len() - 1 {
                                assert(pre_m[a].end < pre_m[pre_m.len() - 1].begin);
                                assert(pre_m[pre_m.len() - 1].begin <= it.begin);
                            }
                        }
                    }
                }
            }
        }
        proof {
            if merged@.len() > 0 && i + 1 < n {
                assert((sorted_list@[i as int].begin < sorted_list@[i + 1].begin) || (
                sorted_list@[i as int].begin == sorted_list@[i + 1].begin && sorted_list@[
                    i as int].end <= sorted_list@[i + 1].end));
            }
        }
        i = i + 1;
    }
    merged
}

impl TaxaNode {
    /// Sorts one end's intervals, folds the node's current coverage into
    /// its score, and replaces the list with merged, pairwise-disjoint
    /// intervals.
    #[verifier::loop_isolation(false)]
    #[verifier::rlimit(100)]
    pub fn clean_intervals(&mut self, read_end: ReadEnd)
        requires
            old(self).l_intervals@.len() + old(self).r_intervals@.len() <= 0xffff_ffff,
            old(self).score + intervals_length(old(self).l_intervals@) + intervals_length(
                old(self).r_intervals@,
            ) <= u64::MAX,
        ensures
            final(self).is_cleaned,
            final(self).id == old(self).id,
            final(self).rank == old(self).rank,
            final(self).score == old(self).score + intervals_length(old(self).l_intervals@)
                + intervals_length(old(self).r_intervals@),
            final(self).l_intervals@.len() <= old(self).l_intervals@.len(),
            final(self).r_intervals@.len() <= old(self).r_intervals@.len(),
            read_end == ReadEnd::LEFT ==> begins_sorted(final(self).l_intervals@)
                && intervals_disjoint(final(self).l_intervals@) && final(self).r_intervals@ == old(
                self,
            ).r_intervals@,
            read_end == ReadEnd::RIGHT ==> begins_sorted(final(self).r_intervals@)
                && intervals_disjoint(final(self).r_intervals@) && final(self).l_intervals@ == old(
                self,
            ).l_intervals@,
    {
        let src: Vec<Interval> = if read_end == ReadEnd::LEFT {
            let mut c: Vec<Interval> = Vec::new();
            let mut i: usize = 0;
            while i < self.l_intervals.len()
                invariant
                    0 <= i <= self.l_intervals@.len(),
                    *self == *old(self),
                    c@ == self.l_intervals@.take(i as int),
                decreases self.l_intervals.len() - i,
            {
                c.push(self.l_intervals[i]);
                i = i + 1;
            }
            proof {
                assert(c@ =~= self.l_intervals@);
            }
            c
        } else {
            let mut c: Vec<Interval> = Vec::new();
            let mut i: usize = 0;
            while i < self.r_intervals.len()
                invariant
                    0 <= i <= self.r_intervals@.len(),
                    *self == *old(self),
                    c@ == self.r_intervals@.take(i as int),
                decreases self.r_intervals.len() - i,
            {
                c.push(self.r_intervals[i]);
                i = i + 1;
            }
            proof {
                assert(c@ =~= self.r_intervals@);
            }
            c
        };
        let sorted_list = sort(src);
        let merged = merge_intervals(&sorted_list);
        self.update_score();
        if read_end == ReadEnd::LEFT {
            self.l_intervals = merged;
        } else {
            self.r_intervals = merged;
        }
        self.is_cleaned = true;
    }

    /// Cleans both nodes if needed, then compares their interval lists.
    pub fn compare_intervals(&mut self, other: &mut TaxaNode) -> (r: bool)
        requires
            old(self).l_intervals@.len() <= 0xffff,
            old(self).r_intervals@.len() <= 0xffff,
            old(self).score <= 0xffff_ffff,
            old(other).l_intervals@.len() <= 0xffff,
            old(other).r_intervals@.len() <= 0xffff,
            old(other).score <= 0xffff_ffff,
        ensures
            r == (final(self).l_intervals@ == final(other).l_intervals@
                && final(self).r_intervals@ == final(other).r_intervals@),
    {
        if !self.is_cleaned {
            proof {
                lemma_intervals_length_cap(self.l_intervals@);
                lemma_intervals_length_cap(self.r_intervals@);
            }
            self.clean_intervals(ReadEnd::LEFT);
            proof {
                lemma_intervals_length_cap(self.l_intervals@);
                lemma_intervals_length_cap(self.r_intervals@);
            }
            self.clean_intervals(ReadEnd::RIGHT);
        }
        if !other.is_cleaned {
            proof {
                lemma_intervals_length_cap(other.l_intervals@);
                lemma_intervals_length_cap(other.r_intervals@);
            }
            other.clean_intervals(ReadEnd::LEFT);
            proof {
                lemma_intervals_length_cap(other.l_intervals@);
                lemma_intervals_length_cap(other.r_intervals@);
            }
            other.clean_intervals(ReadEnd::RIGHT);
        }
        let l_same = intervals_eq(&self.l_intervals, &other.l_intervals);
        let r_same = intervals_eq(&self.r_intervals, &other.r_intervals);
        l_same && r_same
    }
}

} // verus!
