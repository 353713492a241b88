//! Lineage enrichment of the assignment table: maps assigned reference
//! accessions to taxonomy ids, walks each id's ancestor chain through the
//! taxonomy nodes, normalises the seven canonical ranks, and renders the
//! tab-separated lineage table.
use vstd::prelude::*;

use crate::util::bytes_eq;
use crate::util::split_on;

verus! {

/// One lineage step: a rank name and a scientific name.
pub struct Lineage {
    pub rank: Vec<u8>,
    pub name: Vec<u8>,
}

impl Lineage {
    pub fn new(rank: Vec<u8>, name: Vec<u8>) -> (r: Lineage)
        ensures
            r.rank@ == rank@,
            r.name@ == name@,
    {
        Lineage { rank, name }
    }

    pub fn get_rank(&self) -> (r: Vec<u8>)
        ensures
            r@ == self.rank@,
    {
        crate::readers::copy_bytes(self.rank.as_slice())
    }

    pub fn get_name(&self) -> (r: Vec<u8>)
        ensures
            r@ == self.name@,
    {
        crate::readers::copy_bytes(self.name.as_slice())
    }

    fn clone_of(&self) -> (r: Lineage)
        ensures
            r.rank@ == self.rank@,
            r.name@ == self.name@,
    {
        Lineage {
            rank: crate::readers::copy_bytes(self.rank.as_slice()),
            name: crate::readers::copy_bytes(self.name.as_slice()),
        }
    }
}

/// The bytes of `NA`.
pub open spec fn na_bytes() -> Seq<u8> {
    seq![78u8, 65u8]
}

/// The seven canonical rank names, finest first.
fn canonical_ranks() -> (r: Vec<Vec<u8>>)
    ensures
        r@.len() == 7,
{
    let mut v: Vec<Vec<u8>> = Vec::new();
    v.push(vec![115u8, 112u8, 101u8, 99u8, 105u8, 101u8, 115u8]);
    v.push(vec![103u8, 101u8, 110u8, 117u8, 115u8]);
    v.push(vec![102u8, 97u8, 109u8, 105u8, 108u8, 121u8]);
    v.push(vec![111u8, 114u8, 100u8, 101u8, 114u8]);
    v.push(vec![99u8, 108u8, 97u8, 115u8, 115u8]);
    v.push(vec![112u8, 104u8, 121u8, 108u8, 117u8, 109u8]);
    v.push(vec![115u8, 117u8, 112u8, 101u8, 114u8, 107u8, 105u8, 110u8, 103u8, 100u8, 111u8, 109u8]);
    v
}

/// A lineage of eight `NA` steps: the rendering of an assignment whose
/// reference has no known taxonomy.
pub fn create_na_lineage() -> (r: Vec<Lineage>)
    ensures
        r@.len() == 8,
        forall|k: int|
            0 <= k < 8 ==> (#[trigger] r@[k]).rank@ == na_bytes() && r@[k].name@ == na_bytes(),
{
    let mut v: Vec<Lineage> = Vec::new();
    let mut i: usize = 0;
    while i < 8
        invariant
            0 <= i <= 8,
            v@.len() == i,
            forall|k: int|
                0 <= k < i ==> (#[trigger] v@[k]).rank@ == na_bytes() && v@[k].name@ == na_bytes(),
        decreases 8 - i,
    {
        let na1: Vec<u8> = vec![78u8, 65u8];
        let na2: Vec<u8> = vec![78u8, 65u8];
        proof {
            assert(na1@ =~= na_bytes());
            assert(na2@ =~= na_bytes());
        }
        v.push(Lineage { rank: na1, name: na2 });
        i = i + 1;
    }
    v
}

/// Normalises each entry's lineage to exactly eight steps: the entry's own
/// step first, then one step per canonical rank, `NA` where the walk found
/// none.
#[verifier::loop_isolation(false)]
pub fn fix_empty_ranks(lineage: Vec<(Vec<u8>, Vec<Lineage>)>) -> (r: Vec<(Vec<u8>, Vec<Lineage>)>)
    requires
        forall|k: int| 0 <= k < lineage@.len() ==> (#[trigger] lineage@[k]).1@.len() >= 1,
    ensures
        r@.len() == lineage@.len(),
        forall|k: int| 0 <= k < r@.len() ==> (#[trigger] r@[k]).0@ == lineage@[k].0@,
        forall|k: int| 0 <= k < r@.len() ==> (#[trigger] r@[k]).1@.len() == 8,
{
    let ranks = canonical_ranks();
    let mut out: Vec<(Vec<u8>, Vec<Lineage>)> = Vec::new();
    let n = lineage.len();
    let mut i: usize = 0;
    while i < n
        invariant
            0 <= i <= n,
            n == lineage@.len(),
            ranks@.len() == 7,
            out@.len() == i,
            forall|k: int| 0 <= k < i ==> (#[trigger] out@[k]).0@ == lineage@[k].0@,
            forall|k: int| 0 <= k < i ==> (#[trigger] out@[k]).1@.len() == 8,
        decreases n - i,
    {
        let key = crate::readers::copy_bytes(lineage[i].0.as_slice());
        let val = &lineage[i].1;
        let mut used: Vec<bool> = Vec::new();
        let mut u: usize = 0;
        while u < val.len()
            invariant
                0 <= u <= val@.len(),
                used@.len() == u,
            decreases val.len() - u,
        {
            used.push(u == 0);
            u = u + 1;
        }
        let mut new_val: Vec<Lineage> = Vec::new();
        new_val.push(val[0].clone_of());
        let mut rk: usize = 0;
        while rk < 7
            invariant
                0 <= rk <= 7,
                ranks@.len() == 7,
                0 <= i < lineage@.len(),
                val == lineage@[i as int].1,
                val@.len() >= 1,
                used@.len() == val@.len(),
                new_val@.len() == rk + 1,
            decreases 7 - rk,
        {
            let mut element: Option<usize> = None;
            let mut s: usize = 0;
            while s < val.len()
                invariant
                    0 <= s <= val@.len(),
                    used@.len() == val@.len(),
                    element matches Option::Some(x) ==> x < val@.len(),
                decreases val.len() - s,
            {
                if !used[s] && element.is_none() {
                    if bytes_eq(val[s].rank.as_slice(), ranks[rk].as_slice()) {
                        element = Some(s);
                    }
                }
                s = s + 1;
            }
            match element {
                Some(x) => {
                    new_val.push(val[x].clone_of());
                    used[x] = true;
                },
                None => {
                    let na1: Vec<u8> = vec![78u8, 65u8];
                    let rname = crate::readers::copy_bytes(ranks[rk].as_slice());
                    new_val.push(Lineage { rank: rname, name: na1 });
                },
            }
            rk = rk + 1;
        }
        out.push((key, new_val));
        i = i + 1;
    }
    out
}

/// Builds the accession-to-taxonomy-id maps from the tab-separated mapping
/// lines: each well-formed line's first field is an accession and second a
/// taxonomy id. Lines without two fields carry nothing.
#[verifier::loop_isolation(false)]
pub fn temp_accessions_2_tax_id(at_lines: &Vec<Vec<u8>>) -> (r: Vec<(Vec<u8>, Vec<u8>)>)
    ensures
        r@.len() <= at_lines@.len(),
{
    let mut accessions_2_tax: Vec<(Vec<u8>, Vec<u8>)> = Vec::new();
    let n = at_lines.len();
    let mut i: usize = 0;
    while i < n
        invariant
            0 <= i <= n,
            n == at_lines@.len(),
            accessions_2_tax@.len() <= i,
        decreases n - i,
    {
        let chunks = split_on(at_lines[i].as_slice(), 9);
        if chunks.len() >= 2 {
            let acc = crate::readers::copy_bytes(chunks[0].as_slice());
            let tid = crate::readers::copy_bytes(chunks[1].as_slice());
            accessions_2_tax.push((acc, tid));
        }
        i = i + 1;
    }
    accessions_2_tax
}

/// Looks a key up in a byte-keyed pair table.
fn lookup(table: &Vec<(Vec<u8>, Vec<u8>)>, key: &[u8]) -> (r: Option<usize>)
    ensures
        match r {
            Some(i) => i < table@.len() && table@[i as int].0@ == key@,
            None => forall|k: int| 0 <= k < table@.len() ==> (#[trigger] table@[k]).0@ != key@,
        },
{
    let mut i: usize = 0;
    while i < table.len()
        invariant
            0 <= i <= table@.len(),
            forall|k: int| 0 <= k < i ==> (#[trigger] table@[k]).0@ != key@,
        decreases table.len() - i,
    {
        if bytes_eq(table[i].0.as_slice(), key) {
            return Some(i);
        }
        i = i + 1;
    }
    None
}

/// Trims leading and trailing blanks (spaces and tabs) off a field.
fn trim_bytes(s: &[u8]) -> (r: Vec<u8>)
    ensures
        r@.len() <= s@.len(),
        r@.len() > 0 ==> r@[0] != 32 && r@[0] != 9 && r@[r@.len() - 1] != 32 && r@[r@.len() - 1]
            != 9,
{
    let mut a: usize = 0;
    while a < s.len() && (s[a] == 32 || s[a] == 9)
        invariant
            0 <= a <= s@.len(),
        decreases s.len() - a,
    {
        a = a + 1;
    }
    let mut b: usize = s.len();
    while b > a && (s[b - 1] == 32 || s[b - 1] == 9)
        invariant
            a <= b <= s@.len(),
        decreases b,
    {
        b = b - 1;
    }
    let mut out: Vec<u8> = Vec::new();
    let mut i: usize = a;
    while i < b
        invariant
            a <= i <= b <= s@.len(),
            out@ == s@.subrange(a as int, i as int),
            b > a ==> s@[a as int] != 32 && s@[a as int] != 9 && s@[b - 1] != 32 && s@[b - 1] != 9,
        decreases b - i,
    {
        out.push(s[i]);
        proof {
            assert(out@ =~= s@.subrange(a as int, i + 1));
        }
        i = i + 1;
    }
    out
}

/// The sentinel taxonomy roots at which a lineage walk stops: cellular
/// organisms and viruses.
fn is_sentinel_root(tid: &[u8]) -> (r: bool)
{
    let cellular: Vec<u8> = vec![49u8, 51u8, 49u8, 53u8, 54u8, 55u8];
    let viruses: Vec<u8> = vec![49u8, 48u8, 50u8, 51u8, 57u8];
    bytes_eq(tid, cellular.as_slice()) || bytes_eq(tid, viruses.as_slice())
}

/// Builds each taxonomy id's lineage from the nodes and names dump lines:
/// nodes lines give `id | parent | rank`, names lines give scientific
/// names; each requested id is walked to a sentinel root, keeping its own
/// step and every step at a canonical rank, then normalised to eight steps.
/// A walk is cut off after as many steps as there are node lines, so a
/// cyclic dump cannot loop.
#[verifier::loop_isolation(false)]
pub fn build_taxonomy(
    nodes_lines: &Vec<Vec<u8>>,
    names_lines: &Vec<Vec<u8>>,
    tax_ids: &Vec<Vec<u8>>,
) -> (r: Vec<(Vec<u8>, Vec<Lineage>)>)
    ensures
        r@.len() == tax_ids@.len(),
        forall|k: int| 0 <= k < r@.len() ==> (#[trigger] r@[k]).1@.len() == 8,
        forall|k: int| 0 <= k < r@.len() ==> (#[trigger] r@[k]).0@ == tax_ids@[k]@,
{
    // nodes: id -> (parent id, rank string)
    let mut nodes: Vec<(Vec<u8>, Vec<u8>)> = Vec::new();
    let mut ranks_of: Vec<(Vec<u8>, Vec<u8>)> = Vec::new();
    let mut i: usize = 0;
    while i < nodes_lines.len()
        invariant
            0 <= i <= nodes_lines@.len(),
        decreases nodes_lines.len() - i,
    {
        let chunks = split_on(nodes_lines[i].as_slice(), 124);
        if chunks.len() >= 3 {
            let id = trim_bytes(chunks[0].as_slice());
            let parent = trim_bytes(chunks[1].as_slice());
            let rank = trim_bytes(chunks[2].as_slice());
            let id2 = crate::readers::copy_bytes(id.as_slice());
            nodes.push((id, parent));
            ranks_of.push((id2, rank));
        }
        i = i + 1;
    }
    // names: id -> scientific name
    let mut names: Vec<(Vec<u8>, Vec<u8>)> = Vec::new();
    let sci: Vec<u8> = vec![
        115u8, 99u8, 105u8, 101u8, 110u8, 116u8, 105u8, 102u8, 105u8, 99u8, 32u8, 110u8, 97u8,
        109u8, 101u8,
    ];
    let mut j: usize = 0;
    while j < names_lines.len()
        invariant
            0 <= j <= names_lines@.len(),
        decreases names_lines.len() - j,
    {
        let chunks = split_on(names_lines[j].as_slice(), 124);
        if chunks.len() >= 4 {
            let kind = trim_bytes(chunks[3].as_slice());
            if bytes_eq(kind.as_slice(), sci.as_slice()) {
                let id = trim_bytes(chunks[0].as_slice());
                let nm = trim_bytes(chunks[1].as_slice());
                names.push((id, nm));
            }
        }
        j = j + 1;
    }
    let ranks = canonical_ranks();
    let mut lineage: Vec<(Vec<u8>, Vec<Lineage>)> = Vec::new();
    let mut t: usize = 0;
    while t < tax_ids.len()
        invariant
            0 <= t <= tax_ids@.len(),
            ranks@.len() == 7,
            lineage@.len() == t,
            forall|k: int| 0 <= k < t ==> (#[trigger] lineage@[k]).1@.len() >= 1,
            forall|k: int| 0 <= k < t ==> (#[trigger] lineage@[k]).0@ == tax_ids@[k]@,
        decreases tax_ids.len() - t,
    {
        let key = crate::readers::copy_bytes(tax_ids[t].as_slice());
        let mut steps: Vec<Lineage> = Vec::new();
        let mut parent = crate::readers::copy_bytes(tax_ids[t].as_slice());
        let mut hops: usize = 0;
        let budget = if nodes.len() < 0xffff_ffff { nodes.len() + 1 } else { nodes.len() };
        while hops < budget
            invariant
                0 <= hops <= budget,
                ranks@.len() == 7,
            decreases budget - hops,
        {
            if is_sentinel_root(parent.as_slice()) {
                break ;
            }
            let node_idx = match lookup(&nodes, parent.as_slice()) {
                Some(x) => x,
                None => {
                    break ;
                },
            };
            let rank_val: Vec<u8> = match lookup(&ranks_of, parent.as_slice()) {
                Some(x) => crate::readers::copy_bytes(ranks_of[x].1.as_slice()),
                None => Vec::new(),
            };
            let name_val: Vec<u8> = match lookup(&names, parent.as_slice()) {
                Some(x) => crate::readers::copy_bytes(names[x].1.as_slice()),
                None => {
                    let na: Vec<u8> = vec![78u8, 65u8];
                    na
                },
            };
            // keep the id's own step, and ancestor steps at canonical ranks
            let mut keep = hops == 0;
            let mut rk: usize = 0;
            while rk < 7
                invariant
                    0 <= rk <= 7,
                    ranks@.len() == 7,
                decreases 7 - rk,
            {
                if bytes_eq(rank_val.as_slice(), ranks[rk].as_slice()) {
                    keep = true;
                }
                rk = rk + 1;
            }
            if keep {
                steps.push(Lineage { rank: rank_val, name: name_val });
            }
            parent = crate::readers::copy_bytes(nodes[node_idx].1.as_slice());
            hops = hops + 1;
        }
        if steps.len() == 0 {
            let na1: Vec<u8> = vec![78u8, 65u8];
            let na2: Vec<u8> = vec![78u8, 65u8];
            steps.push(Lineage { rank: na1, name: na2 });
        }
        lineage.push((key, steps));
        t = t + 1;
    }
    fix_empty_ranks(lineage)
}

} // verus!

verus! {

/// Joins every assignment with its reference's lineage: the reference's
/// accession is mapped to a taxonomy id and that id's lineage attached; an
/// unknown accession gets the all-`NA` lineage. One row per assignment, in
/// order.
#[verifier::loop_isolation(false)]
pub fn assignments_2_lineage(
    assignments: &Vec<(Vec<u8>, Vec<u8>)>,
    lineage: &Vec<(Vec<u8>, Vec<Lineage>)>,
    accessions_2_tax: &Vec<(Vec<u8>, Vec<u8>)>,
) -> (r: Vec<(Vec<u8>, (Vec<u8>, Vec<Lineage>))>)
    requires
        forall|k: int| 0 <= k < lineage@.len() ==> (#[trigger] lineage@[k]).1@.len() == 8,
    ensures
        r@.len() == assignments@.len(),
        forall|k: int| 0 <= k < r@.len() ==> (#[trigger] r@[k]).0@ == assignments@[k].0@,
        forall|k: int| 0 <= k < r@.len() ==> (#[trigger] r@[k]).1.0@ == assignments@[k].1@,
        forall|k: int| 0 <= k < r@.len() ==> (#[trigger] r@[k]).1.1@.len() == 8,
{
    let mut out: Vec<(Vec<u8>, (Vec<u8>, Vec<Lineage>))> = Vec::new();
    let n = assignments.len();
    let mut i: usize = 0;
    while i < n
        invariant
            0 <= i <= n,
            n == assignments@.len(),
            out@.len() == i,
            forall|k: int| 0 <= k < i ==> (#[trigger] out@[k]).0@ == assignments@[k].0@,
            forall|k: int| 0 <= k < i ==> (#[trigger] out@[k]).1.0@ == assignments@[k].1@,
            forall|k: int| 0 <= k < i ==> (#[trigger] out@[k]).1.1@.len() == 8,
        decreases n - i,
    {
        let query = crate::readers::copy_bytes(assignments[i].0.as_slice());
        let reference = crate::readers::copy_bytes(assignments[i].1.as_slice());
        let assigned: Vec<Lineage> = match lookup(accessions_2_tax, assignments[i].1.as_slice()) {
            Some(ai) => {
                let tid = &accessions_2_tax[ai].1;
                let mut found: Option<usize> = None;
                let mut li: usize = 0;
                while li < lineage.len()
                    invariant
                        0 <= li <= lineage@.len(),
                        found matches Option::Some(x) ==> x < lineage@.len(),
                    decreases lineage.len() - li,
                {
                    if found.is_none() && bytes_eq(lineage[li].0.as_slice(), tid.as_slice()) {
                        found = Some(li);
                    }
                    li = li + 1;
                }
                match found {
                    Some(x) => {
                        let src = &lineage[x].1;
                        let mut copy: Vec<Lineage> = Vec::new();
                        let mut c: usize = 0;
                        while c < src.len()
                            invariant
                                0 <= c <= src@.len(),
                                copy@.len() == c,
                            decreases src.len() - c,
                        {
                            copy.push(src[c].clone_of());
                            c = c + 1;
                        }
                        proof {
                            assert(copy@.len() == 8);
                        }
                        copy
                    },
                    None => create_na_lineage(),
                }
            },
            None => create_na_lineage(),
        };
        out.push((query, (reference, assigned)));
        i = i + 1;
    }
    out
}

/// The lineage table header.
fn header_bytes() -> (r: Vec<u8>)
{
    let mut v: Vec<u8> = Vec::new();
    let words: Vec<u8> = vec![
        81u8, 117u8, 101u8, 114u8, 121u8, 9u8, 82u8, 101u8, 102u8, 101u8, 114u8, 101u8, 110u8,
        99u8, 101u8, 9u8, 83u8, 112u8, 101u8, 99u8, 105u8, 101u8, 115u8, 9u8, 71u8, 101u8, 110u8,
        117u8, 115u8, 9u8, 70u8, 97u8, 109u8, 105u8, 108u8, 121u8, 9u8, 79u8, 114u8, 100u8, 101u8,
        114u8, 9u8, 67u8, 108u8, 97u8, 115u8, 115u8, 9u8, 80u8, 104u8, 121u8, 108u8, 117u8, 109u8,
        9u8, 83u8, 117u8, 112u8, 101u8, 114u8, 107u8, 105u8, 110u8, 103u8, 100u8, 111u8, 109u8,
        10u8, 10u8,
    ];
    let mut i: usize = 0;
    while i < words.len()
        invariant
            0 <= i <= words@.len(),
        decreases words.len() - i,
    {
        v.push(words[i]);
        i = i + 1;
    }
    v
}

/// Renders the lineage table: the header, then one tab-separated line per
/// assignment with the query, the reference, and the seven rank names of
/// its lineage.
#[verifier::loop_isolation(false)]
pub fn write_results(assignment2lineage: &Vec<(Vec<u8>, (Vec<u8>, Vec<Lineage>))>) -> (r: Vec<u8>)
    requires
        forall|k: int|
            0 <= k < assignment2lineage@.len() ==> (#[trigger] assignment2lineage@[k]).1.1@.len()
                == 8,
{
    let mut out = header_bytes();
    let n = assignment2lineage.len();
    let mut i: usize = 0;
    while i < n
        invariant
            0 <= i <= n,
            n == assignment2lineage@.len(),
        decreases n - i,
    {
        let row = &assignment2lineage[i];
        let mut c: usize = 0;
        let q = &row.0;
        while c < q.len()
            invariant
                0 <= c <= q@.len(),
            decreases q.len() - c,
        {
            out.push(q[c]);
            c = c + 1;
        }
        out.push(9);
        let rf = &row.1.0;
        let mut c2: usize = 0;
        while c2 < rf.len()
            invariant
                0 <= c2 <= rf@.len(),
            decreases rf.len() - c2,
        {
            out.push(rf[c2]);
            c2 = c2 + 1;
        }
        let mut li: usize = 1;
        while li < row.1.1.len()
            invariant
                1 <= li <= row.1.1@.len(),
                0 <= i < assignment2lineage@.len(),
                row == assignment2lineage@[i as int],
            decreases row.1.1.len() - li,
        {
            out.push(9);
            let nm = &row.1.1[li].name;
            let mut c3: usize = 0;
            while c3 < nm.len()
                invariant
                    0 <= c3 <= nm@.len(),
                decreases nm.len() - c3,
            {
                out.push(nm[c3]);
                c3 = c3 + 1;
            }
            li = li + 1;
        }
        out.push(10);
        i = i + 1;
    }
    out
}

/// The lineage pipeline: builds the accession maps from the mapping lines,
/// the lineages from the taxonomy dump lines, joins them onto the
/// assignments and renders the table.
pub fn tax_main(
    assignments: &Vec<(Vec<u8>, Vec<u8>)>,
    at_lines: &Vec<Vec<u8>>,
    nodes_lines: &Vec<Vec<u8>>,
    names_lines: &Vec<Vec<u8>>,
) -> (r: Vec<u8>)
{
    let accessions_2_tax = temp_accessions_2_tax_id(at_lines);
    let mut tax_ids: Vec<Vec<u8>> = Vec::new();
    let mut i: usize = 0;
    while i < accessions_2_tax.len()
        invariant
            0 <= i <= accessions_2_tax@.len(),
        decreases accessions_2_tax.len() - i,
    {
        tax_ids.push(crate::readers::copy_bytes(accessions_2_tax[i].1.as_slice()));
        i = i + 1;
    }
    let lineage = build_taxonomy(nodes_lines, names_lines, &tax_ids);
    let joined = assignments_2_lineage(assignments, &lineage, &accessions_2_tax);
    write_results(&joined)
}

} // verus!
