//! Small helpers shared by the pipeline: byte-sequence comparison and the
//! key-ordered sort used when a read's mappings are folded into an
//! equivalence class.
use vstd::prelude::*;

verus! {

/// A sequence of (reference id, weight) pairs is ordered when the reference
/// ids are non-decreasing.
pub open spec fn sorted_by_fst(s: Seq<(usize, u64)>) -> bool {
    forall|i: int, j: int| 0 <= i < j < s.len() ==> #[trigger] s[i].0 <= #[trigger] s[j].0
}

/// Exact byte-sequence equality.
pub fn bytes_eq(a: &[u8], b: &[u8]) -> (r: bool)
    ensures
        r == (a@ == b@),
{
    if a.len() != b.len() {
        return false;
    }
    let mut i: usize = 0;
    while i < a.len()
        invariant
            0 <= i <= a.len(),
            a@.len() == b@.len(),
            forall|k: int| 0 <= k < i ==> a@[k] == b@[k],
        decreases a.len() - i,
    {
        if a[i] != b[i] {
            return false;
        }
        i = i + 1;
    }
    proof {
        assert(a@ =~= b@);
    }
    true
}

/// Sorts (reference id, weight) pairs by ascending reference id, keeping the
/// weight attached to its id. The result is a permutation of the input.
pub fn sort_vec(vec: &Vec<(usize, u64)>) -> (r: Vec<(usize, u64)>)
    ensures
        sorted_by_fst(r@),
        r@.to_multiset() == vec@.to_multiset(),
        r@.len() == vec@.len(),
{
    let mut rest: Vec<(usize, u64)> = Vec::new();
    let mut j: usize = 0;
    while j < vec.len()
        invariant
            0 <= j <= vec@.len(),
            rest@ == vec@.subrange(0, j as int),
        decreases vec.len() - j,
    {
        rest.push(vec[j]);
        j = j + 1;
    }
    proof {
        assert(rest@ =~= vec@);
    }
    let mut out: Vec<(usize, u64)> = Vec::new();
    proof {
        broadcast use vstd::seq_lib::group_to_multiset_ensures;

        assert(out@.to_multiset().add(rest@.to_multiset()) =~= vec@.to_multiset());
    }
    while rest.len() > 0
        invariant
            out@.to_multiset().add(rest@.to_multiset()) == vec@.to_multiset(),
            out@.len() + rest@.len() == vec@.len(),
            sorted_by_fst(out@),
            forall|k: int, m: int|
                0 <= k < out@.len() && 0 <= m < rest@.len() ==> #[trigger] out@[k].0
                    <= #[trigger] rest@[m].0,
        decreases rest.len(),
    {
        let mut min_idx: usize = 0;
        let mut i: usize = 1;
        while i < rest.len()
            invariant
                0 <= min_idx < i <= rest@.len(),
                forall|k: int| 0 <= k < i ==> rest@[min_idx as int].0 <= #[trigger] rest@[k].0,
            decreases rest.len() - i,
        {
            if rest[i].0 < rest[min_idx].0 {
                min_idx = i;
            }
            i = i + 1;
        }
        let chosen = rest.remove(min_idx);
        proof {
            broadcast use vstd::seq_lib::group_to_multiset_ensures;
        }
        out.push(chosen);
        proof {
            assert(out@.to_multiset().add(rest@.to_multiset()) =~= vec@.to_multiset());
        }
    }
    out
}

/// Index of the first occurrence of `sep`, or -1 when absent.
pub open spec fn find_byte(s: Seq<u8>, sep: u8) -> int
    decreases s.len(),
{
    if s.len() == 0 {
        -1
    } else if s[0] == sep {
        0
    } else {
        let r = find_byte(s.drop_first(), sep);
        if r < 0 {
            -1
        } else {
            r + 1
        }
    }
}

/// The fields of `s` when cut at every occurrence of `sep`: always one more
/// field than separators, fields free of `sep`.
pub open spec fn split_bytes(s: Seq<u8>, sep: u8) -> Seq<Seq<u8>>
    decreases s.len(),
{
    let i = find_byte(s, sep);
    if i < 0 || i >= s.len() {
        seq![s]
    } else {
        seq![s.take(i)] + split_bytes(s.skip(i + 1), sep)
    }
}

/// `find_byte` points at an occurrence and nothing earlier is one.
pub proof fn lemma_find_byte_is_first(s: Seq<u8>, sep: u8)
    ensures
        find_byte(s, sep) == -1 ==> (forall|k: int| 0 <= k < s.len() ==> s[k] != sep),
        find_byte(s, sep) >= 0 ==> {
            &&& find_byte(s, sep) < s.len()
            &&& s[find_byte(s, sep)] == sep
            &&& forall|k: int| 0 <= k < find_byte(s, sep) ==> s[k] != sep
        },
    decreases s.len(),
{
    if s.len() > 0 && s[0] != sep {
        lemma_find_byte_is_first(s.drop_first(), sep);
        if find_byte(s, sep) == -1 {
            assert forall|k: int| 0 <= k < s.len() implies s[k] != sep by {
                if k > 0 {
                    assert(s.drop_first()[k - 1] == s[k]);
                }
            }
        } else {
            assert(s[find_byte(s, sep)] == s.drop_first()[find_byte(s.drop_first(), sep)]);
            assert forall|k: int| 0 <= k < find_byte(s, sep) implies s[k] != sep by {
                if k > 0 {
                    assert(s.drop_first()[k - 1] == s[k]);
                }
            }
        }
    }
}

/// When the first `m` bytes are not `sep` and byte `m` is, `find_byte` is `m`.
pub proof fn lemma_find_byte_at(s: Seq<u8>, sep: u8, m: int)
    requires
        0 <= m < s.len(),
        s[m] == sep,
        forall|k: int| 0 <= k < m ==> s[k] != sep,
    ensures
        find_byte(s, sep) == m,
    decreases m,
{
    if m > 0 {
        lemma_find_byte_at(s.drop_first(), sep, m - 1);
    }
}

/// When no byte is `sep`, `find_byte` reports absence.
pub proof fn lemma_find_byte_absent(s: Seq<u8>, sep: u8)
    requires
        forall|k: int| 0 <= k < s.len() ==> s[k] != sep,
    ensures
        find_byte(s, sep) == -1,
    decreases s.len(),
{
    if s.len() > 0 {
        lemma_find_byte_absent(s.drop_first(), sep);
    }
}

/// Splitting a buffer that starts with a separator-free field `a` followed by
/// `sep` yields `a` and then the split of the remainder.
pub proof fn lemma_split_prepend(a: Seq<u8>, rest: Seq<u8>, sep: u8)
    requires
        forall|k: int| 0 <= k < a.len() ==> a[k] != sep,
    ensures
        split_bytes(a + seq![sep] + rest, sep) == seq![a] + split_bytes(rest, sep),
{
    let s = a + seq![sep] + rest;
    assert(s[a.len() as int] == sep);
    lemma_find_byte_at(s, sep, a.len() as int);
    assert(s.take(a.len() as int) =~= a);
    assert(s.skip(a.len() as int + 1) =~= rest);
}

/// A separator-free buffer splits into exactly itself.
pub proof fn lemma_split_whole(a: Seq<u8>, sep: u8)
    requires
        forall|k: int| 0 <= k < a.len() ==> a[k] != sep,
    ensures
        split_bytes(a, sep) == seq![a],
{
    lemma_find_byte_absent(a, sep);
}

/// The views of a vector of byte vectors.
pub open spec fn views(v: Seq<Vec<u8>>) -> Seq<Seq<u8>> {
    v.map_values(|x: Vec<u8>| x@)
}

/// Cuts `s` at every occurrence of `sep`, returning exactly the fields of
/// `split_bytes`.
#[verifier::loop_isolation(false)]
pub fn split_on(s: &[u8], sep: u8) -> (r: Vec<Vec<u8>>)
    ensures
        views(r@) == split_bytes(s@, sep),
        r@.len() >= 1,
{
    let mut out: Vec<Vec<u8>> = Vec::new();
    let mut cur: Vec<u8> = Vec::new();
    let ghost mut start: int = 0;
    proof {
        assert(s@.skip(0) =~= s@);
        assert(views(out@) + split_bytes(s@, sep) =~= split_bytes(s@, sep));
    }
    let mut i: usize = 0;
    while i < s.len()
        invariant
            0 <= start <= i <= s@.len(),
            cur@ == s@.subrange(start, i as int),
            forall|k: int| start <= k < i ==> s@[k] != sep,
            split_bytes(s@, sep) == views(out@) + split_bytes(s@.skip(start), sep),
        decreases s.len() - i,
    {
        let b = s[i];
        if b == sep {
            proof {
                assert(s@.skip(start) =~= cur@ + seq![sep] + s@.skip(i + 1));
                lemma_split_prepend(cur@, s@.skip(i + 1), sep);
                assert(views(out@.push(cur)) =~= views(out@) + seq![cur@]);
                assert(views(out@) + (seq![cur@] + split_bytes(s@.skip(i + 1), sep)) =~= (views(
                    out@,
                ) + seq![cur@]) + split_bytes(s@.skip(i + 1), sep));
            }
            out.push(cur);
            cur = Vec::new();
            proof {
                start = i + 1;
            }
        } else {
            cur.push(b);
            proof {
                assert(cur@ =~= s@.subrange(start, i + 1));
            }
        }
        i = i + 1;
    }
    proof {
        assert(s@.skip(start) =~= cur@);
        lemma_split_whole(cur@, sep);
        assert(views(out@.push(cur)) =~= views(out@) + seq![cur@]);
    }
    out.push(cur);
    out
}

} // verus!

verus! {

/// Canonical decimal rendering of a non-negative number, most significant
/// digit first.
pub open spec fn dec_repr(v: int) -> Seq<u8>
    decreases v,
{
    if v < 10 {
        seq![(48 + if v >= 0 { v } else { 0 }) as u8]
    } else {
        dec_repr(v / 10).push((48 + v % 10) as u8)
    }
}

/// Renders a number in decimal, exactly its canonical representation.
#[verifier::loop_isolation(false)]
pub fn u64_to_dec(v: u64) -> (r: Vec<u8>)
    ensures
        r@ == dec_repr(v as int),
{
    let mut tmp: Vec<u8> = Vec::new();
    let mut value: u64 = v;
    if value == 0 {
        let mut out: Vec<u8> = Vec::new();
        out.push(48);
        proof {
            assert(out@ =~= dec_repr(0));
        }
        return out;
    }
    while value > 0
        invariant
            value > 0 ==> dec_repr(v as int) == dec_repr(value as int) + tmp@.reverse(),
            value == 0 ==> dec_repr(v as int) == tmp@.reverse(),
            v > 0,
        decreases value,
    {
        let d: u8 = (value % 10) as u8 + 48;
        proof {
            assert(tmp@.push(d).reverse() =~= seq![d] + tmp@.reverse());
            if value >= 10 {
                assert(dec_repr(value as int) == dec_repr(value as int / 10).push(
                    (48 + value as int % 10) as u8,
                ));
                assert(dec_repr(value as int / 10).push((48 + value as int % 10) as u8)
                    =~= dec_repr(value as int / 10) + seq![(48 + value as int % 10) as u8]);
                assert(dec_repr(value as int / 10) + (seq![d] + tmp@.reverse()) =~= (dec_repr(
                    value as int / 10,
                ) + seq![d]) + tmp@.reverse());
            } else {
                assert(dec_repr(value as int) =~= seq![d]);
            }
            vstd::arithmetic::div_mod::lemma_div_is_ordered_by_denominator(
                value as int,
                1,
                10,
            );
        }
        tmp.push(d);
        value = value / 10;
    }
    let mut out: Vec<u8> = Vec::new();
    let mut i: usize = tmp.len();
    while i > 0
        invariant
            0 <= i <= tmp@.len(),
            out@ == tmp@.reverse().take((tmp@.len() - i) as int),
        decreases i,
    {
        i = i - 1;
        out.push(tmp[i]);
        proof {
            assert(tmp@.reverse()[(tmp@.len() - i - 1) as int] == tmp@[i as int]);
            assert(out@ =~= tmp@.reverse().take((tmp@.len() - i) as int));
        }
    }
    proof {
        assert(out@ =~= tmp@.reverse());
    }
    out
}

} // verus!
