//! Text utilities shared by the library: string equality and the byte-wise
//! lexicographic order in which workload names are traversed.
//!
//! The order is defined over the UTF-8 encoding of a string's characters,
//! which is exactly the order `str` values have in Rust.

use vstd::prelude::*;
use vstd::string::StringSliceAdditionalSpecFns;

verus! {

broadcast use {vstd::string::group_string_axioms, vstd::utf8::group_utf8_lib};

/// Strict byte-wise lexicographic order on byte sequences.
pub open spec fn bytes_lt(a: Seq<u8>, b: Seq<u8>) -> bool
    decreases a.len(),
{
    if b.len() == 0 {
        false
    } else if a.len() == 0 {
        true
    } else if a[0] < b[0] {
        true
    } else if b[0] < a[0] {
        false
    } else {
        bytes_lt(a.drop_first(), b.drop_first())
    }
}

/// Strict order on strings, as sequences of characters: the order of their
/// UTF-8 encodings, which is the order `str` comparison uses.
pub open spec fn name_lt(a: Seq<char>, b: Seq<char>) -> bool {
    bytes_lt(vstd::utf8::encode_utf8(a), vstd::utf8::encode_utf8(b))
}

pub proof fn lemma_bytes_lt_irreflexive(a: Seq<u8>)
    ensures
        !bytes_lt(a, a),
    decreases a.len(),
{
    if a.len() > 0 {
        lemma_bytes_lt_irreflexive(a.drop_first());
    }
}

pub proof fn lemma_bytes_lt_total(a: Seq<u8>, b: Seq<u8>)
    ensures
        bytes_lt(a, b) || bytes_lt(b, a) || a == b,
    decreases a.len(),
{
    if a.len() == 0 || b.len() == 0 {
        if a.len() == b.len() {
            assert(a =~= b);
        }
    } else if a[0] == b[0] {
        lemma_bytes_lt_total(a.drop_first(), b.drop_first());
        if a.drop_first() == b.drop_first() {
            assert(a.drop_first().len() == a.len() - 1);
            assert(b.drop_first().len() == b.len() - 1);
            assert(a.len() == b.len());
            assert forall|i: int| 0 <= i < a.len() implies a[i] == b[i] by {
                if i > 0 {
                    assert(a.drop_first()[i - 1] == b.drop_first()[i - 1]);
                }
            }
            assert(a =~= b);
        }
    }
}

pub proof fn lemma_bytes_lt_transitive(a: Seq<u8>, b: Seq<u8>, c: Seq<u8>)
    requires
        bytes_lt(a, b),
        bytes_lt(b, c),
    ensures
        bytes_lt(a, c),
    decreases a.len(),
{
    if a.len() > 0 && b.len() > 0 && c.len() > 0 && a[0] == b[0] && b[0] == c[0] {
        lemma_bytes_lt_transitive(a.drop_first(), b.drop_first(), c.drop_first());
    }
}

/// The UTF-8 encoding is injective, so the string order inherits totality.
pub proof fn lemma_name_lt_total(a: Seq<char>, b: Seq<char>)
    ensures
        name_lt(a, b) || name_lt(b, a) || a == b,
{
    lemma_bytes_lt_total(vstd::utf8::encode_utf8(a), vstd::utf8::encode_utf8(b));
    if vstd::utf8::encode_utf8(a) == vstd::utf8::encode_utf8(b) {
        assert(vstd::utf8::decode_utf8(vstd::utf8::encode_utf8(a)) == a);
        assert(vstd::utf8::decode_utf8(vstd::utf8::encode_utf8(b)) == b);
    }
}

pub proof fn lemma_name_lt_irreflexive(a: Seq<char>)
    ensures
        !name_lt(a, a),
{
    lemma_bytes_lt_irreflexive(vstd::utf8::encode_utf8(a));
}

pub proof fn lemma_name_lt_transitive(a: Seq<char>, b: Seq<char>, c: Seq<char>)
    requires
        name_lt(a, b),
        name_lt(b, c),
    ensures
        name_lt(a, c),
{
    lemma_bytes_lt_transitive(
        vstd::utf8::encode_utf8(a),
        vstd::utf8::encode_utf8(b),
        vstd::utf8::encode_utf8(c),
    );
}

/// String equality, decided on the UTF-8 bytes.
pub fn str_eq(a: &str, b: &str) -> (r: bool)
    ensures
        r == (a@ == b@),
{
    let ab = a.as_bytes();
    let bb = b.as_bytes();
    if ab.len() != bb.len() {
        proof {
            assert(a@ != b@);
        }
        return false;
    }
    let n = ab.len();
    let mut i: usize = 0;
    while i < n
        invariant
            n == ab.len() == bb.len(),
            ab@ == a.spec_bytes(),
            bb@ == b.spec_bytes(),
            i <= n,
            forall|j: int| 0 <= j < i ==> ab@[j] == bb@[j],
        decreases n - i,
    {
        if ab[i] != bb[i] {
            proof {
                assert(a.spec_bytes()[i as int] != b.spec_bytes()[i as int]);
                assert(a@ != b@);
            }
            return false;
        }
        i += 1;
    }
    proof {
        assert(a.spec_bytes() =~= b.spec_bytes());
        assert(vstd::utf8::decode_utf8(a.spec_bytes()) == a@);
        assert(vstd::utf8::decode_utf8(b.spec_bytes()) == b@);
    }
    true
}

/// Strict comparison of strings in the byte-wise order.
pub fn str_lt(a: &str, b: &str) -> (r: bool)
    ensures
        r == name_lt(a@, b@),
{
    let ab = a.as_bytes();
    let bb = b.as_bytes();
    let an = ab.len();
    let bn = bb.len();
    let mut i: usize = 0;
    proof {
        assert(ab@.skip(0) =~= ab@);
        assert(bb@.skip(0) =~= bb@);
    }
    loop
        invariant
            an == ab.len(),
            bn == bb.len(),
            ab@ == a.spec_bytes(),
            bb@ == b.spec_bytes(),
            i <= an,
            i <= bn,
            name_lt(a@, b@) == bytes_lt(ab@.skip(i as int), bb@.skip(i as int)),
        decreases an - i,
    {
        proof {
            if i < an && i < bn {
                assert(ab@.skip(i as int)[0] == ab@[i as int]);
                assert(bb@.skip(i as int)[0] == bb@[i as int]);
                assert(ab@.skip(i as int).drop_first() =~= ab@.skip(i as int + 1));
                assert(bb@.skip(i as int).drop_first() =~= bb@.skip(i as int + 1));
            }
        }
        if i >= bn {
            proof {
                assert(bb@.skip(i as int).len() == 0);
            }
            return false;
        }
        if i >= an {
            proof {
                assert(ab@.skip(i as int).len() == 0);
                assert(bb@.skip(i as int).len() > 0);
            }
            return true;
        }
        let x = ab[i];
        let y = bb[i];
        if x < y {
            return true;
        }
        if y < x {
            return false;
        }
        i += 1;
    }
}

/// Strictly sorted in the byte-wise order: sorted and free of duplicates.
pub open spec fn sorted_strict(v: Seq<Seq<char>>) -> bool {
    forall|i: int, j: int| 0 <= i < j < v.len() ==> name_lt(#[trigger] v[i], #[trigger] v[j])
}

pub open spec fn string_views(s: Seq<String>) -> Seq<Seq<char>> {
    s.map_values(|x: String| x@)
}

/// Binary search in a strictly sorted vector of strings.
pub fn find_sorted(v: &Vec<String>, key: &str) -> (r: Option<usize>)
    requires
        sorted_strict(string_views(v@)),
    ensures
        match r {
            Some(i) => i < v@.len() && v@[i as int]@ == key@,
            None => forall|i: int| 0 <= i < v@.len() ==> string_views(v@)[i] != key@,
        },
{
    let ghost nv = string_views(v@);
    let n = v.len();
    let mut lo: usize = 0;
    let mut hi: usize = n;
    while lo < hi
        invariant
            n == v@.len(),
            lo <= hi <= n,
            sorted_strict(nv),
            nv == string_views(v@),
            forall|i: int| 0 <= i < lo ==> name_lt(#[trigger] nv[i], key@),
            forall|i: int| hi <= i < n ==> !name_lt(#[trigger] nv[i], key@),
        decreases hi - lo,
    {
        let mid = lo + (hi - lo) / 2;
        if str_lt(v[mid].as_str(), key) {
            proof {
                assert forall|i: int| 0 <= i < mid + 1 implies name_lt(#[trigger] nv[i], key@) by {
                    if i < mid {
                        lemma_name_lt_transitive(nv[i], nv[mid as int], key@);
                    }
                }
            }
            lo = mid + 1;
        } else {
            proof {
                assert forall|i: int| mid <= i < n implies !name_lt(#[trigger] nv[i], key@) by {
                    if i > mid && name_lt(nv[i], key@) {
                        lemma_name_lt_transitive(nv[mid as int], nv[i], key@);
                    }
                }
            }
            hi = mid;
        }
    }
    if lo < n && str_eq(v[lo].as_str(), key) {
        Some(lo)
    } else {
        proof {
            assert forall|i: int| 0 <= i < n implies nv[i] != key@ by {
                if i < lo {
                    if nv[i] == key@ {
                        lemma_name_lt_irreflexive(key@);
                    }
                } else if i > lo {
                    if nv[i] == key@ {
                        if lo < n {
                            lemma_name_lt_total(nv[lo as int], key@);
                            if name_lt(key@, nv[lo as int]) {
                                lemma_name_lt_transitive(key@, nv[lo as int], nv[i]);
                                lemma_name_lt_irreflexive(key@);
                            } else {
                                lemma_name_lt_irreflexive(key@);
                            }
                        }
                    }
                } else {
                    if lo < n && nv[i] == key@ {
                        assert(false);
                    }
                }
            }
        }
        None
    }
}

/// Inserts a string that is not yet present, keeping the vector strictly
/// sorted; returns the position at which it was inserted.
pub fn insert_sorted(v: &mut Vec<String>, x: String) -> (pos: usize)
    requires
        sorted_strict(string_views(old(v)@)),
        forall|i: int| 0 <= i < old(v)@.len() ==> string_views(old(v)@)[i] != x@,
    ensures
        pos <= old(v)@.len(),
        final(v)@ == old(v)@.insert(pos as int, x),
        sorted_strict(string_views(final(v)@)),
{
    let ghost nv = string_views(v@);
    let n = v.len();
    let mut lo: usize = 0;
    let mut hi: usize = n;
    while lo < hi
        invariant
            n == v@.len(),
            lo <= hi <= n,
            sorted_strict(nv),
            nv == string_views(v@),
            forall|i: int| 0 <= i < nv.len() ==> nv[i] != x@,
            forall|i: int| 0 <= i < lo ==> name_lt(#[trigger] nv[i], x@),
            forall|i: int| hi <= i < n ==> !name_lt(#[trigger] nv[i], x@),
        decreases hi - lo,
    {
        let mid = lo + (hi - lo) / 2;
        if str_lt(v[mid].as_str(), x.as_str()) {
            proof {
                assert forall|i: int| 0 <= i < mid + 1 implies name_lt(#[trigger] nv[i], x@) by {
                    if i < mid {
                        lemma_name_lt_transitive(nv[i], nv[mid as int], x@);
                    }
                }
            }
            lo = mid + 1;
        } else {
            proof {
                assert forall|i: int| mid <= i < n implies !name_lt(#[trigger] nv[i], x@) by {
                    if i > mid && name_lt(nv[i], x@) {
                        lemma_name_lt_transitive(nv[mid as int], nv[i], x@);
                    }
                }
            }
            hi = mid;
        }
    }
    proof {
        assert forall|i: int| lo <= i < n implies name_lt(x@, #[trigger] nv[i]) by {
            lemma_name_lt_total(nv[i], x@);
        }
    }
    let ghost old_v = v@;
    v.insert(lo, x);
    proof {
        let fv = string_views(v@);
        assert(v@ == old_v.insert(lo as int, x));
        assert(v@ =~= old_v.subrange(0, lo as int).push(x) + old_v.subrange(
            lo as int,
            old_v.len() as int,
        ));
        assert(v@[lo as int] == x);
        assert(forall|t: int| 0 <= t < lo ==> v@[t] == old_v[t]);
        assert(forall|t: int| lo < t < v@.len() ==> v@[t] == old_v[t - 1]);
        assert forall|i: int, j: int| 0 <= i < j < fv.len() implies name_lt(
            #[trigger] fv[i],
            #[trigger] fv[j],
        ) by {
            assert(fv[i] == v@[i]@);
            assert(fv[j] == v@[j]@);
            if i < lo && j < lo {
                assert(nv[i] == old_v[i]@);
                assert(nv[j] == old_v[j]@);
                assert(name_lt(nv[i], nv[j]));
            } else if i < lo && j == lo {
                assert(nv[i] == old_v[i]@);
                assert(name_lt(nv[i], x@));
            } else if i < lo && j > lo {
                assert(nv[i] == old_v[i]@);
                assert(nv[j - 1] == old_v[j - 1]@);
                assert(name_lt(nv[i], nv[j - 1]));
            } else if i == lo {
                assert(nv[j - 1] == old_v[j - 1]@);
                assert(name_lt(x@, nv[j - 1]));
            } else {
                assert(nv[i - 1] == old_v[i - 1]@);
                assert(nv[j - 1] == old_v[j - 1]@);
                assert(name_lt(nv[i - 1], nv[j - 1]));
            }
        }
    }
    lo
}

} // verus!

verus! {

/// Finds the last position holding the given text, scanning from the back.
pub fn rfind_str(v: &Vec<String>, key: &str) -> (r: Option<usize>)
    ensures
        match r {
            Some(i) => i < v@.len() && v@[i as int]@ == key@,
            None => forall|t: int| 0 <= t < v@.len() ==> string_views(v@)[t] != key@,
        },
{
    let mut j = v.len();
    while j > 0
        invariant
            j <= v@.len(),
            forall|t: int| j <= t < v@.len() ==> string_views(v@)[t] != key@,
        decreases j,
    {
        if str_eq(v[j - 1].as_str(), key) {
            return Some(j - 1);
        }
        proof {
            assert(string_views(v@)[j - 1] == v@[j - 1]@);
        }
        j -= 1;
    }
    None
}

} // verus!
