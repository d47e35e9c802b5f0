//! Identifier keys: strings ordered as Rust orders `str` (lexicographically by their
//! UTF-8 bytes), which is the iteration order of an ordered map keyed by `String`.
use vstd::prelude::*;
use vstd::string::*;
use vstd::utf8::*;

verus! {

/// `a` and `b` agree on their first `i` elements.
pub open spec fn agree_upto(a: Seq<u8>, b: Seq<u8>, i: int) -> bool {
    &&& 0 <= i <= a.len()
    &&& i <= b.len()
    &&& forall|j: int| 0 <= j < i ==> #[trigger] a[j] == b[j]
}

/// `a` and `b` first differ at `i`, with `a` smaller there (or `a` ends there first).
pub open spec fn smaller_at(a: Seq<u8>, b: Seq<u8>, i: int) -> bool {
    &&& agree_upto(a, b, i)
    &&& i < b.len()
    &&& (i == a.len() || a[i] < b[i])
}

/// Lexicographic order on byte strings.
pub open spec fn bytes_lt(a: Seq<u8>, b: Seq<u8>) -> bool {
    exists|i: int| smaller_at(a, b, i)
}

/// The byte key of a string: its UTF-8 encoding.
pub open spec fn key(s: Seq<char>) -> Seq<u8> {
    encode_utf8(s)
}

/// String order, as `str` orders strings.
pub open spec fn id_lt(a: Seq<char>, b: Seq<char>) -> bool {
    bytes_lt(key(a), key(b))
}

pub proof fn lemma_bytes_lt_irreflexive(a: Seq<u8>)
    ensures
        !bytes_lt(a, a),
{
}

pub proof fn lemma_bytes_lt_transitive(a: Seq<u8>, b: Seq<u8>, c: Seq<u8>)
    requires
        bytes_lt(a, b),
        bytes_lt(b, c),
    ensures
        bytes_lt(a, c),
{
    let i = choose|i: int| smaller_at(a, b, i);
    let j = choose|j: int| smaller_at(b, c, j);
    if i < j {
        assert(smaller_at(a, c, i));
    } else if j < i {
        assert(smaller_at(a, c, j));
    } else {
        assert(smaller_at(a, c, i));
    }
}

pub proof fn lemma_bytes_lt_asymmetric(a: Seq<u8>, b: Seq<u8>)
    requires
        bytes_lt(a, b),
    ensures
        !bytes_lt(b, a),
{
    if bytes_lt(b, a) {
        lemma_bytes_lt_transitive(a, b, a);
    }
}

pub proof fn lemma_bytes_lt_total(a: Seq<u8>, b: Seq<u8>)
    requires
        a != b,
    ensures
        bytes_lt(a, b) || bytes_lt(b, a),
    decreases a.len(),
{
    if a.len() == 0 {
        if b.len() == 0 {
            assert(a =~= b);
        }
        assert(smaller_at(a, b, 0));
    } else if b.len() == 0 {
        assert(smaller_at(b, a, 0));
    } else if a[0] < b[0] {
        assert(smaller_at(a, b, 0));
    } else if b[0] < a[0] {
        assert(smaller_at(b, a, 0));
    } else {
        let a1 = a.drop_first();
        let b1 = b.drop_first();
        if a1 == b1 {
            assert(a1.len() == b1.len());
            assert(a.len() == b.len());
            assert(a =~= b) by {
                assert forall|k: int| 0 <= k < a.len() implies a[k] == b[k] by {
                    if k > 0 {
                        assert(a[k] == a1[k - 1]);
                        assert(b[k] == b1[k - 1]);
                    }
                }
            }
        }
        lemma_bytes_lt_total(a1, b1);
        if bytes_lt(a1, b1) {
            let i = choose|i: int| smaller_at(a1, b1, i);
            assert forall|j: int| 0 <= j < i + 1 implies #[trigger] a[j] == b[j] by {
                if j > 0 {
                    assert(a[j] == a1[j - 1]);
                    assert(b[j] == b1[j - 1]);
                }
            }
            assert(smaller_at(a, b, i + 1));
        } else {
            let i = choose|i: int| smaller_at(b1, a1, i);
            assert forall|j: int| 0 <= j < i + 1 implies #[trigger] b[j] == a[j] by {
                if j > 0 {
                    assert(a[j] == a1[j - 1]);
                    assert(b[j] == b1[j - 1]);
                }
            }
            assert(smaller_at(b, a, i + 1));
        }
    }
}

/// Distinct strings have distinct keys.
pub proof fn lemma_key_injective(a: Seq<char>, b: Seq<char>)
    requires
        key(a) == key(b),
    ensures
        a == b,
{
    encode_utf8_decode_utf8(a);
    encode_utf8_decode_utf8(b);
}


pub proof fn lemma_id_lt_irreflexive(a: Seq<char>)
    ensures
        !id_lt(a, a),
{
    lemma_bytes_lt_irreflexive(key(a));
}

pub proof fn lemma_id_lt_transitive(a: Seq<char>, b: Seq<char>, c: Seq<char>)
    requires
        id_lt(a, b),
        id_lt(b, c),
    ensures
        id_lt(a, c),
{
    lemma_bytes_lt_transitive(key(a), key(b), key(c));
}

pub proof fn lemma_id_lt_asymmetric(a: Seq<char>, b: Seq<char>)
    requires
        id_lt(a, b),
    ensures
        !id_lt(b, a),
        a != b,
{
    lemma_bytes_lt_asymmetric(key(a), key(b));
}

pub proof fn lemma_id_lt_total(a: Seq<char>, b: Seq<char>)
    requires
        a != b,
    ensures
        id_lt(a, b) || id_lt(b, a),
{
    if key(a) == key(b) {
        lemma_key_injective(a, b);
    }
    lemma_bytes_lt_total(key(a), key(b));
}

/// Result of comparing two keys.
pub enum KeyOrder {
    Less,
    Equal,
    Greater,
}

/// Compares two strings as `str` does.
pub fn compare_keys(a: &str, b: &str) -> (r: KeyOrder)
    ensures
        r is Less <==> id_lt(a@, b@),
        r is Equal <==> a@ == b@,
        r is Greater <==> id_lt(b@, a@),
{
    let ab = a.as_bytes();
    let bb = b.as_bytes();
    let ghost ka = key(a@);
    let ghost kb = key(b@);
    assert(ab@ == ka);
    assert(bb@ == kb);
    let mut i: usize = 0;
    while i < ab.len() && i < bb.len() && ab[i] == bb[i]
        invariant
            ab@ == ka,
            bb@ == kb,
            agree_upto(ka, kb, i as int),
        decreases ab@.len() - i,
    {
        i = i + 1;
    }
    proof {
        if key(a@) == key(b@) {
            lemma_key_injective(a@, b@);
        }
    }
    if i == ab.len() && i == bb.len() {
        assert(ka =~= kb);
        proof {
            lemma_bytes_lt_irreflexive(ka);
        }
        KeyOrder::Equal
    } else if i == ab.len() || (i < bb.len() && ab[i] < bb[i]) {
        assert(smaller_at(ka, kb, i as int));
        proof {
            lemma_bytes_lt_asymmetric(ka, kb);
        }
        KeyOrder::Less
    } else {
        assert(smaller_at(kb, ka, i as int));
        proof {
            lemma_bytes_lt_asymmetric(kb, ka);
        }
        KeyOrder::Greater
    }
}

/// String equality.
pub fn str_equal(a: &str, b: &str) -> (r: bool)
    ensures
        r == (a@ == b@),
{
    match compare_keys(a, b) {
        KeyOrder::Equal => true,
        _ => false,
    }
}

/// The views of a sequence of strings.
pub open spec fn string_views(v: Seq<String>) -> Seq<Seq<char>> {
    v.map_values(|s: String| s@)
}

/// Whether some string of `v` equals `w`.
pub fn contains_string(v: &[String], w: &str) -> (r: bool)
    ensures
        r == exists|i: int| 0 <= i < v@.len() && #[trigger] v@[i]@ == w@,
{
    let mut i: usize = 0;
    while i < v.len()
        invariant
            i <= v@.len(),
            forall|j: int| 0 <= j < i ==> #[trigger] v@[j]@ != w@,
        decreases v@.len() - i,
    {
        if str_equal(v[i].as_str(), w) {
            return true;
        }
        i = i + 1;
    }
    false
}

/// Strings in strictly increasing order (an ordered set's iteration order).
pub open spec fn strings_sorted(v: Seq<Seq<char>>) -> bool {
    forall|i: int, j: int| 0 <= i < j < v.len() ==> id_lt(#[trigger] v[i], #[trigger] v[j])
}

/// Inserts `s` into a strictly increasing list of strings, unless already present.
pub fn insert_sorted_unique(v: &mut Vec<String>, s: String)
    requires
        strings_sorted(string_views(old(v)@)),
    ensures
        strings_sorted(string_views(final(v)@)),
        string_views(final(v)@).to_set() == string_views(old(v)@).to_set().insert(s@),
{
    let ghost old_v = string_views(v@);
    let mut p: usize = 0;
    while p < v.len()
        invariant
            p <= v@.len(),
            string_views(v@) == old_v,
            strings_sorted(old_v),
            forall|j: int| 0 <= j < p ==> id_lt(#[trigger] old_v[j], s@),
        ensures
            p <= v@.len(),
            string_views(v@) == old_v,
            forall|j: int| 0 <= j < p ==> id_lt(#[trigger] old_v[j], s@),
            p == v@.len() || id_lt(s@, old_v[p as int]),
        decreases v@.len() - p,
    {
        match compare_keys(v[p].as_str(), s.as_str()) {
            KeyOrder::Less => {
                p = p + 1;
            },
            KeyOrder::Equal => {
                proof {
                    assert(old_v[p as int] == s@);
                    assert(old_v.to_set().insert(s@) =~= old_v.to_set());
                }
                return;
            },
            KeyOrder::Greater => {
                assert(id_lt(s@, old_v[p as int]));
                break;
            },
        }
    }
    proof {
        assert forall|j: int| p <= j < old_v.len() implies id_lt(s@, #[trigger] old_v[j]) by {
            if j > p {
                lemma_id_lt_transitive(s@, old_v[p as int], old_v[j]);
            }
        }
    }
    v.insert(p, s);
    proof {
        let nv = string_views(v@);
        assert(nv =~= old_v.insert(p as int, s@));
        assert forall|a: int, b: int| 0 <= a < b < nv.len() implies id_lt(#[trigger] nv[a], #[trigger] nv[b]) by {
            if b < p {
            } else if b == p {
            } else if a == p {
            } else if a < p {
                lemma_id_lt_transitive(nv[a], s@, nv[b]);
            }
        }
        assert forall|x: Seq<char>| nv.contains(x) <==> old_v.contains(x) || x == s@ by {
            if nv.contains(x) {
                let k = choose|k: int| 0 <= k < nv.len() && nv[k] == x;
                if k < p {
                    assert(old_v[k] == x);
                } else if k > p {
                    assert(old_v[k - 1] == x);
                }
            }
            if old_v.contains(x) {
                let j = choose|j: int| 0 <= j < old_v.len() && old_v[j] == x;
                if j < p {
                    assert(nv[j] == x);
                } else {
                    assert(nv[j + 1] == x);
                }
            }
            if x == s@ {
                assert(nv[p as int] == x);
            }
        }
        assert(nv.to_set() =~= old_v.to_set().insert(s@));
    }
}
/// Strictly increasing strings have no duplicates.
pub proof fn lemma_sorted_no_duplicates(v: Seq<Seq<char>>)
    requires
        strings_sorted(v),
    ensures
        v.no_duplicates(),
{
    assert forall|i: int, j: int| 0 <= i < v.len() && 0 <= j < v.len() && i != j implies v[i] != v[j] by {
        if i < j {
            lemma_id_lt_asymmetric(v[i], v[j]);
        } else {
            lemma_id_lt_asymmetric(v[j], v[i]);
        }
    }
}

/// Counting a predicate along a duplicate-free sequence counts the matching set members.
pub proof fn lemma_count_distinct(v: Seq<Seq<char>>, p: spec_fn(Seq<char>) -> bool)
    requires
        v.no_duplicates(),
    ensures
        crate::util::count_true(v.map_values(p)) == v.to_set().filter(p).len(),
        v.to_set().filter(p).finite(),
    decreases v.len(),
{
    if v.len() == 0 {
        assert(v.to_set().filter(p) =~= Set::<Seq<char>>::empty());
    } else {
        let w = v.drop_last();
        let x = v.last();
        assert(w.no_duplicates()) by {
            assert forall|i: int, j: int| 0 <= i < w.len() && 0 <= j < w.len() && i != j implies w[i] != w[j] by {
                assert(w[i] == v[i]);
                assert(w[j] == v[j]);
            }
        }
        lemma_count_distinct(w, p);
        assert(v.map_values(p).drop_last() =~= w.map_values(p));
        assert(v.to_set() =~= w.to_set().insert(x)) by {
            assert forall|y: Seq<char>| v.to_set().contains(y) <==> w.to_set().insert(x).contains(y) by {
                if v.contains(y) {
                    let i = choose|i: int| 0 <= i < v.len() && v[i] == y;
                    if i < v.len() - 1 {
                        assert(w[i] == y);
                    }
                }
                if w.contains(y) {
                    let i = choose|i: int| 0 <= i < w.len() && w[i] == y;
                    assert(v[i] == y);
                }
                if y == x {
                    assert(v[v.len() - 1] == y);
                }
            }
        }
        assert(!w.to_set().contains(x)) by {
            if w.contains(x) {
                let i = choose|i: int| 0 <= i < w.len() && w[i] == x;
                assert(v[i] == x);
            }
        }
        if p(x) {
            assert(v.to_set().filter(p) =~= w.to_set().filter(p).insert(x));
        } else {
            assert(v.to_set().filter(p) =~= w.to_set().filter(p));
        }
    }
}

} // verus!
