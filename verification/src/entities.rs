//! Named-entity tokens of a text: capitalized words (proper nouns such as "Meridian"),
//! used to link facts that share a rare entity. Tokenizing works on classified
//! characters, each paired with the Unicode classes that decide it; [`entities_of`]
//! classifies a text with the standard library and tokenizes it.
use vstd::prelude::*;
use vstd::string::*;
use crate::keys::{insert_sorted_unique, string_views, strings_sorted};
use crate::text::{
    chars_of, is_alphanumeric, is_uppercase, is_whitespace, spec_is_alphanumeric,
    spec_is_uppercase, spec_is_whitespace, string_of,
};

verus! {

/// A character with its classes: (character, whitespace, alphanumeric, uppercase).
pub type ClassifiedChar = (char, bool, bool, bool);

/// The characters of a text with their Unicode classes (`char::is_whitespace`,
/// `char::is_alphanumeric`, `char::is_uppercase`).
pub open spec fn classify(s: Seq<char>) -> Seq<ClassifiedChar> {
    s.map_values(|c: char| (c, spec_is_whitespace(c), spec_is_alphanumeric(c), spec_is_uppercase(c)))
}

/// The characters of classified characters.
pub open spec fn plain(s: Seq<ClassifiedChar>) -> Seq<char> {
    s.map_values(|c: ClassifiedChar| c.0)
}

/// A finished word, if it has any characters.
pub open spec fn flush(cur: Seq<ClassifiedChar>) -> Seq<Seq<ClassifiedChar>> {
    if cur.len() > 0 {
        seq![cur]
    } else {
        Seq::empty()
    }
}

/// The words (maximal runs of non-whitespace characters) of `s` from position `i`, given
/// the word `cur` in progress.
pub open spec fn words_from(s: Seq<ClassifiedChar>, i: int, cur: Seq<ClassifiedChar>) -> Seq<Seq<ClassifiedChar>>
    decreases s.len() - i,
{
    if i < 0 || i >= s.len() {
        flush(cur)
    } else if s[i].1 {
        flush(cur) + words_from(s, i + 1, Seq::empty())
    } else {
        words_from(s, i + 1, cur.push(s[i]))
    }
}

/// The whitespace-separated words of `s`, as `str::split_whitespace` yields them.
pub open spec fn words(s: Seq<ClassifiedChar>) -> Seq<Seq<ClassifiedChar>> {
    words_from(s, 0, Seq::empty())
}

/// The first position at or after `i` whose element satisfies `stop` (or the end).
pub open spec fn scan_until<A>(s: Seq<A>, i: int, stop: spec_fn(A) -> bool) -> int
    decreases s.len() - i,
{
    if i < 0 || i >= s.len() || stop(s[i]) {
        i
    } else {
        scan_until(s, i + 1, stop)
    }
}

/// Scanning backward from `j` (not below `lo`): the end of the last element that
/// satisfies `stop`, or `lo`.
pub open spec fn scan_back<A>(s: Seq<A>, j: int, lo: int, stop: spec_fn(A) -> bool) -> int
    decreases j - lo,
{
    if j <= lo || j > s.len() || stop(s[j - 1]) {
        j
    } else {
        scan_back(s, j - 1, lo, stop)
    }
}

/// The part of a word before its first apostrophe ("Alex's" gives "Alex").
pub open spec fn before_apostrophe(w: Seq<ClassifiedChar>) -> Seq<ClassifiedChar> {
    w.subrange(0, scan_until(w, 0, |c: ClassifiedChar| c.0 == '\''))
}

/// Where the alphanumeric part of a word starts.
pub open spec fn lead(w: Seq<ClassifiedChar>) -> int {
    scan_until(w, 0, |c: ClassifiedChar| c.2)
}

/// A word with leading and trailing non-alphanumeric characters removed.
pub open spec fn trimmed(w: Seq<ClassifiedChar>) -> Seq<ClassifiedChar> {
    w.subrange(lead(w), scan_back(w, w.len() as int, lead(w), |c: ClassifiedChar| c.2))
}

/// The candidate token of a word.
pub open spec fn token_of(word: Seq<ClassifiedChar>) -> Seq<ClassifiedChar> {
    trimmed(before_apostrophe(word))
}

/// A significant token: at least 3 bytes long and starting with an uppercase letter.
pub open spec fn is_entity(t: Seq<ClassifiedChar>) -> bool {
    &&& vstd::utf8::encode_utf8(plain(t)).len() >= 3
    &&& t.len() > 0
    &&& t[0].3
}

/// The entity tokens of a list of words.
pub open spec fn entities_of_words(ws: Seq<Seq<ClassifiedChar>>) -> Set<Seq<char>> {
    Set::new(|x: Seq<char>| exists|k: int| 0 <= k < ws.len() && plain(token_of(ws[k])) == x && is_entity(token_of(ws[k])))
}

/// The entity tokens of classified text.
pub open spec fn spec_entities_classified(s: Seq<ClassifiedChar>) -> Set<Seq<char>> {
    entities_of_words(words(s))
}

/// The entity tokens of a text.
pub open spec fn spec_entities(s: Seq<char>) -> Set<Seq<char>> {
    spec_entities_classified(classify(s))
}

pub proof fn lemma_entities_of_words_add(a: Seq<Seq<ClassifiedChar>>, b: Seq<Seq<ClassifiedChar>>)
    ensures
        entities_of_words(a + b) == entities_of_words(a).union(entities_of_words(b)),
{
    let ab = a + b;
    assert forall|t: Seq<char>| entities_of_words(ab).contains(t) <==> entities_of_words(a).union(entities_of_words(b)).contains(t) by {
        if entities_of_words(ab).contains(t) {
            let k = choose|k: int| 0 <= k < ab.len() && plain(token_of(ab[k])) == t && is_entity(token_of(ab[k]));
            if k < a.len() {
                assert(ab[k] == a[k]);
            } else {
                assert(ab[k] == b[k - a.len()]);
            }
        }
        if entities_of_words(a).contains(t) {
            let k = choose|k: int| 0 <= k < a.len() && plain(token_of(a[k])) == t && is_entity(token_of(a[k]));
            assert(ab[k] == a[k]);
        }
        if entities_of_words(b).contains(t) {
            let k = choose|k: int| 0 <= k < b.len() && plain(token_of(b[k])) == t && is_entity(token_of(b[k]));
            assert(ab[k + a.len()] == b[k]);
        }
    }
    assert(entities_of_words(ab) =~= entities_of_words(a).union(entities_of_words(b)));
}

/// A forward scan that stops at `j` computes [`scan_until`].
pub proof fn lemma_scan_until<A>(s: Seq<A>, i: int, j: int, stop: spec_fn(A) -> bool)
    requires
        0 <= i <= j <= s.len(),
        forall|k: int| i <= k < j ==> !stop(#[trigger] s[k]),
        j == s.len() || stop(s[j]),
    ensures
        scan_until(s, i, stop) == j,
    decreases j - i,
{
    if i < j {
        lemma_scan_until(s, i + 1, j, stop);
    }
}

/// A backward scan that stops at `b` computes [`scan_back`].
pub proof fn lemma_scan_back<A>(s: Seq<A>, j: int, b: int, lo: int, stop: spec_fn(A) -> bool)
    requires
        0 <= lo <= b <= j <= s.len(),
        forall|k: int| b <= k < j ==> !stop(#[trigger] s[k]),
        b == lo || stop(s[b - 1]),
    ensures
        scan_back(s, j, lo, stop) == b,
    decreases j - b,
{
    if b < j {
        lemma_scan_back(s, j - 1, b, lo, stop);
    }
}

/// The token of one word.
fn token_chars(w: &Vec<ClassifiedChar>) -> (t: Vec<ClassifiedChar>)
    ensures
        t@ == token_of(w@),
{
    let n = w.len();
    let mut p: usize = 0;
    while p < n && w[p].0 != '\''
        invariant
            n == w@.len(),
            p <= n,
            forall|k: int| 0 <= k < p ==> (#[trigger] w@[k]).0 != '\'',
        decreases n - p,
    {
        p = p + 1;
    }
    proof {
        lemma_scan_until(w@, 0, p as int, |c: ClassifiedChar| c.0 == '\'');
    }
    let ghost pre = w@.subrange(0, p as int);
    let mut a: usize = 0;
    while a < p && !w[a].2
        invariant
            n == w@.len(),
            p <= n,
            a <= p,
            forall|k: int| 0 <= k < a ==> !(#[trigger] w@[k]).2,
        decreases p - a,
    {
        a = a + 1;
    }
    proof {
        assert forall|k: int| 0 <= k < a implies !(|c: ClassifiedChar| c.2)(#[trigger] pre[k]) by {
            assert(pre[k] == w@[k]);
        }
        if a < p {
            assert(pre[a as int] == w@[a as int]);
        }
        lemma_scan_until(pre, 0, a as int, |c: ClassifiedChar| c.2);
    }
    let mut b: usize = p;
    while b > a && !w[b - 1].2
        invariant
            n == w@.len(),
            a <= b <= p <= n,
            forall|k: int| b <= k < p ==> !(#[trigger] w@[k]).2,
        decreases b - a,
    {
        b = b - 1;
    }
    proof {
        assert forall|k: int| b <= k < p implies !(|c: ClassifiedChar| c.2)(#[trigger] pre[k]) by {
            assert(pre[k] == w@[k]);
        }
        if b > a {
            assert(pre[b - 1] == w@[b - 1]);
        }
        lemma_scan_back(pre, p as int, b as int, a as int, |c: ClassifiedChar| c.2);
    }
    let mut t: Vec<ClassifiedChar> = Vec::new();
    let mut k: usize = a;
    while k < b
        invariant
            n == w@.len(),
            a <= k <= b <= p <= n,
            t@ == w@.subrange(a as int, k as int),
        decreases b - k,
    {
        t.push(w[k]);
        k = k + 1;
    }
    proof {
        assert(t@ =~= pre.subrange(a as int, b as int));
    }
    t
}

/// The characters of classified characters.
fn plain_chars(v: &Vec<ClassifiedChar>) -> (r: Vec<char>)
    ensures
        r@ == plain(v@),
{
    let mut r: Vec<char> = Vec::new();
    let mut i: usize = 0;
    while i < v.len()
        invariant
            i <= v@.len(),
            r@ == plain(v@.subrange(0, i as int)),
        decreases v@.len() - i,
    {
        r.push(v[i].0);
        proof {
            assert(plain(v@.subrange(0, i + 1)) =~= plain(v@.subrange(0, i as int)).push(v@[i as int].0));
        }
        i = i + 1;
    }
    proof {
        assert(v@.subrange(0, v@.len() as int) =~= v@);
    }
    r
}

/// Adds the token of a finished word, when it is an entity.
fn add_word(out: &mut Vec<String>, word: &Vec<ClassifiedChar>)
    requires
        strings_sorted(string_views(old(out)@)),
    ensures
        strings_sorted(string_views(final(out)@)),
        string_views(final(out)@).to_set() == string_views(old(out)@).to_set().union(
            entities_of_words(flush(word@)),
        ),
{
    if word.len() == 0 {
        proof {
            assert(entities_of_words(flush(word@)) =~= Set::<Seq<char>>::empty());
            assert(string_views(out@).to_set().union(Set::<Seq<char>>::empty()) =~= string_views(out@).to_set());
        }
        return;
    }
    let t = token_chars(word);
    let tc = plain_chars(&t);
    let s = string_of(tc.as_slice());
    let first_upper = t.len() > 0 && t[0].3;
    let ghost fw = flush(word@);
    assert(fw =~= seq![word@]);
    let st = s.as_str();
    let byte_len = st.as_bytes().len();
    proof {
        assert(st@ == plain(t@));
        assert(byte_len == vstd::utf8::encode_utf8(plain(t@)).len());
    }
    if byte_len >= 3 && first_upper {
        insert_sorted_unique(out, s);
        proof {
            assert(entities_of_words(fw) =~= set![plain(token_of(word@))]) by {
                assert(fw[0] == word@);
            }
            assert(string_views(out@).to_set() =~= string_views(old(out)@).to_set().union(entities_of_words(fw)));
        }
    } else {
        proof {
            assert(!is_entity(token_of(word@)));
            assert(entities_of_words(fw) =~= Set::<Seq<char>>::empty()) by {
                assert forall|x: Seq<char>| !entities_of_words(fw).contains(x) by {
                    if entities_of_words(fw).contains(x) {
                        let k = choose|k: int| 0 <= k < fw.len() && plain(token_of(fw[k])) == x && is_entity(token_of(fw[k]));
                        assert(fw[k] == word@);
                    }
                }
            }
            assert(string_views(out@).to_set().union(Set::<Seq<char>>::empty()) =~= string_views(out@).to_set());
        }
    }
}

/// The entity tokens of classified text, in ordered-set order (see
/// [`spec_entities_classified`]).
pub fn entities_of_classified(cs: &[ClassifiedChar]) -> (r: Vec<String>)
    ensures
        strings_sorted(string_views(r@)),
        string_views(r@).to_set() == spec_entities_classified(cs@),
{
    let mut out: Vec<String> = Vec::new();
    let mut cur: Vec<ClassifiedChar> = Vec::new();
    let mut i: usize = 0;
    proof {
        assert(string_views(out@).to_set() =~= Set::<Seq<char>>::empty());
        assert(Set::<Seq<char>>::empty().union(spec_entities_classified(cs@)) =~= spec_entities_classified(cs@));
    }
    while i < cs.len()
        invariant
            i <= cs@.len(),
            strings_sorted(string_views(out@)),
            string_views(out@).to_set().union(entities_of_words(words_from(cs@, i as int, cur@)))
                == spec_entities_classified(cs@),
        decreases cs@.len() - i,
    {
        let ghost before = string_views(out@).to_set();
        if cs[i].1 {
            add_word(&mut out, &cur);
            proof {
                lemma_entities_of_words_add(flush(cur@), words_from(cs@, i + 1, Seq::empty()));
                assert(string_views(out@).to_set().union(entities_of_words(words_from(cs@, i + 1, Seq::empty())))
                    =~= before.union(entities_of_words(words_from(cs@, i as int, cur@))));
            }
            cur = Vec::new();
        } else {
            cur.push(cs[i]);
        }
        i = i + 1;
    }
    let ghost before = string_views(out@).to_set();
    add_word(&mut out, &cur);
    proof {
        assert(string_views(out@).to_set() =~= before.union(entities_of_words(words_from(cs@, i as int, cur@))));
    }
    out
}

/// The characters of a text with their classes, from the standard library's Unicode
/// predicates.
pub fn classify_text(text: &str) -> (r: Vec<ClassifiedChar>)
    ensures
        r@ == classify(text@),
{
    let cs = chars_of(text);
    let mut r: Vec<ClassifiedChar> = Vec::new();
    let mut i: usize = 0;
    while i < cs.len()
        invariant
            cs@ == text@,
            i <= cs@.len(),
            r@ == classify(cs@.subrange(0, i as int)),
        decreases cs@.len() - i,
    {
        let c = cs[i];
        r.push((c, is_whitespace(c), is_alphanumeric(c), is_uppercase(c)));
        proof {
            assert(classify(cs@.subrange(0, i + 1)) =~= classify(cs@.subrange(0, i as int)).push(
                (c, spec_is_whitespace(c), spec_is_alphanumeric(c), spec_is_uppercase(c)),
            ));
        }
        i = i + 1;
    }
    proof {
        assert(cs@.subrange(0, cs@.len() as int) =~= cs@);
    }
    r
}

/// The entity tokens of a text, in ordered-set order (see [`spec_entities`]).
pub fn entities_of(text: &str) -> (r: Vec<String>)
    ensures
        strings_sorted(string_views(r@)),
        string_views(r@).to_set() == spec_entities(text@),
{
    let cs = classify_text(text);
    entities_of_classified(cs.as_slice())
}

} // verus!
