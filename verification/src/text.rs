//! Equality and order of strings, read off their UTF-8 bytes.
use vstd::prelude::*;
use vstd::utf8::encode_utf8;

verus! {

/// How one string stands to another in byte order.
#[derive(Clone, Copy, PartialEq, Eq, Structural, Debug)]
pub enum TextOrder {
    Before,
    Same,
    After,
}

/// The first `n` bytes of `a` and `b` agree, and `a` either ends there or has
/// the smaller next byte.
pub open spec fn splits_at(a: Seq<u8>, b: Seq<u8>, n: int) -> bool {
    &&& 0 <= n <= a.len()
    &&& n < b.len()
    &&& forall|i: int| 0 <= i < n ==> #[trigger] a[i] == b[i]
    &&& n == a.len() || a[n] < b[n]
}

/// Lexicographic order on bytes: a proper prefix comes first.
pub open spec fn bytes_before(a: Seq<u8>, b: Seq<u8>) -> bool {
    exists|n: int| splits_at(a, b, n)
}

/// The order of Rust strings: lexicographic on their UTF-8 bytes.
pub open spec fn text_before(a: Seq<char>, b: Seq<char>) -> bool {
    bytes_before(encode_utf8(a), encode_utf8(b))
}

/// Every string comes before all that follow it, so none occurs twice.
pub open spec fn strictly_ascending(s: Seq<Seq<char>>) -> bool {
    forall|i: int, j: int| 0 <= i < j < s.len() ==> text_before(#[trigger] s[i], #[trigger] s[j])
}

/// The contents of a list of strings.
pub open spec fn texts(v: Seq<String>) -> Seq<Seq<char>> {
    v.map_values(|s: String| s@)
}

proof fn lemma_bytes_before_transitive(a: Seq<u8>, b: Seq<u8>, c: Seq<u8>)
    requires
        bytes_before(a, b),
        bytes_before(b, c),
    ensures
        bytes_before(a, c),
{
    let m = choose|m: int| splits_at(a, b, m);
    let n = choose|n: int| splits_at(b, c, n);
    let k = if m <= n { m } else { n };
    assert forall|i: int| 0 <= i < k implies #[trigger] a[i] == c[i] by {
        assert(a[i] == b[i]);
        assert(b[i] == c[i]);
    }
    if m < n {
        assert(b[m] == c[m]);
    }
    if n < m {
        assert(a[n] == b[n]);
    }
    assert(splits_at(a, c, k));
}

proof fn lemma_bytes_before_irreflexive(a: Seq<u8>)
    ensures
        !bytes_before(a, a),
{
}

/// Strings with the same bytes are the same string.
pub proof fn lemma_encoding_is_injective(a: Seq<char>, b: Seq<char>)
    requires
        encode_utf8(a) == encode_utf8(b),
    ensures
        a == b,
{
    vstd::utf8::encode_utf8_decode_utf8(a);
    vstd::utf8::encode_utf8_decode_utf8(b);
}

/// `text_before` is transitive.
pub proof fn lemma_text_before_transitive(a: Seq<char>, b: Seq<char>, c: Seq<char>)
    requires
        text_before(a, b),
        text_before(b, c),
    ensures
        text_before(a, c),
{
    lemma_bytes_before_transitive(encode_utf8(a), encode_utf8(b), encode_utf8(c));
}

/// No string comes before itself, and no two come before each other.
pub proof fn lemma_text_before_asymmetric(a: Seq<char>, b: Seq<char>)
    requires
        text_before(a, b),
    ensures
        a != b,
        !text_before(b, a),
{
    lemma_bytes_before_irreflexive(encode_utf8(a));
    if text_before(b, a) {
        lemma_text_before_transitive(a, b, a);
    }
}

/// Compares two strings byte by byte.
pub fn text_order(a: &str, b: &str) -> (order: TextOrder)
    ensures
        match order {
            TextOrder::Before => text_before(a@, b@),
            TextOrder::Same => a@ == b@,
            TextOrder::After => text_before(b@, a@),
        },
{
    let x: &[u8] = a.as_bytes();
    let y: &[u8] = b.as_bytes();
    let mut i: usize = 0;
    while i < x.len() && i < y.len()
        invariant
            i <= x@.len(),
            i <= y@.len(),
            x@ == encode_utf8(a@),
            y@ == encode_utf8(b@),
            forall|k: int| 0 <= k < i ==> #[trigger] x@[k] == y@[k],
        decreases x@.len() - i,
    {
        if x[i] < y[i] {
            assert(splits_at(x@, y@, i as int));
            return TextOrder::Before;
        }
        if y[i] < x[i] {
            assert(splits_at(y@, x@, i as int));
            return TextOrder::After;
        }
        i += 1;
    }
    if i < y.len() {
        assert(splits_at(x@, y@, i as int));
        TextOrder::Before
    } else if i < x.len() {
        assert(splits_at(y@, x@, i as int));
        TextOrder::After
    } else {
        proof {
            assert(x@ =~= y@);
            lemma_encoding_is_injective(a@, b@);
        }
        TextOrder::Same
    }
}

/// Whether two strings are equal.
pub fn same_text(a: &str, b: &str) -> (same: bool)
    ensures
        same == (a@ == b@),
{
    match text_order(a, b) {
        TextOrder::Same => true,
        TextOrder::Before => {
            proof {
                lemma_text_before_asymmetric(a@, b@);
            }
            false
        },
        TextOrder::After => {
            proof {
                lemma_text_before_asymmetric(b@, a@);
            }
            false
        },
    }
}

/// Whether a string occurs in a list.
pub fn contains_text(list: &Vec<String>, text: &str) -> (found: bool)
    ensures
        found == texts(list@).contains(text@),
{
    let mut i: usize = 0;
    while i < list.len()
        invariant
            i <= list@.len(),
            forall|k: int| 0 <= k < i ==> texts(list@)[k] != text@,
        decreases list@.len() - i,
    {
        if same_text(list[i].as_str(), text) {
            assert(texts(list@)[i as int] == text@);
            return true;
        }
        i += 1;
    }
    false
}

/// Puts a string into an ascending list that has no repetitions, unless it is
/// there already.
pub fn insert_ascending(list: &mut Vec<String>, text: &String)
    requires
        strictly_ascending(texts(old(list)@)),
    ensures
        strictly_ascending(texts(final(list)@)),
        forall|t: Seq<char>| #[trigger]
            texts(final(list)@).contains(t) <==> texts(old(list)@).contains(t) || t == text@,
{
    let ghost before = texts(list@);
    let mut i: usize = 0;
    while i < list.len()
        invariant
            i <= list@.len(),
            texts(list@) == before,
            before == texts(old(list)@),
            list@ == old(list)@,
            strictly_ascending(before),
            forall|k: int| 0 <= k < i ==> text_before(#[trigger] before[k], text@),
        ensures
            i <= list@.len(),
            i < list@.len() ==> text_before(text@, before[i as int]),
        decreases list@.len() - i,
    {
        match text_order(list[i].as_str(), text.as_str()) {
            TextOrder::Same => {
                assert(before[i as int] == text@);
                return;
            },
            TextOrder::After => {
                break;
            },
            TextOrder::Before => {
                i += 1;
            },
        }
    }
    list.insert(i, text.clone());
    proof {
        let after = texts(list@);
        assert(after =~= before.insert(i as int, text@));
        assert forall|p: int, q: int| 0 <= p < q < after.len() implies text_before(
            #[trigger] after[p],
            #[trigger] after[q],
        ) by {
            if p == i {
                if q > i + 1 {
                    assert(text_before(before[i as int], before[q - 1]));
                    lemma_text_before_transitive(text@, before[i as int], before[q - 1]);
                }
            }
        }
        assert forall|t: Seq<char>| #[trigger]
            after.contains(t) <==> before.contains(t) || t == text@ by {
            if before.contains(t) {
                let k = choose|k: int| 0 <= k < before.len() && before[k] == t;
                if k < i {
                    assert(after[k] == t);
                } else {
                    assert(after[k + 1] == t);
                }
            }
            if t == text@ {
                assert(after[i as int] == t);
            }
            if after.contains(t) {
                let k = choose|k: int| 0 <= k < after.len() && after[k] == t;
                if k < i {
                    assert(before[k] == t);
                } else if k > i {
                    assert(before[k - 1] == t);
                }
            }
        }
    }
}

/// The texts of some strings are as many as these, and each is that of its
/// string.
pub proof fn texts_are_those_of_the_strings(v: Seq<String>)
    ensures
        texts(v).len() == v.len(),
        forall|i: int| 0 <= i < v.len() ==> #[trigger] texts(v)[i] == v[i]@,
        forall|t: Seq<char>|
            #![trigger texts(v).contains(t)]
            texts(v).contains(t) <==> exists|i: int| 0 <= i < v.len() && (#[trigger] v[i])@ == t,
{
    assert forall|t: Seq<char>| #![trigger texts(v).contains(t)] texts(v).contains(t) <==> exists|
        i: int,
    |
        0 <= i < v.len() && (#[trigger] v[i])@ == t by {
        if texts(v).contains(t) {
            let i = choose|i: int| 0 <= i < texts(v).len() && texts(v)[i] == t;
            assert(v[i]@ == t);
        }
        if exists|i: int| 0 <= i < v.len() && (#[trigger] v[i])@ == t {
            let i = choose|i: int| 0 <= i < v.len() && (#[trigger] v[i])@ == t;
            assert(texts(v)[i] == t);
        }
    }
}

/// Of two strings one comes before the other just where their bytes agree up to
/// some place at which the one ends, or has the smaller byte.
pub proof fn texts_are_in_byte_order(a: Seq<char>, b: Seq<char>)
    ensures
        text_before(a, b) <==> exists|n: int|
            {
                &&& 0 <= n <= encode_utf8(a).len()
                &&& n < encode_utf8(b).len()
                &&& #[trigger] encode_utf8(a).take(n) == encode_utf8(b).take(n)
                &&& n == encode_utf8(a).len() || encode_utf8(a)[n] < encode_utf8(b)[n]
            },
{
    let x = encode_utf8(a);
    let y = encode_utf8(b);
    if text_before(a, b) {
        let n = choose|n: int| splits_at(x, y, n);
        assert(x.take(n) =~= y.take(n));
    }
    if exists|n: int|
        {
            &&& 0 <= n <= x.len()
            &&& n < y.len()
            &&& #[trigger] x.take(n) == y.take(n)
            &&& n == x.len() || x[n] < y[n]
        } {
        let n = choose|n: int|
            {
                &&& 0 <= n <= x.len()
                &&& n < y.len()
                &&& #[trigger] x.take(n) == y.take(n)
                &&& n == x.len() || x[n] < y[n]
            };
        assert forall|i: int| 0 <= i < n implies #[trigger] x[i] == y[i] by {
            assert(x.take(n)[i] == y.take(n)[i]);
        }
        assert(splits_at(x, y, n));
    }
}

/// A list ascends strictly just where each string comes before all later ones.
pub proof fn ascending_means_pairwise(s: Seq<Seq<char>>)
    ensures
        strictly_ascending(s) <==> forall|i: int, j: int|
            0 <= i < j < s.len() ==> text_before(#[trigger] s[i], #[trigger] s[j]),
{
}

} // verus!
