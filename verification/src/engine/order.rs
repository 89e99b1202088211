//! The order of keys: byte strings compared lexicographically.
use vstd::prelude::*;

verus! {

/// Whether `a` comes before `b`: at the first position where they differ `a` has
/// the smaller byte, or `a` is a proper prefix of `b`.
pub open spec fn lex_lt(a: Seq<u8>, b: Seq<u8>) -> bool
    decreases a.len(),
{
    if b.len() == 0 {
        false
    } else if a.len() == 0 {
        true
    } else if a[0] != b[0] {
        a[0] < b[0]
    } else {
        lex_lt(a.skip(1), b.skip(1))
    }
}

/// Whether `a` comes before `b` or is `b`.
pub open spec fn lex_le(a: Seq<u8>, b: Seq<u8>) -> bool {
    a == b || lex_lt(a, b)
}

/// Whether the keys come in strictly ascending order.
pub open spec fn strictly_sorted(keys: Seq<Seq<u8>>) -> bool {
    forall|i: int, j: int| 0 <= i < j < keys.len() ==> lex_lt(#[trigger] keys[i], #[trigger] keys[j])
}

/// No key comes before itself.
pub proof fn lemma_lex_irreflexive(a: Seq<u8>)
    ensures
        !lex_lt(a, a),
    decreases a.len(),
{
    if a.len() > 0 {
        lemma_lex_irreflexive(a.skip(1));
    }
}

/// The order is transitive.
pub proof fn lemma_lex_transitive(a: Seq<u8>, b: Seq<u8>, c: Seq<u8>)
    requires
        lex_lt(a, b),
        lex_lt(b, c),
    ensures
        lex_lt(a, c),
    decreases a.len(),
{
    if a.len() > 0 && a[0] == b[0] && b[0] == c[0] {
        lemma_lex_transitive(a.skip(1), b.skip(1), c.skip(1));
    }
}

/// Of two keys one comes first, or they are the same.
pub proof fn lemma_lex_total(a: Seq<u8>, b: Seq<u8>)
    ensures
        lex_lt(a, b) || a == b || lex_lt(b, a),
    decreases a.len(),
{
    if a.len() == 0 && b.len() == 0 {
        assert(a =~= b);
    } else if a.len() > 0 && b.len() > 0 && a[0] == b[0] {
        lemma_lex_total(a.skip(1), b.skip(1));
        if a.skip(1) == b.skip(1) {
            assert(a =~= seq![a[0]] + a.skip(1));
            assert(b =~= seq![b[0]] + b.skip(1));
        }
    }
}

/// Two keys cannot each come before the other.
pub proof fn lemma_lex_asymmetric(a: Seq<u8>, b: Seq<u8>)
    requires
        lex_lt(a, b),
    ensures
        !lex_lt(b, a),
        a != b,
{
    lemma_lex_irreflexive(a);
    if lex_lt(b, a) {
        lemma_lex_transitive(a, b, a);
    }
}

/// `lex_le` is transitive.
pub proof fn lemma_lex_le_transitive(a: Seq<u8>, b: Seq<u8>, c: Seq<u8>)
    requires
        lex_le(a, b),
        lex_le(b, c),
    ensures
        lex_le(a, c),
        lex_lt(a, b) || lex_lt(b, c) ==> lex_lt(a, c),
{
    if lex_lt(a, b) && lex_lt(b, c) {
        lemma_lex_transitive(a, b, c);
    }
}

/// The first `n` bytes of a key, filled up with zeros to length `n`.
pub open spec fn padded(key: Seq<u8>, n: nat) -> Seq<u8> {
    Seq::new(n, |i: int| if i < key.len() { key[i] } else { 0u8 })
}

/// Cutting or padding two keys to one length keeps their order.
pub proof fn lemma_padded_monotone(a: Seq<u8>, b: Seq<u8>, n: nat)
    requires
        lex_le(a, b),
    ensures
        lex_le(padded(a, n), padded(b, n)),
    decreases n,
{
    if n == 0 {
        assert(padded(a, n) =~= padded(b, n));
    } else if a != b {
        let pa = padded(a, n);
        let pb = padded(b, n);
        let m = (n - 1) as nat;
        assert(b.len() > 0);
        if a.len() > 0 && a[0] != b[0] {
            assert(pa[0] < pb[0]);
        } else {
            let ta = if a.len() == 0 { a } else { a.skip(1) };
            assert(pa.skip(1) =~= padded(ta, m));
            assert(pb.skip(1) =~= padded(b.skip(1), m));
            if a.len() == 0 {
                if b.skip(1).len() == 0 {
                    assert(a =~= b.skip(1));
                } else {
                    assert(lex_lt(a, b.skip(1)));
                }
                if pa[0] == pb[0] {
                    lemma_padded_monotone(a, b.skip(1), m);
                }
            } else {
                lemma_padded_monotone(ta, b.skip(1), m);
            }
            if pa[0] == pb[0] && pa.skip(1) == pb.skip(1) {
                assert(pa =~= seq![pa[0]] + pa.skip(1));
                assert(pb =~= seq![pb[0]] + pb.skip(1));
            }
        }
    }
}

/// How one key stands to another.
#[derive(Clone, Copy, PartialEq, Eq, Structural, Debug)]
pub enum KeyOrder {
    Less,
    Equal,
    Greater,
}

/// Compares two keys.
pub fn compare_keys(a: &[u8], b: &[u8]) -> (r: KeyOrder)
    ensures
        r == KeyOrder::Less <==> lex_lt(a@, b@),
        r == KeyOrder::Equal <==> a@ == b@,
        r == KeyOrder::Greater <==> lex_lt(b@, a@),
{
    let mut i: usize = 0;
    assert(a@.skip(0) =~= a@);
    assert(b@.skip(0) =~= b@);
    while i < a.len() && i < b.len() && a[i] == b[i]
        invariant
            i <= a@.len(),
            i <= b@.len(),
            forall|j: int| 0 <= j < i ==> a@[j] == b@[j],
            lex_lt(a@, b@) == lex_lt(a@.skip(i as int), b@.skip(i as int)),
            lex_lt(b@, a@) == lex_lt(b@.skip(i as int), a@.skip(i as int)),
        decreases a@.len() - i,
    {
        assert(a@.skip(i as int).skip(1) =~= a@.skip(i + 1));
        assert(b@.skip(i as int).skip(1) =~= b@.skip(i + 1));
        i = i + 1;
    }
    proof {
        lemma_lex_total(a@, b@);
        if lex_lt(a@, b@) {
            lemma_lex_asymmetric(a@, b@);
        }
        if lex_lt(b@, a@) {
            lemma_lex_asymmetric(b@, a@);
        }
    }
    if i < a.len() && i < b.len() {
        if a[i] < b[i] {
            KeyOrder::Less
        } else {
            KeyOrder::Greater
        }
    } else if i < b.len() {
        KeyOrder::Less
    } else if i < a.len() {
        KeyOrder::Greater
    } else {
        assert(a@ =~= b@);
        KeyOrder::Equal
    }
}

/// Whether two byte strings are the same.
pub fn bytes_equal(a: &[u8], b: &[u8]) -> (r: bool)
    ensures
        r == (a@ == b@),
{
    match compare_keys(a, b) {
        KeyOrder::Equal => true,
        _ => false,
    }
}

/// Of two keys that agree up to some place and differ there, the one with the smaller
/// byte comes first.
pub proof fn law_first_difference_decides(a: Seq<u8>, b: Seq<u8>, place: int)
    requires
        0 <= place < a.len(),
        place < b.len(),
        forall|i: int| 0 <= i < place ==> #[trigger] a[i] == b[i],
        a[place] != b[place],
    ensures
        lex_lt(a, b) == (a[place] < b[place]),
        lex_le(a, b) == (a[place] < b[place]),
    decreases place,
{
    if place > 0 {
        assert(a[0] == b[0]);
        let ta = a.skip(1);
        let tb = b.skip(1);
        assert(ta[place - 1] == a[place] && tb[place - 1] == b[place]);
        assert forall|i: int| 0 <= i < place - 1 implies #[trigger] ta[i] == tb[i] by {
            assert(ta[i] == a[i + 1] && tb[i] == b[i + 1]);
        }
        law_first_difference_decides(ta, tb, place - 1);
    }
}

/// A key comes before every longer key that starts with it.
pub proof fn law_prefix_comes_first(a: Seq<u8>, b: Seq<u8>)
    requires
        a.is_prefix_of(b),
    ensures
        lex_lt(a, b) == (a.len() < b.len()),
        !lex_lt(b, a),
        lex_le(a, b),
    decreases a.len(),
{
    if a.len() > 0 {
        assert(a[0] == b[0]);
        assert(a.skip(1).is_prefix_of(b.skip(1))) by {
            assert(b.skip(1).subrange(0, a.len() - 1) =~= a.skip(1));
        }
        law_prefix_comes_first(a.skip(1), b.skip(1));
    }
    if a.len() == b.len() {
        assert(a =~= b);
    }
}

/// A short key is filled up with zeros at its end, and of a long one the first bytes
/// are taken.
pub proof fn law_padded(key: Seq<u8>, n: nat)
    ensures
        padded(key, n).len() == n,
        key.len() >= n ==> padded(key, n) == key.take(n as int),
        key.len() <= n ==> padded(key, n).take(key.len() as int) == key,
        forall|i: int| key.len() <= i < n ==> #[trigger] padded(key, n)[i] == 0,
{
    if key.len() >= n {
        assert(padded(key, n) =~= key.take(n as int));
    }
    if key.len() <= n {
        assert(padded(key, n).take(key.len() as int) =~= key);
    }
}

/// The order of a list of keys is strict: each comes before those behind it, and none
/// occurs twice.
pub proof fn law_strictly_sorted(keys: Seq<Seq<u8>>, i: int, j: int)
    requires
        strictly_sorted(keys),
        0 <= i < keys.len(),
        0 <= j < keys.len(),
    ensures
        i < j ==> lex_lt(keys[i], keys[j]),
        keys[i] == keys[j] ==> i == j,
{
    lemma_lex_irreflexive(keys[i]);
}

} // verus!
