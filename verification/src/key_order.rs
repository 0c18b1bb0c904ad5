//! The order of keys: byte strings compare byte by byte, and a proper prefix
//! comes before what it is a prefix of.

use vstd::prelude::*;

verus! {

/// `a` and `b` differ first at `i`, where `a` ends or has the smaller byte.
pub open spec fn lex_lt_at(a: Seq<u8>, b: Seq<u8>, i: int) -> bool {
    &&& 0 <= i <= a.len()
    &&& i < b.len()
    &&& forall|j: int| 0 <= j < i ==> #[trigger] a[j] == b[j]
    &&& i == a.len() || a[i] < b[i]
}

/// `a` comes before `b`.
#[verifier::opaque]
pub open spec fn lex_lt(a: Seq<u8>, b: Seq<u8>) -> bool {
    exists|i: int| lex_lt_at(a, b, i)
}

pub open spec fn lex_le(a: Seq<u8>, b: Seq<u8>) -> bool {
    a == b || lex_lt(a, b)
}

pub broadcast proof fn lemma_lex_irreflexive(a: Seq<u8>)
    ensures
        !#[trigger] lex_lt(a, a),
{
    reveal(lex_lt);
}

pub broadcast proof fn lemma_lex_transitive(a: Seq<u8>, b: Seq<u8>, c: Seq<u8>)
    requires
        #[trigger] lex_lt(a, b),
        #[trigger] lex_lt(b, c),
    ensures
        lex_lt(a, c),
{
    reveal(lex_lt);
    let i = choose|i: int| lex_lt_at(a, b, i);
    let j = choose|j: int| lex_lt_at(b, c, j);
    let k = if i < j {
        i
    } else {
        j
    };
    assert forall|m: int| 0 <= m < k implies #[trigger] a[m] == c[m] by {
        assert(a[m] == b[m]);
        assert(b[m] == c[m]);
    }
    if i < j {
        assert(b[i] == c[i]);
    }
    if j < i {
        assert(a[j] == b[j]);
    }
    assert(lex_lt_at(a, c, k));
}

/// Two keys are equal, or one comes before the other.
pub proof fn lemma_lex_total(a: Seq<u8>, b: Seq<u8>)
    ensures
        a == b || lex_lt(a, b) || lex_lt(b, a),
{
    reveal(lex_lt);
    let n = lemma_first_difference(a, b, 0);
    if n == a.len() && n == b.len() {
        assert(a =~= b);
    } else if n < b.len() && (n == a.len() || a[n] < b[n]) {
        assert(lex_lt_at(a, b, n));
    } else {
        assert(lex_lt_at(b, a, n));
    }
}

proof fn lemma_first_difference(a: Seq<u8>, b: Seq<u8>, from: int) -> (at: int)
    requires
        0 <= from <= a.len(),
        from <= b.len(),
        forall|j: int| 0 <= j < from ==> #[trigger] a[j] == b[j],
    ensures
        0 <= at <= a.len(),
        at <= b.len(),
        forall|j: int| 0 <= j < at ==> #[trigger] a[j] == b[j],
        at == a.len() || at == b.len() || a[at] != b[at],
    decreases a.len() - from,
{
    if from == a.len() || from == b.len() || a[from] != b[from] {
        from
    } else {
        lemma_first_difference(a, b, from + 1)
    }
}

/// Two different keys cannot both come before the other.
pub broadcast proof fn lemma_lex_antisymmetric(a: Seq<u8>, b: Seq<u8>)
    requires
        #[trigger] lex_lt(a, b),
    ensures
        !#[trigger] lex_lt(b, a),
        a != b,
{
    if lex_lt(b, a) {
        lemma_lex_transitive(a, b, a);
    }
    lemma_lex_irreflexive(a);
}

pub proof fn lemma_lex_lt_at(a: Seq<u8>, b: Seq<u8>, i: int)
    requires
        lex_lt_at(a, b, i),
    ensures
        lex_lt(a, b),
        !lex_lt(b, a),
{
    reveal(lex_lt);
    assert(lex_lt(a, b));
    lemma_lex_antisymmetric(a, b);
}

pub broadcast group group_lex_order {
    lemma_lex_irreflexive,
    lemma_lex_transitive,
    lemma_lex_antisymmetric,
}

/// The keys stand in ascending order, and none occurs twice.
pub open spec fn ascending(keys: Seq<Seq<u8>>) -> bool {
    forall|i: int, j: int|
        0 <= i < j < keys.len() ==> lex_lt(#[trigger] keys[i], #[trigger] keys[j])
}

/// How many of the keys, which are in ascending order, come before `key`: the
/// place of `key` among them.
pub open spec fn rank(keys: Seq<Seq<u8>>, key: Seq<u8>) -> int
    decreases keys.len(),
{
    if keys.len() == 0 {
        0
    } else if lex_lt(keys.last(), key) {
        keys.len() as int
    } else {
        rank(keys.drop_last(), key)
    }
}

/// The keys before the rank of `key` are smaller, the others are not.
pub proof fn lemma_rank(keys: Seq<Seq<u8>>, key: Seq<u8>)
    requires
        ascending(keys),
    ensures
        0 <= rank(keys, key) <= keys.len(),
        forall|i: int| 0 <= i < rank(keys, key) ==> lex_lt(#[trigger] keys[i], key),
        forall|i: int| rank(keys, key) <= i < keys.len() ==> lex_le(key, #[trigger] keys[i]),
    decreases keys.len(),
{
    broadcast use group_lex_order;

    if keys.len() > 0 {
        let rest = keys.drop_last();
        if lex_lt(keys.last(), key) {
            assert forall|i: int| 0 <= i < keys.len() implies lex_lt(#[trigger] keys[i], key) by {
                if i < keys.len() - 1 {
                    assert(lex_lt(keys[i], keys[keys.len() - 1]));
                }
            }
        } else {
            assert forall|i: int, j: int| 0 <= i < j < rest.len() implies lex_lt(
                #[trigger] rest[i],
                #[trigger] rest[j],
            ) by {
                assert(lex_lt(keys[i], keys[j]));
            }
            lemma_rank(rest, key);
            lemma_lex_total(keys.last(), key);
            assert forall|i: int| 0 <= i < rank(keys, key) implies lex_lt(
                #[trigger] keys[i],
                key,
            ) by {
                assert(keys[i] == rest[i]);
            }
            assert forall|i: int| rank(keys, key) <= i < keys.len() implies lex_le(
                key,
                #[trigger] keys[i],
            ) by {
                if i < rest.len() {
                    assert(keys[i] == rest[i]);
                }
            }
        }
    }
}

/// Only the rank parts the keys into smaller ones and others.
pub proof fn lemma_rank_unique(keys: Seq<Seq<u8>>, key: Seq<u8>, at: int)
    requires
        ascending(keys),
        0 <= at <= keys.len(),
        forall|i: int| 0 <= i < at ==> lex_lt(#[trigger] keys[i], key),
        forall|i: int| at <= i < keys.len() ==> !lex_lt(#[trigger] keys[i], key),
    ensures
        rank(keys, key) == at,
{
    broadcast use group_lex_order;

    lemma_rank(keys, key);
    let r = rank(keys, key);
    if r < at {
        assert(lex_lt(keys[r], key));
        assert(lex_le(key, keys[r]));
    }
    if at < r {
        assert(lex_lt(keys[at], key));
    }
}

/// Whether `a` comes before `b`.
pub fn key_less(a: &[u8], b: &[u8]) -> (less: bool)
    ensures
        less == lex_lt(a@, b@),
        !less ==> a@ == b@ || lex_lt(b@, a@),
{
    let mut i: usize = 0;
    while i < a.len() && i < b.len()
        invariant
            i <= a@.len(),
            i <= b@.len(),
            forall|j: int| 0 <= j < i ==> #[trigger] a@[j] == b@[j],
        decreases a@.len() - i,
    {
        if a[i] < b[i] {
            proof {
                lemma_lex_lt_at(a@, b@, i as int);
            }
            return true;
        }
        if a[i] > b[i] {
            proof {
                lemma_lex_lt_at(b@, a@, i as int);
            }
            return false;
        }
        i = i + 1;
    }
    proof {
        if i < b@.len() {
            lemma_lex_lt_at(a@, b@, i as int);
        } else if i < a@.len() {
            lemma_lex_lt_at(b@, a@, i as int);
        } else {
            assert(a@ =~= b@);
            lemma_lex_irreflexive(a@);
        }
    }
    i < b.len()
}

/// Whether two keys are the same.
pub fn key_equal(a: &[u8], b: &[u8]) -> (equal: bool)
    ensures
        equal == (a@ == b@),
{
    if a.len() != b.len() {
        return false;
    }
    let mut i: usize = 0;
    while i < a.len()
        invariant
            i <= a@.len(),
            a@.len() == b@.len(),
            forall|j: int| 0 <= j < i ==> a@[j] == b@[j],
        decreases a@.len() - i,
    {
        if a[i] != b[i] {
            return false;
        }
        i = i + 1;
    }
    assert(a@ =~= b@);
    true
}

/// A key comes before all that it is the beginning of.
pub proof fn law_beginning_comes_first(key: Seq<u8>, more: Seq<u8>)
    requires
        more.len() > 0,
    ensures
        lex_lt(key, key + more),
        !lex_lt(key + more, key),
{
    assert(lex_lt_at(key, key + more, key.len() as int));
    lemma_lex_lt_at(key, key + more, key.len() as int);
}

/// Behind a common beginning the smaller byte comes first, whatever follows.
pub proof fn law_smaller_byte_comes_first(
    begin: Seq<u8>,
    low: u8,
    high: u8,
    more: Seq<u8>,
    other: Seq<u8>,
)
    requires
        low < high,
    ensures
        lex_lt(begin + seq![low] + more, begin + seq![high] + other),
        !lex_lt(begin + seq![high] + other, begin + seq![low] + more),
{
    let a = begin + seq![low] + more;
    let b = begin + seq![high] + other;
    let i = begin.len() as int;
    assert(a[i] == low && b[i] == high);
    assert(lex_lt_at(a, b, i));
    lemma_lex_lt_at(a, b, i);
}

} // verus!
