//! Lexicographic order on text, which is the order of `String` and of file
//! names, and a stable sort that puts items in that order.
use vstd::prelude::*;

verus! {

/// `a` sorts strictly before `b`, comparing characters by code point.
pub open spec fn text_lt(a: Seq<char>, b: Seq<char>) -> bool
    decreases a.len(),
{
    if a.len() == 0 {
        b.len() > 0
    } else if b.len() == 0 {
        false
    } else if a[0] != b[0] {
        (a[0] as u32) < (b[0] as u32)
    } else {
        text_lt(a.drop_first(), b.drop_first())
    }
}

pub open spec fn text_le(a: Seq<char>, b: Seq<char>) -> bool {
    !text_lt(b, a)
}

/// A pair of keys, compared on the first and then on the second.
pub open spec fn pair_lt(a: (Seq<char>, Seq<char>), b: (Seq<char>, Seq<char>)) -> bool {
    text_lt(a.0, b.0) || (a.0 == b.0 && text_lt(a.1, b.1))
}

pub open spec fn pair_le(a: (Seq<char>, Seq<char>), b: (Seq<char>, Seq<char>)) -> bool {
    !pair_lt(b, a)
}

pub proof fn lemma_text_lt_irreflexive(a: Seq<char>)
    ensures
        !text_lt(a, a),
    decreases a.len(),
{
    if a.len() > 0 {
        lemma_text_lt_irreflexive(a.drop_first());
    }
}

pub proof fn lemma_text_lt_total(a: Seq<char>, b: Seq<char>)
    ensures
        text_lt(a, b) || a == b || text_lt(b, a),
        !(text_lt(a, b) && text_lt(b, a)),
    decreases a.len(),
{
    if a.len() > 0 && b.len() > 0 && a[0] != b[0] {
        if (a[0] as u32) == (b[0] as u32) {
            vstd::utf8::char_u32_cast(a[0], a[0] as u32);
            vstd::utf8::char_u32_cast(b[0], b[0] as u32);
        }
    }
    if a.len() > 0 && b.len() > 0 && a[0] == b[0] {
        lemma_text_lt_total(a.drop_first(), b.drop_first());
        if a.drop_first() == b.drop_first() {
            assert(a == seq![a[0]] + a.drop_first());
            assert(b == seq![b[0]] + b.drop_first());
        }
    }
    if a.len() == 0 && b.len() == 0 {
        assert(a == b);
    }
}

pub proof fn lemma_text_lt_transitive(a: Seq<char>, b: Seq<char>, c: Seq<char>)
    requires
        text_lt(a, b),
        text_lt(b, c),
    ensures
        text_lt(a, c),
    decreases a.len(),
{
    if a.len() > 0 && b.len() > 0 && c.len() > 0 && a[0] == b[0] && b[0] == c[0] {
        lemma_text_lt_transitive(a.drop_first(), b.drop_first(), c.drop_first());
    }
}

pub proof fn lemma_pair_facts()
    ensures
        forall|a: (Seq<char>, Seq<char>)| !#[trigger] pair_lt(a, a),
        forall|a: (Seq<char>, Seq<char>), b: (Seq<char>, Seq<char>)|
            #[trigger] pair_lt(a, b) ==> !pair_lt(b, a),
        forall|a: (Seq<char>, Seq<char>), b: (Seq<char>, Seq<char>)|
            !#[trigger] pair_lt(a, b) && !pair_lt(b, a) ==> a == b,
        forall|a: (Seq<char>, Seq<char>), b: (Seq<char>, Seq<char>), c: (Seq<char>, Seq<char>)|
            #[trigger] pair_lt(a, b) && #[trigger] pair_lt(b, c) ==> pair_lt(a, c),
        forall|a: (Seq<char>, Seq<char>), b: (Seq<char>, Seq<char>), c: (Seq<char>, Seq<char>)|
            #[trigger] pair_le(a, b) && #[trigger] pair_lt(b, c) ==> pair_lt(a, c),
        forall|a: (Seq<char>, Seq<char>), b: (Seq<char>, Seq<char>), c: (Seq<char>, Seq<char>)|
            #[trigger] pair_lt(a, b) && #[trigger] pair_le(b, c) ==> pair_lt(a, c),
        forall|a: (Seq<char>, Seq<char>), b: (Seq<char>, Seq<char>), c: (Seq<char>, Seq<char>)|
            #[trigger] pair_le(a, b) && #[trigger] pair_le(b, c) ==> pair_le(a, c),
{
    assert forall|a: (Seq<char>, Seq<char>)| !#[trigger] pair_lt(a, a) by {
        lemma_text_lt_irreflexive(a.0);
        lemma_text_lt_irreflexive(a.1);
    }
    assert forall|a: (Seq<char>, Seq<char>), b: (Seq<char>, Seq<char>)|
        #[trigger] pair_lt(a, b) implies !pair_lt(b, a) by {
        lemma_text_lt_total(a.0, b.0);
        lemma_text_lt_total(a.1, b.1);
    }
    assert forall|a: (Seq<char>, Seq<char>), b: (Seq<char>, Seq<char>)|
        !#[trigger] pair_lt(a, b) && !pair_lt(b, a) implies a == b by {
        lemma_text_lt_total(a.0, b.0);
        lemma_text_lt_total(a.1, b.1);
    }
    assert forall|a: (Seq<char>, Seq<char>), b: (Seq<char>, Seq<char>), c: (Seq<char>, Seq<char>)|
        #[trigger] pair_lt(a, b) && #[trigger] pair_lt(b, c) implies pair_lt(a, c) by {
        lemma_pair_lt_transitive(a, b, c);
    }
    assert forall|a: (Seq<char>, Seq<char>), b: (Seq<char>, Seq<char>), c: (Seq<char>, Seq<char>)|
        #[trigger] pair_le(a, b) && #[trigger] pair_lt(b, c) implies pair_lt(a, c) by {
        lemma_pair_total(a, b);
        if pair_lt(a, b) {
            lemma_pair_lt_transitive(a, b, c);
        }
    }
    assert forall|a: (Seq<char>, Seq<char>), b: (Seq<char>, Seq<char>), c: (Seq<char>, Seq<char>)|
        #[trigger] pair_lt(a, b) && #[trigger] pair_le(b, c) implies pair_lt(a, c) by {
        lemma_pair_total(b, c);
        if pair_lt(b, c) {
            lemma_pair_lt_transitive(a, b, c);
        }
    }
    assert forall|a: (Seq<char>, Seq<char>), b: (Seq<char>, Seq<char>), c: (Seq<char>, Seq<char>)|
        #[trigger] pair_le(a, b) && #[trigger] pair_le(b, c) implies pair_le(a, c) by {
        if pair_lt(c, a) {
            lemma_pair_total(a, b);
            lemma_pair_total(b, c);
            if pair_lt(a, b) {
                lemma_pair_lt_transitive(c, a, b);
            } else if pair_lt(b, c) {
                lemma_pair_lt_transitive(b, c, a);
            }
        }
    }
}

proof fn lemma_pair_total(a: (Seq<char>, Seq<char>), b: (Seq<char>, Seq<char>))
    ensures
        pair_lt(a, b) || a == b || pair_lt(b, a),
        !(pair_lt(a, b) && pair_lt(b, a)),
{
    lemma_text_lt_total(a.0, b.0);
    lemma_text_lt_total(a.1, b.1);
    lemma_text_lt_irreflexive(a.0);
}

proof fn lemma_pair_lt_transitive(
    a: (Seq<char>, Seq<char>),
    b: (Seq<char>, Seq<char>),
    c: (Seq<char>, Seq<char>),
)
    requires
        pair_lt(a, b),
        pair_lt(b, c),
    ensures
        pair_lt(a, c),
{
    if text_lt(a.0, b.0) && text_lt(b.0, c.0) {
        lemma_text_lt_transitive(a.0, b.0, c.0);
    } else if text_lt(a.1, b.1) && text_lt(b.1, c.1) {
        lemma_text_lt_transitive(a.1, b.1, c.1);
    }
}

/// Compares two texts: negative, zero or positive as `a` sorts before, equal to, or after `b`.
pub fn compare_text(a: &Vec<char>, b: &Vec<char>) -> (r: i8)
    ensures
        r < 0 <==> text_lt(a@, b@),
        r == 0 <==> a@ == b@,
        r > 0 <==> text_lt(b@, a@),
{
    let mut i: usize = 0;
    assert(a@.skip(0) == a@);
    assert(b@.skip(0) == b@);
    while i < a.len() && i < b.len() && a[i] == b[i]
        invariant
            i <= a@.len(),
            i <= b@.len(),
            a@.take(i as int) == b@.take(i as int),
            text_lt(a@, b@) == text_lt(a@.skip(i as int), b@.skip(i as int)),
            text_lt(b@, a@) == text_lt(b@.skip(i as int), a@.skip(i as int)),
        decreases a@.len() - i,
    {
        assert(a@.skip(i as int).drop_first() == a@.skip(i + 1));
        assert(b@.skip(i as int).drop_first() == b@.skip(i + 1));
        assert(a@.take(i + 1) == a@.take(i as int).push(a@[i as int]));
        assert(b@.take(i + 1) == b@.take(i as int).push(b@[i as int]));
        i = i + 1;
    }
    proof {
        lemma_text_lt_total(a@, b@);
    }
    if i < a.len() && i < b.len() {
        assert(a@.skip(i as int)[0] == a@[i as int]);
        assert(b@.skip(i as int)[0] == b@[i as int]);
        let x = a[i] as u32;
        let y = b[i] as u32;
        if x < y {
            -1
        } else {
            1
        }
    } else if i < a.len() {
        assert(b@.take(i as int) == b@);
        assert(a@ != b@);
        1
    } else if i < b.len() {
        assert(a@.take(i as int) == a@);
        assert(a@ != b@);
        -1
    } else {
        assert(a@ == a@.take(i as int));
        assert(b@ == b@.take(i as int));
        0
    }
}

/// `perm` lists every index below `n` once.
pub open spec fn is_permutation(perm: Seq<usize>, n: nat) -> bool {
    &&& perm.len() == n
    &&& forall|i: int| 0 <= i < perm.len() ==> #[trigger] perm[i] < n
    &&& forall|i: int, j: int| 0 <= i < j < perm.len() ==> perm[i] != perm[j]
    &&& forall|j: int| 0 <= j < n ==> #[trigger] lists(perm, j)
}

/// `perm` holds the index `j`.
pub open spec fn lists(perm: Seq<usize>, j: int) -> bool {
    exists|q: int| 0 <= q < perm.len() && perm[q] == j
}

/// The key of item `i` for sorting: a pair of texts.
pub open spec fn key_of(keys: Seq<(Vec<char>, Vec<char>)>, i: int) -> (Seq<char>, Seq<char>) {
    (keys[i].0@, keys[i].1@)
}

/// `perm` visits the keys in nondecreasing order, and items with equal keys in the
/// order they were given in.
pub open spec fn sorted_stably(keys: Seq<(Vec<char>, Vec<char>)>, perm: Seq<usize>) -> bool {
    &&& forall|i: int, j: int|
        0 <= i < j < perm.len() ==> pair_le(
            #[trigger] key_of(keys, perm[i] as int),
            #[trigger] key_of(keys, perm[j] as int),
        )
    &&& forall|i: int, j: int|
        0 <= i < j < perm.len() && key_of(keys, perm[i] as int) == key_of(keys, perm[j] as int)
            ==> #[trigger] perm[i] < #[trigger] perm[j]
}

fn compare_pair(a: &(Vec<char>, Vec<char>), b: &(Vec<char>, Vec<char>)) -> (lt: bool)
    ensures
        lt == pair_lt((a.0@, a.1@), (b.0@, b.1@)),
{
    let first = compare_text(&a.0, &b.0);
    if first != 0 {
        first < 0
    } else {
        compare_text(&a.1, &b.1) < 0
    }
}

/// The order in which to visit the items so that their keys come out sorted,
/// as a stable sort by key would leave them.
pub fn sorted_order(keys: &Vec<(Vec<char>, Vec<char>)>) -> (perm: Vec<usize>)
    ensures
        is_permutation(perm@, keys@.len()),
        sorted_stably(keys@, perm@),
{
    proof {
        lemma_pair_facts();
    }
    let n = keys.len();
    let mut perm: Vec<usize> = Vec::new();
    let mut idx: usize = 0;
    while idx < n
        invariant
            idx <= n == keys@.len(),
            perm@.len() == idx,
            forall|i: int| 0 <= i < perm@.len() ==> #[trigger] perm@[i] < idx,
            forall|i: int, j: int| 0 <= i < j < perm@.len() ==> perm@[i] != perm@[j],
            forall|j: int| 0 <= j < idx ==> #[trigger] lists(perm@, j),
            sorted_stably(keys@, perm@),
        decreases n - idx,
    {
        let mut p: usize = 0;
        while p < perm.len() && !compare_pair(&keys[idx], &keys[perm[p]])
            invariant
                p <= perm@.len() == idx < n == keys@.len(),
                forall|i: int| 0 <= i < perm@.len() ==> #[trigger] perm@[i] < idx,
                forall|q: int|
                    0 <= q < p ==> pair_le(
                        #[trigger] key_of(keys@, perm@[q] as int),
                        key_of(keys@, idx as int),
                    ),
            decreases perm@.len() - p,
        {
            p = p + 1;
        }
        let ghost old_perm = perm@;
        perm.insert(p, idx);
        proof {
            lemma_pair_facts();
            assert(perm@ == old_perm.insert(p as int, idx));
            let new = perm@;
            assert forall|i: int| 0 <= i < new.len() implies #[trigger] new[i] < idx + 1 by {
                if i < p {
                    assert(new[i] == old_perm[i]);
                } else if i > p {
                    assert(new[i] == old_perm[i - 1]);
                }
            }
            assert forall|i: int, j: int| 0 <= i < j < new.len() implies new[i] != new[j] by {
                if i < p && j < p {
                    assert(new[i] == old_perm[i] && new[j] == old_perm[j]);
                } else if i < p && j > p {
                    assert(new[i] == old_perm[i] && new[j] == old_perm[j - 1]);
                } else if i > p && j > p {
                    assert(new[i] == old_perm[i - 1] && new[j] == old_perm[j - 1]);
                } else if i == p {
                    assert(new[j] == old_perm[j - 1]);
                } else {
                    assert(new[i] == old_perm[i]);
                }
            }
            assert forall|j: int| 0 <= j < idx + 1 implies #[trigger] lists(new, j) by {
                if j == idx {
                    assert(new[p as int] == idx);
                } else {
                    assert(lists(old_perm, j));
                    let q = choose|q: int| 0 <= q < old_perm.len() && old_perm[q] == j;
                    if q < p {
                        assert(new[q] == j);
                    } else {
                        assert(new[q + 1] == j);
                    }
                }
            }
            let k = key_of(keys@, idx as int);
            assert forall|i: int, j: int| 0 <= i < j < new.len() implies pair_le(
                #[trigger] key_of(keys@, new[i] as int),
                #[trigger] key_of(keys@, new[j] as int),
            ) by {
                if i < p && j < p {
                    assert(new[i] == old_perm[i] && new[j] == old_perm[j]);
                    assert(pair_le(key_of(keys@, old_perm[i] as int), key_of(keys@, old_perm[j] as int)));
                } else if i < p && j > p {
                    assert(new[i] == old_perm[i] && new[j] == old_perm[j - 1]);
                    assert(pair_le(key_of(keys@, old_perm[i] as int), key_of(keys@, old_perm[j - 1] as int)));
                } else if i > p && j > p {
                    assert(new[i] == old_perm[i - 1] && new[j] == old_perm[j - 1]);
                    assert(pair_le(key_of(keys@, old_perm[i - 1] as int), key_of(keys@, old_perm[j - 1] as int)));
                } else if i == p {
                    assert(new[i] == idx);
                    assert(new[j] == old_perm[j - 1]);
                    assert(pair_lt(k, key_of(keys@, old_perm[p as int] as int)));
                    if j - 1 > p {
                        assert(pair_le(
                            key_of(keys@, old_perm[p as int] as int),
                            key_of(keys@, old_perm[j - 1] as int),
                        ));
                    }
                } else {
                    assert(new[i] == old_perm[i]);
                    assert(new[j] == idx);
                    assert(pair_le(key_of(keys@, old_perm[i] as int), k));
                }
            }
            assert forall|i: int, j: int|
                0 <= i < j < new.len() && key_of(keys@, new[i] as int) == key_of(
                    keys@,
                    new[j] as int,
                ) implies #[trigger] new[i] < #[trigger] new[j] by {
                if i < p && j < p {
                    assert(new[i] == old_perm[i] && new[j] == old_perm[j]);
                } else if i < p && j > p {
                    assert(new[i] == old_perm[i] && new[j] == old_perm[j - 1]);
                } else if i > p && j > p {
                    assert(new[i] == old_perm[i - 1] && new[j] == old_perm[j - 1]);
                } else if i == p {
                    assert(new[j] == old_perm[j - 1]);
                    assert(pair_lt(k, key_of(keys@, old_perm[p as int] as int)));
                    if j - 1 > p {
                        assert(pair_le(
                            key_of(keys@, old_perm[p as int] as int),
                            key_of(keys@, old_perm[j - 1] as int),
                        ));
                    }
                } else {
                    assert(new[i] == old_perm[i]);
                    assert(new[j] == idx);
                }
            }
        }
        idx = idx + 1;
    }
    perm
}

} // verus!
