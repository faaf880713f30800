//! Lexicographic order over integer sequences, the one order the store
//! uses for byte strings (content ids) and character strings (paths).

use vstd::prelude::*;

use crate::ContentId;

verus! {

/// Strict lexicographic order: a proper prefix sorts first.
pub open spec fn lex_lt(a: Seq<int>, b: Seq<int>) -> bool
    decreases a.len(),
{
    if a.len() == 0 {
        b.len() > 0
    } else if b.len() == 0 {
        false
    } else if a[0] < b[0] {
        true
    } else if a[0] > b[0] {
        false
    } else {
        lex_lt(a.drop_first(), b.drop_first())
    }
}

/// The ordering key of a byte string.
pub open spec fn bytes_key(s: Seq<u8>) -> Seq<int> {
    s.map_values(|x: u8| x as int)
}

/// The ordering key of a character string (code point order, which is
/// also the byte order of its UTF-8 encoding).
pub open spec fn chars_key(s: Seq<char>) -> Seq<int> {
    s.map_values(|x: char| x as int)
}

/// Byte strings in lexicographic order.
pub open spec fn bytes_lt(a: Seq<u8>, b: Seq<u8>) -> bool {
    lex_lt(bytes_key(a), bytes_key(b))
}

/// Character strings in code point order.
pub open spec fn chars_lt(a: Seq<char>, b: Seq<char>) -> bool {
    lex_lt(chars_key(a), chars_key(b))
}

pub proof fn lemma_lex_irreflexive(a: Seq<int>)
    ensures
        !lex_lt(a, a),
    decreases a.len(),
{
    if a.len() > 0 {
        lemma_lex_irreflexive(a.drop_first());
    }
}

pub proof fn lemma_lex_asymmetric(a: Seq<int>, b: Seq<int>)
    ensures
        !(lex_lt(a, b) && lex_lt(b, a)),
    decreases a.len(),
{
    if a.len() > 0 && b.len() > 0 && a[0] == b[0] {
        lemma_lex_asymmetric(a.drop_first(), b.drop_first());
    }
}

pub proof fn lemma_lex_transitive(a: Seq<int>, b: Seq<int>, c: Seq<int>)
    requires
        lex_lt(a, b),
        lex_lt(b, c),
    ensures
        lex_lt(a, c),
    decreases a.len(),
{
    if a.len() > 0 && b.len() > 0 && c.len() > 0 && a[0] == b[0] && b[0] == c[0] {
        lemma_lex_transitive(a.drop_first(), b.drop_first(), c.drop_first());
    }
}

pub proof fn lemma_lex_total(a: Seq<int>, b: Seq<int>)
    ensures
        a == b || lex_lt(a, b) || lex_lt(b, a),
    decreases a.len(),
{
    if a.len() > 0 && b.len() > 0 && a[0] == b[0] {
        lemma_lex_total(a.drop_first(), b.drop_first());
        if a.drop_first() == b.drop_first() {
            assert(a =~= seq![a[0]] + a.drop_first());
            assert(b =~= seq![b[0]] + b.drop_first());
        }
    } else if a.len() == 0 && b.len() == 0 {
        assert(a =~= b);
    }
}

pub proof fn lemma_bytes_key_injective(a: Seq<u8>, b: Seq<u8>)
    requires
        bytes_key(a) == bytes_key(b),
    ensures
        a == b,
{
    assert(bytes_key(a).len() == a.len());
    assert(bytes_key(b).len() == b.len());
    assert forall|i: int| 0 <= i < a.len() implies a[i] == b[i] by {
        assert(bytes_key(a)[i] == a[i] as int);
        assert(bytes_key(b)[i] == b[i] as int);
    }
    assert(a =~= b);
}

pub proof fn lemma_chars_key_injective(a: Seq<char>, b: Seq<char>)
    requires
        chars_key(a) == chars_key(b),
    ensures
        a == b,
{
    assert(chars_key(a).len() == a.len());
    assert(chars_key(b).len() == b.len());
    assert forall|i: int| 0 <= i < a.len() implies a[i] == b[i] by {
        assert(chars_key(a)[i] == a[i] as int);
        assert(chars_key(b)[i] == b[i] as int);
    }
    assert(a =~= b);
}

/// Byte strings: irreflexive, transitive, total order.
pub proof fn lemma_bytes_order(a: Seq<u8>, b: Seq<u8>, c: Seq<u8>)
    ensures
        !bytes_lt(a, a),
        bytes_lt(a, b) ==> !bytes_lt(b, a),
        bytes_lt(a, b) && bytes_lt(b, c) ==> bytes_lt(a, c),
        a == b || bytes_lt(a, b) || bytes_lt(b, a),
{
    lemma_lex_irreflexive(bytes_key(a));
    lemma_lex_asymmetric(bytes_key(a), bytes_key(b));
    if bytes_lt(a, b) && bytes_lt(b, c) {
        lemma_lex_transitive(bytes_key(a), bytes_key(b), bytes_key(c));
    }
    lemma_lex_total(bytes_key(a), bytes_key(b));
    if bytes_key(a) == bytes_key(b) {
        lemma_bytes_key_injective(a, b);
    }
}

/// Character strings: irreflexive, transitive, total order.
pub proof fn lemma_chars_order(a: Seq<char>, b: Seq<char>, c: Seq<char>)
    ensures
        !chars_lt(a, a),
        chars_lt(a, b) ==> !chars_lt(b, a),
        chars_lt(a, b) && chars_lt(b, c) ==> chars_lt(a, c),
        a == b || chars_lt(a, b) || chars_lt(b, a),
{
    lemma_lex_irreflexive(chars_key(a));
    lemma_lex_asymmetric(chars_key(a), chars_key(b));
    if chars_lt(a, b) && chars_lt(b, c) {
        lemma_lex_transitive(chars_key(a), chars_key(b), chars_key(c));
    }
    lemma_lex_total(chars_key(a), chars_key(b));
    if chars_key(a) == chars_key(b) {
        lemma_chars_key_injective(a, b);
    }
}

/// Lexicographic comparison of two integer-keyed sequences given as
/// keys: -1 when `a < b`, 0 when equal, 1 when `a > b`.
pub open spec fn lex_order_spec(a: Seq<int>, b: Seq<int>) -> int {
    if lex_lt(a, b) {
        -1
    } else if a == b {
        0
    } else {
        1
    }
}

proof fn lemma_lex_common_prefix(a: Seq<int>, b: Seq<int>, k: int)
    requires
        0 <= k <= a.len(),
        k <= b.len(),
        a.take(k) == b.take(k),
    ensures
        lex_lt(a, b) == lex_lt(a.skip(k), b.skip(k)),
    decreases k,
{
    if k > 0 {
        assert(a[0] == a.take(k)[0]);
        assert(b[0] == b.take(k)[0]);
        assert(a.drop_first().take(k - 1) =~= a.take(k).drop_first());
        assert(b.drop_first().take(k - 1) =~= b.take(k).drop_first());
        lemma_lex_common_prefix(a.drop_first(), b.drop_first(), k - 1);
        assert(a.drop_first().skip(k - 1) =~= a.skip(k));
        assert(b.drop_first().skip(k - 1) =~= b.skip(k));
    } else {
        assert(a.skip(0) =~= a);
        assert(b.skip(0) =~= b);
    }
}

/// Compare two character vectors in code point order: -1, 0 or 1.
pub fn order_chars(a: &Vec<char>, b: &Vec<char>) -> (r: i8)
    ensures
        r == lex_order_spec(chars_key(a@), chars_key(b@)),
        r == 0 <==> a@ == b@,
        r == -1 <==> chars_lt(a@, b@),
        r == 1 <==> chars_lt(b@, a@),
{
    let ghost ka = chars_key(a@);
    let ghost kb = chars_key(b@);
    let mut i: usize = 0;
    while i < a.len() && i < b.len()
        invariant
            i <= a.len(),
            i <= b.len(),
            ka == chars_key(a@),
            kb == chars_key(b@),
            ka.take(i as int) == kb.take(i as int),
        decreases a.len() - i,
    {
        if a[i] != b[i] {
            proof {
                lemma_lex_common_prefix(ka, kb, i as int);
                lemma_lex_common_prefix(kb, ka, i as int);
                let x = ka.skip(i as int);
                let y = kb.skip(i as int);
                assert(x.len() > 0 && y.len() > 0);
                assert(x[0] == a@[i as int] as int);
                assert(y[0] == b@[i as int] as int);
                assert(lex_lt(x, y) == (a@[i as int] < b@[i as int]));
                assert(lex_lt(y, x) == (b@[i as int] < a@[i as int]));
            }
            let r: i8 = if a[i] < b[i] {
                -1
            } else {
                1
            };
            proof {
                lemma_chars_order(a@, b@, a@);
                if a@ == b@ {
                    assert(a@[i as int] == b@[i as int]);
                }
            }
            return r;
        }
        assert(ka.take(i + 1) =~= ka.take(i as int).push(ka[i as int]));
        assert(kb.take(i + 1) =~= kb.take(i as int).push(kb[i as int]));
        i = i + 1;
    }
    proof {
        lemma_lex_common_prefix(ka, kb, i as int);
        lemma_lex_common_prefix(kb, ka, i as int);
        lemma_chars_order(a@, b@, a@);
        if a.len() == b.len() {
            assert(ka.take(i as int) =~= ka);
            assert(kb.take(i as int) =~= kb);
            lemma_chars_key_injective(a@, b@);
        }
    }
    if a.len() == b.len() {
        0
    } else if a.len() < b.len() {
        -1
    } else {
        1
    }
}

/// Compare two content ids in byte order: -1, 0 or 1.
pub fn order_ids(a: &ContentId, b: &ContentId) -> (r: i8)
    ensures
        r == 0 <==> a.0@ == b.0@,
        r == -1 <==> bytes_lt(a.0@, b.0@),
        r == 1 <==> bytes_lt(b.0@, a.0@),
{
    let ghost ka = bytes_key(a.0@);
    let ghost kb = bytes_key(b.0@);
    let mut i: usize = 0;
    while i < 32
        invariant
            i <= 32,
            ka == bytes_key(a.0@),
            kb == bytes_key(b.0@),
            ka.take(i as int) == kb.take(i as int),
        decreases 32 - i,
    {
        if a.0[i] != b.0[i] {
            proof {
                lemma_lex_common_prefix(ka, kb, i as int);
                lemma_lex_common_prefix(kb, ka, i as int);
                let x = ka.skip(i as int);
                let y = kb.skip(i as int);
                assert(x.len() > 0 && y.len() > 0);
                assert(x[0] == a.0@[i as int] as int);
                assert(y[0] == b.0@[i as int] as int);
                assert(lex_lt(x, y) == (a.0@[i as int] < b.0@[i as int]));
                assert(lex_lt(y, x) == (b.0@[i as int] < a.0@[i as int]));
                lemma_bytes_order(a.0@, b.0@, a.0@);
                if a.0@ == b.0@ {
                    assert(a.0@[i as int] == b.0@[i as int]);
                }
            }
            if a.0[i] < b.0[i] {
                return -1;
            } else {
                return 1;
            }
        }
        assert(ka.take(i + 1) =~= ka.take(i as int).push(ka[i as int]));
        assert(kb.take(i + 1) =~= kb.take(i as int).push(kb[i as int]));
        i = i + 1;
    }
    proof {
        assert(ka.take(32) =~= ka);
        assert(kb.take(32) =~= kb);
        lemma_bytes_key_injective(a.0@, b.0@);
        lemma_bytes_order(a.0@, b.0@, a.0@);
    }
    0
}


/// Index `a` goes before index `b` when ordering by descending key:
/// a larger key, or an equal key and an earlier position.
pub open spec fn desc_before(keys: Seq<u128>, a: int, b: int) -> bool {
    keys[a] > keys[b] || (keys[a] == keys[b] && a < b)
}

/// `order` lists every index of `keys` once, by descending key, equal
/// keys in their original order (a stable sort).
pub open spec fn desc_order(keys: Seq<u128>, order: Seq<usize>) -> bool {
    &&& order.len() == keys.len()
    &&& forall|i: int| 0 <= i < order.len() ==> #[trigger] order[i] < keys.len()
    &&& forall|i: int, j: int|
        0 <= i < j < order.len() ==> desc_before(keys, #[trigger] order[i] as int, #[trigger] order[j] as int)
}

/// The indices of `keys` in a stable descending order.
pub fn stable_desc_order(keys: &Vec<u128>) -> (order: Vec<usize>)
    ensures
        desc_order(keys@, order@),
{
    let mut order: Vec<usize> = Vec::new();
    let mut i: usize = 0;
    while i < keys.len()
        invariant
            i <= keys@.len(),
            order@.len() == i,
            forall|k: int| 0 <= k < order@.len() ==> #[trigger] order@[k] < i,
            forall|a: int, b: int|
                0 <= a < b < order@.len() ==> desc_before(keys@, #[trigger] order@[a] as int, #[trigger] order@[b] as int),
        decreases keys@.len() - i,
    {
        let mut p: usize = 0;
        while p < order.len() && keys[order[p]] >= keys[i]
            invariant
                p <= order@.len(),
                i < keys@.len(),
                forall|k: int| 0 <= k < order@.len() ==> #[trigger] order@[k] < i,
                forall|k: int| 0 <= k < p ==> desc_before(keys@, #[trigger] order@[k] as int, i as int),
            decreases order@.len() - p,
        {
            p = p + 1;
        }
        proof {
            assert forall|k: int| p <= k < order@.len() implies desc_before(
                keys@,
                i as int,
                #[trigger] order@[k] as int,
            ) by {
                let q = order@[p as int] as int;
                assert(keys@[q] < keys@[i as int]);
                if k > p {
                    assert(desc_before(keys@, q, order@[k] as int));
                }
            }
        }
        let ghost old_order = order@;
        order.insert(p, i);
        proof {
            assert forall|a: int, b: int| 0 <= a < b < order@.len() implies desc_before(
                keys@,
                #[trigger] order@[a] as int,
                #[trigger] order@[b] as int,
            ) by {
                if b < p {
                    assert(order@[a] == old_order[a] && order@[b] == old_order[b]);
                } else if b == p {
                    assert(order@[a] == old_order[a]);
                } else if a < p {
                    assert(order@[a] == old_order[a] && order@[b] == old_order[b - 1]);
                } else if a == p {
                    assert(order@[b] == old_order[b - 1]);
                } else {
                    assert(order@[a] == old_order[a - 1] && order@[b] == old_order[b - 1]);
                }
            }
            assert forall|k: int| 0 <= k < order@.len() implies #[trigger] order@[k] < i + 1 by {
                if k < p {
                    assert(order@[k] == old_order[k]);
                } else if k > p {
                    assert(order@[k] == old_order[k - 1]);
                }
            }
        }
        i = i + 1;
    }
    order
}

} // verus!
