//! Key-value sequences read as maps: the map a sequence of pairs holds
//! (later pairs win), and how it changes when one pair is updated,
//! inserted or removed.

use vstd::prelude::*;

verus! {

/// The map the pairs hold; a later pair for a key replaces an earlier
/// one.
pub open spec fn map_of<K, V>(s: Seq<(K, V)>) -> Map<K, V>
    decreases s.len(),
{
    if s.len() == 0 {
        Map::empty()
    } else {
        map_of(s.drop_last()).insert(s.last().0, s.last().1)
    }
}

/// No key occurs twice.
pub open spec fn keys_unique<K, V>(s: Seq<(K, V)>) -> bool {
    forall|i: int, j: int| #![trigger s[i], s[j]] 0 <= i < j < s.len() ==> s[i].0 != s[j].0
}

pub proof fn lemma_map_of_dom<K, V>(s: Seq<(K, V)>, k: K)
    ensures
        map_of(s).dom().contains(k) <==> exists|i: int| 0 <= i < s.len() && #[trigger] s[i].0 == k,
    decreases s.len(),
{
    if s.len() > 0 {
        lemma_map_of_dom(s.drop_last(), k);
        if exists|i: int| 0 <= i < s.len() - 1 && #[trigger] s.drop_last()[i].0 == k {
            let i = choose|i: int| 0 <= i < s.len() - 1 && #[trigger] s.drop_last()[i].0 == k;
            assert(s[i].0 == k);
        }
        if exists|i: int| 0 <= i < s.len() && #[trigger] s[i].0 == k {
            let i = choose|i: int| 0 <= i < s.len() && #[trigger] s[i].0 == k;
            if i < s.len() - 1 {
                assert(s.drop_last()[i].0 == k);
            }
        }
    }
}

pub proof fn lemma_map_of_at<K, V>(s: Seq<(K, V)>, i: int)
    requires
        keys_unique(s),
        0 <= i < s.len(),
    ensures
        map_of(s).dom().contains(s[i].0),
        map_of(s)[s[i].0] == s[i].1,
    decreases s.len(),
{
    if i < s.len() - 1 {
        let init = s.drop_last();
        assert(keys_unique(init)) by {
            assert forall|a: int, b: int| #![trigger init[a], init[b]] 0 <= a < b < init.len() implies init[a].0 != init[b].0 by {
                assert(init[a] == s[a] && init[b] == s[b]);
            }
        }
        assert(init[i] == s[i]);
        lemma_map_of_at(init, i);
        assert(s[i].0 != s[s.len() - 1].0);
    }
}

proof fn lemma_unique_init<K, V>(s: Seq<(K, V)>)
    requires
        keys_unique(s),
        s.len() > 0,
    ensures
        keys_unique(s.drop_last()),
{
    let init = s.drop_last();
    assert forall|a: int, b: int| #![trigger init[a], init[b]] 0 <= a < b < init.len() implies init[a].0 != init[b].0 by {
        assert(init[a] == s[a] && init[b] == s[b]);
    }
}

/// Replacing the value of a held key.
pub proof fn lemma_map_of_update<K, V>(s: Seq<(K, V)>, p: int, v: V)
    requires
        keys_unique(s),
        0 <= p < s.len(),
    ensures
        map_of(s.update(p, (s[p].0, v))) == map_of(s).insert(s[p].0, v),
        keys_unique(s.update(p, (s[p].0, v))),
    decreases s.len(),
{
    let k = s[p].0;
    let t = s.update(p, (k, v));
    assert forall|a: int, b: int| #![trigger t[a], t[b]] 0 <= a < b < t.len() implies t[a].0 != t[b].0 by {
        assert(s[a].0 != s[b].0);
    }
    if p == s.len() - 1 {
        assert(t.drop_last() =~= s.drop_last());
        assert(map_of(t) =~= map_of(s).insert(k, v));
    } else {
        lemma_unique_init(s);
        lemma_map_of_update(s.drop_last(), p, v);
        assert(t.drop_last() =~= s.drop_last().update(p, (k, v)));
        assert(s.last().0 != k) by {
            assert(s[s.len() - 1] == s.last());
        }
        assert(map_of(t) =~= map_of(s).insert(k, v));
    }
}

/// Inserting a pair for a new key anywhere.
pub proof fn lemma_map_of_insert<K, V>(s: Seq<(K, V)>, p: int, k: K, v: V)
    requires
        keys_unique(s),
        0 <= p <= s.len(),
        forall|i: int| 0 <= i < s.len() ==> (#[trigger] s[i]).0 != k,
    ensures
        map_of(s.insert(p, (k, v))) == map_of(s).insert(k, v),
        keys_unique(s.insert(p, (k, v))),
    decreases s.len(),
{
    let t = s.insert(p, (k, v));
    assert forall|a: int, b: int| #![trigger t[a], t[b]] 0 <= a < b < t.len() implies t[a].0 != t[b].0 by {
        if a < p && b < p {
            assert(s[a].0 != s[b].0);
        } else if a < p && b > p {
            assert(s[a].0 != s[b - 1].0);
        } else if a > p {
            assert(s[a - 1].0 != s[b - 1].0);
        } else if a == p {
            assert(t[b] == s[b - 1]);
        } else {
            assert(t[a] == s[a]);
        }
    }
    if p == s.len() {
        assert(t.drop_last() =~= s);
    } else {
        lemma_unique_init(s);
        assert forall|i: int| 0 <= i < s.drop_last().len() implies (#[trigger] s.drop_last()[i]).0 != k by {
            assert(s.drop_last()[i] == s[i]);
        }
        lemma_map_of_insert(s.drop_last(), p, k, v);
        assert(t.drop_last() =~= s.drop_last().insert(p, (k, v)));
        assert(t.last() == s.last());
        assert(s.last().0 != k) by {
            assert(s[s.len() - 1] == s.last());
        }
        assert(map_of(t) =~= map_of(s).insert(k, v));
    }
}

/// Removing the pair of a held key.
pub proof fn lemma_map_of_remove<K, V>(s: Seq<(K, V)>, p: int)
    requires
        keys_unique(s),
        0 <= p < s.len(),
    ensures
        map_of(s.remove(p)) == map_of(s).remove(s[p].0),
        keys_unique(s.remove(p)),
    decreases s.len(),
{
    let k = s[p].0;
    let t = s.remove(p);
    assert forall|a: int, b: int| #![trigger t[a], t[b]] 0 <= a < b < t.len() implies t[a].0 != t[b].0 by {
        if b < p {
            assert(s[a].0 != s[b].0);
        } else if a < p {
            assert(s[a].0 != s[b + 1].0);
        } else {
            assert(s[a + 1].0 != s[b + 1].0);
        }
    }
    if p == s.len() - 1 {
        assert(t =~= s.drop_last());
        lemma_unique_init(s);
        assert(!map_of(s.drop_last()).dom().contains(k)) by {
            lemma_map_of_dom(s.drop_last(), k);
            if exists|i: int| 0 <= i < s.len() - 1 && #[trigger] s.drop_last()[i].0 == k {
                let i = choose|i: int| 0 <= i < s.len() - 1 && #[trigger] s.drop_last()[i].0 == k;
                assert(s[i].0 != s[p].0);
            }
        }
        assert(map_of(t) =~= map_of(s).remove(k));
    } else {
        lemma_unique_init(s);
        lemma_map_of_remove(s.drop_last(), p);
        assert(t.drop_last() =~= s.drop_last().remove(p));
        assert(t.last() == s.last());
        assert(s.last().0 != k) by {
            assert(s[s.len() - 1] == s.last());
        }
        assert(map_of(t) =~= map_of(s).remove(k));
    }
}

} // verus!
