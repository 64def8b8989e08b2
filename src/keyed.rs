use vstd::prelude::*;

verus! {

/// The map that inserting the pairs in order builds: a later key overwrites an earlier one.
pub open spec fn pairs_to_map<V>(s: Seq<(Seq<char>, V)>) -> Map<Seq<char>, V>
    decreases s.len(),
{
    if s.len() == 0 {
        Map::empty()
    } else {
        pairs_to_map(s.drop_last()).insert(s.last().0, s.last().1)
    }
}

/// No key occurs twice.
pub open spec fn keys_unique<V>(s: Seq<(Seq<char>, V)>) -> bool {
    forall|i: int, j: int| 0 <= i < j < s.len() ==> s[i].0 != s[j].0
}

/// Whether some pair has key `k`.
pub open spec fn has_key<V>(s: Seq<(Seq<char>, V)>, k: Seq<char>) -> bool {
    exists|i: int| 0 <= i < s.len() && s[i].0 == k
}

pub proof fn lemma_pairs_to_map_dom<V>(s: Seq<(Seq<char>, V)>, k: Seq<char>)
    ensures
        pairs_to_map(s).contains_key(k) <==> has_key(s, k),
    decreases s.len(),
{
    if s.len() > 0 {
        let p = s.drop_last();
        lemma_pairs_to_map_dom(p, k);
        if has_key(p, k) {
            let i = choose|i: int| 0 <= i < p.len() && p[i].0 == k;
            assert(s[i].0 == k);
        }
        if has_key(s, k) && s.last().0 != k {
            let i = choose|i: int| 0 <= i < s.len() && s[i].0 == k;
            assert(p[i].0 == k);
        }
    }
}

pub proof fn lemma_pairs_to_map_value<V>(s: Seq<(Seq<char>, V)>, i: int)
    requires
        keys_unique(s),
        0 <= i < s.len(),
    ensures
        pairs_to_map(s).contains_key(s[i].0),
        pairs_to_map(s)[s[i].0] == s[i].1,
    decreases s.len(),
{
    if i < s.len() - 1 {
        let p = s.drop_last();
        assert(keys_unique(p)) by {
            assert forall|a: int, b: int| 0 <= a < b < p.len() implies p[a].0 != p[b].0 by {
                assert(s[a] == p[a] && s[b] == p[b]);
            }
        }
        assert(p[i] == s[i]);
        lemma_pairs_to_map_value(p, i);
    }
}

/// Two key-unique sequences that hold the same pairs describe the same map.
pub proof fn lemma_pairs_to_map_same_pairs<V>(s: Seq<(Seq<char>, V)>, t: Seq<(Seq<char>, V)>)
    requires
        keys_unique(s),
        keys_unique(t),
        forall|e: (Seq<char>, V)| s.contains(e) <==> t.contains(e),
    ensures
        pairs_to_map(s) == pairs_to_map(t),
{
    let ms = pairs_to_map(s);
    let mt = pairs_to_map(t);
    assert forall|k: Seq<char>| #[trigger] ms.dom().contains(k) implies mt.dom().contains(k) && ms[k] == mt[k] by {
        lemma_pairs_to_map_dom(s, k);
        let i = choose|i: int| 0 <= i < s.len() && s[i].0 == k;
        assert(s.contains(s[i]));
        let j = choose|j: int| 0 <= j < t.len() && t[j] == s[i];
        lemma_pairs_to_map_value(s, i);
        lemma_pairs_to_map_value(t, j);
    }
    assert forall|k: Seq<char>| #[trigger] mt.dom().contains(k) implies ms.dom().contains(k) by {
        lemma_pairs_to_map_dom(t, k);
        let j = choose|j: int| 0 <= j < t.len() && t[j].0 == k;
        assert(t.contains(t[j]));
        let i = choose|i: int| 0 <= i < s.len() && s[i] == t[j];
        assert(s[i].0 == k);
        lemma_pairs_to_map_dom(s, k);
    }
    assert(ms.dom() =~= mt.dom());
    assert(ms =~= mt);
}

/// Giving an existing key a new value.
pub proof fn lemma_pairs_to_map_update<V>(s: Seq<(Seq<char>, V)>, j: int, v: V)
    requires
        keys_unique(s),
        0 <= j < s.len(),
    ensures
        keys_unique(s.update(j, (s[j].0, v))),
        pairs_to_map(s.update(j, (s[j].0, v))) == pairs_to_map(s).insert(s[j].0, v),
{
    let t = s.update(j, (s[j].0, v));
    let ms = pairs_to_map(s).insert(s[j].0, v);
    let mt = pairs_to_map(t);
    assert(keys_unique(t));
    lemma_pairs_to_map_value(t, j);
    assert forall|k: Seq<char>| #[trigger] mt.dom().contains(k) <==> ms.dom().contains(k) by {
        lemma_pairs_to_map_dom(s, k);
        lemma_pairs_to_map_dom(t, k);
        if has_key(s, k) {
            let i = choose|i: int| 0 <= i < s.len() && s[i].0 == k;
            assert(t[i].0 == k);
        }
        if has_key(t, k) {
            let i = choose|i: int| 0 <= i < t.len() && t[i].0 == k;
            assert(s[i].0 == k);
        }
        lemma_pairs_to_map_value(s, j);
    }
    assert forall|k: Seq<char>| #[trigger] mt.dom().contains(k) implies mt[k] == ms[k] by {
        if k != s[j].0 {
            lemma_pairs_to_map_dom(t, k);
            let i = choose|i: int| 0 <= i < t.len() && t[i].0 == k;
            lemma_pairs_to_map_value(t, i);
            lemma_pairs_to_map_value(s, i);
        }
    }
    assert(mt.dom() =~= ms.dom());
    assert(mt =~= ms);
}

/// Adding a pair under a new key.
pub proof fn lemma_pairs_to_map_push<V>(s: Seq<(Seq<char>, V)>, k: Seq<char>, v: V)
    requires
        keys_unique(s),
        !has_key(s, k),
    ensures
        keys_unique(s.push((k, v))),
        pairs_to_map(s.push((k, v))) == pairs_to_map(s).insert(k, v),
{
    let t = s.push((k, v));
    assert forall|a: int, b: int| 0 <= a < b < t.len() implies t[a].0 != t[b].0 by {
        if b == s.len() {
            assert(s[a].0 != k);
        } else {
            assert(t[a] == s[a] && t[b] == s[b]);
        }
    }
    assert(t.drop_last() =~= s);
}

} // verus!
