//! Finite maps kept as sequences of key/value pairs with distinct keys.
use vstd::prelude::*;

verus! {

/// Whether no key occurs twice among the pairs of `s`.
pub open spec fn claves_distintas<K, V>(s: Seq<(K, V)>) -> bool {
    forall|i: int, j: int| 0 <= i < s.len() && 0 <= j < s.len() && i != j ==> s[i].0 != s[j].0
}

/// The map that the pairs of `s` describe (a later pair wins over an earlier one).
pub open spec fn mapa_de<K, V>(s: Seq<(K, V)>) -> Map<K, V>
    decreases s.len(),
{
    if s.len() == 0 {
        Map::empty()
    } else {
        mapa_de(s.drop_last()).insert(s.last().0, s.last().1)
    }
}

/// With distinct keys, each pair of `s` is an entry of its map.
pub proof fn lemma_mapa_contiene<K, V>(s: Seq<(K, V)>, i: int)
    requires
        claves_distintas(s),
        0 <= i < s.len(),
    ensures
        mapa_de(s).contains_key(s[i].0),
        mapa_de(s)[s[i].0] == s[i].1,
    decreases s.len(),
{
    if i < s.len() - 1 {
        lemma_mapa_contiene(s.drop_last(), i);
    }
}

/// A key that no pair of `s` has is not in its map.
pub proof fn lemma_mapa_no_contiene<K, V>(s: Seq<(K, V)>, k: K)
    requires
        forall|i: int| 0 <= i < s.len() ==> s[i].0 != k,
    ensures
        !mapa_de(s).contains_key(k),
    decreases s.len(),
{
    if s.len() > 0 {
        lemma_mapa_no_contiene(s.drop_last(), k);
    }
}

/// A key that is not in the map of `s` is the key of no pair.
pub proof fn lemma_mapa_fuera<K, V>(s: Seq<(K, V)>, k: K, i: int)
    requires
        !mapa_de(s).contains_key(k),
        0 <= i < s.len(),
    ensures
        s[i].0 != k,
    decreases s.len(),
{
    if i < s.len() - 1 {
        lemma_mapa_fuera(s.drop_last(), k, i);
    }
}

/// Every key of the map of `s` is the key of some pair.
pub proof fn lemma_mapa_claves<K, V>(s: Seq<(K, V)>, k: K)
    requires
        mapa_de(s).contains_key(k),
    ensures
        exists|i: int| 0 <= i < s.len() && s[i].0 == k,
{
    if forall|i: int| 0 <= i < s.len() ==> s[i].0 != k {
        lemma_mapa_no_contiene(s, k);
    }
}

/// Adding a pair at the end inserts it in the map.
pub proof fn lemma_mapa_agregar<K, V>(s: Seq<(K, V)>, k: K, v: V)
    ensures
        mapa_de(s.push((k, v))) == mapa_de(s).insert(k, v),
{
    assert(s.push((k, v)).drop_last() =~= s);
}

/// Replacing the value of one pair replaces it in the map.
pub proof fn lemma_mapa_actualizar<K, V>(s: Seq<(K, V)>, i: int, v: V)
    requires
        claves_distintas(s),
        0 <= i < s.len(),
    ensures
        claves_distintas(s.update(i, (s[i].0, v))),
        mapa_de(s.update(i, (s[i].0, v))) == mapa_de(s).insert(s[i].0, v),
{
    let t = s.update(i, (s[i].0, v));
    assert(claves_distintas(t));
    assert forall|k: K| #[trigger] mapa_de(t).contains_key(k) == mapa_de(s).insert(s[i].0, v).contains_key(k)
        && (mapa_de(t).contains_key(k) ==> mapa_de(t)[k] == mapa_de(s).insert(s[i].0, v)[k]) by {
        if exists|j: int| 0 <= j < s.len() && s[j].0 == k {
            let j = choose|j: int| 0 <= j < s.len() && s[j].0 == k;
            lemma_mapa_contiene(s, j);
            lemma_mapa_contiene(t, j);
        } else {
            lemma_mapa_no_contiene(s, k);
            lemma_mapa_no_contiene(t, k);
        }
    }
    assert(mapa_de(t) =~= mapa_de(s).insert(s[i].0, v));
}

} // verus!
