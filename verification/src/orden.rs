//! Ordering pairs by their count, from the largest count to the smallest.
use vstd::prelude::*;
use crate::tabla::{claves_distintas, lemma_mapa_contiene, lemma_mapa_no_contiene, mapa_de};

verus! {

broadcast use vstd::seq_lib::group_to_multiset_ensures;

/// Whether the counts of `s` never grow from one pair to a later one.
pub open spec fn no_creciente<K>(s: Seq<(K, i32)>) -> bool {
    forall|i: int, j: int| 0 <= i <= j < s.len() ==> s[i].1 >= s[j].1
}

/// Puts the pairs of `v` in order of count, largest first; the result holds the same
/// pairs as `v`, each as often as `v` holds it.
pub fn ordenar_por_cuenta<K>(v: Vec<(K, i32)>) -> (r: Vec<(K, i32)>)
    ensures
        r@.to_multiset() == v@.to_multiset(),
        no_creciente(r@),
{
    let ghost inicial = v@;
    let mut v = v;
    let mut r: Vec<(K, i32)> = Vec::new();
    assert(r@.to_multiset() =~= vstd::multiset::Multiset::empty());
    while v.len() > 0
        invariant
            r@.to_multiset().add(v@.to_multiset()) == inicial.to_multiset(),
            no_creciente(r@),
        decreases v.len(),
    {
        let ghost antes = v@;
        let e = v.pop().unwrap();
        assert(antes =~= v@.push(e));
        let mut pos: usize = 0;
        while pos < r.len() && r[pos].1 >= e.1
            invariant
                pos <= r.len(),
                forall|k: int| 0 <= k < pos ==> r@[k].1 >= e.1,
            decreases r.len() - pos,
        {
            pos = pos + 1;
        }
        let ghost previo = r@;
        r.insert(pos, e);
        proof {
            previo.insert_ensures(pos as int, e);
            assert forall|i: int, j: int| 0 <= i <= j < r@.len() implies r@[i].1 >= r@[j].1 by {
                if i < pos && j > pos {
                    assert(r@[j] == previo[j - 1]);
                } else if i > pos {
                    assert(r@[i] == previo[i - 1]);
                    assert(r@[j] == previo[j - 1]);
                } else if i == pos && j > pos {
                    assert(r@[j] == previo[j - 1]);
                    assert(previo[pos as int].1 < e.1);
                }
            }
            assert(r@.to_multiset().add(v@.to_multiset()) =~= previo.to_multiset().add(
                antes.to_multiset(),
            ));
        }
    }
    assert(v@.to_multiset() =~= vstd::multiset::Multiset::empty());
    assert(r@.to_multiset() =~= inicial.to_multiset());
    r
}

/// Applying the same function to the elements of two sequences that hold the same
/// elements gives sequences that hold the same elements.
pub proof fn lemma_multiconjunto_imagen<A, B>(s: Seq<A>, t: Seq<A>, f: spec_fn(A) -> B)
    requires
        s.to_multiset() == t.to_multiset(),
    ensures
        s.map_values(f).to_multiset() == t.map_values(f).to_multiset(),
    decreases s.len(),
{
    if s.len() == 0 {
        vstd::seq_lib::to_multiset_len(s);
        vstd::seq_lib::to_multiset_len(t);
        assert(t.len() == 0);
        assert(s.map_values(f) =~= t.map_values(f));
    } else {
        let x = s.last();
        assert(s =~= s.drop_last().push(x));
        assert(s.to_multiset().count(x) > 0);
        assert(t.to_multiset().count(x) > 0);
        assert(t.contains(x));
        let j = choose|j: int| 0 <= j < t.len() && t[j] == x;
        let u = t.remove(j);
        t.remove_ensures(j);
        assert(u.to_multiset() == t.to_multiset().remove(x));
        assert(s.drop_last().to_multiset() =~= s.to_multiset().remove(x));
        lemma_multiconjunto_imagen(s.drop_last(), u, f);
        assert(s.map_values(f) =~= s.drop_last().map_values(f).push(f(x)));
        assert(t.map_values(f) =~= u.map_values(f).insert(j, f(x)));
    }
}

/// Two sequences with distinct keys that hold the same pairs describe the same map.
pub proof fn lemma_mapa_permutacion<K, V>(s: Seq<(K, V)>, t: Seq<(K, V)>)
    requires
        claves_distintas(s),
        s.to_multiset() == t.to_multiset(),
    ensures
        claves_distintas(t),
        mapa_de(s) == mapa_de(t),
{
    assert(s.no_duplicates());
    s.lemma_multiset_has_no_duplicates();
    assert forall|x: (K, V)| t.to_multiset().contains(x) implies t.to_multiset().count(x) == 1 by {}
    t.lemma_multiset_has_no_duplicates_conv();
    assert forall|i: int, j: int| 0 <= i < t.len() && 0 <= j < t.len() && i != j implies t[i].0
        != t[j].0 by {
        assert(t.to_multiset().count(t[i]) > 0);
        assert(t.to_multiset().count(t[j]) > 0);
        let a = choose|a: int| 0 <= a < s.len() && s[a] == t[i];
        let b = choose|b: int| 0 <= b < s.len() && s[b] == t[j];
        assert(t[i] != t[j]);
    }
    assert forall|k: K| #[trigger] mapa_de(s).contains_key(k) == mapa_de(t).contains_key(k) && (
    mapa_de(s).contains_key(k) ==> mapa_de(s)[k] == mapa_de(t)[k]) by {
        if exists|i: int| 0 <= i < t.len() && t[i].0 == k {
            let i = choose|i: int| 0 <= i < t.len() && t[i].0 == k;
            assert(t.to_multiset().count(t[i]) > 0);
            let a = choose|a: int| 0 <= a < s.len() && s[a] == t[i];
            lemma_mapa_contiene(s, a);
            lemma_mapa_contiene(t, i);
        } else {
            lemma_mapa_no_contiene(t, k);
            if exists|a: int| 0 <= a < s.len() && s[a].0 == k {
                let a = choose|a: int| 0 <= a < s.len() && s[a].0 == k;
                assert(s.to_multiset().count(s[a]) > 0);
                let i = choose|i: int| 0 <= i < t.len() && t[i] == s[a];
            }
            lemma_mapa_no_contiene(s, k);
        }
    }
    assert(mapa_de(s) =~= mapa_de(t));
}

} // verus!
