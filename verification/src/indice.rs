//! Full-text search: an inverted index from terms to the documents that hold them,
//! and the scoring of documents for a query.
use vstd::prelude::*;
use crate::frecuencias::{
    lemma_ocurrencias_contiene, lemma_ocurrencias_prefijo, ocurrencias, ocurrencias_de,
};
use crate::numeros::{como_i32, parsear_i32};
use crate::orden::{no_creciente, ordenar_por_cuenta};
use crate::tabla::{
    claves_distintas, lemma_mapa_actualizar, lemma_mapa_agregar, lemma_mapa_claves,
    lemma_mapa_contiene, lemma_mapa_fuera, lemma_mapa_no_contiene, mapa_de,
};
use crate::texto::{
    a_minusculas, caracteres, caracteres_de_todas, minusculas, palabras, terminos, terminos_de,
    vistas_str, vistas_string,
};

verus! {

/// The frequency that the posting list `ps` gives the document `id`, zero when absent.
pub open spec fn frecuencia_de(ps: Seq<(i32, i32)>, id: i32) -> int {
    if mapa_de(ps).contains_key(id) {
        mapa_de(ps)[id] as int
    } else {
        0
    }
}

/// The frequency of the term `t` in the document `id` that the index `m` records.
pub open spec fn frecuencia_en(m: Map<Seq<char>, Seq<(i32, i32)>>, t: Seq<char>, id: i32) -> int {
    if m.contains_key(t) {
        frecuencia_de(m[t], id)
    } else {
        0
    }
}

/// The posting list `ps` after one more occurrence in the document `id`: its frequency
/// goes up by one where the document is listed, and the document is listed last with
/// frequency one where it is not.
pub open spec fn con_documento(ps: Seq<(i32, i32)>, id: i32) -> Seq<(i32, i32)> {
    if exists|k: int| 0 <= k < ps.len() && ps[k].0 == id {
        let k = choose|k: int| 0 <= k < ps.len() && ps[k].0 == id;
        ps.update(k, (id, (ps[k].1 + 1) as i32))
    } else {
        ps.push((id, 1i32))
    }
}

/// The index `m` after one more occurrence of the term `t` in the document `id`.
pub open spec fn agregado(m: Map<Seq<char>, Seq<(i32, i32)>>, t: Seq<char>, id: i32) -> Map<
    Seq<char>,
    Seq<(i32, i32)>,
> {
    m.insert(
        t,
        con_documento(
            if m.contains_key(t) {
                m[t]
            } else {
                Seq::empty()
            },
            id,
        ),
    )
}

/// The index `m` after the terms `ts` of the document `id`, one after the other.
pub open spec fn indexado(m: Map<Seq<char>, Seq<(i32, i32)>>, ts: Seq<Seq<char>>, id: i32) -> Map<
    Seq<char>,
    Seq<(i32, i32)>,
>
    decreases ts.len(),
{
    if ts.len() == 0 {
        m
    } else {
        agregado(indexado(m, ts.drop_last(), id), ts.last(), id)
    }
}

/// Whether a posting list names each document once, with a positive frequency.
pub open spec fn lista_valida(ps: Seq<(i32, i32)>) -> bool {
    &&& claves_distintas(ps)
    &&& forall|k: int| 0 <= k < ps.len() ==> #[trigger] ps[k].1 > 0
}

/// Whether every posting list of the index `m` is valid.
pub open spec fn listas_validas(m: Map<Seq<char>, Seq<(i32, i32)>>) -> bool {
    forall|t: Seq<char>| #[trigger] m.contains_key(t) ==> lista_valida(m[t])
}

/// An inverted index: for each term, the documents that hold it with how often.
pub struct Indice {
    entradas: Vec<(String, Vec<(i32, i32)>)>,
}

/// Entries of an index as terms and posting lists.
pub open spec fn pares_indice(s: Seq<(String, Vec<(i32, i32)>)>) -> Seq<(Seq<char>, Seq<(i32, i32)>)> {
    s.map_values(|e: (String, Vec<(i32, i32)>)| (e.0@, e.1@))
}

impl View for Indice {
    type V = Map<Seq<char>, Seq<(i32, i32)>>;

    closed spec fn view(&self) -> Map<Seq<char>, Seq<(i32, i32)>> {
        mapa_de(pares_indice(self.entradas@))
    }
}

/// A copy of a posting list.
fn copiar_lista(v: &Vec<(i32, i32)>) -> (r: Vec<(i32, i32)>)
    ensures
        r@ == v@,
{
    let mut r: Vec<(i32, i32)> = Vec::new();
    let mut i: usize = 0;
    while i < v.len()
        invariant
            i <= v.len(),
            r@ == v@.take(i as int),
        decreases v.len() - i,
    {
        r.push(v[i]);
        assert(r@ =~= v@.take(i + 1));
        i = i + 1;
    }
    assert(v@.take(v.len() as int) =~= v@);
    r
}

/// Adds one occurrence of the document `id` to the posting list `ps`.
fn sumar_documento(ps: &mut Vec<(i32, i32)>, id: i32)
    requires
        lista_valida(old(ps)@),
        frecuencia_de(old(ps)@, id) < i32::MAX,
    ensures
        final(ps)@ == con_documento(old(ps)@, id),
        lista_valida(final(ps)@),
        mapa_de(final(ps)@) == mapa_de(old(ps)@).insert(id, (frecuencia_de(old(ps)@, id) + 1) as i32),
{
    let mut k: usize = 0;
    while k < ps.len()
        invariant
            k <= ps.len(),
            ps@ == old(ps)@,
            lista_valida(ps@),
            frecuencia_de(ps@, id) < i32::MAX,
            forall|j: int| 0 <= j < k ==> ps@[j].0 != id,
        decreases ps.len() - k,
    {
        if ps[k].0 == id {
            let ghost antes = ps@;
            proof {
                lemma_mapa_contiene(antes, k as int);
                let c = choose|c: int| 0 <= c < antes.len() && antes[c].0 == id;
                assert(c == k);
                lemma_mapa_actualizar(antes, k as int, (antes[k as int].1 + 1) as i32);
            }
            let f = ps[k].1;
            ps.set(k, (id, f + 1));
            return;
        }
        k = k + 1;
    }
    let ghost antes = ps@;
    proof {
        lemma_mapa_no_contiene(antes, id);
        lemma_mapa_agregar(antes, id, 1i32);
    }
    ps.push((id, 1));
}

impl Indice {
    /// Each term is held once, and each of its posting lists is valid.
    pub closed spec fn bien_formado(&self) -> bool {
        &&& claves_distintas(pares_indice(self.entradas@))
        &&& forall|i: int| 0 <= i < self.entradas.len() ==> lista_valida(#[trigger] self.entradas@[i].1@)
    }

    /// An index with no term.
    pub fn new() -> (r: Self)
        ensures
            r.bien_formado(),
            r@ == Map::<Seq<char>, Seq<(i32, i32)>>::empty(),
    {
        let r = Indice { entradas: Vec::new() };
        assert(pares_indice(r.entradas@) =~= Seq::<(Seq<char>, Seq<(i32, i32)>)>::empty());
        r
    }

    /// Where the term `t` is among the entries, if it is.
    fn posicion(&self, t: &String) -> (r: Option<usize>)
        requires
            self.bien_formado(),
        ensures
            match r {
                Some(k) => k < self.entradas.len() && self.entradas@[k as int].0@ == t@
                    && self@.contains_key(t@) && self@[t@] == self.entradas@[k as int].1@,
                None => !self@.contains_key(t@),
            },
    {
        let ghost ps = pares_indice(self.entradas@);
        let mut i: usize = 0;
        while i < self.entradas.len()
            invariant
                i <= self.entradas.len(),
                self.bien_formado(),
                ps == pares_indice(self.entradas@),
                forall|k: int| 0 <= k < i ==> ps[k].0 != t@,
            decreases self.entradas.len() - i,
        {
            if self.entradas[i].0 == *t {
                proof {
                    lemma_mapa_contiene(ps, i as int);
                }
                return Some(i);
            }
            i = i + 1;
        }
        proof {
            lemma_mapa_no_contiene(ps, t@);
        }
        None
    }

    /// Every posting list of a well-formed index is valid.
    pub proof fn lemma_listas_validas(&self)
        requires
            self.bien_formado(),
        ensures
            listas_validas(self@),
    {
        let ps = pares_indice(self.entradas@);
        assert forall|t: Seq<char>| #[trigger] self@.contains_key(t) implies lista_valida(self@[t]) by {
            lemma_mapa_claves(ps, t);
            let k = choose|k: int| 0 <= k < ps.len() && ps[k].0 == t;
            lemma_mapa_contiene(ps, k);
            assert(ps[k].1 == self.entradas@[k].1@);
        }
    }

    /// The documents that hold the term `t`, with how often, if any does.
    pub fn documentos(&self, t: &String) -> (r: Option<Vec<(i32, i32)>>)
        requires
            self.bien_formado(),
        ensures
            match r {
                Some(v) => self@.contains_key(t@) && v@ == self@[t@],
                None => !self@.contains_key(t@),
            },
    {
        match self.posicion(t) {
            Some(k) => Some(copiar_lista(&self.entradas[k].1)),
            None => None,
        }
    }

    /// How often the term `t` occurs in the document `id`, zero when it does not.
    pub fn frecuencia(&self, t: &String, id: i32) -> (r: i32)
        requires
            self.bien_formado(),
        ensures
            r == frecuencia_en(self@, t@, id),
    {
        match self.documentos(t) {
            None => 0,
            Some(docs) => {
                proof {
                    self.lemma_listas_validas();
                }
                let mut k: usize = 0;
                while k < docs.len()
                    invariant
                        k <= docs.len(),
                        lista_valida(docs@),
                        self@.contains_key(t@),
                        docs@ == self@[t@],
                        forall|j: int| 0 <= j < k ==> docs@[j].0 != id,
                    decreases docs.len() - k,
                {
                    if docs[k].0 == id {
                        proof {
                            lemma_mapa_contiene(docs@, k as int);
                        }
                        return docs[k].1;
                    }
                    k = k + 1;
                }
                proof {
                    lemma_mapa_no_contiene(docs@, id);
                }
                0
            },
        }
    }
}

/// Records one more occurrence of `palabra` in the document `id_documento`.
pub fn agregar_al_indice(indice: &mut Indice, palabra: String, id_documento: i32)
    requires
        old(indice).bien_formado(),
        frecuencia_en(old(indice)@, palabra@, id_documento) < i32::MAX,
    ensures
        final(indice).bien_formado(),
        final(indice)@ == agregado(old(indice)@, palabra@, id_documento),
{
    let ghost ps = pares_indice(indice.entradas@);
    match indice.posicion(&palabra) {
        Some(k) => {
            proof {
                assert(indice.entradas@[k as int].1@ == ps[k as int].1);
                lemma_mapa_contiene(ps, k as int);
            }
            let mut docs = copiar_lista(&indice.entradas[k].1);
            sumar_documento(&mut docs, id_documento);
            let ghost nuevos = docs@;
            indice.entradas.set(k, (palabra, docs));
            proof {
                lemma_mapa_actualizar(ps, k as int, nuevos);
                assert(pares_indice(indice.entradas@) =~= ps.update(k as int, (ps[k as int].0, nuevos)));
                assert forall|i: int| 0 <= i < indice.entradas.len() implies lista_valida(
                    #[trigger] indice.entradas@[i].1@,
                ) by {
                    if i != k {
                        assert(indice.entradas@[i] == old(indice).entradas@[i]);
                    }
                }
            }
        },
        None => {
            let mut docs: Vec<(i32, i32)> = Vec::new();
            proof {
                assert(mapa_de(docs@) =~= Map::<i32, i32>::empty());
            }
            sumar_documento(&mut docs, id_documento);
            let ghost nuevos = docs@;
            let ghost termino = palabra@;
            indice.entradas.push((palabra, docs));
            proof {
                lemma_mapa_agregar(ps, termino, nuevos);
                assert(pares_indice(indice.entradas@) =~= ps.push((termino, nuevos)));
                assert forall|i: int, j: int|
                    0 <= i < pares_indice(indice.entradas@).len() && 0 <= j < pares_indice(
                        indice.entradas@,
                    ).len() && i != j implies pares_indice(indice.entradas@)[i].0 != pares_indice(
                    indice.entradas@,
                )[j].0 by {
                    if i == ps.len() {
                        lemma_mapa_fuera(ps, termino, j);
                    } else if j == ps.len() {
                        lemma_mapa_fuera(ps, termino, i);
                    }
                }
                assert forall|i: int| 0 <= i < indice.entradas.len() implies lista_valida(
                    #[trigger] indice.entradas@[i].1@,
                ) by {
                    if i < ps.len() {
                        assert(indice.entradas@[i] == old(indice).entradas@[i]);
                    }
                }
            }
        },
    }
}

/// In a valid posting list every frequency is positive, so that the frequency of a
/// document is never negative, and is positive exactly when the document is listed.
pub proof fn lemma_frecuencia_positiva(ps: Seq<(i32, i32)>, id: i32)
    requires
        lista_valida(ps),
    ensures
        frecuencia_de(ps, id) >= 0,
        mapa_de(ps).contains_key(id) <==> frecuencia_de(ps, id) > 0,
{
    if mapa_de(ps).contains_key(id) {
        lemma_mapa_claves(ps, id);
        let k = choose|k: int| 0 <= k < ps.len() && ps[k].0 == id;
        lemma_mapa_contiene(ps, k);
    }
}

/// The frequency that a prefix of a valid posting list gives a document is at most the
/// one the whole list gives it.
proof fn lemma_frecuencia_prefijo(ps: Seq<(i32, i32)>, k: int, id: i32)
    requires
        lista_valida(ps),
        0 <= k <= ps.len(),
    ensures
        0 <= frecuencia_de(ps.take(k), id) <= frecuencia_de(ps, id),
{
    let q = ps.take(k);
    assert(lista_valida(q));
    lemma_frecuencia_positiva(q, id);
    lemma_frecuencia_positiva(ps, id);
    if mapa_de(q).contains_key(id) {
        lemma_mapa_claves(q, id);
        let p = choose|p: int| 0 <= p < q.len() && q[p].0 == id;
        lemma_mapa_contiene(q, p);
        lemma_mapa_contiene(ps, p);
    }
}

/// One more occurrence of a document in a posting list adds one to its frequency.
pub proof fn lemma_con_documento(ps: Seq<(i32, i32)>, id: i32)
    requires
        lista_valida(ps),
        frecuencia_de(ps, id) < i32::MAX,
    ensures
        lista_valida(con_documento(ps, id)),
        mapa_de(con_documento(ps, id)) == mapa_de(ps).insert(id, (frecuencia_de(ps, id) + 1) as i32),
{
    if exists|k: int| 0 <= k < ps.len() && ps[k].0 == id {
        let k = choose|k: int| 0 <= k < ps.len() && ps[k].0 == id;
        lemma_mapa_contiene(ps, k);
        lemma_mapa_actualizar(ps, k, (ps[k].1 + 1) as i32);
    } else {
        lemma_mapa_no_contiene(ps, id);
        lemma_mapa_agregar(ps, id, 1i32);
        let q = ps.push((id, 1i32));
        assert forall|i: int, j: int| 0 <= i < q.len() && 0 <= j < q.len() && i != j implies q[i].0
            != q[j].0 by {
            if i == ps.len() {
                assert(q[j] == ps[j]);
            } else if j == ps.len() {
                assert(q[i] == ps[i]);
            }
        }
    }
}

/// After one more occurrence of `t` in `id`, the frequency of `t` in `id` goes up by one
/// and every other frequency stays.
pub proof fn lemma_frecuencia_agregado(
    m: Map<Seq<char>, Seq<(i32, i32)>>,
    t: Seq<char>,
    id: i32,
    u: Seq<char>,
    otro: i32,
)
    requires
        listas_validas(m),
        frecuencia_en(m, t, id) < i32::MAX,
    ensures
        listas_validas(agregado(m, t, id)),
        frecuencia_en(agregado(m, t, id), u, otro) == frecuencia_en(m, u, otro) + if u == t && otro
            == id {
            1int
        } else {
            0int
        },
{
    let ps = if m.contains_key(t) {
        m[t]
    } else {
        Seq::empty()
    };
    if !m.contains_key(t) {
        assert(mapa_de(ps) =~= Map::<i32, i32>::empty());
    }
    assert(frecuencia_de(ps, id) == frecuencia_en(m, t, id));
    lemma_con_documento(ps, id);
    assert forall|v: Seq<char>| #[trigger] agregado(m, t, id).contains_key(v) implies lista_valida(
        agregado(m, t, id)[v],
    ) by {
        if v != t {
            assert(m.contains_key(v));
        }
    }
}

/// Counts each of the terms `ts` once more for the document `id`.
fn indexar_terminos(indice: &mut Indice, ts: &Vec<String>, id: i32)
    requires
        old(indice).bien_formado(),
        forall|t: Seq<char>|
            frecuencia_en(old(indice)@, t, id) + #[trigger] ocurrencias(vistas_string(ts@), t)
                <= i32::MAX,
    ensures
        final(indice).bien_formado(),
        final(indice)@ == indexado(old(indice)@, vistas_string(ts@), id),
{
    let ghost l = vistas_string(ts@);
    let ghost inicial = indice@;
    assert(l.take(0) =~= Seq::<Seq<char>>::empty());
    let mut j: usize = 0;
    while j < ts.len()
        invariant
            j <= ts.len(),
            l == vistas_string(ts@),
            indice.bien_formado(),
            indice@ == indexado(inicial, l.take(j as int), id),
            forall|t: Seq<char>| frecuencia_en(inicial, t, id) + #[trigger] ocurrencias(l, t) <= i32::MAX,
            forall|t: Seq<char>|
                #[trigger] frecuencia_en(indice@, t, id) == frecuencia_en(inicial, t, id)
                    + ocurrencias(l.take(j as int), t),
        decreases ts.len() - j,
    {
        let t = ts[j].clone();
        proof {
            assert(l.take(j + 1).drop_last() =~= l.take(j as int));
            assert(l.take(j + 1).last() == t@);
            lemma_ocurrencias_prefijo(l, j + 1, t@);
            assert(frecuencia_en(indice@, t@, id) < i32::MAX);
            indice.lemma_listas_validas();
            assert forall|u: Seq<char>| #[trigger] frecuencia_en(agregado(indice@, t@, id), u, id)
                == frecuencia_en(inicial, u, id) + ocurrencias(l.take(j + 1), u) by {
                lemma_frecuencia_agregado(indice@, t@, id, u, id);
            }
        }
        agregar_al_indice(indice, t, id);
        j = j + 1;
    }
    assert(l.take(ts.len() as int) =~= l);
}

/// The terms of a document (see `procesar_documento`).
fn terminos_de_documento(contenido: &str, stop_words: &[&str]) -> (ts: Vec<String>)
    ensures
        vistas_string(ts@) == terminos(palabras(contenido@), vistas_str(stop_words@)),
{
    let cs = caracteres(contenido);
    let excluidas = caracteres_de_todas(stop_words);
    terminos_de(&cs, &excluidas)
}

/// Indexes the words of a document: each of its terms (the words of `contenido` split at
/// whitespace, cleaned of non-alphanumeric characters at their ends, without the empty
/// ones and the `stop_words`) counts once more for the document `id_documento`.
pub fn procesar_documento(
    contenido: &str,
    id_documento: i32,
    indice: &mut Indice,
    stop_words: &[&str],
)
    requires
        old(indice).bien_formado(),
        forall|t: Seq<char>|
            frecuencia_en(old(indice)@, t, id_documento) + #[trigger] ocurrencias(
                terminos(palabras(contenido@), vistas_str(stop_words@)),
                t,
            ) <= i32::MAX,
    ensures
        final(indice).bien_formado(),
        final(indice)@ == indexado(
            old(indice)@,
            terminos(palabras(contenido@), vistas_str(stop_words@)),
            id_documento,
        ),
{
    let ts = terminos_de_documento(contenido, stop_words);
    indexar_terminos(indice, &ts, id_documento);
}

/// Indexes a document as `procesar_documento` does when no frequency then goes beyond
/// an `i32`, and says whether it did; otherwise the index does not change.
pub fn procesar_documento_si_cabe(
    contenido: &str,
    id_documento: i32,
    indice: &mut Indice,
    stop_words: &[&str],
) -> (ok: bool)
    requires
        old(indice).bien_formado(),
    ensures
        final(indice).bien_formado(),
        ok == (forall|t: Seq<char>|
            frecuencia_en(old(indice)@, t, id_documento) + #[trigger] ocurrencias(
                terminos(palabras(contenido@), vistas_str(stop_words@)),
                t,
            ) <= i32::MAX),
        ok ==> final(indice)@ == indexado(
            old(indice)@,
            terminos(palabras(contenido@), vistas_str(stop_words@)),
            id_documento,
        ),
        !ok ==> final(indice)@ == old(indice)@,
{
    let ts = terminos_de_documento(contenido, stop_words);
    let ghost l = vistas_string(ts@);
    proof {
        indice.lemma_listas_validas();
    }
    let mut i: usize = 0;
    while i < ts.len()
        invariant
            i <= ts.len(),
            l == vistas_string(ts@),
            l == terminos(palabras(contenido@), vistas_str(stop_words@)),
            indice@ == old(indice)@,
            indice.bien_formado(),
            listas_validas(indice@),
            forall|k: int|
                0 <= k < i ==> frecuencia_en(indice@, l[k], id_documento) + #[trigger] ocurrencias(
                    l,
                    l[k],
                ) <= i32::MAX,
        decreases ts.len() - i,
    {
        let f = indice.frecuencia(&ts[i], id_documento);
        let c = ocurrencias_de(&ts, &ts[i]);
        proof {
            lemma_frecuencia_en_i32(indice@, l[i as int], id_documento);
        }
        if c > 2147483647 || (f as i64) + (c as i64) > 2147483647 {
            assert(l[i as int] == ts@[i as int]@);
            assert(!(frecuencia_en(indice@, l[i as int], id_documento) + ocurrencias(l, l[i as int])
                <= i32::MAX));
            return false;
        }
        i = i + 1;
    }
    assert forall|t: Seq<char>|
        frecuencia_en(indice@, t, id_documento) + #[trigger] ocurrencias(l, t) <= i32::MAX by {
        lemma_ocurrencias_contiene(l, t);
        lemma_frecuencia_en_i32(indice@, t, id_documento);
        if l.contains(t) {
            let k = choose|k: int| 0 <= k < l.len() && l[k] == t;
            assert(frecuencia_en(indice@, l[k], id_documento) + ocurrencias(l, l[k]) <= i32::MAX);
        }
    }
    indexar_terminos(indice, &ts, id_documento);
    true
}

/// After indexing the terms `ts` of the document `id`, the frequency of each term in
/// that document has grown by how often the term occurs in `ts`, and the frequencies in
/// every other document are as they were.
pub proof fn ley_indexado_frecuencias(
    m: Map<Seq<char>, Seq<(i32, i32)>>,
    ts: Seq<Seq<char>>,
    id: i32,
    t: Seq<char>,
    otro: i32,
)
    requires
        listas_validas(m),
        forall|u: Seq<char>| frecuencia_en(m, u, id) + #[trigger] ocurrencias(ts, u) <= i32::MAX,
    ensures
        listas_validas(indexado(m, ts, id)),
        frecuencia_en(indexado(m, ts, id), t, otro) == frecuencia_en(m, t, otro) + if otro == id {
            ocurrencias(ts, t) as int
        } else {
            0int
        },
    decreases ts.len(),
{
    if ts.len() > 0 {
        let previos = ts.drop_last();
        let u = ts.last();
        assert forall|v: Seq<char>| frecuencia_en(m, v, id) + #[trigger] ocurrencias(previos, v)
            <= i32::MAX by {
            lemma_ocurrencias_prefijo(ts, ts.len() - 1, v);
            assert(ts.take(ts.len() - 1) =~= previos);
        }
        ley_indexado_frecuencias(m, previos, id, t, otro);
        ley_indexado_frecuencias(m, previos, id, u, id);
        assert(frecuencia_en(m, u, id) + ocurrencias(ts, u) <= i32::MAX);
        lemma_frecuencia_agregado(indexado(m, previos, id), u, id, t, otro);
    }
}

/// Frequencies in an index with valid posting lists are between zero and `i32::MAX`.
proof fn lemma_frecuencia_en_i32(m: Map<Seq<char>, Seq<(i32, i32)>>, t: Seq<char>, id: i32)
    requires
        listas_validas(m),
    ensures
        0 <= frecuencia_en(m, t, id) <= i32::MAX,
{
    if m.contains_key(t) {
        lemma_frecuencia_positiva(m[t], id);
    }
}

/// A document's text as it is indexed: lowercased.
pub fn documento_en_minusculas(contenido: &str) -> (r: String)
    ensures
        r@ == minusculas(contenido@),
{
    a_minusculas(contenido)
}

/// The search terms of a query: the query lowercased and split at whitespace, each word
/// cleaned of non-alphanumeric characters at its ends, without the empty ones and the
/// `stop_words`.
pub fn procesar_consulta(consulta: &str, stop_words: &[&str]) -> (r: Vec<String>)
    ensures
        vistas_string(r@) == terminos(palabras(minusculas(consulta@)), vistas_str(stop_words@)),
{
    let minus = a_minusculas(consulta);
    let cs = caracteres(minus.as_str());
    let excluidas = caracteres_de_todas(stop_words);
    terminos_de(&cs, &excluidas)
}

/// The score of the document `id` for the terms `ts`: the sum, over the terms (repeated
/// ones as often as they appear), of the term's frequency in the document.
pub open spec fn puntaje(m: Map<Seq<char>, Seq<(i32, i32)>>, ts: Seq<Seq<char>>, id: i32) -> int
    decreases ts.len(),
{
    if ts.len() == 0 {
        0
    } else {
        puntaje(m, ts.drop_last(), id) + frecuencia_en(m, ts.last(), id)
    }
}

/// Scores never go down as terms are added.
proof fn lemma_puntaje_prefijo(m: Map<Seq<char>, Seq<(i32, i32)>>, ts: Seq<Seq<char>>, k: int, id: i32)
    requires
        listas_validas(m),
        0 <= k <= ts.len(),
    ensures
        0 <= puntaje(m, ts.take(k), id) <= puntaje(m, ts, id),
    decreases ts.len(),
{
    if ts.len() > 0 {
        let t = ts.last();
        if m.contains_key(t) {
            lemma_frecuencia_positiva(m[t], id);
        }
        if k == ts.len() {
            assert(ts.take(k) =~= ts);
            lemma_puntaje_prefijo(m, ts.drop_last(), k - 1, id);
            assert(ts.drop_last().take(k - 1) =~= ts.take(k).drop_last());
        } else {
            lemma_puntaje_prefijo(m, ts.drop_last(), k, id);
            assert(ts.drop_last().take(k) =~= ts.take(k));
        }
    }
}

/// The score of a query is additive: the score for two lists of terms one after the
/// other is the sum of their scores, so each term adds its own frequency whatever
/// comes before or after it.
pub proof fn ley_puntaje_aditivo(
    m: Map<Seq<char>, Seq<(i32, i32)>>,
    a: Seq<Seq<char>>,
    b: Seq<Seq<char>>,
    id: i32,
)
    ensures
        puntaje(m, a + b, id) == puntaje(m, a, id) + puntaje(m, b, id),
    decreases b.len(),
{
    if b.len() == 0 {
        assert(a + b =~= a);
    } else {
        ley_puntaje_aditivo(m, a, b.drop_last(), id);
        assert((a + b).drop_last() =~= a + b.drop_last());
        assert((a + b).last() == b.last());
    }
}

/// A single term scores its frequency in the document, and a term the index does not
/// hold scores zero.
pub proof fn ley_puntaje_un_termino(m: Map<Seq<char>, Seq<(i32, i32)>>, t: Seq<char>, id: i32)
    ensures
        puntaje(m, seq![t], id) == frecuencia_en(m, t, id),
        !m.contains_key(t) ==> puntaje(m, seq![t], id) == 0,
{
    assert(seq![t].drop_last() =~= Seq::<Seq<char>>::empty());
    assert(seq![t].last() == t);
    assert(puntaje(m, Seq::<Seq<char>>::empty(), id) == 0);
    assert(puntaje(m, seq![t], id) == puntaje(m, seq![t].drop_last(), id) + frecuencia_en(m, t, id));
}

/// Whether the pairs `r` hold, for each document, the score `p` gives it, leaving out
/// the documents whose score is not positive.
pub open spec fn puntajes_son(r: Seq<(i32, i32)>, p: spec_fn(i32) -> int) -> bool {
    &&& claves_distintas(r)
    &&& forall|id: i32| #[trigger]
        mapa_de(r).contains_key(id) == (p(id) > 0) && (mapa_de(r).contains_key(id) ==> mapa_de(
            r,
        )[id] == p(id))
}

/// The score that the pairs `r` hold for `id`, zero when absent.
pub open spec fn puntaje_en(r: Seq<(i32, i32)>, id: i32) -> int {
    if mapa_de(r).contains_key(id) {
        mapa_de(r)[id] as int
    } else {
        0
    }
}

/// Adds `f` to the score of `id` in `r` when the sum fits in an `i32`, and says whether
/// it did; otherwise nothing changes.
fn sumar_puntaje(r: &mut Vec<(i32, i32)>, id: i32, f: i32) -> (ok: bool)
    requires
        claves_distintas(old(r)@),
        f > 0,
    ensures
        claves_distintas(final(r)@),
        ok == (puntaje_en(old(r)@, id) + f <= i32::MAX),
        ok ==> mapa_de(final(r)@) == mapa_de(old(r)@).insert(id, (puntaje_en(old(r)@, id) + f) as i32),
        !ok ==> final(r)@ == old(r)@,
{
    let mut k: usize = 0;
    while k < r.len()
        invariant
            k <= r.len(),
            r@ == old(r)@,
            claves_distintas(r@),
            f > 0,
            forall|j: int| 0 <= j < k ==> r@[j].0 != id,
        decreases r.len() - k,
    {
        if r[k].0 == id {
            proof {
                lemma_mapa_contiene(r@, k as int);
            }
            let v = r[k].1;
            if (v as i64) + (f as i64) > 2147483647 {
                return false;
            }
            proof {
                lemma_mapa_actualizar(r@, k as int, (r@[k as int].1 + f) as i32);
            }
            r.set(k, (id, v + f));
            return true;
        }
        k = k + 1;
    }
    let ghost antes = r@;
    proof {
        lemma_mapa_no_contiene(antes, id);
        lemma_mapa_agregar(antes, id, f);
    }
    r.push((id, f));
    proof {
        assert forall|i: int, j: int| 0 <= i < r@.len() && 0 <= j < r@.len() && i != j implies r@[i].0
            != r@[j].0 by {
            if i == antes.len() {
                assert(r@[j] == antes[j]);
            } else if j == antes.len() {
                assert(r@[i] == antes[i]);
            }
        }
    }
    true
}

/// Scores the documents for the search terms, as `buscar_documentos` does, when every
/// score fits in an `i32`; `None` otherwise.
pub fn buscar_documentos_si_cabe(terminos: &[String], indice: &Indice) -> (r: Option<Vec<(i32, i32)>>)
    requires
        indice.bien_formado(),
    ensures
        r is Some == (forall|id: i32| #[trigger] puntaje(indice@, vistas_string(terminos@), id) <= i32::MAX),
        r matches Some(v) ==> puntajes_son(v@, |id: i32| puntaje(indice@, vistas_string(terminos@), id)),
{
    let ghost m = indice@;
    let ghost ts = vistas_string(terminos@);
    proof {
        indice.lemma_listas_validas();
    }
    let mut r: Vec<(i32, i32)> = Vec::new();
    proof {
        assert(mapa_de(r@) =~= Map::<i32, i32>::empty());
        assert(ts.take(0) =~= Seq::<Seq<char>>::empty());
    }
    let mut i: usize = 0;
    while i < terminos.len()
        invariant
            i <= terminos.len(),
            m == indice@,
            ts == vistas_string(terminos@),
            indice.bien_formado(),
            listas_validas(m),
            puntajes_son(r@, |id: i32| puntaje(m, ts.take(i as int), id)),
        decreases terminos.len() - i,
    {
        let ghost t = ts[i as int];
        proof {
            assert(ts.take(i + 1).drop_last() =~= ts.take(i as int));
            assert(ts.take(i + 1).last() == t);
        }
        match indice.documentos(&terminos[i]) {
            None => {
                assert forall|id: i32| #[trigger] puntaje(m, ts.take(i + 1), id) == puntaje(
                    m,
                    ts.take(i as int),
                    id,
                ) by {}
            },
            Some(docs) => {
                proof {
                    assert(lista_valida(docs@));
                    assert(docs@.take(0) =~= Seq::<(i32, i32)>::empty());
                    assert(mapa_de(docs@.take(0)) =~= Map::<i32, i32>::empty());
                }
                let mut k: usize = 0;
                while k < docs.len()
                    invariant
                        k <= docs.len(),
                        m == indice@,
                        ts == vistas_string(terminos@),
                        m.contains_key(t),
                        docs@ == m[t],
                        lista_valida(docs@),
                        listas_validas(m),
                        i < ts.len(),
                        ts.take(i + 1).drop_last() == ts.take(i as int),
                        ts.take(i + 1).last() == t,
                        puntajes_son(
                            r@,
                            |id: i32| puntaje(m, ts.take(i as int), id) + frecuencia_de(
                                docs@.take(k as int),
                                id,
                            ),
                        ),
                    decreases docs.len() - k,
                {
                    let (id0, f0) = docs[k];
                    proof {
                        let q = docs@.take(k as int);
                        assert(docs@.take(k + 1) =~= q.push((id0, f0)));
                        assert forall|j: int| 0 <= j < q.len() implies q[j].0 != id0 by {
                            assert(q[j] == docs@[j]);
                        }
                        lemma_mapa_no_contiene(q, id0);
                        lemma_mapa_agregar(q, id0, f0);
                        assert(f0 > 0);
                        lemma_frecuencia_prefijo(docs@, k + 1, id0);
                        lemma_puntaje_prefijo(m, ts, i + 1, id0);
                        assert(frecuencia_de(docs@.take(k + 1), id0) == f0);
                        assert(puntaje(m, ts.take(i + 1), id0) == puntaje(m, ts.take(i as int), id0)
                            + frecuencia_de(docs@, id0));
                        lemma_frecuencia_positiva(q, id0);
                        lemma_puntaje_prefijo(m, ts, i as int, id0);
                    }
                    let ghost antes = r@;
                    if !sumar_puntaje(&mut r, id0, f0) {
                        proof {
                            assert(puntaje(m, ts, id0) > i32::MAX);
                        }
                        return None;
                    }
                    proof {
                        let q = docs@.take(k as int);
                        assert forall|id: i32| #[trigger] mapa_de(r@).contains_key(id) == (puntaje(
                            m,
                            ts.take(i as int),
                            id,
                        ) + frecuencia_de(docs@.take(k + 1), id) > 0) && (mapa_de(r@).contains_key(
                            id,
                        ) ==> mapa_de(r@)[id] == puntaje(m, ts.take(i as int), id) + frecuencia_de(
                            docs@.take(k + 1),
                            id,
                        )) by {
                            lemma_puntaje_prefijo(m, ts, i as int, id);
                            lemma_frecuencia_positiva(q, id);
                            assert(mapa_de(antes).contains_key(id) == (puntaje(
                                m,
                                ts.take(i as int),
                                id,
                            ) + frecuencia_de(q, id) > 0));
                        }
                    }
                    k = k + 1;
                }
                proof {
                    assert(docs@.take(docs.len() as int) =~= docs@);
                    assert forall|id: i32| #[trigger] puntaje(m, ts.take(i + 1), id) == puntaje(
                        m,
                        ts.take(i as int),
                        id,
                    ) + frecuencia_de(docs@.take(docs.len() as int), id) by {}
                }
            },
        }
        i = i + 1;
    }
    assert(ts.take(terminos.len() as int) =~= ts);
    proof {
        assert forall|id: i32| #[trigger] puntaje(m, ts, id) <= i32::MAX by {
            if mapa_de(r@).contains_key(id) {
                crate::tabla::lemma_mapa_claves(r@, id);
                let k = choose|k: int| 0 <= k < r@.len() && r@[k].0 == id;
                lemma_mapa_contiene(r@, k);
            }
        }
    }
    Some(r)
}

/// Scores the documents for the search terms: each document that holds at least one of
/// the terms, once, with the sum over the terms of its frequency (a term given twice
/// counts twice).
pub fn buscar_documentos(terminos: &[String], indice: &Indice) -> (r: Vec<(i32, i32)>)
    requires
        indice.bien_formado(),
        forall|id: i32| #[trigger] puntaje(indice@, vistas_string(terminos@), id) <= i32::MAX,
    ensures
        puntajes_son(r@, |id: i32| puntaje(indice@, vistas_string(terminos@), id)),
{
    match buscar_documentos_si_cabe(terminos, indice) {
        Some(v) => v,
        None => {
            assert(false);
            Vec::new()
        },
    }
}

/// The scored documents, the highest score first; the result holds the same pairs as
/// `resultados`, each as often.
pub fn ordenar_resultados(resultados: &Vec<(i32, i32)>) -> (r: Vec<(i32, i32)>)
    ensures
        r@.to_multiset() == resultados@.to_multiset(),
        no_creciente(r@),
{
    let copia = copiar_lista(resultados);
    ordenar_por_cuenta(copia)
}

/// The position of the last `.` in `f`, or `-1` when there is none.
pub open spec fn ultimo_punto(f: Seq<char>) -> int
    decreases f.len(),
{
    if f.len() == 0 {
        -1
    } else if f.last() == '.' {
        f.len() - 1
    } else {
        ultimo_punto(f.drop_last())
    }
}

/// The stem of a file name, as `Path::file_stem` gives it: the part before the last `.`,
/// or the whole name when it has no `.` but possibly a leading one.
pub open spec fn raiz_de_nombre(f: Seq<char>) -> Seq<char> {
    if ultimo_punto(f) >= 1 {
        f.take(ultimo_punto(f))
    } else {
        f
    }
}

/// The number that names a document: the stem of its file name read as an `i32`, or
/// `None` when the stem is not one.
pub fn obtener_id_documento(nombre_archivo: &str) -> (r: Option<i32>)
    ensures
        r == como_i32(raiz_de_nombre(nombre_archivo@)),
{
    let cs = caracteres(nombre_archivo);
    let mut k: usize = cs.len();
    assert(cs@.take(k as int) =~= cs@);
    while k > 0 && cs[k - 1] != '.'
        invariant
            k <= cs.len(),
            cs@ == nombre_archivo@,
            ultimo_punto(cs@) == ultimo_punto(cs@.take(k as int)),
        decreases k,
    {
        assert(cs@.take(k as int).drop_last() =~= cs@.take(k - 1));
        k = k - 1;
    }
    proof {
        if k > 0 {
            assert(cs@.take(k as int).last() == '.');
        }
        assert(cs@.take(cs.len() as int) =~= cs@);
    }
    let fin: usize = if k >= 2 {
        k - 1
    } else {
        cs.len()
    };
    let mut raiz: Vec<char> = Vec::new();
    let mut i: usize = 0;
    while i < fin
        invariant
            i <= fin <= cs.len(),
            raiz@ == cs@.take(i as int),
        decreases fin - i,
    {
        raiz.push(cs[i]);
        assert(raiz@ =~= cs@.take(i + 1));
        i = i + 1;
    }
    assert(raiz@ == raiz_de_nombre(nombre_archivo@)) by {
        if fin == cs.len() {
            assert(cs@.take(cs.len() as int) =~= cs@);
        }
    }
    let texto = crate::texto::a_string(&raiz);
    parsear_i32(texto.as_str())
}

} // verus!
