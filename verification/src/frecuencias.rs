//! Word frequencies of texts: counting, merging partial counts, and ordering by count.
use vstd::prelude::*;
use crate::tabla::{
    claves_distintas, lemma_mapa_actualizar, lemma_mapa_agregar, lemma_mapa_contiene,
    lemma_mapa_fuera, lemma_mapa_no_contiene, mapa_de,
};
use crate::orden::{
    lemma_mapa_permutacion, lemma_multiconjunto_imagen, no_creciente, ordenar_por_cuenta,
};
use crate::texto::{
    ley_terminos_filtrados, limpia,
    a_minusculas, caracteres, minusculas, palabras, terminos, terminos_de, vistas, vistas_string,
};

verus! {

/// How many times `w` occurs in `ws`.
pub open spec fn ocurrencias(ws: Seq<Seq<char>>, w: Seq<char>) -> nat
    decreases ws.len(),
{
    if ws.len() == 0 {
        0
    } else {
        ocurrencias(ws.drop_last(), w) + if ws.last() == w {
            1nat
        } else {
            0nat
        }
    }
}

/// The count of the words of `ws`: each word that occurs, with how many times it occurs.
pub open spec fn conteo(ws: Seq<Seq<char>>) -> Map<Seq<char>, int> {
    Map::new(|w: Seq<char>| ws.contains(w), |w: Seq<char>| ocurrencias(ws, w) as int)
}

/// The count that `m` holds for `w`, zero when `w` is absent.
pub open spec fn valor(m: Map<Seq<char>, int>, w: Seq<char>) -> int {
    if m.contains_key(w) {
        m[w]
    } else {
        0
    }
}

/// Two counts added word by word.
pub open spec fn combinado(a: Map<Seq<char>, int>, b: Map<Seq<char>, int>) -> Map<Seq<char>, int> {
    Map::new(
        |w: Seq<char>| a.contains_key(w) || b.contains_key(w),
        |w: Seq<char>| valor(a, w) + valor(b, w),
    )
}

/// The counted words of a line: the line lowercased, split at whitespace, each word
/// cleaned of non-alphanumeric characters at its ends, the empty ones left out.
pub open spec fn palabras_de_linea(l: Seq<char>) -> Seq<Seq<char>> {
    terminos(palabras(minusculas(l)), Seq::empty())
}

/// The counted words of several lines, one line after the other.
pub open spec fn palabras_de_lineas(ls: Seq<Seq<char>>) -> Seq<Seq<char>>
    decreases ls.len(),
{
    if ls.len() == 0 {
        Seq::empty()
    } else {
        palabras_de_lineas(ls.drop_last()) + palabras_de_linea(ls.last())
    }
}

/// Whether no word occurs in `ws` more often than an `i32` can count.
pub open spec fn cabe_en_i32(ws: Seq<Seq<char>>) -> bool {
    forall|w: Seq<char>| #[trigger] ocurrencias(ws, w) <= i32::MAX
}

/// Occurrences in a concatenation add up.
pub proof fn lemma_ocurrencias_concat(a: Seq<Seq<char>>, b: Seq<Seq<char>>, w: Seq<char>)
    ensures
        ocurrencias(a + b, w) == ocurrencias(a, w) + ocurrencias(b, w),
    decreases b.len(),
{
    if b.len() > 0 {
        lemma_ocurrencias_concat(a, b.drop_last(), w);
        assert((a + b).drop_last() =~= a + b.drop_last());
    } else {
        assert(a + b =~= a);
    }
}

/// A word occurs in `ws` exactly when it is counted at least once.
pub proof fn lemma_ocurrencias_contiene(ws: Seq<Seq<char>>, w: Seq<char>)
    ensures
        ws.contains(w) <==> ocurrencias(ws, w) > 0,
    decreases ws.len(),
{
    if ws.len() > 0 {
        lemma_ocurrencias_contiene(ws.drop_last(), w);
        if ws.drop_last().contains(w) {
            let i = choose|i: int| 0 <= i < ws.drop_last().len() && ws.drop_last()[i] == w;
            assert(ws[i] == w);
        }
        if ws.contains(w) && ws.last() != w {
            let i = choose|i: int| 0 <= i < ws.len() && ws[i] == w;
            assert(ws.drop_last()[i] == w);
        }
    }
}

/// The words of several lines taken in two groups are those of the first group followed
/// by those of the second.
pub proof fn lemma_palabras_de_lineas_concat(a: Seq<Seq<char>>, b: Seq<Seq<char>>)
    ensures
        palabras_de_lineas(a + b) == palabras_de_lineas(a) + palabras_de_lineas(b),
    decreases b.len(),
{
    if b.len() > 0 {
        lemma_palabras_de_lineas_concat(a, b.drop_last());
        assert((a + b).drop_last() =~= a + b.drop_last());
        assert((a + b).last() == b.last());
        assert(palabras_de_lineas(a) + palabras_de_lineas(b.drop_last()) + palabras_de_linea(
            b.last(),
        ) =~= palabras_de_lineas(a) + (palabras_de_lineas(b.drop_last()) + palabras_de_linea(
            b.last(),
        )));
    } else {
        assert(a + b =~= a);
        assert(palabras_de_lineas(a) + palabras_de_lineas(b) =~= palabras_de_lineas(a));
    }
}

/// Counting the words of two texts one after the other gives the sum of their
/// separate counts.
pub proof fn ley_conteo_concatenado(a: Seq<Seq<char>>, b: Seq<Seq<char>>)
    ensures
        conteo(a + b) == combinado(conteo(a), conteo(b)),
{
    assert forall|w: Seq<char>| #[trigger] conteo(a + b).contains_key(w) == combinado(
        conteo(a),
        conteo(b),
    ).contains_key(w) && (conteo(a + b).contains_key(w) ==> conteo(a + b)[w] == combinado(
        conteo(a),
        conteo(b),
    )[w]) by {
        lemma_ocurrencias_concat(a, b, w);
        lemma_ocurrencias_contiene(a + b, w);
        lemma_ocurrencias_contiene(a, w);
        lemma_ocurrencias_contiene(b, w);
    }
    assert(conteo(a + b) =~= combinado(conteo(a), conteo(b)));
}

/// Adding counts does not depend on the order of the two operands.
pub proof fn ley_combinado_conmutativo(a: Map<Seq<char>, int>, b: Map<Seq<char>, int>)
    ensures
        combinado(a, b) == combinado(b, a),
{
    assert(combinado(a, b) =~= combinado(b, a));
}

/// Adding three counts does not depend on how they are grouped.
pub proof fn ley_combinado_asociativo(
    a: Map<Seq<char>, int>,
    b: Map<Seq<char>, int>,
    c: Map<Seq<char>, int>,
)
    ensures
        combinado(combinado(a, b), c) == combinado(a, combinado(b, c)),
{
    assert(combinado(combinado(a, b), c) =~= combinado(a, combinado(b, c)));
}

/// The empty count changes nothing when added.
pub proof fn ley_combinado_neutro(a: Map<Seq<char>, int>)
    ensures
        combinado(a, Map::empty()) == a,
        conteo(Seq::empty()) == Map::<Seq<char>, int>::empty(),
{
    assert(combinado(a, Map::empty()) =~= a);
    assert(conteo(Seq::empty()) =~= Map::<Seq<char>, int>::empty());
}

/// The count that `conteo` gives a word is its number of occurrences.
pub proof fn lemma_valor_conteo(ws: Seq<Seq<char>>, w: Seq<char>)
    ensures
        valor(conteo(ws), w) == ocurrencias(ws, w),
{
    lemma_ocurrencias_contiene(ws, w);
}

/// Counting one more word adds one to its count.
proof fn lemma_combinado_paso(a: Map<Seq<char>, int>, ws: Seq<Seq<char>>, w: Seq<char>)
    ensures
        combinado(a, conteo(ws.push(w))) == combinado(a, conteo(ws)).insert(
            w,
            valor(combinado(a, conteo(ws)), w) + 1,
        ),
{
    assert(ws.push(w).drop_last() =~= ws);
    assert forall|x: Seq<char>| #[trigger]
        combinado(a, conteo(ws.push(w))).contains_key(x) == combinado(a, conteo(ws)).insert(
            w,
            valor(combinado(a, conteo(ws)), w) + 1,
        ).contains_key(x) && (combinado(a, conteo(ws.push(w))).contains_key(x) ==> combinado(
            a,
            conteo(ws.push(w)),
        )[x] == combinado(a, conteo(ws)).insert(w, valor(combinado(a, conteo(ws)), w) + 1)[x]) by {
        lemma_ocurrencias_contiene(ws.push(w), x);
        lemma_ocurrencias_contiene(ws, x);
        lemma_ocurrencias_contiene(ws, w);
    }
    assert(combinado(a, conteo(ws.push(w))) =~= combinado(a, conteo(ws)).insert(
        w,
        valor(combinado(a, conteo(ws)), w) + 1,
    ));
}

/// Adding one more entry of a count that did not have its key adds its value.
proof fn lemma_combinado_insertar(a: Map<Seq<char>, int>, m: Map<Seq<char>, int>, k: Seq<char>, v: int)
    requires
        !m.contains_key(k),
    ensures
        combinado(a, m.insert(k, v)) == combinado(a, m).insert(k, valor(combinado(a, m), k) + v),
{
    assert(combinado(a, m.insert(k, v)) =~= combinado(a, m).insert(
        k,
        valor(combinado(a, m), k) + v,
    ));
}

/// The sum of the counts of several files, each file a sequence of lines, added in order.
pub open spec fn suma_de_conteos(archivos: Seq<Seq<Seq<char>>>) -> Map<Seq<char>, int>
    decreases archivos.len(),
{
    if archivos.len() == 0 {
        Map::empty()
    } else {
        combinado(suma_de_conteos(archivos.drop_last()), conteo(palabras_de_lineas(archivos.last())))
    }
}

/// Counting several files separately and adding their counts gives the count of all
/// their lines read one after the other.
pub proof fn ley_conteo_por_archivos(archivos: Seq<Seq<Seq<char>>>)
    ensures
        suma_de_conteos(archivos) == conteo(palabras_de_lineas(archivos.flatten())),
    decreases archivos.len(),
{
    if archivos.len() == 0 {
        assert(archivos.flatten() =~= Seq::<Seq<char>>::empty());
        ley_combinado_neutro(Map::empty());
    } else {
        let previos = archivos.drop_last();
        ley_conteo_por_archivos(previos);
        assert(archivos =~= previos.push(archivos.last()));
        previos.lemma_flatten_push(archivos.last());
        lemma_palabras_de_lineas_concat(previos.flatten(), archivos.last());
        ley_conteo_concatenado(
            palabras_de_lineas(previos.flatten()),
            palabras_de_lineas(archivos.last()),
        );
    }
}

/// The counts added in order equal the counts without the file at `j` added to the
/// count of that file.
proof fn lemma_suma_quitar(archivos: Seq<Seq<Seq<char>>>, j: int)
    requires
        0 <= j < archivos.len(),
    ensures
        suma_de_conteos(archivos) == combinado(
            suma_de_conteos(archivos.remove(j)),
            conteo(palabras_de_lineas(archivos[j])),
        ),
    decreases archivos.len(),
{
    let n = archivos.len();
    if j == n - 1 {
        assert(archivos.remove(j) =~= archivos.drop_last());
    } else {
        let previos = archivos.drop_last();
        lemma_suma_quitar(previos, j);
        assert(archivos.remove(j).drop_last() =~= previos.remove(j));
        assert(archivos.remove(j).last() == archivos.last());
        let a = suma_de_conteos(previos.remove(j));
        let x = conteo(palabras_de_lineas(archivos[j]));
        let y = conteo(palabras_de_lineas(archivos.last()));
        ley_combinado_asociativo(a, x, y);
        ley_combinado_conmutativo(x, y);
        ley_combinado_asociativo(a, y, x);
    }
}

/// Adding the counts of several files does not depend on the order in which the files
/// are taken.
pub proof fn ley_suma_sin_orden(archivos: Seq<Seq<Seq<char>>>, otros: Seq<Seq<Seq<char>>>)
    requires
        archivos.to_multiset() == otros.to_multiset(),
    ensures
        suma_de_conteos(archivos) == suma_de_conteos(otros),
    decreases archivos.len(),
{
    broadcast use vstd::seq_lib::group_to_multiset_ensures;

    if archivos.len() == 0 {
        vstd::seq_lib::to_multiset_len(archivos);
        vstd::seq_lib::to_multiset_len(otros);
        assert(otros =~= archivos);
    } else {
        let x = archivos.last();
        assert(archivos =~= archivos.drop_last().push(x));
        assert(archivos.to_multiset().count(x) > 0);
        assert(otros.to_multiset().count(x) > 0);
        let j = choose|j: int| 0 <= j < otros.len() && otros[j] == x;
        assert(otros.remove(j).to_multiset() == otros.to_multiset().remove(x));
        assert(archivos.drop_last().to_multiset() =~= archivos.to_multiset().remove(x));
        ley_suma_sin_orden(archivos.drop_last(), otros.remove(j));
        lemma_suma_quitar(otros, j);
    }
}

/// Each line taken as a file of its own.
pub open spec fn una_por_archivo(ls: Seq<Seq<char>>) -> Seq<Seq<Seq<char>>> {
    ls.map_values(|l: Seq<char>| seq![l])
}

proof fn lemma_una_por_archivo(ls: Seq<Seq<char>>)
    ensures
        una_por_archivo(ls).flatten() == ls,
    decreases ls.len(),
{
    if ls.len() == 0 {
        assert(una_por_archivo(ls).flatten() =~= ls);
    } else {
        lemma_una_por_archivo(ls.drop_last());
        assert(una_por_archivo(ls) =~= una_por_archivo(ls.drop_last()).push(seq![ls.last()]));
        una_por_archivo(ls.drop_last()).lemma_flatten_push(seq![ls.last()]);
        assert(ls.drop_last() + seq![ls.last()] =~= ls);
    }
}

/// Counting lines one at a time into a shared count gives the same count whatever the
/// order in which the lines arrive.
pub proof fn ley_lineas_sin_orden(lineas: Seq<Seq<char>>, otras: Seq<Seq<char>>)
    requires
        lineas.to_multiset() == otras.to_multiset(),
    ensures
        conteo(palabras_de_lineas(lineas)) == conteo(palabras_de_lineas(otras)),
{
    lemma_multiconjunto_imagen(lineas, otras, |l: Seq<char>| seq![l]);
    ley_suma_sin_orden(una_por_archivo(lineas), una_por_archivo(otras));
    ley_conteo_por_archivos(una_por_archivo(lineas));
    ley_conteo_por_archivos(una_por_archivo(otras));
    lemma_una_por_archivo(lineas);
    lemma_una_por_archivo(otras);
}

/// The counted words of a line are all its words, lowercased and cleaned with `limpia`,
/// in order, leaving out only the ones that come out empty.
pub proof fn ley_palabras_de_linea(l: Seq<char>)
    ensures
        palabras_de_linea(l) == palabras(minusculas(l)).map_values(|w: Seq<char>| limpia(w)).filter(
            |w: Seq<char>| w.len() > 0,
        ),
{
    let vacia = Seq::<Seq<char>>::empty();
    ley_terminos_filtrados(palabras(minusculas(l)), vacia);
    assert((|w: Seq<char>| w.len() > 0 && !vacia.contains(w)) =~= (|w: Seq<char>| w.len() > 0));
}

/// How often a word occurs in a prefix is at most how often it occurs in the whole.
pub proof fn lemma_ocurrencias_prefijo(ws: Seq<Seq<char>>, k: int, w: Seq<char>)
    requires
        0 <= k <= ws.len(),
    ensures
        ocurrencias(ws.take(k), w) <= ocurrencias(ws, w),
{
    lemma_ocurrencias_concat(ws.take(k), ws.skip(k), w);
    assert(ws.take(k) + ws.skip(k) =~= ws);
}

/// Pairs of a `String` and a count, taken as a word and a mathematical integer.
pub open spec fn pares_de(s: Seq<(String, i32)>) -> Seq<(Seq<char>, int)> {
    s.map_values(|e: (String, i32)| (e.0@, e.1 as int))
}

/// The counted words of a line (see `palabras_de_linea`).
fn palabras_contadas(linea: &str) -> (ts: Vec<String>)
    ensures
        vistas_string(ts@) == palabras_de_linea(linea@),
{
    let minus = a_minusculas(linea);
    let cs = caracteres(minus.as_str());
    let ninguna: Vec<Vec<char>> = Vec::new();
    assert(vistas(ninguna@) =~= Seq::<Seq<char>>::empty());
    terminos_de(&cs, &ninguna)
}

/// How many times `t` occurs in `ts`.
pub fn ocurrencias_de(ts: &Vec<String>, t: &String) -> (r: usize)
    ensures
        r == ocurrencias(vistas_string(ts@), t@),
{
    let ghost l = vistas_string(ts@);
    let mut r: usize = 0;
    let mut i: usize = 0;
    assert(l.take(0) =~= Seq::<Seq<char>>::empty());
    while i < ts.len()
        invariant
            i <= ts.len(),
            l == vistas_string(ts@),
            r == ocurrencias(l.take(i as int), t@),
            r <= i,
        decreases ts.len() - i,
    {
        assert(l.take(i + 1).drop_last() =~= l.take(i as int));
        if ts[i] == *t {
            r = r + 1;
        }
        i = i + 1;
    }
    assert(l.take(ts.len() as int) =~= l);
    r
}

/// Word frequencies: each word with how many times it was counted.
pub struct Frecuencias {
    entradas: Vec<(String, i32)>,
}

impl View for Frecuencias {
    type V = Map<Seq<char>, int>;

    closed spec fn view(&self) -> Map<Seq<char>, int> {
        mapa_de(self.pares())
    }
}

impl Frecuencias {
    /// The entries as pairs of a word and its count.
    pub closed spec fn pares(&self) -> Seq<(Seq<char>, int)> {
        pares_de(self.entradas@)
    }

    /// No word is held twice, and every count is positive.
    pub closed spec fn bien_formada(&self) -> bool {
        &&& claves_distintas(self.pares())
        &&& forall|i: int| 0 <= i < self.entradas.len() ==> #[trigger] self.entradas@[i].1 > 0
    }

    /// No word counted yet.
    pub fn new() -> (r: Self)
        ensures
            r.bien_formada(),
            r@ == Map::<Seq<char>, int>::empty(),
    {
        let r = Frecuencias { entradas: Vec::new() };
        assert(r.pares() =~= Seq::<(Seq<char>, int)>::empty());
        r
    }

    /// Where `w` is among the entries, if it is.
    fn posicion(&self, w: &String) -> (r: Option<usize>)
        requires
            self.bien_formada(),
        ensures
            match r {
                Some(k) => k < self.entradas.len() && self.entradas@[k as int].0@ == w@,
                None => !self@.contains_key(w@),
            },
    {
        let mut i: usize = 0;
        while i < self.entradas.len()
            invariant
                i <= self.entradas.len(),
                forall|k: int| 0 <= k < i ==> self.pares()[k].0 != w@,
            decreases self.entradas.len() - i,
        {
            if self.entradas[i].0 == *w {
                return Some(i);
            }
            i = i + 1;
        }
        proof {
            lemma_mapa_no_contiene(self.pares(), w@);
        }
        None
    }

    /// The count of `w`, zero when it was never counted.
    pub fn frecuencia(&self, w: &String) -> (r: i32)
        requires
            self.bien_formada(),
        ensures
            r == valor(self@, w@),
    {
        match self.posicion(w) {
            Some(k) => {
                proof {
                    lemma_mapa_contiene(self.pares(), k as int);
                }
                self.entradas[k].1
            },
            None => 0,
        }
    }

    /// Adds `n` to the count of `w`.
    fn sumar(&mut self, w: String, n: i32)
        requires
            old(self).bien_formada(),
            n > 0,
            valor(old(self)@, w@) + n <= i32::MAX,
        ensures
            final(self).bien_formada(),
            final(self)@ == old(self)@.insert(w@, valor(old(self)@, w@) + n),
    {
        match self.posicion(&w) {
            Some(k) => {
                proof {
                    lemma_mapa_contiene(self.pares(), k as int);
                    lemma_mapa_actualizar(self.pares(), k as int, self.entradas@[k as int].1 + n);
                }
                let ghost antes = self.pares();
                let actual = self.entradas[k].1;
                let clave = self.entradas[k].0.clone();
                self.entradas.set(k, (clave, actual + n));
                assert(self.pares() =~= antes.update(k as int, (antes[k as int].0, actual + n)));
            },
            None => {
                let ghost antes = self.pares();
                self.entradas.push((w, n));
                proof {
                    lemma_mapa_agregar(antes, w@, n as int);
                    assert(self.pares() =~= antes.push((w@, n as int)));
                    assert forall|i: int, j: int|
                        0 <= i < self.pares().len() && 0 <= j < self.pares().len() && i != j
                        implies self.pares()[i].0 != self.pares()[j].0 by {
                        if i == antes.len() {
                            lemma_mapa_fuera(antes, w@, j);
                        } else if j == antes.len() {
                            lemma_mapa_fuera(antes, w@, i);
                        }
                    }
                }
            },
        }
    }

    /// Counts each of the words `ts` once more.
    fn contar_terminos(&mut self, ts: &Vec<String>)
        requires
            old(self).bien_formada(),
            forall|w: Seq<char>|
                valor(old(self)@, w) + #[trigger] ocurrencias(vistas_string(ts@), w) <= i32::MAX,
        ensures
            final(self).bien_formada(),
            final(self)@ == combinado(old(self)@, conteo(vistas_string(ts@))),
    {
        let ghost l = vistas_string(ts@);
        let ghost inicial = self@;
        assert(l.take(0) =~= Seq::<Seq<char>>::empty());
        proof {
            ley_combinado_neutro(inicial);
        }
        let mut j: usize = 0;
        while j < ts.len()
            invariant
                j <= ts.len(),
                l == vistas_string(ts@),
                self.bien_formada(),
                self@ == combinado(inicial, conteo(l.take(j as int))),
                forall|w: Seq<char>| valor(inicial, w) + #[trigger] ocurrencias(l, w) <= i32::MAX,
            decreases ts.len() - j,
        {
            let t = ts[j].clone();
            proof {
                assert(l.take(j + 1) =~= l.take(j as int).push(t@));
                lemma_combinado_paso(inicial, l.take(j as int), t@);
                lemma_valor_conteo(l.take(j as int), t@);
                assert(l.take(j + 1).drop_last() =~= l.take(j as int));
                lemma_ocurrencias_prefijo(l, j + 1, t@);
                assert(ocurrencias(l, t@) <= i32::MAX - valor(inicial, t@));
            }
            self.sumar(t, 1);
            j = j + 1;
        }
        assert(l.take(ts.len() as int) =~= l);
    }

    /// Every count held fits in an `i32`.
    proof fn lemma_valores_i32(&self, w: Seq<char>)
        requires
            self.bien_formada(),
        ensures
            0 <= valor(self@, w) <= i32::MAX,
    {
        if self@.contains_key(w) {
            crate::tabla::lemma_mapa_claves(self.pares(), w);
            let k = choose|k: int| 0 <= k < self.pares().len() && self.pares()[k].0 == w;
            lemma_mapa_contiene(self.pares(), k);
            assert(self.entradas@[k].1 > 0);
        }
    }

    /// Whether counting each of the words `ts` once more keeps every count within an `i32`.
    fn caben(&self, ts: &Vec<String>) -> (r: bool)
        requires
            self.bien_formada(),
        ensures
            r == (forall|w: Seq<char>|
                valor(self@, w) + #[trigger] ocurrencias(vistas_string(ts@), w) <= i32::MAX),
    {
        let ghost l = vistas_string(ts@);
        let mut i: usize = 0;
        while i < ts.len()
            invariant
                i <= ts.len(),
                l == vistas_string(ts@),
                self.bien_formada(),
                forall|k: int|
                    0 <= k < i ==> valor(self@, l[k]) + #[trigger] ocurrencias(l, l[k]) <= i32::MAX,
            decreases ts.len() - i,
        {
            let f = self.frecuencia(&ts[i]);
            let c = ocurrencias_de(ts, &ts[i]);
            proof {
                self.lemma_valores_i32(l[i as int]);
            }
            if c > 2147483647 || (f as i64) + (c as i64) > 2147483647 {
                assert(!(valor(self@, l[i as int]) + ocurrencias(l, l[i as int]) <= i32::MAX));
                return false;
            }
            i = i + 1;
        }
        assert forall|w: Seq<char>| valor(self@, w) + #[trigger] ocurrencias(l, w) <= i32::MAX by {
            lemma_ocurrencias_contiene(l, w);
            self.lemma_valores_i32(w);
            if l.contains(w) {
                let k = choose|k: int| 0 <= k < l.len() && l[k] == w;
                assert(valor(self@, l[k]) + ocurrencias(l, l[k]) <= i32::MAX);
            }
        }
        true
    }

    /// Counts the words of one line: the line is lowercased, split at whitespace, and each
    /// word is cleaned of the non-alphanumeric characters at its ends; empty words are
    /// not counted.
    pub fn contar_linea(&mut self, linea: &str)
        requires
            old(self).bien_formada(),
            forall|w: Seq<char>|
                valor(old(self)@, w) + #[trigger] ocurrencias(palabras_de_linea(linea@), w)
                    <= i32::MAX,
        ensures
            final(self).bien_formada(),
            final(self)@ == combinado(old(self)@, conteo(palabras_de_linea(linea@))),
    {
        let ts = palabras_contadas(linea);
        self.contar_terminos(&ts);
    }

    /// Counts the words of one line, as `contar_linea` does, when no count then goes
    /// beyond an `i32`, and says whether it did; otherwise nothing changes.
    pub fn contar_linea_si_cabe(&mut self, linea: &str) -> (ok: bool)
        requires
            old(self).bien_formada(),
        ensures
            final(self).bien_formada(),
            ok == (forall|w: Seq<char>|
                valor(old(self)@, w) + #[trigger] ocurrencias(palabras_de_linea(linea@), w)
                    <= i32::MAX),
            ok ==> final(self)@ == combinado(old(self)@, conteo(palabras_de_linea(linea@))),
            !ok ==> final(self)@ == old(self)@,
    {
        let ts = palabras_contadas(linea);
        if self.caben(&ts) {
            self.contar_terminos(&ts);
            true
        } else {
            false
        }
    }

    /// Whether every word of these counts is also in `otra`, with the same count.
    fn contenida_en(&self, otra: &Frecuencias) -> (r: bool)
        requires
            self.bien_formada(),
            otra.bien_formada(),
        ensures
            r == (forall|w: Seq<char>| #[trigger] self@.contains_key(w) ==> otra@.contains_key(w) && otra@[w] == self@[w]),
    {
        let mut i: usize = 0;
        while i < self.entradas.len()
            invariant
                i <= self.entradas.len(),
                self.bien_formada(),
                otra.bien_formada(),
                forall|k: int|
                    #![trigger self.pares()[k]]
                    0 <= k < i ==> otra@.contains_key(self.pares()[k].0) && otra@[self.pares()[k].0]
                        == self.pares()[k].1,
            decreases self.entradas.len() - i,
        {
            proof {
                lemma_mapa_contiene(self.pares(), i as int);
            }
            if otra.frecuencia(&self.entradas[i].0) != self.entradas[i].1 {
                assert(self@.contains_key(self.pares()[i as int].0));
                return false;
            }
            proof {
                assert(self.entradas@[i as int].1 > 0);
                let w = self.pares()[i as int].0;
                assert(valor(otra@, w) == self.pares()[i as int].1);
                assert(otra@.contains_key(w));
            }
            i = i + 1;
        }
        proof {
            assert forall|w: Seq<char>| #[trigger] self@.contains_key(w) implies otra@.contains_key(w)
                && otra@[w] == self@[w] by {
                crate::tabla::lemma_mapa_claves(self.pares(), w);
                let k = choose|k: int| 0 <= k < self.pares().len() && self.pares()[k].0 == w;
                lemma_mapa_contiene(self.pares(), k);
            }
        }
        true
    }

    /// Whether these counts and `otra` hold the same words with the same counts.
    pub fn mismas_frecuencias(&self, otra: &Frecuencias) -> (r: bool)
        requires
            self.bien_formada(),
            otra.bien_formada(),
        ensures
            r == (self@ == otra@),
    {
        let r = self.contenida_en(otra) && otra.contenida_en(self);
        if r {
            assert(self@ =~= otra@);
        }
        r
    }

    /// Adds the counts of `otra` to these, as `combinar` does, when no count then goes
    /// beyond an `i32`, and says whether it did; otherwise nothing changes.
    pub fn combinar_si_cabe(&mut self, otra: &Frecuencias) -> (ok: bool)
        requires
            old(self).bien_formada(),
            otra.bien_formada(),
        ensures
            final(self).bien_formada(),
            ok == (forall|w: Seq<char>| valor(old(self)@, w) + #[trigger] valor(otra@, w) <= i32::MAX),
            ok ==> final(self)@ == combinado(old(self)@, otra@),
            !ok ==> final(self)@ == old(self)@,
    {
        let ghost ps = otra.pares();
        let mut i: usize = 0;
        while i < otra.entradas.len()
            invariant
                i <= otra.entradas.len(),
                ps == otra.pares(),
                self.bien_formada(),
                otra.bien_formada(),
                forall|k: int|
                    #![trigger ps[k]]
                    0 <= k < i ==> valor(self@, ps[k].0) + valor(otra@, ps[k].0) <= i32::MAX,
            decreases otra.entradas.len() - i,
        {
            let f = self.frecuencia(&otra.entradas[i].0);
            let n = otra.entradas[i].1;
            proof {
                lemma_mapa_contiene(ps, i as int);
                self.lemma_valores_i32(ps[i as int].0);
                assert(valor(otra@, ps[i as int].0) == n);
            }
            if (f as i64) + (n as i64) > 2147483647 {
                return false;
            }
            i = i + 1;
        }
        assert forall|w: Seq<char>| valor(self@, w) + #[trigger] valor(otra@, w) <= i32::MAX by {
            self.lemma_valores_i32(w);
            if otra@.contains_key(w) {
                crate::tabla::lemma_mapa_claves(ps, w);
                let k = choose|k: int| 0 <= k < ps.len() && ps[k].0 == w;
                assert(valor(self@, ps[k].0) + valor(otra@, ps[k].0) <= i32::MAX);
            }
        }
        self.combinar(otra);
        true
    }

    /// Adds the counts of `otra` to these, word by word.
    pub fn combinar(&mut self, otra: &Frecuencias)
        requires
            old(self).bien_formada(),
            otra.bien_formada(),
            forall|w: Seq<char>| valor(old(self)@, w) + #[trigger] valor(otra@, w) <= i32::MAX,
        ensures
            final(self).bien_formada(),
            final(self)@ == combinado(old(self)@, otra@),
    {
        let ghost inicial = self@;
        let ghost ps = otra.pares();
        assert(ps.take(0) =~= Seq::<(Seq<char>, int)>::empty());
        proof { ley_combinado_neutro(inicial); }
        let mut i: usize = 0;
        while i < otra.entradas.len()
            invariant
                i <= otra.entradas.len(),
                ps == otra.pares(),
                otra.bien_formada(),
                self.bien_formada(),
                self@ == combinado(inicial, mapa_de(ps.take(i as int))),
                forall|w: Seq<char>| valor(inicial, w) + #[trigger] valor(otra@, w) <= i32::MAX,
            decreases otra.entradas.len() - i,
        {
            let clave = otra.entradas[i].0.clone();
            let n = otra.entradas[i].1;
            proof {
                let previo = ps.take(i as int);
                assert(ps.take(i + 1).drop_last() =~= previo);
                assert(ps.take(i + 1).last() == (clave@, n as int));
                assert forall|j: int| 0 <= j < previo.len() implies previo[j].0 != clave@ by {
                    assert(previo[j] == ps[j]);
                }
                lemma_mapa_no_contiene(previo, clave@);
                lemma_combinado_insertar(inicial, mapa_de(previo), clave@, n as int);
                lemma_mapa_contiene(ps, i as int);
                assert(valor(otra@, clave@) == n);
                assert(otra.entradas@[i as int].1 > 0);
            }
            self.sumar(clave, n);
            i = i + 1;
        }
        assert(ps.take(otra.entradas.len() as int) =~= ps);
    }
}

/// The counted words with their counts, the largest count first; each word of
/// `frecuencias` appears once, with its count.
pub fn ordenar_frecuencias(frecuencias: &Frecuencias) -> (r: Vec<(String, i32)>)
    requires
        frecuencias.bien_formada(),
    ensures
        claves_distintas(pares_de(r@)),
        mapa_de(pares_de(r@)) == frecuencias@,
        no_creciente(r@),
{
    let mut copia: Vec<(String, i32)> = Vec::new();
    let mut i: usize = 0;
    while i < frecuencias.entradas.len()
        invariant
            i <= frecuencias.entradas.len(),
            copia@ == frecuencias.entradas@.take(i as int),
        decreases frecuencias.entradas.len() - i,
    {
        let palabra = frecuencias.entradas[i].0.clone();
        copia.push((palabra, frecuencias.entradas[i].1));
        assert(copia@ =~= frecuencias.entradas@.take(i + 1));
        i = i + 1;
    }
    assert(copia@ =~= frecuencias.entradas@);
    let r = ordenar_por_cuenta(copia);
    proof {
        lemma_multiconjunto_imagen(
            frecuencias.entradas@,
            r@,
            |e: (String, i32)| (e.0@, e.1 as int),
        );
        lemma_mapa_permutacion(frecuencias.pares(), pares_de(r@));
    }
    r
}

/// Counts the words of `lineas` as `contar_frecuencias` does, when no word occurs more
/// often than an `i32` can count; `None` otherwise.
pub fn contar_frecuencias_si_cabe(lineas: &Vec<String>) -> (r: Option<Frecuencias>)
    ensures
        r is Some == cabe_en_i32(palabras_de_lineas(vistas_string(lineas@))),
        r matches Some(f) ==> f.bien_formada() && f@ == conteo(
            palabras_de_lineas(vistas_string(lineas@)),
        ),
{
    let ghost ls = vistas_string(lineas@);
    let mut r = Frecuencias::new();
    assert(ls.take(0) =~= Seq::<Seq<char>>::empty());
    proof {
        ley_combinado_neutro(Map::empty());
    }
    assert(r@ =~= conteo(palabras_de_lineas(ls.take(0))));
    let mut i: usize = 0;
    while i < lineas.len()
        invariant
            i <= lineas.len(),
            ls == vistas_string(lineas@),
            r.bien_formada(),
            r@ == conteo(palabras_de_lineas(ls.take(i as int))),
        decreases lineas.len() - i,
    {
        let ghost p = palabras_de_lineas(ls.take(i as int));
        let ghost l = palabras_de_linea(ls[i as int]);
        proof {
            assert(ls.take(i + 1).drop_last() =~= ls.take(i as int));
            assert(palabras_de_lineas(ls.take(i + 1)) == p + l);
            lemma_palabras_de_lineas_concat(ls.take(i + 1), ls.skip(i + 1));
            assert(ls.take(i + 1) + ls.skip(i + 1) =~= ls);
            ley_conteo_concatenado(p, l);
        }
        if !r.contar_linea_si_cabe(lineas[i].as_str()) {
            proof {
                let w = choose|w: Seq<char>| !(valor(conteo(p), w) + #[trigger] ocurrencias(l, w) <= i32::MAX);
                lemma_valor_conteo(p, w);
                lemma_ocurrencias_concat(p, l, w);
                lemma_ocurrencias_concat(p + l, palabras_de_lineas(ls.skip(i + 1)), w);
                assert(!(ocurrencias(palabras_de_lineas(ls), w) <= i32::MAX));
            }
            return None;
        }
        i = i + 1;
    }
    assert(ls.take(lineas.len() as int) =~= ls);
    proof {
        assert forall|w: Seq<char>| #[trigger] ocurrencias(palabras_de_lineas(ls), w) <= i32::MAX by {
            lemma_valor_conteo(palabras_de_lineas(ls), w);
            r.lemma_valores_i32(w);
        }
    }
    Some(r)
}

/// Counts the words of `lineas`, line after line, as `contar_linea` counts each.
pub fn contar_frecuencias(lineas: &Vec<String>) -> (r: Frecuencias)
    requires
        cabe_en_i32(palabras_de_lineas(vistas_string(lineas@))),
    ensures
        r.bien_formada(),
        r@ == conteo(palabras_de_lineas(vistas_string(lineas@))),
{
    let ghost ls = vistas_string(lineas@);
    let mut r = Frecuencias::new();
    assert(ls.take(0) =~= Seq::<Seq<char>>::empty());
    proof { ley_combinado_neutro(Map::empty()); }
    assert(r@ =~= conteo(palabras_de_lineas(ls.take(0))));
    let mut i: usize = 0;
    while i < lineas.len()
        invariant
            i <= lineas.len(),
            ls == vistas_string(lineas@),
            cabe_en_i32(palabras_de_lineas(ls)),
            r.bien_formada(),
            r@ == conteo(palabras_de_lineas(ls.take(i as int))),
        decreases lineas.len() - i,
    {
        let ghost p = palabras_de_lineas(ls.take(i as int));
        let ghost l = palabras_de_linea(ls[i as int]);
        proof {
            assert(ls.take(i + 1).drop_last() =~= ls.take(i as int));
            assert(palabras_de_lineas(ls.take(i + 1)) == p + l);
            lemma_palabras_de_lineas_concat(ls.take(i + 1), ls.skip(i + 1));
            assert(ls.take(i + 1) + ls.skip(i + 1) =~= ls);
            assert forall|w: Seq<char>|
                valor(r@, w) + #[trigger] ocurrencias(l, w) <= i32::MAX by {
                lemma_valor_conteo(p, w);
                lemma_ocurrencias_concat(p, l, w);
                lemma_ocurrencias_concat(p + l, palabras_de_lineas(ls.skip(i + 1)), w);
                assert(ocurrencias(palabras_de_lineas(ls), w) <= i32::MAX);
            }
            ley_conteo_concatenado(p, l);
        }
        r.contar_linea(lineas[i].as_str());
        i = i + 1;
    }
    assert(ls.take(lineas.len() as int) =~= ls);
    r
}

} // verus!
