//! Character-level text handling shared by the programs: splitting on
//! whitespace, trimming, cleaning words and building `String`s.
use vstd::prelude::*;

verus! {

/// Whether `c` has the Unicode `White_Space` property (what `char::is_whitespace` tests).
pub uninterp spec fn es_blanco(c: char) -> bool;

/// Whether `c` is alphabetic or numeric in the Unicode sense (what `char::is_alphanumeric` tests).
pub uninterp spec fn es_alfanumerico(c: char) -> bool;

/// The Unicode lowercase mapping of a whole text (what `str::to_lowercase` computes).
pub uninterp spec fn minusculas(s: Seq<char>) -> Seq<char>;

/// Calls `char::is_whitespace`; the contract claims only that the answer is the
/// named predicate `es_blanco` of the character.
#[verifier::external_body]
fn blanco(c: char) -> (b: bool)
    ensures
        b == es_blanco(c),
{
    c.is_whitespace()
}

/// Calls `char::is_alphanumeric`; the contract claims only that the answer is the
/// named predicate `es_alfanumerico` of the character.
#[verifier::external_body]
fn alfanumerico(c: char) -> (b: bool)
    ensures
        b == es_alfanumerico(c),
{
    c.is_alphanumeric()
}

/// Calls `str::to_lowercase`; the contract claims only that the result is the
/// named mapping `minusculas` of the argument's characters.
#[verifier::external_body]
pub(crate) fn a_minusculas(s: &str) -> (r: String)
    ensures
        r@ == minusculas(s@),
{
    s.to_lowercase()
}

/// Calls `String::push`, which appends one character at the end.
#[verifier::external_body]
fn agregar_caracter(s: &mut String, c: char)
    ensures
        final(s)@ == old(s)@.push(c),
{
    s.push(c)
}

/// The characters of `s`, in order.
pub fn caracteres(s: &str) -> (v: Vec<char>)
    ensures
        v@ == s@,
{
    let mut v: Vec<char> = Vec::new();
    for c in it: s.chars()
        invariant
            v@ == it.seq().take(it.index() as int),
            it.seq() == s@,
    {
        v.push(c);
    }
    v
}

/// A `String` holding exactly the characters of `v`.
pub fn a_string(v: &Vec<char>) -> (s: String)
    ensures
        s@ == v@,
{
    let mut s = String::new();
    let mut i: usize = 0;
    while i < v.len()
        invariant
            i <= v.len(),
            s@ == v@.take(i as int),
        decreases v.len() - i,
    {
        agregar_caracter(&mut s, v[i]);
        assert(v@.take(i + 1) =~= v@.take(i as int).push(v@[i as int]));
        i = i + 1;
    }
    assert(v@.take(v.len() as int) =~= v@);
    s
}

/// Whether two character sequences are equal.
pub fn mismos_caracteres(a: &Vec<char>, b: &Vec<char>) -> (r: bool)
    ensures
        r == (a@ == b@),
{
    if a.len() != b.len() {
        return false;
    }
    let mut i: usize = 0;
    while i < a.len()
        invariant
            a.len() == b.len(),
            i <= a.len(),
            forall|k: int| 0 <= k < i ==> a@[k] == b@[k],
        decreases a.len() - i,
    {
        if a[i] != b[i] {
            return false;
        }
        i = i + 1;
    }
    assert(a@ =~= b@);
    true
}

/// Which characters a trim removes at both ends of a word.
#[derive(Clone, Copy, PartialEq, Eq, Structural)]
pub enum Recorte {
    /// Whitespace, as `str::trim` removes it.
    Blancos,
    /// Every character that is not alphanumeric, as
    /// `trim_matches(|c: char| !c.is_alphanumeric())` removes it.
    NoAlfanumericos,
}

/// Whether the trim `modo` removes the character `c`.
pub open spec fn se_quita(modo: Recorte, c: char) -> bool {
    match modo {
        Recorte::Blancos => es_blanco(c),
        Recorte::NoAlfanumericos => !es_alfanumerico(c),
    }
}

fn quita(modo: Recorte, c: char) -> (b: bool)
    ensures
        b == se_quita(modo, c),
{
    match modo {
        Recorte::Blancos => blanco(c),
        Recorte::NoAlfanumericos => !alfanumerico(c),
    }
}

/// `t` with every leading character that `modo` removes taken away.
pub open spec fn sin_inicio(t: Seq<char>, modo: Recorte) -> Seq<char>
    decreases t.len(),
{
    if t.len() > 0 && se_quita(modo, t[0]) {
        sin_inicio(t.drop_first(), modo)
    } else {
        t
    }
}

/// `t` with every trailing character that `modo` removes taken away.
pub open spec fn sin_final(t: Seq<char>, modo: Recorte) -> Seq<char>
    decreases t.len(),
{
    if t.len() > 0 && se_quita(modo, t.last()) {
        sin_final(t.drop_last(), modo)
    } else {
        t
    }
}

/// `t` with the characters that `modo` removes taken away at both ends.
pub open spec fn recortado(t: Seq<char>, modo: Recorte) -> Seq<char> {
    sin_final(sin_inicio(t, modo), modo)
}

/// Removes at both ends of `t` the characters that `modo` names.
pub fn recortar(t: &Vec<char>, modo: Recorte) -> (r: Vec<char>)
    ensures
        r@ == recortado(t@, modo),
{
    let n = t.len();
    let mut i: usize = 0;
    assert(t@.subrange(0, n as int) =~= t@);
    while i < n && quita(modo, t[i])
        invariant
            n == t.len(),
            i <= n,
            sin_inicio(t@, modo) == sin_inicio(t@.subrange(i as int, n as int), modo),
        decreases n - i,
    {
        assert(t@.subrange(i as int, n as int).drop_first() =~= t@.subrange(i + 1, n as int));
        i = i + 1;
    }
    let ghost u = t@.subrange(i as int, n as int);
    assert(sin_inicio(t@, modo) == u);
    let mut j: usize = n;
    while j > i && quita(modo, t[j - 1])
        invariant
            i <= j <= n,
            n == t.len(),
            u == t@.subrange(i as int, n as int),
            sin_final(u, modo) == sin_final(t@.subrange(i as int, j as int), modo),
        decreases j,
    {
        assert(t@.subrange(i as int, j as int).drop_last() =~= t@.subrange(i as int, j - 1));
        j = j - 1;
    }
    let mut r: Vec<char> = Vec::new();
    let mut k: usize = i;
    while k < j
        invariant
            i <= k <= j <= n,
            n == t.len(),
            r@ == t@.subrange(i as int, k as int),
        decreases j - k,
    {
        r.push(t[k]);
        assert(t@.subrange(i as int, k + 1) =~= t@.subrange(i as int, k as int).push(t@[k as int]));
        k = k + 1;
    }
    r
}

/// `str::trim`: the characters of `s` without leading and trailing whitespace.
pub fn recortar_blancos(s: &str) -> (r: String)
    ensures
        r@ == recortado(s@, Recorte::Blancos),
{
    let v = caracteres(s);
    let w = recortar(&v, Recorte::Blancos);
    a_string(&w)
}

/// The character sequences held by a sequence of character vectors.
pub open spec fn vistas(v: Seq<Vec<char>>) -> Seq<Seq<char>> {
    v.map_values(|w: Vec<char>| w@)
}

/// One step of splitting on whitespace: the finished words and the word in progress,
/// after reading the character `c`.
pub open spec fn paso_palabras(st: (Seq<Seq<char>>, Seq<char>), c: char) -> (
    Seq<Seq<char>>,
    Seq<char>,
) {
    if es_blanco(c) {
        if st.1.len() > 0 {
            (st.0.push(st.1), Seq::empty())
        } else {
            st
        }
    } else {
        (st.0, st.1.push(c))
    }
}

/// The finished words and the word in progress after reading all of `s`.
pub open spec fn estado_palabras(s: Seq<char>) -> (Seq<Seq<char>>, Seq<char>)
    decreases s.len(),
{
    if s.len() == 0 {
        (Seq::empty(), Seq::empty())
    } else {
        paso_palabras(estado_palabras(s.drop_last()), s.last())
    }
}

/// The words of `s` as `str::split_whitespace` yields them: the maximal runs of
/// characters that are not whitespace, in order.
pub open spec fn palabras(s: Seq<char>) -> Seq<Seq<char>> {
    let st = estado_palabras(s);
    if st.1.len() > 0 {
        st.0.push(st.1)
    } else {
        st.0
    }
}

/// Splits `s` at whitespace, as `str::split_whitespace` does.
pub fn dividir_palabras(s: &Vec<char>) -> (r: Vec<Vec<char>>)
    ensures
        vistas(r@) == palabras(s@),
{
    let mut hechas: Vec<Vec<char>> = Vec::new();
    let mut actual: Vec<char> = Vec::new();
    let mut i: usize = 0;
    while i < s.len()
        invariant
            i <= s.len(),
            (vistas(hechas@), actual@) == estado_palabras(s@.take(i as int)),
        decreases s.len() - i,
    {
        let c = s[i];
        assert(s@.take(i + 1).drop_last() =~= s@.take(i as int));
        if blanco(c) {
            if actual.len() > 0 {
                let ghost antes = vistas(hechas@);
                let palabra = actual;
                actual = Vec::new();
                hechas.push(palabra);
                assert(vistas(hechas@) =~= antes.push(palabra@));
            }
        } else {
            actual.push(c);
        }
        i = i + 1;
    }
    assert(s@.take(s.len() as int) =~= s@);
    if actual.len() > 0 {
        let ghost antes = vistas(hechas@);
        let palabra = actual;
        hechas.push(palabra);
        assert(vistas(hechas@) =~= antes.push(palabra@));
    }
    hechas
}

/// The character sequences held by a sequence of `String`s.
pub open spec fn vistas_string(v: Seq<String>) -> Seq<Seq<char>> {
    v.map_values(|w: String| w@)
}

/// The character sequences held by a sequence of string slices.
pub open spec fn vistas_str(v: Seq<&str>) -> Seq<Seq<char>> {
    v.map_values(|w: &str| w@)
}

/// A word without the characters that are not alphanumeric at its two ends.
pub open spec fn limpia(w: Seq<char>) -> Seq<char> {
    recortado(w, Recorte::NoAlfanumericos)
}

/// The words of `ws` cleaned with `limpia`, in order, leaving out those that come out
/// empty and those listed in `excluidas`.
pub open spec fn terminos(ws: Seq<Seq<char>>, excluidas: Seq<Seq<char>>) -> Seq<Seq<char>>
    decreases ws.len(),
{
    if ws.len() == 0 {
        Seq::empty()
    } else {
        let previos = terminos(ws.drop_last(), excluidas);
        let w = limpia(ws.last());
        if w.len() > 0 && !excluidas.contains(w) {
            previos.push(w)
        } else {
            previos
        }
    }
}

/// The characters of each string slice of `v`.
pub fn caracteres_de_todas(v: &[&str]) -> (r: Vec<Vec<char>>)
    ensures
        vistas(r@) == vistas_str(v@),
{
    let mut r: Vec<Vec<char>> = Vec::new();
    let mut i: usize = 0;
    while i < v.len()
        invariant
            i <= v.len(),
            vistas(r@) == vistas_str(v@).take(i as int),
        decreases v.len() - i,
    {
        let ghost antes = vistas(r@);
        let w = caracteres(v[i]);
        r.push(w);
        assert(vistas(r@) =~= antes.push(w@));
        assert(vistas_str(v@).take(i + 1) =~= vistas_str(v@).take(i as int).push(v@[i as int]@));
        i = i + 1;
    }
    assert(vistas_str(v@).take(v.len() as int) =~= vistas_str(v@));
    r
}

/// Whether `w` is one of the sequences in `lista`.
pub fn contiene(lista: &Vec<Vec<char>>, w: &Vec<char>) -> (r: bool)
    ensures
        r == vistas(lista@).contains(w@),
{
    let mut i: usize = 0;
    while i < lista.len()
        invariant
            i <= lista.len(),
            forall|k: int| 0 <= k < i ==> vistas(lista@)[k] != w@,
        decreases lista.len() - i,
    {
        if mismos_caracteres(&lista[i], w) {
            assert(vistas(lista@)[i as int] == w@);
            return true;
        }
        i = i + 1;
    }
    false
}

/// The terms of `texto`: its whitespace-separated words, cleaned of non-alphanumeric
/// characters at their ends, without the empty ones and those in `excluidas`.
pub fn terminos_de(texto: &Vec<char>, excluidas: &Vec<Vec<char>>) -> (r: Vec<String>)
    ensures
        vistas_string(r@) == terminos(palabras(texto@), vistas(excluidas@)),
{
    let ws = dividir_palabras(texto);
    let ghost pal = vistas(ws@);
    let mut r: Vec<String> = Vec::new();
    let mut i: usize = 0;
    while i < ws.len()
        invariant
            i <= ws.len(),
            pal == vistas(ws@),
            vistas_string(r@) == terminos(pal.take(i as int), vistas(excluidas@)),
        decreases ws.len() - i,
    {
        assert(pal.take(i + 1).drop_last() =~= pal.take(i as int));
        let w = recortar(&ws[i], Recorte::NoAlfanumericos);
        if w.len() > 0 && !contiene(excluidas, &w) {
            let ghost antes = vistas_string(r@);
            let t = a_string(&w);
            r.push(t);
            assert(vistas_string(r@) =~= antes.push(t@));
        }
        i = i + 1;
    }
    assert(pal.take(ws.len() as int) =~= pal);
    r
}

/// The terms of `ws` are its words cleaned with `limpia`, in order, keeping exactly those
/// that are not empty and not excluded.
pub proof fn ley_terminos_filtrados(ws: Seq<Seq<char>>, excluidas: Seq<Seq<char>>)
    ensures
        terminos(ws, excluidas) == ws.map_values(|w: Seq<char>| limpia(w)).filter(
            |w: Seq<char>| w.len() > 0 && !excluidas.contains(w),
        ),
    decreases ws.len(),
{
    reveal_with_fuel(Seq::filter, 1);
    let limpias = ws.map_values(|w: Seq<char>| limpia(w));
    if ws.len() > 0 {
        ley_terminos_filtrados(ws.drop_last(), excluidas);
        assert(limpias.drop_last() =~= ws.drop_last().map_values(|w: Seq<char>| limpia(w)));
        assert(limpias.last() == limpia(ws.last()));
    } else {
        assert(limpias =~= Seq::<Seq<char>>::empty());
    }
}

/// No term is empty or excluded, and each term is the cleaned form of one of the words.
pub proof fn ley_terminos_sin_excluidas(ws: Seq<Seq<char>>, excluidas: Seq<Seq<char>>, i: int)
    requires
        0 <= i < terminos(ws, excluidas).len(),
    ensures
        terminos(ws, excluidas)[i].len() > 0,
        !excluidas.contains(terminos(ws, excluidas)[i]),
        exists|k: int| 0 <= k < ws.len() && terminos(ws, excluidas)[i] == limpia(#[trigger] ws[k]),
{
    ley_terminos_filtrados(ws, excluidas);
    let limpias = ws.map_values(|w: Seq<char>| limpia(w));
    let pred = |w: Seq<char>| w.len() > 0 && !excluidas.contains(w);
    limpias.lemma_filter_pred(pred, i);
    let t = terminos(ws, excluidas)[i];
    assert(limpias.filter(pred).contains(t));
    limpias.lemma_filter_contains_rev(pred, t);
    let k = choose|k: int| 0 <= k < limpias.len() && limpias[k] == t;
    assert(limpias[k] == limpia(ws[k]));
}

} // verus!
