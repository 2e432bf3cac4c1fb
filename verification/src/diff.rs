//! Line diff of two texts through the table of longest common subsequence lengths.
use vstd::prelude::*;
use crate::texto::vistas_string;

verus! {

/// The length of a longest common subsequence of `a` and `b`, by the usual recurrence
/// on their last elements.
pub open spec fn largo_lcs<A>(a: Seq<A>, b: Seq<A>) -> nat
    decreases a.len() + b.len(),
{
    if a.len() == 0 || b.len() == 0 {
        0
    } else if a.last() == b.last() {
        largo_lcs(a.drop_last(), b.drop_last()) + 1
    } else {
        let x = largo_lcs(a.drop_last(), b);
        let y = largo_lcs(a, b.drop_last());
        if x >= y {
            x
        } else {
            y
        }
    }
}

/// Whether `idx` picks the elements of `s` out of `a`, in order: `s[k]` is `a[idx[k]]`
/// and the positions strictly increase.
pub open spec fn posiciones_de<A>(idx: Seq<int>, s: Seq<A>, a: Seq<A>) -> bool {
    &&& idx.len() == s.len()
    &&& forall|k: int| 0 <= k < s.len() ==> 0 <= #[trigger] idx[k] < a.len() && a[idx[k]] == s[k]
    &&& forall|k: int, l: int| 0 <= k < l < s.len() ==> idx[k] < idx[l]
}

/// Whether `s` is a subsequence of `a`: its elements occur in `a` in the same order.
pub open spec fn es_subsecuencia<A>(s: Seq<A>, a: Seq<A>) -> bool {
    exists|idx: Seq<int>| posiciones_de(idx, s, a)
}

/// No common subsequence is longer than `largo_lcs`.
proof fn lemma_lcs_cota<A>(a: Seq<A>, b: Seq<A>, s: Seq<A>, ia: Seq<int>, ib: Seq<int>)
    requires
        posiciones_de(ia, s, a),
        posiciones_de(ib, s, b),
    ensures
        s.len() <= largo_lcs(a, b),
    decreases a.len() + b.len(),
{
    if s.len() == 0 {
        return;
    }
    let n = s.len();
    assert(0 <= ia[n - 1] < a.len() && 0 <= ib[n - 1] < b.len());
    let a1 = a.drop_last();
    let b1 = b.drop_last();
    if a.last() == b.last() {
        // the elements of `s` but its last sit before the last positions of `a` and `b`
        let s1 = s.drop_last();
        let ia1 = ia.drop_last();
        let ib1 = ib.drop_last();
        assert forall|k: int| 0 <= k < s1.len() implies 0 <= #[trigger] ia1[k] < a1.len() && a1[ia1[k]]
            == s1[k] by {
            assert(ia[k] < ia[n - 1]);
        }
        assert forall|k: int| 0 <= k < s1.len() implies 0 <= #[trigger] ib1[k] < b1.len() && b1[ib1[k]]
            == s1[k] by {
            assert(ib[k] < ib[n - 1]);
        }
        lemma_lcs_cota(a1, b1, s1, ia1, ib1);
    } else if ia[n - 1] < a.len() - 1 {
        assert forall|k: int| 0 <= k < s.len() implies 0 <= #[trigger] ia[k] < a1.len() && a1[ia[k]]
            == s[k] by {
            if k < n - 1 {
                assert(ia[k] < ia[n - 1]);
            }
        }
        lemma_lcs_cota(a1, b, s, ia, ib);
    } else {
        assert(ib[n - 1] < b.len() - 1);
        assert forall|k: int| 0 <= k < s.len() implies 0 <= #[trigger] ib[k] < b1.len() && b1[ib[k]]
            == s[k] by {
            if k < n - 1 {
                assert(ib[k] < ib[n - 1]);
            }
        }
        lemma_lcs_cota(a, b1, s, ia, ib);
    }
}

/// A common subsequence as long as `largo_lcs`, with its positions in `a` and in `b`.
proof fn lemma_lcs_testigo<A>(a: Seq<A>, b: Seq<A>) -> (r: (Seq<A>, Seq<int>, Seq<int>))
    ensures
        posiciones_de(r.1, r.0, a),
        posiciones_de(r.2, r.0, b),
        r.0.len() == largo_lcs(a, b),
    decreases a.len() + b.len(),
{
    if a.len() == 0 || b.len() == 0 {
        (Seq::empty(), Seq::empty(), Seq::empty())
    } else if a.last() == b.last() {
        let (s, ia, ib) = lemma_lcs_testigo(a.drop_last(), b.drop_last());
        let r = (s.push(a.last()), ia.push(a.len() - 1), ib.push(b.len() - 1));
        assert forall|k: int| 0 <= k < r.0.len() implies 0 <= #[trigger] r.1[k] < a.len() && a[r.1[k]]
            == r.0[k] by {
            if k < s.len() {
                assert(a.drop_last()[ia[k]] == a[ia[k]]);
            }
        }
        assert forall|k: int| 0 <= k < r.0.len() implies 0 <= #[trigger] r.2[k] < b.len() && b[r.2[k]]
            == r.0[k] by {
            if k < s.len() {
                assert(b.drop_last()[ib[k]] == b[ib[k]]);
            }
        }
        r
    } else if largo_lcs(a.drop_last(), b) >= largo_lcs(a, b.drop_last()) {
        let (s, ia, ib) = lemma_lcs_testigo(a.drop_last(), b);
        assert forall|k: int| 0 <= k < s.len() implies 0 <= #[trigger] ia[k] < a.len() && a[ia[k]]
            == s[k] by {
            assert(a.drop_last()[ia[k]] == a[ia[k]]);
        }
        (s, ia, ib)
    } else {
        let (s, ia, ib) = lemma_lcs_testigo(a, b.drop_last());
        assert forall|k: int| 0 <= k < s.len() implies 0 <= #[trigger] ib[k] < b.len() && b[ib[k]]
            == s[k] by {
            assert(b.drop_last()[ib[k]] == b[ib[k]]);
        }
        (s, ia, ib)
    }
}

/// `largo_lcs(a, b)` is the length of a longest common subsequence of `a` and `b`: some
/// common subsequence has that length, and none is longer.
pub proof fn ley_lcs_es_la_mas_larga<A>(a: Seq<A>, b: Seq<A>)
    ensures
        exists|s: Seq<A>|
            es_subsecuencia(s, a) && es_subsecuencia(s, b) && s.len() == largo_lcs(a, b),
        forall|s: Seq<A>|
            es_subsecuencia(s, a) && es_subsecuencia(s, b) ==> s.len() <= largo_lcs(a, b),
{
    let (s, ia, ib) = lemma_lcs_testigo(a, b);
    assert(es_subsecuencia(s, a) && es_subsecuencia(s, b));
    assert forall|t: Seq<A>| es_subsecuencia(t, a) && es_subsecuencia(t, b) implies t.len()
        <= largo_lcs(a, b) by {
        let ja = choose|idx: Seq<int>| posiciones_de(idx, t, a);
        let jb = choose|idx: Seq<int>| posiciones_de(idx, t, b);
        lemma_lcs_cota(a, b, t, ja, jb);
    }
}

/// A longest common subsequence is no longer than its first sequence.
proof fn lemma_lcs_acotado<A>(a: Seq<A>, b: Seq<A>)
    ensures
        largo_lcs(a, b) <= a.len(),
    decreases a.len() + b.len(),
{
    if a.len() > 0 && b.len() > 0 {
        lemma_lcs_acotado(a.drop_last(), b.drop_last());
        lemma_lcs_acotado(a.drop_last(), b);
        lemma_lcs_acotado(a, b.drop_last());
    }
}

/// The rows of a table of numbers.
pub open spec fn filas(g: Seq<Vec<usize>>) -> Seq<Seq<usize>> {
    g.map_values(|f: Vec<usize>| f@)
}

/// Whether `g` is the table of longest common subsequence lengths of `a` and `b`:
/// `a.len() + 1` rows of `b.len() + 1` entries, where `g[i][j]` is `largo_lcs` of the
/// first `i` elements of `a` and the first `j` elements of `b`.
pub open spec fn es_grilla_lcs<A>(g: Seq<Seq<usize>>, a: Seq<A>, b: Seq<A>) -> bool {
    &&& g.len() == a.len() + 1
    &&& forall|i: int| 0 <= i <= a.len() ==> #[trigger] g[i].len() == b.len() + 1
    &&& forall|i: int, j: int|
        0 <= i <= a.len() && 0 <= j <= b.len() ==> #[trigger] g[i][j] == largo_lcs(
            a.take(i),
            b.take(j),
        )
}

/// Builds the table of longest common subsequence lengths of the lines of two files.
pub fn lcs(archivo_1: &[String], archivo_2: &[String]) -> (grilla: Vec<Vec<usize>>)
    ensures
        es_grilla_lcs(filas(grilla@), vistas_string(archivo_1@), vistas_string(archivo_2@)),
{
    let ghost a = vistas_string(archivo_1@);
    let ghost b = vistas_string(archivo_2@);
    let m = archivo_1.len();
    let n = archivo_2.len();
    let mut grilla: Vec<Vec<usize>> = Vec::new();
    let mut primera: Vec<usize> = Vec::new();
    primera.push(0);
    let mut j: usize = 0;
    while j < n
        invariant
            j <= n,
            n == archivo_2.len(),
            primera@.len() == j + 1,
            forall|k: int| 0 <= k <= j ==> primera@[k] == 0,
        decreases n - j,
    {
        primera.push(0);
        j = j + 1;
    }
    grilla.push(primera);
    assert forall|k: int| 0 <= k <= n implies #[trigger] filas(grilla@)[0][k] == largo_lcs(
        a.take(0),
        b.take(k),
    ) by {
        assert(filas(grilla@)[0] == primera@);
    }
    let mut i: usize = 0;
    while i < m
        invariant
            i <= m,
            m == archivo_1.len(),
            n == archivo_2.len(),
            a == vistas_string(archivo_1@),
            b == vistas_string(archivo_2@),
            grilla@.len() == i + 1,
            forall|r: int| 0 <= r <= i ==> #[trigger] filas(grilla@)[r].len() == n + 1,
            forall|r: int, k: int|
                0 <= r <= i && 0 <= k <= n ==> #[trigger] filas(grilla@)[r][k] == largo_lcs(
                    a.take(r),
                    b.take(k),
                ),
        decreases m - i,
    {
        let mut fila: Vec<usize> = Vec::new();
        fila.push(0);
        assert(fila@[0] == largo_lcs(a.take(i + 1), b.take(0)));
        let mut j: usize = 0;
        while j < n
            invariant
                i < m,
                j <= n,
                m == archivo_1.len(),
                n == archivo_2.len(),
                a == vistas_string(archivo_1@),
                b == vistas_string(archivo_2@),
                grilla@.len() == i + 1,
                forall|r: int| 0 <= r <= i ==> #[trigger] filas(grilla@)[r].len() == n + 1,
                forall|r: int, k: int|
                    0 <= r <= i && 0 <= k <= n ==> #[trigger] filas(grilla@)[r][k] == largo_lcs(
                        a.take(r),
                        b.take(k),
                    ),
                fila@.len() == j + 1,
                forall|k: int| 0 <= k <= j ==> #[trigger] fila@[k] == largo_lcs(a.take(i + 1), b.take(k)),
            decreases n - j,
        {
            proof {
                assert(a.take(i + 1).drop_last() =~= a.take(i as int));
                assert(b.take(j + 1).drop_last() =~= b.take(j as int));
                assert(a.take(i + 1).last() == archivo_1@[i as int]@);
                assert(b.take(j + 1).last() == archivo_2@[j as int]@);
                assert(filas(grilla@)[i as int] == grilla@[i as int]@);
                assert(filas(grilla@)[i as int][j as int] == largo_lcs(a.take(i as int), b.take(j as int)));
                assert(filas(grilla@)[i as int][j + 1] == largo_lcs(a.take(i as int), b.take(j + 1)));
                lemma_lcs_acotado(a.take(i as int), b.take(j as int));
            }
            let v = if archivo_1[i] == archivo_2[j] {
                grilla[i][j] + 1
            } else {
                let izquierda = fila[j];
                let arriba = grilla[i][j + 1];
                if izquierda >= arriba {
                    izquierda
                } else {
                    arriba
                }
            };
            fila.push(v);
            j = j + 1;
        }
        let ghost antes = grilla@;
        grilla.push(fila);
        assert forall|r: int, k: int| 0 <= r <= i + 1 && 0 <= k <= n implies #[trigger] filas(
            grilla@,
        )[r][k] == largo_lcs(a.take(r), b.take(k)) by {
            if r <= i {
                assert(filas(grilla@)[r] == filas(antes)[r]);
            } else {
                assert(filas(grilla@)[r] == fila@);
            }
        }
        assert forall|r: int| 0 <= r <= i + 1 implies #[trigger] filas(grilla@)[r].len() == n + 1 by {
            if r <= i {
                assert(filas(grilla@)[r] == filas(antes)[r]);
            }
        }
        i = i + 1;
    }
    grilla
}

/// What a line of a diff says of its text.
#[derive(Clone, Copy, PartialEq, Eq, Structural, Debug)]
pub enum Cambio {
    /// The line is in both files.
    Comun,
    /// The line is only in the second file.
    Agregada,
    /// The line is only in the first file.
    Eliminada,
}

/// One line of a diff: whether it is common, added or removed, and its text.
pub struct LineaDiff {
    pub cambio: Cambio,
    pub texto: String,
}

/// The lines of a diff as changes and texts.
pub open spec fn vista_diff(d: Seq<LineaDiff>) -> Seq<(Cambio, Seq<char>)> {
    d.map_values(|l: LineaDiff| (l.cambio, l.texto@))
}

/// The diff of the first `i` lines of `x` and the first `j` lines of `y` that the walk
/// back through the table `g` yields: a line common to both when the last lines are
/// equal; otherwise the last line of `y` as added when `j > 0` and either `i == 0` or
/// `g[i][j - 1] >= g[i - 1][j]`; otherwise the last line of `x` as removed. The walk
/// goes on from the shorter prefixes, and its lines come out first.
pub open spec fn diff_spec(
    g: Seq<Seq<usize>>,
    x: Seq<Seq<char>>,
    y: Seq<Seq<char>>,
    i: nat,
    j: nat,
) -> Seq<(Cambio, Seq<char>)>
    decreases i + j,
{
    if i > 0 && j > 0 && x[i - 1] == y[j - 1] {
        diff_spec(g, x, y, (i - 1) as nat, (j - 1) as nat).push((Cambio::Comun, x[i - 1]))
    } else if j > 0 && (i == 0 || g[i as int][j - 1] >= g[i - 1][j as int]) {
        diff_spec(g, x, y, i, (j - 1) as nat).push((Cambio::Agregada, y[j - 1]))
    } else if i > 0 && (j == 0 || g[i as int][j - 1] < g[i - 1][j as int]) {
        diff_spec(g, x, y, (i - 1) as nat, j).push((Cambio::Eliminada, x[i - 1]))
    } else {
        Seq::empty()
    }
}

/// Walks back through the table `grilla` from row `i` and column `j` and lists the
/// lines of `x` and `y` as common, added or removed, the earliest first.
pub fn calcular_diff(
    grilla: &[Vec<usize>],
    x: &[String],
    y: &[String],
    i: usize,
    j: usize,
) -> (r: Vec<LineaDiff>)
    requires
        i <= x.len(),
        j <= y.len(),
        i < grilla.len(),
        forall|k: int| 0 <= k <= i ==> j < #[trigger] grilla@[k].len(),
    ensures
        vista_diff(r@) == diff_spec(
            filas(grilla@),
            vistas_string(x@),
            vistas_string(y@),
            i as nat,
            j as nat,
        ),
    decreases i + j,
{
    let ghost g = filas(grilla@);
    let ghost xs = vistas_string(x@);
    let ghost ys = vistas_string(y@);
    assert(j < grilla@[i as int].len());
    assert(i > 0 ==> j < grilla@[i - 1].len());
    if i > 0 && j > 0 && x[i - 1] == y[j - 1] {
        let mut r = calcular_diff(grilla, x, y, i - 1, j - 1);
        let ghost antes = vista_diff(r@);
        let linea = LineaDiff { cambio: Cambio::Comun, texto: x[i - 1].clone() };
        r.push(linea);
        assert(vista_diff(r@) =~= antes.push((Cambio::Comun, xs[i - 1])));
        r
    } else if j > 0 && (i == 0 || grilla[i][j - 1] >= grilla[i - 1][j]) {
        assert(i > 0 ==> g[i as int][j - 1] == grilla@[i as int]@[j - 1] && g[i - 1][j as int]
            == grilla@[i - 1]@[j as int]);
        let mut r = calcular_diff(grilla, x, y, i, j - 1);
        let ghost antes = vista_diff(r@);
        let linea = LineaDiff { cambio: Cambio::Agregada, texto: y[j - 1].clone() };
        r.push(linea);
        assert(vista_diff(r@) =~= antes.push((Cambio::Agregada, ys[j - 1])));
        r
    } else if i > 0 && (j == 0 || grilla[i][j - 1] < grilla[i - 1][j]) {
        assert(j > 0 ==> g[i as int][j - 1] == grilla@[i as int]@[j - 1] && g[i - 1][j as int]
            == grilla@[i - 1]@[j as int]);
        let mut r = calcular_diff(grilla, x, y, i - 1, j);
        let ghost antes = vista_diff(r@);
        let linea = LineaDiff { cambio: Cambio::Eliminada, texto: x[i - 1].clone() };
        r.push(linea);
        assert(vista_diff(r@) =~= antes.push((Cambio::Eliminada, xs[i - 1])));
        r
    } else {
        assert(i == 0 && j == 0);
        Vec::new()
    }
}

/// The texts of the lines of a diff that are not marked `fuera`, in order.
pub open spec fn lineas_salvo(d: Seq<(Cambio, Seq<char>)>, fuera: Cambio) -> Seq<Seq<char>>
    decreases d.len(),
{
    if d.len() == 0 {
        Seq::empty()
    } else if d.last().0 == fuera {
        lineas_salvo(d.drop_last(), fuera)
    } else {
        lineas_salvo(d.drop_last(), fuera).push(d.last().1)
    }
}

/// How many lines of a diff are common to both files.
pub open spec fn comunes(d: Seq<(Cambio, Seq<char>)>) -> nat
    decreases d.len(),
{
    if d.len() == 0 {
        0
    } else {
        comunes(d.drop_last()) + if d.last().0 == Cambio::Comun {
            1nat
        } else {
            0nat
        }
    }
}

/// Whatever the table, the diff turns the first file into the second: its common and
/// removed lines are the lines of the first file, its common and added lines those of
/// the second, in order.
pub proof fn ley_diff_reconstruye(
    g: Seq<Seq<usize>>,
    x: Seq<Seq<char>>,
    y: Seq<Seq<char>>,
    i: nat,
    j: nat,
)
    requires
        i <= x.len(),
        j <= y.len(),
    ensures
        lineas_salvo(diff_spec(g, x, y, i, j), Cambio::Agregada) == x.take(i as int),
        lineas_salvo(diff_spec(g, x, y, i, j), Cambio::Eliminada) == y.take(j as int),
    decreases i + j,
{
    let d = diff_spec(g, x, y, i, j);
    if i > 0 && j > 0 && x[i - 1] == y[j - 1] {
        ley_diff_reconstruye(g, x, y, (i - 1) as nat, (j - 1) as nat);
        assert(d.drop_last() == diff_spec(g, x, y, (i - 1) as nat, (j - 1) as nat));
        assert(x.take(i as int) =~= x.take(i - 1).push(x[i - 1]));
        assert(y.take(j as int) =~= y.take(j - 1).push(y[j - 1]));
    } else if j > 0 && (i == 0 || g[i as int][j - 1] >= g[i - 1][j as int]) {
        ley_diff_reconstruye(g, x, y, i, (j - 1) as nat);
        assert(d.drop_last() == diff_spec(g, x, y, i, (j - 1) as nat));
        assert(y.take(j as int) =~= y.take(j - 1).push(y[j - 1]));
    } else if i > 0 && (j == 0 || g[i as int][j - 1] < g[i - 1][j as int]) {
        ley_diff_reconstruye(g, x, y, (i - 1) as nat, j);
        assert(d.drop_last() == diff_spec(g, x, y, (i - 1) as nat, j));
        assert(x.take(i as int) =~= x.take(i - 1).push(x[i - 1]));
    } else {
        assert(x.take(0) =~= Seq::<Seq<char>>::empty());
        assert(y.take(0) =~= Seq::<Seq<char>>::empty());
    }
}

/// With the table of longest common subsequence lengths, the diff keeps as many common
/// lines as a longest common subsequence has: no diff keeps more.
pub proof fn ley_diff_minimo(
    g: Seq<Seq<usize>>,
    x: Seq<Seq<char>>,
    y: Seq<Seq<char>>,
    i: nat,
    j: nat,
)
    requires
        es_grilla_lcs(g, x, y),
        i <= x.len(),
        j <= y.len(),
    ensures
        comunes(diff_spec(g, x, y, i, j)) == largo_lcs(x.take(i as int), y.take(j as int)),
    decreases i + j,
{
    let d = diff_spec(g, x, y, i, j);
    let xi = x.take(i as int);
    let yj = y.take(j as int);
    if i > 0 && j > 0 {
        assert(xi.drop_last() =~= x.take(i - 1));
        assert(yj.drop_last() =~= y.take(j - 1));
        assert(xi.last() == x[i - 1]);
        assert(yj.last() == y[j - 1]);
        assert(g[i as int][j - 1] == largo_lcs(xi, y.take(j - 1)));
        assert(g[i - 1][j as int] == largo_lcs(x.take(i - 1), yj));
    }
    if i > 0 && j > 0 && x[i - 1] == y[j - 1] {
        ley_diff_minimo(g, x, y, (i - 1) as nat, (j - 1) as nat);
        assert(d.drop_last() == diff_spec(g, x, y, (i - 1) as nat, (j - 1) as nat));
    } else if j > 0 && (i == 0 || g[i as int][j - 1] >= g[i - 1][j as int]) {
        ley_diff_minimo(g, x, y, i, (j - 1) as nat);
        assert(d.drop_last() == diff_spec(g, x, y, i, (j - 1) as nat));
        if i == 0 {
            assert(xi.len() == 0);
            assert(x.take(0).len() == 0);
        }
    } else if i > 0 && (j == 0 || g[i as int][j - 1] < g[i - 1][j as int]) {
        ley_diff_minimo(g, x, y, (i - 1) as nat, j);
        assert(d.drop_last() == diff_spec(g, x, y, (i - 1) as nat, j));
    }
}

} // verus!
