use clases_rust::diff::{calcular_diff, lcs, Cambio};

fn lineas(v: &[&str]) -> Vec<String> {
    v.iter().map(|s| s.to_string()).collect()
}

#[test]
fn grilla_lcs() {
    let a = lineas(&["a", "b", "c", "d"]);
    let b = lineas(&["b", "x", "d"]);
    let g = lcs(&a, &b);
    assert_eq!(g.len(), 5);
    assert!(g.iter().all(|f| f.len() == 4));
    assert_eq!(g[4][3], 2);
    assert_eq!(g[2][1], 1);
    assert_eq!(g[0], vec![0, 0, 0, 0]);
}

#[test]
fn grilla_de_archivos_vacios() {
    let g = lcs(&[], &lineas(&["a"]));
    assert_eq!(g, vec![vec![0, 0]]);
}

#[test]
fn diff_marca_comunes_agregadas_y_eliminadas() {
    let a = lineas(&["a", "b", "c"]);
    let b = lineas(&["a", "c", "d"]);
    let g = lcs(&a, &b);
    let d = calcular_diff(&g, &a, &b, a.len(), b.len());
    let visto: Vec<(Cambio, String)> = d.into_iter().map(|l| (l.cambio, l.texto)).collect();
    assert_eq!(
        visto,
        vec![
            (Cambio::Comun, "a".to_string()),
            (Cambio::Eliminada, "b".to_string()),
            (Cambio::Comun, "c".to_string()),
            (Cambio::Agregada, "d".to_string()),
        ]
    );
}

#[test]
fn diff_reconstruye_ambos_archivos() {
    let a = lineas(&["x", "y", "z", "y"]);
    let b = lineas(&["y", "y", "w", "x"]);
    let g = lcs(&a, &b);
    let d = calcular_diff(&g, &a, &b, a.len(), b.len());
    let origen: Vec<String> =
        d.iter().filter(|l| l.cambio != Cambio::Agregada).map(|l| l.texto.clone()).collect();
    let destino: Vec<String> =
        d.iter().filter(|l| l.cambio != Cambio::Eliminada).map(|l| l.texto.clone()).collect();
    assert_eq!(origen, a);
    assert_eq!(destino, b);
    let comunes = d.iter().filter(|l| l.cambio == Cambio::Comun).count();
    assert_eq!(comunes, g[4][4]);
    assert_eq!(comunes, 2);
}
