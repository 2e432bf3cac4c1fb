use clases_rust::frecuencias::{contar_frecuencias, contar_frecuencias_si_cabe, ordenar_frecuencias, Frecuencias};

fn lineas(v: &[&str]) -> Vec<String> {
    v.iter().map(|s| s.to_string()).collect()
}

fn f(fr: &Frecuencias, w: &str) -> i32 {
    fr.frecuencia(&w.to_string())
}

#[test]
fn cuenta_palabras_limpias_y_en_minusculas() {
    let fr = contar_frecuencias(&lineas(&["Hola, mundo. HOLA!", "  mundo -- hola  ", "¿qué?"]));
    assert_eq!(f(&fr, "hola"), 3);
    assert_eq!(f(&fr, "mundo"), 2);
    assert_eq!(f(&fr, "qué"), 1);
    assert_eq!(f(&fr, "--"), 0);
    assert_eq!(f(&fr, ""), 0);
    assert_eq!(ordenar_frecuencias(&fr).len(), 3);
}

#[test]
fn ordenar_de_mayor_a_menor() {
    let fr = contar_frecuencias(&lineas(&["b a b c b a"]));
    let orden = ordenar_frecuencias(&fr);
    assert_eq!(
        orden,
        vec![("b".to_string(), 3), ("a".to_string(), 2), ("c".to_string(), 1)]
    );
}

#[test]
fn sin_lineas_no_hay_palabras() {
    let fr = contar_frecuencias(&Vec::new());
    assert!(ordenar_frecuencias(&fr).is_empty());
    assert!(fr.mismas_frecuencias(&Frecuencias::new()));
}

#[test]
fn combinar_por_archivos_es_contar_todo() {
    let a = lineas(&["uno dos", "dos"]);
    let b = lineas(&["tres dos", "uno"]);
    let mut todas = a.clone();
    todas.extend(b.clone());
    let total = contar_frecuencias(&todas);
    let mut juntas = contar_frecuencias(&b);
    juntas.combinar(&contar_frecuencias(&a));
    assert!(juntas.mismas_frecuencias(&total));
    let mut otra = contar_frecuencias(&a);
    assert!(otra.combinar_si_cabe(&contar_frecuencias(&b)));
    assert!(otra.mismas_frecuencias(&total));
    assert_eq!(f(&total, "dos"), 3);
}

#[test]
fn contar_linea_a_linea_en_cualquier_orden() {
    let mut x = Frecuencias::new();
    x.contar_linea("a b");
    x.contar_linea("c a");
    let mut y = Frecuencias::new();
    assert!(y.contar_linea_si_cabe("c a"));
    assert!(y.contar_linea_si_cabe("a b"));
    assert!(x.mismas_frecuencias(&y));
    assert!(!x.mismas_frecuencias(&Frecuencias::new()));
}

#[test]
fn contar_con_control_de_desborde() {
    let ls = lineas(&["x y x"]);
    let fr = contar_frecuencias_si_cabe(&ls).unwrap();
    assert_eq!(f(&fr, "x"), 2);
}
