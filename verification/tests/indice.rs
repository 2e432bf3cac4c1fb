use clases_rust::indice::{
    agregar_al_indice, buscar_documentos, documento_en_minusculas, buscar_documentos_si_cabe, obtener_id_documento,
    ordenar_resultados, procesar_consulta, procesar_documento, procesar_documento_si_cabe, Indice,
};

const STOP: [&str; 4] = ["el", "la", "de", "y"];

fn indice_de_prueba() -> Indice {
    let mut indice = Indice::new();
    procesar_documento("el gato y el perro", 1, &mut indice, &STOP);
    procesar_documento("gato, gato! la casa", 2, &mut indice, &STOP);
    procesar_documento("perro de la casa", 3, &mut indice, &STOP);
    indice
}

fn ordenado(mut v: Vec<(i32, i32)>) -> Vec<(i32, i32)> {
    v.sort();
    v
}

#[test]
fn agregar_suma_frecuencias_por_documento() {
    let mut indice = Indice::new();
    agregar_al_indice(&mut indice, "sol".to_string(), 4);
    agregar_al_indice(&mut indice, "sol".to_string(), 4);
    agregar_al_indice(&mut indice, "sol".to_string(), 9);
    assert_eq!(indice.documentos(&"sol".to_string()), Some(vec![(4, 2), (9, 1)]));
    assert_eq!(indice.documentos(&"luna".to_string()), None);
    assert_eq!(indice.frecuencia(&"sol".to_string(), 4), 2);
    assert_eq!(indice.frecuencia(&"sol".to_string(), 5), 0);
}

#[test]
fn indexar_descarta_vacias_y_excluidas() {
    let indice = indice_de_prueba();
    assert_eq!(indice.documentos(&"gato".to_string()), Some(vec![(1, 1), (2, 2)]));
    assert_eq!(indice.documentos(&"perro".to_string()), Some(vec![(1, 1), (3, 1)]));
    assert_eq!(indice.documentos(&"el".to_string()), None);
    assert_eq!(indice.documentos(&"".to_string()), None);
}

#[test]
fn consulta_en_minusculas_sin_excluidas() {
    let t = procesar_consulta("  El GATO, y la Casa?? ", &STOP);
    assert_eq!(t, vec!["gato".to_string(), "casa".to_string()]);
}

#[test]
fn buscar_suma_frecuencias_de_los_terminos() {
    let indice = indice_de_prueba();
    let t = procesar_consulta("gato casa", &STOP);
    let r = buscar_documentos(&t, &indice);
    assert_eq!(ordenado(r), vec![(1, 1), (2, 3), (3, 1)]);
    let repetido = procesar_consulta("gato gato", &STOP);
    assert_eq!(ordenado(buscar_documentos(&repetido, &indice)), vec![(1, 2), (2, 4)]);
    assert!(buscar_documentos(&[], &indice).is_empty());
    assert_eq!(
        buscar_documentos_si_cabe(&t, &indice).map(ordenado),
        Some(vec![(1, 1), (2, 3), (3, 1)])
    );
}

#[test]
fn ordenar_resultados_por_puntaje() {
    let r = ordenar_resultados(&vec![(1, 1), (2, 3), (3, 2)]);
    assert_eq!(r, vec![(2, 3), (3, 2), (1, 1)]);
}

#[test]
fn documento_si_cabe_indexa_igual() {
    let mut a = Indice::new();
    assert!(procesar_documento_si_cabe("uno dos uno", 7, &mut a, &STOP));
    assert_eq!(a.frecuencia(&"uno".to_string(), 7), 2);
}

#[test]
fn id_de_documento_desde_el_nombre() {
    assert_eq!(obtener_id_documento("12.txt"), Some(12));
    assert_eq!(obtener_id_documento("7"), Some(7));
    assert_eq!(obtener_id_documento("3.tar.gz"), None);
    assert_eq!(obtener_id_documento("abc.txt"), None);
    assert_eq!(obtener_id_documento(".5"), None);
    assert_eq!(obtener_id_documento("-4.md"), Some(-4));
    assert_eq!(obtener_id_documento("8."), Some(8));
}

#[test]
fn id_de_documento_como_file_stem() {
    for nombre in ["12.txt", "7", "3.tar.gz", ".5", "8.", "..a", "a.b.c"] {
        let raiz = std::path::Path::new(nombre).file_stem().unwrap().to_string_lossy().to_string();
        assert_eq!(obtener_id_documento(nombre), raiz.parse::<i32>().ok(), "{}", nombre);
    }
}

#[test]
fn documento_en_minusculas_de_un_texto() {
    assert_eq!(documento_en_minusculas("HoLa ÑANDÚ"), "hola ñandú");
}
