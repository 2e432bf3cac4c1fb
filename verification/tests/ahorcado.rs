use clases_rust::ahorcado::{
    interpretar_letra, mostrar_palabra, procesar_acierto, procesar_fallo, procesar_letra,
    ErrorJuego, Jugada, Partida,
};

#[test]
fn mostrar_palabra_oculta_lo_no_adivinado() {
    assert_eq!(mostrar_palabra("banana".to_string(), vec!['a']), "_a_a_a");
    assert_eq!(mostrar_palabra("banana".to_string(), vec!['a', 'b', 'n']), "banana");
    assert_eq!(mostrar_palabra("sol".to_string(), vec![]), "___");
}

#[test]
fn palabra_con_guion_bajo_se_ve_completa() {
    assert_eq!(mostrar_palabra("a_b".to_string(), vec!['a', 'b']), "a_b");
}

#[test]
fn interpretar_letra_una_sola() {
    assert_eq!(interpretar_letra("a\n"), Some('a'));
    assert_eq!(interpretar_letra("  ñ  "), Some('ñ'));
    assert_eq!(interpretar_letra("ab\n"), None);
    assert_eq!(interpretar_letra("\n"), None);
    assert_eq!(interpretar_letra("a b"), None);
}

#[test]
fn acierto_repetido_no_cambia() {
    let mut adivinadas = vec!['a'];
    assert!(procesar_acierto('b', &mut adivinadas));
    assert!(!procesar_acierto('a', &mut adivinadas));
    assert_eq!(adivinadas, vec!['a', 'b']);
}

#[test]
fn fallo_nuevo_cuesta_un_intento() {
    let mut falladas = vec![];
    let mut intentos = 5;
    assert!(procesar_fallo('z', &mut falladas, &mut intentos));
    assert_eq!(intentos, 4);
    assert!(!procesar_fallo('z', &mut falladas, &mut intentos));
    assert_eq!(intentos, 4);
    assert_eq!(falladas, vec!['z']);
}

#[test]
fn procesar_letra_distingue_acierto_y_fallo() {
    let mut adivinadas = vec![];
    let mut falladas = vec![];
    let mut intentos = 5;
    let r = procesar_letra('o', "hola".to_string(), &mut adivinadas, &mut falladas, &mut intentos);
    assert_eq!(r, Jugada::Acierto { nueva: true });
    let r = procesar_letra('x', "hola".to_string(), &mut adivinadas, &mut falladas, &mut intentos);
    assert_eq!(r, Jugada::Fallo { nueva: true });
    assert_eq!(adivinadas, vec!['o']);
    assert_eq!(falladas, vec!['x']);
    assert_eq!(intentos, 4);
}

#[test]
fn partida_ganada() {
    let mut p = Partida::nueva("sol".to_string());
    assert!(p.en_curso());
    for c in ['s', 'x', 'o', 'l'] {
        p.jugar(Some(c));
    }
    assert!(!p.en_curso());
    assert_eq!(p.palabra_mostrada(), "sol");
    assert_eq!(p.intentos(), 4);
    assert_eq!(p.resultado(), Ok(()));
}

#[test]
fn partida_perdida() {
    let mut p = Partida::nueva("sol".to_string());
    for c in ['a', 'b', 'c', 'd'] {
        p.jugar(Some(c));
        assert!(p.en_curso());
    }
    assert_eq!(p.jugar(Some('a')), Some(Jugada::Fallo { nueva: false }));
    assert_eq!(p.intentos(), 1);
    assert_eq!(p.jugar(None), None);
    p.jugar(Some('e'));
    assert!(!p.en_curso());
    assert_eq!(p.letras_falladas(), vec!['a', 'b', 'c', 'd', 'e']);
    assert_eq!(p.resultado(), Err(ErrorJuego::IntentosAgotados));
}
