use clases_rust::chat::{
    clasificar_mensaje, interpretar_entrada, mensaje_anuncio, preparar_envio, Envio,
    MensajeRecibido, Registro,
};

#[test]
fn anuncio_de_nickname() {
    assert_eq!(mensaje_anuncio("ana"), "NICK:ana");
    assert_eq!(mensaje_anuncio(""), "NICK:");
}

#[test]
fn clasificar_anuncios_y_textos() {
    assert_eq!(clasificar_mensaje("NICK:ana"), MensajeRecibido::Anuncio("ana".to_string()));
    assert_eq!(clasificar_mensaje("NICK:"), MensajeRecibido::Anuncio(String::new()));
    assert_eq!(clasificar_mensaje("hola"), MensajeRecibido::Texto);
    assert_eq!(clasificar_mensaje("NICK"), MensajeRecibido::Texto);
    assert_eq!(clasificar_mensaje("nick:ana"), MensajeRecibido::Texto);
}

#[test]
fn registro_guarda_la_ultima_direccion() {
    let mut r: Registro<u32> = Registro::new();
    assert_eq!(r.buscar("ana"), None);
    r.registrar("ana".to_string(), 1);
    r.registrar("beto".to_string(), 2);
    r.registrar("ana".to_string(), 3);
    assert_eq!(r.buscar("ana"), Some(3));
    assert_eq!(r.buscar("beto"), Some(2));
    assert_eq!(r.procesar_mensaje("NICK:caro", 4), Some("caro".to_string()));
    assert_eq!(r.procesar_mensaje("hola", 5), None);
    assert_eq!(r.buscar("caro"), Some(4));
}

#[test]
fn entrada_se_divide_en_el_primer_espacio() {
    assert_eq!(
        interpretar_entrada("ana hola que tal"),
        Some(("ana".to_string(), "hola que tal".to_string()))
    );
    assert_eq!(interpretar_entrada("ana  x"), Some(("ana".to_string(), " x".to_string())));
    assert_eq!(interpretar_entrada("ana"), None);
    assert_eq!(interpretar_entrada("ana "), None);
    assert_eq!(interpretar_entrada(" hola"), None);
    assert_eq!(interpretar_entrada(""), None);
}

#[test]
fn preparar_envio_decide() {
    let mut r: Registro<u32> = Registro::new();
    r.registrar("ana".to_string(), 7);
    assert!(matches!(preparar_envio(&r, "ana hola"), Envio::Enviar(7, ref m) if m == "hola"));
    assert!(matches!(preparar_envio(&r, "beto hola"), Envio::UsuarioDesconocido(ref n) if n == "beto"));
    assert!(matches!(preparar_envio(&r, "ana"), Envio::FormatoInvalido));
}
