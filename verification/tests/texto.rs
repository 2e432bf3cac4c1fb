use clases_rust::numeros::{parsear_i32, parsear_u16};
use clases_rust::texto::{
    a_string, caracteres, caracteres_de_todas, dividir_palabras, mismos_caracteres,
    recortar, recortar_blancos, terminos_de, Recorte,
};

fn v(s: &str) -> Vec<char> {
    s.chars().collect()
}

#[test]
fn caracteres_y_string_ida_y_vuelta() {
    assert_eq!(caracteres("año"), vec!['a', 'ñ', 'o']);
    assert_eq!(a_string(&v("día")), "día");
    assert_eq!(a_string(&Vec::new()), "");
}

#[test]
fn mismos_caracteres_compara_todo() {
    assert!(mismos_caracteres(&v("abc"), &v("abc")));
    assert!(!mismos_caracteres(&v("abc"), &v("abd")));
    assert!(!mismos_caracteres(&v("abc"), &v("ab")));
}

#[test]
fn recortar_blancos_como_trim() {
    assert_eq!(recortar_blancos("  hola mundo \n"), "hola mundo");
    assert_eq!(recortar_blancos("\t\n "), "");
    assert_eq!(recortar_blancos("x"), "x");
}

#[test]
fn recortar_no_alfanumericos() {
    assert_eq!(recortar(&v("¡hola!"), Recorte::NoAlfanumericos), v("hola"));
    assert_eq!(recortar(&v("...,"), Recorte::NoAlfanumericos), v(""));
    assert_eq!(recortar(&v("a-b"), Recorte::NoAlfanumericos), v("a-b"));
}

#[test]
fn dividir_palabras_como_split_whitespace() {
    let r = dividir_palabras(&v("  uno dos\ttres\n\ncuatro "));
    assert_eq!(r, vec![v("uno"), v("dos"), v("tres"), v("cuatro")]);
    assert!(dividir_palabras(&v("   ")).is_empty());
}

#[test]
fn terminos_limpios_sin_excluidas() {
    let excluidas = caracteres_de_todas(&["el", "de"]);
    let t = terminos_de(&v("el perro, de la casa... !!"), &excluidas);
    assert_eq!(t, vec!["perro".to_string(), "la".to_string(), "casa".to_string()]);
}


#[test]
fn parsear_i32_como_parse() {
    assert_eq!(parsear_i32("42"), Some(42));
    assert_eq!(parsear_i32("+7"), Some(7));
    assert_eq!(parsear_i32("-2147483648"), Some(i32::MIN));
    assert_eq!(parsear_i32("2147483647"), Some(i32::MAX));
    assert_eq!(parsear_i32("2147483648"), None);
    assert_eq!(parsear_i32("-2147483649"), None);
    assert_eq!(parsear_i32(""), None);
    assert_eq!(parsear_i32("-"), None);
    assert_eq!(parsear_i32("12a"), None);
    assert_eq!(parsear_i32(" 1"), None);
    assert_eq!(parsear_i32("007"), Some(7));
    assert_eq!(parsear_i32("99999999999999999999"), None);
}

#[test]
fn parsear_i32_coincide_con_std() {
    for s in ["0", "-0", "+", "+-1", "--1", "123456", "-99", "1_000", "٣"] {
        assert_eq!(parsear_i32(s), s.parse::<i32>().ok(), "{}", s);
    }
}

#[test]
fn parsear_u16_como_parse() {
    assert_eq!(parsear_u16("8080"), Some(8080));
    assert_eq!(parsear_u16("65535"), Some(65535));
    assert_eq!(parsear_u16("65536"), None);
    assert_eq!(parsear_u16("-1"), None);
    assert_eq!(parsear_u16("-0"), None);
    assert_eq!(parsear_u16("+80"), Some(80));
    for s in ["0", "", "+", "abc", "70000", "65535 "] {
        assert_eq!(parsear_u16(s), s.parse::<u16>().ok(), "{}", s);
    }
}
