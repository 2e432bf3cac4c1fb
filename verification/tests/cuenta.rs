use clases_rust::Account;

#[test]
fn depositos_y_extracciones_en_orden() {
    let mut cuenta = Account::new(0);
    cuenta.deposit(40);
    assert!(cuenta.withdraw(30));
    cuenta.deposit(60);
    assert!(cuenta.withdraw(70));
    assert_eq!(cuenta.balance(), 0);
}

#[test]
fn extraccion_sin_fondos_no_cambia_el_saldo() {
    let mut cuenta = Account::new(10);
    assert!(!cuenta.withdraw(11));
    assert_eq!(cuenta.balance(), 10);
    assert!(cuenta.withdraw(10));
    assert_eq!(cuenta.balance(), 0);
}

#[test]
fn extraer_lo_depositado_devuelve_el_saldo() {
    let mut cuenta = Account::new(5);
    cuenta.deposit(123);
    assert!(cuenta.withdraw(123));
    assert_eq!(cuenta.balance(), 5);
}

#[test]
fn saldo_inicial() {
    assert_eq!(Account::new(-3).balance(), -3);
}
