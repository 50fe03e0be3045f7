use vasak_session_manager::migracion::estado::{escribir, leer, ruta_desde, Registro, NOMBRE};
#[test]
fn se_lee_lo_que_se_escribe() {
    let mut claves = Registro::new();
    claves.insert((".config/wayfire.ini".into(), "animate".into(), "duration".into()));
    claves.insert((".config/wayfire.ini".into(), "core".into(), "plugins".into()));
    claves.insert((".config/mimeapps.list".into(), String::new(), "x".into()));

    assert_eq!(leer(&escribir(&claves)), claves);
}

#[test]
fn los_comentarios_no_son_claves() {
    // El archivo se explica solo arriba; esas líneas no son claves.
    let leidas = leer(&escribir(&Registro::new()));
    assert!(leidas.is_empty(), "{leidas:?}");
}

#[test]
fn una_linea_incompleta_se_saltea_sin_llevarse_el_resto() {
    // Un archivo cortado a la mitad —el disco se llenó, la sesión se cayó— no
    // puede hacer que se reofrezca todo lo que ya se había ofrecido.
    let texto = ".config/a.ini\tsec\tclave\nlinea-sin-tabuladores\n.config/b.ini\ts\tk\n";
    let leidas = leer(texto);
    assert_eq!(leidas.len(), 2, "{leidas:?}");
}

#[test]
fn el_orden_es_estable() {
    // Si no, el archivo cambia de orden en cada arranque y un `diff` no sirve
    // para ver qué se agregó.
    let mut claves = Registro::new();
    for i in 0..20 {
        claves.insert((format!("a{i}.ini"), "s".into(), format!("k{i}")));
    }
    assert_eq!(escribir(&claves), escribir(&claves));
}

#[test]
fn una_seccion_vacia_se_conserva() {
    // `mimeapps.list` tiene asignaciones sin sección, y la cadena vacía es una
    // sección legítima: si se perdiera, esas claves se reofrecerían siempre.
    let mut claves = Registro::new();
    claves.insert((".config/mimeapps.list".into(), String::new(), "x".into()));
    assert_eq!(leer(&escribir(&claves)), claves);
}

#[test]
fn el_estado_no_va_en_config() {
    // En `~/.config` un respaldo de la configuración se lo llevaría, y al
    // restaurarlo en otra máquina se saltearían opciones que nunca se
    // ofrecieron ahí.
    let r = ruta_desde(None, "/home/quien");
    let como_texto = r.as_str();
    assert!(!como_texto.contains("/.config/"), "{como_texto}");
    assert!(como_texto.ends_with(NOMBRE));
}

#[test]
fn sin_xdg_state_home_se_usa_el_lugar_de_la_especificacion() {
    // Con la variable puesta a algo relativo tampoco: una ruta relativa haría
    // que el estado dependiera del directorio desde donde arrancó la sesión.
    let esperada = format!("/home/quien/.local/state/vasak/{NOMBRE}");
    assert_eq!(ruta_desde(None, "/home/quien"), esperada);
    assert_eq!(ruta_desde(Some("relativa/nope"), "/home/quien"), esperada);
}
