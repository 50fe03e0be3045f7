use vasak_session_manager::migracion::archivos;
use vasak_session_manager::migracion::estado::Registro;
use vasak_session_manager::migracion::replacements::{
    apply, es_el_mismo, marca, replacements, REPLACEMENT_SECTION,
};
const WAYFIRE: &str = ".config/wayfire.ini";

fn nada() -> Registro {
    Registro::new()
}

/// Un archivo con la desplegable donde la dejó el paquete viejo.
fn como_lo_dejo_el_paquete() -> String {
    "[command]\n\
     binding_terminal = <super> KEY_T\n\
     command_terminal = vasak-terminal\n\
     # La desplegable.\n\
     binding_terminal_overlay = KEY_F12\n\
     command_terminal_overlay = vasak-terminal --overlay\n"
        .to_string()
}

#[test]
fn el_valor_que_puso_el_paquete_se_cambia() {
    let (texto, hechos) = apply(WAYFIRE, &como_lo_dejo_el_paquete(), &nada());

    assert!(
        texto.contains("binding_terminal_overlay = <super> <alt> KEY_T"),
        "{texto}"
    );
    assert!(!texto.contains("KEY_F12"), "{texto}");
    assert_eq!(hechos.len(), 1);
    assert_eq!(hechos[0].anterior, "KEY_F12");
}

#[test]
fn lo_que_la_persona_eligio_no_se_toca() {
    // Es la regla de la que depende todo lo demás. Quien movió la desplegable a
    // otra tecla la quiere ahí.
    let suyo = como_lo_dejo_el_paquete().replace("KEY_F12", "KEY_F11");
    let (texto, hechos) = apply(WAYFIRE, &suyo, &nada());

    assert!(
        texto.contains("binding_terminal_overlay = KEY_F11"),
        "{texto}"
    );
    assert!(hechos.is_empty(), "{hechos:?}");
}

#[test]
fn lo_demas_del_archivo_queda_intacto() {
    // Byte por byte salvo la línea que cambia: los comentarios explican por qué
    // cada opción está donde está, y perderlos es perder la mitad del archivo.
    let antes = como_lo_dejo_el_paquete();
    let (texto, _) = apply(WAYFIRE, &antes, &nada());

    let cambiadas: Vec<(&str, &str)> = antes
        .lines()
        .zip(texto.lines())
        .filter(|(a, b)| a != b)
        .collect();
    assert_eq!(cambiadas.len(), 1, "{cambiadas:?}");
    assert!(texto.contains("# La desplegable."), "{texto}");
    assert_eq!(antes.lines().count(), texto.lines().count());
}

#[test]
fn una_vez_hecho_no_se_repite() {
    // Quien después vuelva a poner F12 a propósito se queda en F12: es lo mismo
    // que hace el registro con las claves que se ofrecieron una vez.
    let mut ya = nada();
    ya.insert(marca(&replacements()[0]));

    let (texto, hechos) = apply(WAYFIRE, &como_lo_dejo_el_paquete(), &ya);

    assert!(texto.contains("KEY_F12"), "{texto}");
    assert!(hechos.is_empty(), "{hechos:?}");
}

#[test]
fn no_se_pisa_un_atajo_que_ya_esta_en_uso() {
    // Con el combo nuevo ligado a otra cosa, reemplazar dejaría dos claves con
    // el mismo atajo: wayfire dispara la primera y la otra no anda nunca, sin
    // decir nada.
    let suyo = como_lo_dejo_el_paquete().replace(
        "binding_terminal = <super> KEY_T",
        "binding_terminal = <super> <alt> KEY_T",
    );
    let (texto, hechos) = apply(WAYFIRE, &suyo, &nada());

    assert!(
        texto.contains("binding_terminal_overlay = KEY_F12"),
        "{texto}"
    );
    assert!(hechos.is_empty(), "{hechos:?}");
}

#[test]
fn el_mismo_atajo_escrito_distinto_igual_se_reconoce() {
    // `KEY_T <super>` y `<super> KEY_T` son el mismo atajo, y los archivos que
    // el paquete fue trayendo tienen las dos formas. Comparando el texto tal
    // cual, el reemplazo no se aplicaría —o peor: se aplicaría encima de un
    // combo que ya estaba en uso escrito al revés—.
    let suyo = como_lo_dejo_el_paquete().replace(
        "binding_terminal = <super> KEY_T",
        "binding_terminal = KEY_T <alt><super>",
    );
    let (_, hechos) = apply(WAYFIRE, &suyo, &nada());

    assert!(
        hechos.is_empty(),
        "el combo ya estaba en uso escrito al revés: {hechos:?}"
    );
}

#[test]
fn una_clave_con_el_mismo_nombre_en_otra_seccion_no_cuenta() {
    // No es una búsqueda y reemplazo sobre el archivo: la clave nombrada, en su
    // sección.
    let ajeno = "[otra]\nbinding_terminal_overlay = KEY_F12\n";
    let (texto, hechos) = apply(WAYFIRE, ajeno, &nada());

    assert_eq!(texto, ajeno);
    assert!(hechos.is_empty(), "{hechos:?}");
}

#[test]
fn un_archivo_sin_la_clave_no_se_toca() {
    // Quien borró la desplegable a propósito no la recupera por acá: esto
    // cambia valores, no agrega claves.
    let sin = "[command]\nbinding_terminal = <super> KEY_T\n";
    let (texto, hechos) = apply(WAYFIRE, sin, &nada());

    assert_eq!(texto, sin);
    assert!(hechos.is_empty(), "{hechos:?}");
}

#[test]
fn otro_archivo_no_recibe_los_reemplazos_de_este() {
    let (texto, hechos) = apply(
        ".config/gtk-3.0/settings.ini",
        &como_lo_dejo_el_paquete(),
        &nada(),
    );

    assert!(texto.contains("KEY_F12"), "{texto}");
    assert!(hechos.is_empty(), "{hechos:?}");
}

#[test]
fn los_terminadores_de_windows_se_conservan() {
    // `str::lines()` se come tanto `\n` como `\r\n`: reconstruir con `\n` a
    // secas convierte el archivo entero, que es lo contrario del prometido.
    let crlf = como_lo_dejo_el_paquete().replace('\n', "\r\n");
    let (texto, hechos) = apply(WAYFIRE, &crlf, &nada());

    assert_eq!(hechos.len(), 1);
    assert!(texto.contains("\r\n"), "{texto:?}");
    assert!(
        !texto.contains("KEY_T\n"),
        "quedó una línea con terminador de Unix: {texto:?}"
    );
}

#[test]
fn la_marca_lleva_el_valor_viejo() {
    // Para que el día que el mismo atajo cambie por segunda vez, el reemplazo
    // nuevo sea otra marca y se aplique en lugar de parecer uno ya hecho.
    let (_, seccion, clave) = marca(&replacements()[0]);

    assert_eq!(seccion, REPLACEMENT_SECTION);
    assert_eq!(clave, "binding_terminal_overlay@KEY_F12");
}

#[test]
fn la_lista_nombra_archivos_que_la_migracion_mira() {
    // Un reemplazo sobre un archivo que no está en `ARCHIVOS` no se aplicaría
    // nunca, y no fallaría nada: quedaría ahí, pareciendo que hace algo.
    for r in &replacements() {
        assert!(
            archivos().contains(&r.archivo),
            "«{}» no está entre los archivos que se fusionan",
            r.archivo
        );
    }
}

#[test]
fn ningun_reemplazo_deja_el_valor_como_estaba() {
    // Una entrada con `anterior == nuevo` reescribiría el archivo en cada
    // arranque para dejarlo igual.
    for r in &replacements() {
        assert!(
            !es_el_mismo(r.anterior, r.nuevo),
            "«{}» no cambia nada",
            r.clave
        );
    }
}

#[test]
fn aplicar_dos_veces_no_cambia_nada_la_segunda() {
    let (una, hechos) = apply(WAYFIRE, &como_lo_dejo_el_paquete(), &nada());
    assert_eq!(hechos.len(), 1);
    let (dos, otra_vez) = apply(WAYFIRE, &una, &nada());
    assert_eq!(dos, una);
    assert!(otra_vez.is_empty());
}

#[test]
fn aplicar_dos_veces_un_archivo_sin_salto_final() {
    let texto = "[command]\nbinding_terminal_overlay = KEY_F12\n\n";
    let (una, hechos) = apply(WAYFIRE, texto, &nada());
    assert_eq!(hechos.len(), 1);
    let (dos, otra_vez) = apply(WAYFIRE, &una, &nada());
    assert_eq!(dos, una);
    assert!(otra_vez.is_empty());
}
