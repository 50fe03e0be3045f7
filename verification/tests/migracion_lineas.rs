use vasak_session_manager::migracion::lineas::{asegurar, inserciones, Insercion};
fn zshrc() -> Insercion {
    inserciones().into_iter().find(|i| i.archivo == ".zshrc").unwrap()
}

#[test]
fn la_linea_se_agrega_arriba_asi_lo_de_la_persona_gana() {
    // Al final, el archivo del paquete pisaría lo que ella puso.
    let usuario = "export EDITOR=vim\nalias ll='ls -la'\n";
    let r = asegurar(usuario, &zshrc()).expect("se agrega");
    let pos_nuestra = r.find("/usr/share/vasak/shell/zshrc").unwrap();
    let pos_suya = r.find("export EDITOR=vim").unwrap();
    assert!(pos_nuestra < pos_suya, "{r}");
}

#[test]
fn el_shebang_sigue_siendo_la_primera_linea() {
    // Una línea antes del `#!` lo deja de ser, y el archivo pasa a ejecutarse
    // con otra shell.
    let usuario = "#!/bin/zsh\nexport EDITOR=vim\n";
    let r = asegurar(usuario, &zshrc()).expect("se agrega");
    assert!(r.starts_with("#!/bin/zsh\n"), "{r}");
    assert!(r.contains("/usr/share/vasak/shell/zshrc"));
}

#[test]
fn no_se_agrega_dos_veces() {
    // Esto corre en cada inicio de sesión: sin esto el archivo crecería una
    // copia por arranque.
    let usuario = "export EDITOR=vim\n";
    let una = asegurar(usuario, &zshrc()).expect("se agrega");
    assert_eq!(asegurar(&una, &zshrc()), None);
}

#[test]
fn comentada_cuenta_como_puesta() {
    // Si alguien la dejó comentada es que no la quiere, y volver a agregarla
    // sería insistir con algo que ya rechazó.
    let usuario = "# [ -r /usr/share/vasak/shell/zshrc ] && . /usr/share/vasak/shell/zshrc\n";
    assert_eq!(asegurar(usuario, &zshrc()), None);
}

#[test]
fn nada_de_lo_que_ya_estaba_se_pierde() {
    let usuario = "#!/bin/zsh\n# mi comentario\nexport A=1\n\nexport B=2\n";
    let r = asegurar(usuario, &zshrc()).expect("se agrega");
    for linea in ["# mi comentario", "export A=1", "export B=2"] {
        assert!(r.contains(linea), "se perdió {linea}: {r}");
    }
}

#[test]
fn un_archivo_vacio_recibe_la_linea() {
    let r = asegurar("", &zshrc()).expect("se agrega");
    assert!(r.contains("/usr/share/vasak/shell/zshrc"));
    assert!(r.ends_with('\n'));
}

#[test]
fn la_marca_esta_dentro_del_texto_que_se_agrega() {
    // Si no coincidieran, la línea se agregaría en cada arranque para siempre.
    for i in inserciones() {
        assert!(i.texto.contains(i.marca), "{} no contiene su marca", i.archivo);
        assert!(i.texto.ends_with('\n'), "{}", i.archivo);
        assert!(!i.archivo.contains('/'), "{} tiene que estar en el hogar", i.archivo);
    }
}

#[test]
fn la_linea_no_falla_si_el_archivo_del_paquete_no_esta() {
    // Un `.` sobre un archivo que no existe corta el arranque de la shell en
    // algunas configuraciones: por eso va con el `[ -r ]` adelante.
    for i in inserciones() {
        assert!(i.texto.contains("[ -r "), "{} sin guarda de lectura", i.archivo);
        assert!(i.texto.contains("] && ."), "{}", i.archivo);
    }
}

#[test]
fn se_usa_punto_y_no_source() {
    // `.profile` lo lee cualquier shell POSIX, incluida dash, que no conoce
    // `source`. Con `source` ahí, el arranque tira un error en cada sesión.
    for i in inserciones() {
        assert!(!i.texto.contains("source "), "{} usa source", i.archivo);
    }
}

#[test]
fn lineas_los_terminadores_de_windows_no_se_reescriben() {
    // El mismo cuidado que en `ini`: reconstruir con `\n` a secas convierte el
    // archivo entero, y este módulo también promete conservarlo.
    let usuario = "#!/bin/zsh\r\nexport EDITOR=vim\r\n";
    let r = asegurar(usuario, &zshrc()).expect("se agrega");
    assert_eq!(r.matches('\n').count(), r.matches("\r\n").count(), "{r:?}");
    assert!(r.starts_with("#!/bin/zsh\r\n"), "{r:?}");
}

#[test]
fn lineas_un_archivo_sin_salto_final_no_recibe_uno() {
    let r = asegurar("export EDITOR=vim", &zshrc()).expect("se agrega");
    assert!(!r.ends_with('\n'), "{r:?}");
    assert!(r.contains("export EDITOR=vim"));
}

#[test]
fn una_marca_de_dos_lineas_tampoco_se_agrega_dos_veces() {
    let insercion = Insercion {
        archivo: ".profile",
        marca: "# primera\n# segunda",
        texto: "# primera\n# segunda\n. /usr/share/algo\n",
    };
    let usuario = "export A=1\n";
    let una = asegurar(usuario, &insercion).expect("se agrega la primera vez");
    assert!(una.contains("# primera\n# segunda"), "{una}");
    assert_eq!(asegurar(&una, &insercion), None);
}
