use vasak_session_manager::migracion::ini::{
    asignaciones_de, combos_de, fusionar, quitar_choques, sufijo_de_atajo, Conflicto, Limpieza,
    Motivo, Quitada,
};
fn nada_ofrecido(_: &str, _: &str) -> bool {
    false
}

#[test]
fn una_clave_nueva_entra_en_su_seccion() {
    let usuario = "[animate]\nduration = 300\n\n[core]\nplugins = expo\n";
    let paquete = "[animate]\nduration = 150\nopen_animation = fade\n";
    let (r, a) = fusionar(usuario, paquete, &nada_ofrecido);

    assert!(r.contains("open_animation = fade"));
    assert_eq!(a.claves, vec![("animate".to_string(), "open_animation".to_string())]);
    // Y entra en `[animate]`, no al final del archivo.
    let pos_nueva = r.find("open_animation").unwrap();
    let pos_core = r.find("[core]").unwrap();
    assert!(pos_nueva < pos_core, "{r}");
}

#[test]
fn el_valor_de_la_persona_no_se_toca() {
    // Es lo que hace que esto sea «sin pisar»: el paquete dice 150 y el usuario
    // puso 300, así que queda 300.
    let usuario = "[animate]\nduration = 300\n";
    let paquete = "[animate]\nduration = 150\n";
    let (r, a) = fusionar(usuario, paquete, &nada_ofrecido);
    assert!(r.contains("duration = 300"));
    assert!(!r.contains("150"));
    assert!(a.claves.is_empty());
}

#[test]
fn los_comentarios_y_el_orden_sobreviven() {
    // No se puede parsear y volver a serializar: el wayfire.ini del escritorio
    // está lleno de comentarios que explican por qué cada opción está ahí.
    let usuario = "# por qué esto está acá\n[core]\n# no tocar\nplugins = expo\n";
    let paquete = "[core]\nvsync = true\n";
    let (r, _) = fusionar(usuario, paquete, &nada_ofrecido);
    assert!(r.starts_with("# por qué esto está acá\n"));
    assert!(r.contains("# no tocar\n"));
    assert!(r.contains("plugins = expo"));
    assert!(r.contains("vsync = true"));
}

#[test]
fn una_clave_que_se_borro_a_proposito_no_vuelve() {
    // Sin esto, «actualizar sin pisar» sería «insistir para siempre»: la opción
    // que alguien sacó volvería en cada inicio de sesión.
    let usuario = "[animate]\nduration = 300\n";
    let paquete = "[animate]\nduration = 150\nopen_animation = fade\n";
    let ya = |s: &str, c: &str| s == "animate" && c == "open_animation";
    let (r, a) = fusionar(usuario, paquete, &ya);
    assert!(!r.contains("open_animation"), "{r}");
    assert!(a.claves.is_empty());
}

#[test]
fn una_seccion_nueva_se_crea_al_final() {
    let usuario = "[core]\nplugins = expo\n";
    let paquete = "[nueva]\nopcion = 1\n";
    let (r, a) = fusionar(usuario, paquete, &nada_ofrecido);
    assert!(r.contains("[nueva]"));
    assert!(r.contains("opcion = 1"));
    assert!(r.find("[core]").unwrap() < r.find("[nueva]").unwrap());
    assert_eq!(a.claves.len(), 1);
}

#[test]
fn nunca_se_borra_lo_que_el_paquete_dejo_de_traer() {
    // Puede ser algo que la persona quiere conservar, y no es nuestro para
    // decidirlo.
    let usuario = "[core]\nplugins = expo\nvieja = 1\n";
    let paquete = "[core]\nplugins = expo\n";
    let (r, _) = fusionar(usuario, paquete, &nada_ofrecido);
    assert!(r.contains("vieja = 1"));
}

#[test]
fn una_clave_comentada_no_cuenta_como_puesta() {
    // Con `# duration = 150` tomado por asignación, la opción nueva no se
    // agregaría nunca y nadie sabría por qué.
    let usuario = "[animate]\n# duration = 150\n";
    let paquete = "[animate]\nduration = 150\n";
    let (r, a) = fusionar(usuario, paquete, &nada_ofrecido);
    assert_eq!(a.claves.len(), 1, "{r}");
    assert!(r.contains("# duration = 150"), "el comentario se conserva");
    assert!(r.lines().any(|l| l.trim() == "duration = 150"));
}

#[test]
fn la_misma_clave_en_dos_secciones_son_dos_claves() {
    // `duration` existe en varios plugins de wayfire con valores distintos.
    let usuario = "[animate]\nduration = 300\n\n[expo]\nplugins = x\n";
    let paquete = "[animate]\nduration = 150\n\n[expo]\nduration = 200\n";
    let (r, a) = fusionar(usuario, paquete, &nada_ofrecido);
    assert_eq!(a.claves, vec![("expo".to_string(), "duration".to_string())]);
    assert!(r.contains("duration = 300"));
    assert!(r.contains("duration = 200"));
}

#[test]
fn las_claves_sin_seccion_se_manejan() {
    // `mimeapps.list` y algunos `.conf` empiezan con asignaciones sueltas.
    let usuario = "clave = 1\n";
    let paquete = "clave = 1\notra = 2\n";
    let (r, a) = fusionar(usuario, paquete, &nada_ofrecido);
    assert!(r.contains("otra = 2"));
    assert_eq!(a.claves, vec![(String::new(), "otra".to_string())]);
}

#[test]
fn un_archivo_de_usuario_vacio_recibe_todo() {
    let (r, a) = fusionar("", "[core]\nplugins = expo\n", &nada_ofrecido);
    assert!(r.contains("[core]"));
    assert!(r.contains("plugins = expo"));
    assert_eq!(a.claves.len(), 1);
}

#[test]
fn el_salto_final_se_conserva() {
    // Sin él, git y varios editores marcan la última línea como cambiada en
    // cada inicio de sesión.
    let (r, _) = fusionar("[a]\nx = 1\n", "[a]\ny = 2\n", &nada_ofrecido);
    assert!(r.ends_with('\n'));
    assert!(!r.ends_with("\n\n"), "y sólo uno");
}

#[test]
fn fusionar_dos_veces_no_cambia_nada_la_segunda() {
    // Esto corre en cada inicio de sesión: si no fuera idempotente, el archivo
    // crecería una copia por arranque.
    let usuario = "[animate]\nduration = 300\n";
    let paquete = "[animate]\nduration = 150\nopen_animation = fade\n";
    let (una, _) = fusionar(usuario, paquete, &nada_ofrecido);
    let (dos, a) = fusionar(&una, paquete, &nada_ofrecido);
    assert_eq!(una, dos);
    assert!(a.claves.is_empty());
}

#[test]
fn un_valor_con_iguales_adentro_no_se_corta() {
    // Los atajos de wayfire son así: `binding = <super> KEY_A`, y algunos
    // comandos llevan `=`.
    let a = asignaciones_de("[comando]\nbinding = sh -c 'x=1'\n");
    assert_eq!(a[0].clave, "binding");
    assert_eq!(a[0].valor, "sh -c 'x=1'");
}

#[test]
fn ini_los_terminadores_de_windows_no_se_reescriben() {
    // `str::lines()` se come tanto `\n` como `\r\n`, así que reconstruir con
    // `\n` a secas convierte el archivo entero. Cambiarle los mil terminadores
    // para agregar una clave no es «conservar el archivo del usuario».
    let usuario = "[animate]\r\nduration = 300\r\n";
    let paquete = "[animate]\nopen_animation = fade\n";
    let (r, _) = fusionar(usuario, paquete, &nada_ofrecido);
    assert!(r.contains("\r\n"), "{r:?}");
    assert!(!r.contains("\n\n"), "no se mezclan estilos: {r:?}");
    assert_eq!(r.matches('\n').count(), r.matches("\r\n").count());
}

#[test]
fn ini_un_archivo_sin_salto_final_no_recibe_uno() {
    // Agregarlo era cambiar el archivo por algo que nadie pidió, y `git diff`
    // lo marca igual que quitarlo.
    let (r, _) = fusionar("[a]\nx = 1", "[a]\ny = 2", &nada_ofrecido);
    assert!(!r.ends_with('\n'), "{r:?}");
    assert!(r.contains("y = 2"));
}

#[test]
fn una_clave_sin_seccion_va_antes_del_primer_encabezado() {
    // Puesta al final, el analizador la asocia con la última sección: una clave
    // global del paquete terminaba dentro de `[core]`.
    let usuario = "[core]\nplugins = expo\n";
    let paquete = "global = 1\n[core]\nplugins = expo\n";
    let (r, a) = fusionar(usuario, paquete, &nada_ofrecido);
    assert_eq!(a.claves, vec![(String::new(), "global".to_string())]);
    let pos_global = r.find("global = 1").expect("está");
    let pos_core = r.find("[core]").expect("está");
    assert!(pos_global < pos_core, "quedó dentro de [core]: {r}");

    // Y volviendo a leerlo, la clave no pertenece a ninguna sección.
    let leidas = asignaciones_de(&r);
    let global = leidas.iter().find(|x| x.clave == "global").expect("está");
    assert_eq!(global.seccion, "");
}

/// El caso que abría tres terminales con una sola tecla.
///
/// El paquete renombró las etiquetas del `[command]`: `binding_custom_0` y
/// `binding_custom_4` —las dos con el mismo `KEY_T <super>`— pasaron a ser
/// `binding_terminal = <super> KEY_T`. En una cuenta con los nombres viejos,
/// fusionar por nombre agregaba el nombre nuevo al lado de los dos que ya
/// estaban, y wayfire dispara todos los que coincidan.
#[test]
fn un_atajo_que_ya_esta_ligado_no_se_agrega_con_otro_nombre() {
    let usuario = "[command]\n\
                   binding_custom_0 = KEY_T <super>\n\
                   command_custom_0 = vasak-terminal\n\
                   binding_custom_4 = KEY_T <super>\n\
                   command_custom_4 = vasak-terminal\n";
    let paquete = "[command]\n\
                   binding_terminal = <super> KEY_T\n\
                   command_terminal = vasak-terminal\n";
    let (r, a) = fusionar(usuario, paquete, &nada_ofrecido);

    assert!(!r.contains("binding_terminal"), "{r}");
    // Y su mitad tampoco: un `command_` sin `binding_` es una línea muerta.
    assert!(!r.contains("command_terminal"), "{r}");
    assert!(a.claves.is_empty());
    // Lo que la persona tenía sigue intacto, incluso lo que ya estaba repetido:
    // acá no se borra nada, sólo se deja de agregar.
    assert!(r.contains("binding_custom_0"));
    assert!(r.contains("binding_custom_4"));
}

#[test]
fn el_mismo_atajo_escrito_al_reves_es_el_mismo_atajo() {
    // `KEY_T <super>` y `<super> KEY_T` conviven en los archivos que el paquete
    // fue trayendo. Comparando el texto tal cual, el segundo entraba encima del
    // primero.
    assert_eq!(combos_de("KEY_T <super>"), combos_de("<super> KEY_T"));
    assert_eq!(combos_de("<alt> <ctrl> KEY_T"), combos_de("<ctrl> <alt> KEY_T"));
    // Pegados también es válido en wayfire.
    assert_eq!(combos_de("<alt><ctrl> KEY_T"), combos_de("<ctrl> <alt> KEY_T"));
    // Y las mayúsculas del modificador no hacen a otro atajo.
    assert_eq!(combos_de("<Super> KEY_L"), combos_de("<super> KEY_L"));
}

#[test]
fn lo_que_no_es_un_atajo_no_se_compara_como_atajo() {
    // Si un comando o una lista de plugins contara como atajo, dos claves sin
    // nada que ver dejarían de agregarse por «chocar».
    assert!(combos_de("vasak-terminal").is_empty());
    assert!(combos_de("dbus-send --session --dest=org.vasak.os.Desktop").is_empty());
    assert!(combos_de("expo cube animate").is_empty());
    assert!(combos_de("1920x1080@75").is_empty());
    assert!(combos_de("").is_empty());
    assert!(combos_de("true").is_empty());
    assert!(combos_de("sh -c 'x=1'").is_empty());
    // Un `<` sin cerrar no es un atajo a medio escribir: no es un atajo.
    assert!(combos_de("<super KEY_T").is_empty());

    // Y lo que sí lo es, lo es.
    assert_eq!(combos_de("KEY_MUTE"), vec!["KEY_MUTE".to_string()]);
    assert_eq!(combos_de("<super>"), vec!["<super>".to_string()]);
    assert_eq!(combos_de("BTN_EXTRA"), vec!["BTN_EXTRA".to_string()]);
}

#[test]
fn un_atajo_libre_si_se_agrega() {
    // La otra mitad de la regla: no agregar lo que choca no puede convertirse
    // en no agregar nada. `KEY_F12` no estaba ligado, así que entra.
    let usuario = "[command]\nbinding_terminal = <super> KEY_T\ncommand_terminal = vasak-terminal\n";
    let paquete = "[command]\n\
                   binding_terminal = <super> KEY_T\n\
                   binding_terminal_overlay = KEY_F12\n\
                   command_terminal_overlay = vasak-terminal --overlay\n";
    let (r, a) = fusionar(usuario, paquete, &nada_ofrecido);
    assert!(r.contains("binding_terminal_overlay = KEY_F12"), "{r}");
    assert!(r.contains("command_terminal_overlay = vasak-terminal --overlay"), "{r}");
    assert_eq!(a.claves.len(), 2);
}

#[test]
fn el_command_entra_cuando_el_binding_ya_estaba_por_nombre() {
    // Distinto de chocar: acá la persona tiene el atajo con el mismo nombre y
    // le falta la mitad que ejecuta. Sin el `command_`, la tecla no hace nada.
    let usuario = "[command]\nbinding_files = <super> KEY_E\n";
    let paquete = "[command]\nbinding_files = <super> KEY_E\ncommand_files = vasak-file-manager\n";
    let (r, a) = fusionar(usuario, paquete, &nada_ofrecido);
    assert!(r.contains("command_files = vasak-file-manager"), "{r}");
    assert_eq!(a.claves, vec![("command".to_string(), "command_files".to_string())]);
}

/// La regla mira sólo las claves de etiqueta libre, y tiene que ser así.
///
/// El propio paquete trae `[zoom] modifier = <super>` —que no es un atajo sino
/// con qué modificador se hace zoom— y `[wayfire-shell] toggle_menu = <super>`.
/// Si esos valores contaran como atajos ligados, `binding_menu = <super>`
/// chocaría con ellos y no se agregaría en **ninguna** cuenta. Sus nombres son
/// fijos, así que la comparación por nombre que ya existía alcanza.
#[test]
fn una_opcion_de_plugin_no_bloquea_un_atajo_del_paquete() {
    let usuario = "[zoom]\nmodifier = <super>\n\n[wayfire-shell]\ntoggle_menu = <super>\n\n[command]\n";
    let paquete = "[command]\nbinding_menu = <super>\ncommand_menu = dbus-send --session\n";
    let (r, a) = fusionar(usuario, paquete, &nada_ofrecido);
    assert!(r.contains("binding_menu = <super>"), "{r}");
    assert!(r.contains("command_menu = dbus-send --session"), "{r}");
    assert_eq!(a.claves.len(), 2);
}

#[test]
fn dos_atajos_distintos_del_paquete_entran_los_dos() {
    // La regla mira lo que ya está ligado y lo que se va agregando, así que no
    // puede dejar entrar dos veces el mismo ni frenar dos distintos.
    let usuario = "[command]\n";
    let paquete = "[command]\n\
                   binding_terminal = <super> KEY_T\n\
                   binding_terminal_alt = <alt> <ctrl> KEY_T\n";
    let (r, a) = fusionar(usuario, paquete, &nada_ofrecido);
    assert!(r.contains("binding_terminal = <super> KEY_T"), "{r}");
    assert!(r.contains("binding_terminal_alt = <alt> <ctrl> KEY_T"), "{r}");
    assert_eq!(a.claves.len(), 2);
}

/// Lo que le quedó en el archivo a quien ya pasó por la actualización rota.
#[test]
fn se_retira_el_atajo_que_puso_la_migracion_y_choca() {
    // `binding_custom_0` es de la persona; `binding_terminal` lo puso la
    // migración con el mismo `<super> KEY_T`, y por eso la tecla abría dos.
    let usuario = "[command]\n\
                   binding_custom_0 = KEY_T <super>\n\
                   command_custom_0 = vasak-terminal\n\
                   binding_terminal = <super> KEY_T\n\
                   command_terminal = vasak-terminal\n";
    let paquete = "[command]\nbinding_terminal = <super> KEY_T\ncommand_terminal = vasak-terminal\n";
    let nuestras = |s: &str, c: &str| s == "command" && c.ends_with("_terminal");

    let Limpieza { texto: r, quitadas, .. } = quitar_choques(usuario, paquete, &nuestras);

    assert!(!r.contains("binding_terminal"), "{r}");
    // Y su pareja: un `command_` sin `binding_` no dispara nada.
    assert!(!r.contains("command_terminal"), "{r}");
    // Lo de la persona queda intacto.
    assert!(r.contains("binding_custom_0 = KEY_T <super>"), "{r}");
    assert!(r.contains("command_custom_0 = vasak-terminal"), "{r}");
    assert_eq!(quitadas.len(), 2);
}

#[test]
fn no_se_toca_una_linea_que_la_persona_no_puso_la_migracion() {
    // La condición que hace que esto no sea «borrar configuración ajena»: lo
    // que no está anotado en el registro no se toca ni aunque choque.
    let usuario = "[command]\n\
                   binding_custom_0 = KEY_T <super>\n\
                   binding_mio = <super> KEY_T\n";
    let paquete = "[command]\nbinding_terminal = <super> KEY_T\n";
    let nada_nuestro = |_: &str, _: &str| false;

    let Limpieza { texto: r, quitadas, .. } = quitar_choques(usuario, paquete, &nada_nuestro);
    assert_eq!(r, usuario);
    assert!(quitadas.is_empty());
}

#[test]
fn no_se_toca_la_linea_que_la_persona_edito_despues() {
    // Se la pusimos nosotros, pero le cambió la tecla: dejó de ser nuestra.
    let usuario = "[command]\n\
                   binding_custom_0 = KEY_T <super>\n\
                   binding_terminal = <super> <shift> KEY_T\n";
    let paquete = "[command]\nbinding_terminal = <super> KEY_T\n";
    let nuestras = |s: &str, c: &str| s == "command" && c == "binding_terminal";

    let Limpieza { texto: r, quitadas, .. } = quitar_choques(usuario, paquete, &nuestras);
    assert_eq!(r, usuario, "el valor no es el del paquete: es de la persona");
    assert!(quitadas.is_empty());
}

#[test]
fn el_atajo_que_pusimos_y_no_choca_se_queda() {
    // La limpieza no puede convertirse en deshacer la actualización.
    let usuario = "[command]\n\
                   binding_terminal_overlay = KEY_F12\n\
                   command_terminal_overlay = vasak-terminal --overlay\n";
    let paquete = usuario;
    let nuestras = |_: &str, _: &str| true;

    let Limpieza { texto: r, quitadas, .. } = quitar_choques(usuario, paquete, &nuestras);
    assert_eq!(r, usuario);
    assert!(quitadas.is_empty());
}

#[test]
fn de_dos_que_pusimos_con_el_mismo_atajo_queda_una() {
    // El paquete viejo traía `KEY_T <super>` con dos etiquetas, así que a una
    // cuenta que no tenía ninguna se le agregaban las dos.
    let usuario = "[command]\n\
                   binding_custom_0 = KEY_T <super>\n\
                   binding_custom_4 = KEY_T <super>\n";
    let paquete = usuario;
    let nuestras = |_: &str, _: &str| true;

    let Limpieza { texto: r, quitadas, .. } = quitar_choques(usuario, paquete, &nuestras);
    assert!(r.contains("binding_custom_0"), "queda la primera: {r}");
    assert!(!r.contains("binding_custom_4"), "{r}");
    assert_eq!(
        quitadas,
        vec![Quitada {
            seccion: "command".to_string(),
            clave: "binding_custom_4".to_string(),
            motivo: Motivo::LaPusimosYChoca,
        }]
    );
}

/// Lo que traía el skel viejo: el mismo atajo con dos etiquetas.
///
/// Estas líneas están en la cuenta desde que se creó, no las puso la migración y
/// no hay registro que las señale. Se quitan igual porque disparan **el mismo
/// comando**: la tecla queda haciendo exactamente lo que hacía, una vez.
#[test]
fn dos_lineas_que_hacen_lo_mismo_quedan_en_una() {
    let usuario = "[command]\n\
                   binding_custom_0 = KEY_T <super>\n\
                   command_custom_0 = vasak-terminal\n\
                   binding_custom_4 = KEY_T <super>\n\
                   command_custom_4 = vasak-terminal\n";
    let nada_nuestro = |_: &str, _: &str| false;

    let limpieza = quitar_choques(usuario, "", &nada_nuestro);

    assert!(limpieza.texto.contains("binding_custom_0"), "queda la primera");
    assert!(limpieza.texto.contains("command_custom_0"), "y su comando");
    assert!(!limpieza.texto.contains("binding_custom_4"), "{}", limpieza.texto);
    assert!(!limpieza.texto.contains("command_custom_4"), "{}", limpieza.texto);
    assert_eq!(limpieza.quitadas.len(), 2);
    // Y con el motivo que corresponde: ésta no la puso la migración.
    assert!(limpieza.quitadas.iter().all(|q| q.motivo == Motivo::RepiteAOtra));
    assert!(limpieza.conflictos.is_empty());
}

#[test]
fn los_cuatro_key_mute_del_skel_viejo_quedan_en_uno() {
    // El caso real, con los nombres y el comando que traía el paquete.
    let usuario = "[command]\n\
                   binding_mute = KEY_MUTE\n\
                   command_mute = amixer set Master toggle\n\
                   binding_custom_2 = KEY_MUTE\n\
                   command_custom_2 = amixer set Master toggle\n\
                   binding_custom_3 = KEY_MUTE\n\
                   command_custom_3 = amixer set Master toggle\n\
                   binding_custom_6 = KEY_MUTE\n\
                   command_custom_6 = amixer set Master toggle\n";
    let limpieza = quitar_choques(usuario, "", &|_: &str, _: &str| false);

    let ligados = asignaciones_de(&limpieza.texto)
        .iter()
        .filter(|a| sufijo_de_atajo(&a.clave).is_some())
        .count();
    assert_eq!(ligados, 1, "{}", limpieza.texto);
    assert!(limpieza.texto.contains("binding_mute"), "queda el primero");
    assert_eq!(limpieza.quitadas.len(), 6, "tres atajos y sus tres comandos");
}

/// El único caso en el que la limpieza deja el archivo como estaba.
#[test]
fn el_mismo_atajo_con_comandos_distintos_no_se_toca_y_se_informa() {
    // Elegir cuál gana es cambiarle a alguien lo que hace una tecla.
    let usuario = "[command]\n\
                   binding_mute = KEY_MUTE\n\
                   command_mute = wpctl set-mute @DEFAULT_AUDIO_SINK@ toggle\n\
                   binding_custom_2 = KEY_MUTE\n\
                   command_custom_2 = amixer set Master toggle\n";
    let limpieza = quitar_choques(usuario, "", &|_: &str, _: &str| false);

    assert_eq!(limpieza.texto, usuario);
    assert!(limpieza.quitadas.is_empty());
    assert_eq!(
        limpieza.conflictos,
        vec![Conflicto {
            combo: "KEY_MUTE".to_string(),
            claves: vec!["binding_mute".to_string(), "binding_custom_2".to_string()],
        }]
    );
}

#[test]
fn la_limpieza_tampoco_mira_las_opciones_de_plugin() {
    // Misma razón que al agregar: `[zoom] modifier` no es un atajo, y reportarlo
    // como conflicto contra `binding_menu` sería un aviso falso en cada arranque
    // de cada cuenta.
    let usuario = "[zoom]\nmodifier = <super>\n\n\
                   [command]\nbinding_menu = <super>\ncommand_menu = dbus-send\n";
    let limpieza = quitar_choques(usuario, "", &|_: &str, _: &str| false);

    assert_eq!(limpieza.texto, usuario);
    assert!(limpieza.quitadas.is_empty());
    assert!(limpieza.conflictos.is_empty(), "{:?}", limpieza.conflictos);
}

#[test]
fn la_linea_de_la_persona_gana_aunque_este_escrita_mas_abajo() {
    // El orden del archivo decide entre dos líneas iguales, pero no entre una
    // nuestra y una suya: ahí gana la suya, esté donde esté.
    let usuario = "[command]\n\
                   binding_terminal = <super> KEY_T\n\
                   command_terminal = vasak-terminal\n\
                   binding_mio = <super> KEY_T\n\
                   command_mio = alacritty\n";
    let paquete = "[command]\nbinding_terminal = <super> KEY_T\ncommand_terminal = vasak-terminal\n";
    let nuestras = |s: &str, c: &str| s == "command" && c.ends_with("_terminal");

    let limpieza = quitar_choques(usuario, paquete, &nuestras);

    assert!(!limpieza.texto.contains("binding_terminal"), "{}", limpieza.texto);
    assert!(limpieza.texto.contains("binding_mio"), "{}", limpieza.texto);
    // Y no queda reportado como conflicto: se resolvió quitando la nuestra.
    assert!(limpieza.conflictos.is_empty(), "{:?}", limpieza.conflictos);
}

#[test]
fn la_limpieza_conserva_los_comentarios_y_el_resto_del_archivo() {
    // Se trabaja por líneas, igual que al agregar: el archivo no se reescribe.
    let usuario = "# cabecera\n\
                   [command]\n\
                   # por qué esto está acá\n\
                   binding_custom_0 = KEY_T <super>\n\
                   binding_terminal = <super> KEY_T\n\
                   \n\
                   [animate]\n\
                   duration = 300\n";
    let paquete = "[command]\nbinding_terminal = <super> KEY_T\n";
    let nuestras = |s: &str, c: &str| s == "command" && c == "binding_terminal";

    let Limpieza { texto: r, .. } = quitar_choques(usuario, paquete, &nuestras);
    assert!(r.starts_with("# cabecera\n"), "{r}");
    assert!(r.contains("# por qué esto está acá\n"), "{r}");
    assert!(r.contains("[animate]\nduration = 300"), "{r}");
    assert!(r.ends_with('\n'));
}

#[test]
fn limpiar_dos_veces_no_cambia_nada_la_segunda() {
    // Corre en cada inicio de sesión.
    let usuario = "[command]\nbinding_custom_0 = KEY_T <super>\nbinding_terminal = <super> KEY_T\n";
    let paquete = "[command]\nbinding_terminal = <super> KEY_T\n";
    let nuestras = |s: &str, c: &str| s == "command" && c == "binding_terminal";

    let Limpieza { texto: una, quitadas: q1, .. } = quitar_choques(usuario, paquete, &nuestras);
    let Limpieza { texto: dos, quitadas: q2, .. } = quitar_choques(&una, paquete, &nuestras);
    assert_eq!(una, dos);
    assert_eq!(q1.len(), 1);
    assert!(q2.is_empty());
}

#[test]
fn una_clave_sin_seccion_va_despues_del_preambulo_que_ya_habia() {
    // Si ya hay claves globales, la nueva va con ellas y no arriba de todo, que
    // podría meterse antes de un comentario de cabecera.
    let usuario = "# cabecera\nuna = 1\n\n[core]\nplugins = expo\n";
    let paquete = "otra = 2\n";
    let (r, _) = fusionar(usuario, paquete, &nada_ofrecido);
    assert!(r.starts_with("# cabecera\n"), "{r}");
    let pos = |t: &str| r.find(t).unwrap();
    assert!(pos("una = 1") < pos("otra = 2"));
    assert!(pos("otra = 2") < pos("[core]"), "{r}");
}

#[test]
fn fusionar_dos_veces_un_archivo_de_windows_con_el_registro_crecido() {
    // La segunda vez corre con el registro ya anotado: tampoco agrega nada ni
    // cambia los terminadores.
    let usuario = "[a]\r\nx = 1\r\n";
    let paquete = "[a]\nx = 2\ny = 3\n[b]\nbinding_z = <super> KEY_Z\n";
    let (una, a1) = fusionar(usuario, paquete, &nada_ofrecido);
    assert_eq!(una, "[a]\r\nx = 1\r\ny = 3\r\n\r\n[b]\r\nbinding_z = <super> KEY_Z\r\n");
    assert_eq!(a1.claves.len(), 2);
    let anotado = |s: &str, c: &str| (s == "a" && c == "y") || (s == "b" && c == "binding_z");
    let (dos, a2) = fusionar(&una, paquete, &anotado);
    assert_eq!(una, dos);
    assert!(a2.claves.is_empty());
}

#[test]
fn lo_agregado_es_solo_lo_que_el_archivo_no_tenia() {
    let usuario = "[a]\nx = 1\n";
    let paquete = "[a]\nx = 9\nw = 2\n";
    let (r, a) = fusionar(usuario, paquete, &nada_ofrecido);
    assert_eq!(a.claves, vec![("a".to_string(), "w".to_string())]);
    assert!(r.contains("x = 1"), "{r}");
    assert!(!r.contains("x = 9"), "{r}");
}

#[test]
fn la_limpieza_solo_quita_lineas_de_atajos() {
    let usuario = "[command]\n\
                   binding_a = <super> KEY_A\n\
                   command_a = foo\n\
                   binding_b = <super> KEY_A\n\
                   command_b = foo\n\
                   [core]\n\
                   plugins = expo\n";
    let paquete = usuario;
    let todas = |_: &str, _: &str| true;
    let Limpieza { texto: r, quitadas, .. } = quitar_choques(usuario, paquete, &todas);
    assert_eq!(quitadas.len(), 2);
    for q in &quitadas {
        assert!(q.clave.starts_with("binding_") || q.clave.starts_with("command_"), "{}", q.clave);
    }
    assert!(r.contains("plugins = expo"), "{r}");
    assert!(r.contains("binding_a = <super> KEY_A"), "{r}");
    assert!(!r.contains("command_b"), "{r}");
}

#[test]
fn limpiar_dos_veces_con_repetidos_y_conflictos() {
    let usuario = "[command]\n\
                   binding_a = KEY_MUTE\n\
                   command_a = amixer set Master toggle\n\
                   binding_b = KEY_MUTE\n\
                   command_b = amixer set Master toggle\n\
                   binding_c = <super> KEY_T\n\
                   command_c = kitty\n\
                   binding_d = KEY_T <super>\n\
                   command_d = alacritty\n";
    let paquete = "[command]\n";
    let nada = |_: &str, _: &str| false;
    let Limpieza { texto: una, quitadas: q1, conflictos: c1 } = quitar_choques(usuario, paquete, &nada);
    assert_eq!(q1.len(), 2);
    assert_eq!(c1.len(), 1);
    let Limpieza { texto: dos, quitadas: q2, conflictos: c2 } = quitar_choques(&una, paquete, &nada);
    assert_eq!(una, dos);
    assert!(q2.is_empty());
    assert_eq!(c2.len(), 1);
}

#[test]
fn dos_atajos_del_paquete_en_la_misma_tecla_entra_solo_el_primero() {
    let usuario = "[command]\n";
    let paquete = "[command]\n\
                   binding_a = KEY_T\n\
                   command_a = x\n\
                   binding_b = KEY_T\n\
                   command_b = y\n";
    let (r, a) = fusionar(usuario, paquete, &nada_ofrecido);
    assert_eq!(r, "[command]\nbinding_a = KEY_T\ncommand_a = x\n");
    assert_eq!(
        a.claves,
        vec![
            ("command".to_string(), "binding_a".to_string()),
            ("command".to_string(), "command_a".to_string()),
        ]
    );
}

#[test]
fn una_tecla_repetida_en_el_archivo_conserva_la_primera_linea() {
    let usuario = "[command]\n\
                   binding_a = KEY_A\n\
                   command_a = x\n\
                   binding_a = KEY_A\n";
    let Limpieza { texto: r, quitadas, .. } = quitar_choques(usuario, "", &|_: &str, _: &str| false);
    assert_eq!(r.lines().filter(|l| *l == "binding_a = KEY_A").count(), 1, "{r}");
    assert!(r.lines().any(|l| l == "command_a = x"), "{r}");
    assert_eq!(r, "[command]\nbinding_a = KEY_A\ncommand_a = x\n");
    assert_eq!(quitadas.len(), 1);
    assert_eq!(quitadas[0].clave, "binding_a");
    assert_eq!(quitadas[0].motivo, Motivo::RepiteAOtra);
}

#[test]
fn el_command_se_va_con_cualquier_tecla_de_su_etiqueta_que_sale() {
    let usuario = "[command]\n\
                   binding_a = KEY_A\n\
                   command_a = x\n\
                   binding_b = KEY_A\n\
                   command_b = x\n\
                   always_binding_b = KEY_Q\n";
    let Limpieza { texto: r, quitadas, .. } = quitar_choques(usuario, "", &|_: &str, _: &str| false);
    assert_eq!(r, "[command]\nbinding_a = KEY_A\ncommand_a = x\nalways_binding_b = KEY_Q\n");
    assert_eq!(quitadas.len(), 2);
    assert_eq!(quitadas[0].clave, "binding_b");
    assert_eq!(quitadas[1].clave, "command_b");
}

#[test]
fn el_command_lleva_el_motivo_de_la_segunda_pasada() {
    let usuario = "[command]\n\
                   binding_y = KEY_A\n\
                   command_y = foo\n\
                   binding_w = KEY_B\n\
                   command_w = bar\n\
                   binding_x = KEY_A\n\
                   repeatable_binding_x = KEY_B\n\
                   command_x = bar\n";
    let paquete = "[command]\nbinding_x = KEY_A\n";
    let nuestra = |s: &str, k: &str| s == "command" && k == "binding_x";
    let Limpieza { texto: r, quitadas, .. } = quitar_choques(usuario, paquete, &nuestra);
    assert_eq!(
        r,
        "[command]\nbinding_y = KEY_A\ncommand_y = foo\nbinding_w = KEY_B\ncommand_w = bar\n"
    );
    assert_eq!(quitadas.len(), 3);
    assert_eq!(quitadas[0].clave, "binding_x");
    assert_eq!(quitadas[0].motivo, Motivo::LaPusimosYChoca);
    assert_eq!(quitadas[1].clave, "repeatable_binding_x");
    assert_eq!(quitadas[1].motivo, Motivo::RepiteAOtra);
    assert_eq!(quitadas[2].clave, "command_x");
    assert_eq!(quitadas[2].motivo, Motivo::RepiteAOtra);
}

#[test]
fn limpiar_un_archivo_que_termina_en_retorno_de_carro_dos_veces() {
    let usuario = "[command]\nbinding_a = KEY_A\ncommand_a = x\nbinding_b = KEY_A\ncommand_b = x\r";
    let nada = |_: &str, _: &str| false;
    let Limpieza { texto: una, quitadas: q1, .. } = quitar_choques(usuario, "", &nada);
    assert_eq!(q1.len(), 2);
    let Limpieza { texto: dos, quitadas: q2, .. } = quitar_choques(&una, "", &nada);
    assert_eq!(una, dos);
    assert!(q2.is_empty());
}

#[test]
fn los_atajos_separados_por_barra_son_los_de_cada_lado() {
    let a = "KEY_A <super>";
    let b = "<alt> KEY_B";
    let juntos = combos_de(&format!("{a}|{b}"));
    assert_eq!(juntos, [combos_de(a), combos_de(b)].concat());
    assert_eq!(juntos.len(), 2);
}

#[test]
fn fusionar_dos_veces_con_una_clave_repetida_en_el_paquete() {
    let usuario = "[core]\n";
    let paquete = "[core]\nplugins = expo\nplugins = cube\n[command]\nbinding_a = KEY_A\nbinding_a = KEY_B\n";
    let (una, a1) = fusionar(usuario, paquete, &nada_ofrecido);
    assert!(una.contains("plugins = expo"), "{una}");
    assert!(!una.contains("plugins = cube"), "{una}");
    assert!(!a1.claves.is_empty());
    let (dos, a2) = fusionar(&una, paquete, &nada_ofrecido);
    assert_eq!(dos, una);
    assert!(a2.claves.is_empty());
}

#[test]
fn un_modificador_en_mayusculas_es_el_mismo_modificador() {
    assert_eq!(combos_de("<SUPER> <Alt> KEY_T"), combos_de("KEY_T <alt> <super>"));
    assert_eq!(combos_de("<SUPER> <Alt> KEY_T").len(), 1);
}

#[test]
fn fusionar_dos_veces_con_un_atajo_repetido_antes_de_su_command() {
    let usuario = "[command]\nbinding_y = KEY_B\n";
    let paquete = "[command]\nbinding_x = KEY_B\nbinding_x = KEY_A\ncommand_x = c\n";
    let (una, _) = fusionar(usuario, paquete, &nada_ofrecido);
    assert!(una.contains("binding_x = KEY_A"), "{una}");
    assert!(una.contains("command_x = c"), "{una}");
    let (dos, a2) = fusionar(&una, paquete, &nada_ofrecido);
    assert_eq!(dos, una);
    assert!(a2.claves.is_empty());
}
