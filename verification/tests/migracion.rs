use vasak_session_manager::migracion::estado::{escribir, leer, Registro};
use vasak_session_manager::migracion::{anotar, archivos, fusionar_texto, paso, tras_escribir, Paso, Resultado};

#[test]
fn mimeapps_no_se_migra() {
    // Es donde vive lo que la persona eligió. Los valores por omisión del
    // sistema van en `/usr/share/applications/mimeapps.list`, que alcanza a
    // todas las cuentas sin migrar nada; copiarlos al archivo del usuario los
    // deja pegados y le ganan para siempre a los del paquete.
    assert!(!archivos().iter().any(|a| a.contains("mimeapps")));
}

#[test]
fn la_lista_de_archivos_es_solo_clave_valor() {
    // Un `.zshrc` o un `.face` fusionados por clave serían un desastre
    // silencioso: el primero es un programa y el segundo una imagen.
    for a in archivos() {
        assert!(
            a.ends_with(".ini") || a.ends_with(".conf"),
            "{a} no parece un archivo de clave/valor"
        );
        assert!(!a.starts_with('/'), "{a} tiene que ser relativo al hogar");
        assert!(!a.contains(".."), "{a}");
    }
}

#[test]
fn fusionar_texto_devuelve_el_texto_y_lo_agregado() {
    let ya = Registro::new();
    let (nuevo, agregadas) = fusionar_texto(
        ".config/wayfire.ini",
        "[animate]\nduration = 300\n",
        "[animate]\nduration = 150\nopen_animation = fade\n",
        &ya,
    );
    assert_eq!(nuevo.as_deref(), Some("[animate]\nduration = 300\nopen_animation = fade\n"));
    assert_eq!(agregadas, vec![("animate".to_string(), "open_animation".to_string())]);
}

#[test]
fn fusionar_texto_sin_nada_que_agregar_es_none() {
    let ya = Registro::new();
    let (nuevo, agregadas) =
        fusionar_texto(".config/wayfire.ini", "[a]\nx = 1\n", "[a]\nx = 2\n", &ya);
    assert_eq!(nuevo, None);
    assert!(agregadas.is_empty());
}

#[test]
fn fusionar_texto_respeta_el_registro_de_ese_archivo() {
    let mut ya = Registro::new();
    ya.insert((".config/wayfire.ini".to_string(), "animate".to_string(), "open_animation".to_string()));
    let (nuevo, _) = fusionar_texto(
        ".config/wayfire.ini",
        "[animate]\nduration = 300\n",
        "[animate]\nopen_animation = fade\n",
        &ya,
    );
    assert_eq!(nuevo, None);
    // Anotada para otro archivo, no cuenta para éste.
    let (nuevo, _) = fusionar_texto(
        ".config/Trolltech.conf",
        "[animate]\nduration = 300\n",
        "[animate]\nopen_animation = fade\n",
        &ya,
    );
    assert!(nuevo.is_some());
}

#[test]
fn un_archivo_que_el_paquete_no_trae_se_saltea_con_su_motivo() {
    let ya = Registro::new();
    match paso(".config/wayfire.ini", None, Some("[core]\n"), &ya) {
        Paso::Listo(r) => assert_eq!(
            r,
            Resultado {
                archivo: ".config/wayfire.ini".to_string(),
                agregadas: Vec::new(),
                motivo: Some("el paquete no lo trae".to_string()),
            }
        ),
        Paso::Escribir { .. } => panic!("no había nada que escribir"),
    }
}

#[test]
fn a_la_cuenta_que_no_tiene_el_archivo_no_se_le_crea() {
    let ya = Registro::new();
    match paso(".config/wayfire.ini", Some("[core]\nplugins = expo\n"), None, &ya) {
        Paso::Listo(r) => assert_eq!(r.motivo.as_deref(), Some("la cuenta no lo tiene")),
        Paso::Escribir { .. } => panic!("se le creaba configuración"),
    }
}

#[test]
fn lo_que_se_escribe_se_anota_y_no_vuelve() {
    let mut ya = Registro::new();
    let usuario = "[animate]\nduration = 300\n";
    let paquete = "[animate]\nduration = 150\nopen_animation = fade\n";
    let agregadas = match paso(".config/wayfire.ini", Some(paquete), Some(usuario), &ya) {
        Paso::Escribir { nuevo, agregadas } => {
            assert!(nuevo.contains("open_animation = fade"));
            agregadas
        }
        Paso::Listo(r) => panic!("{r:?}"),
    };
    anotar(&mut ya, ".config/wayfire.ini", &agregadas);
    assert!(ya.contains(&(
        ".config/wayfire.ini".to_string(),
        "animate".to_string(),
        "open_animation".to_string()
    )));
    // El registro escrito y vuelto a leer es el mismo.
    assert_eq!(leer(&escribir(&ya)), ya);
    // La persona la borra: no vuelve.
    match paso(".config/wayfire.ini", Some(paquete), Some(usuario), &ya) {
        Paso::Listo(r) => {
            assert!(r.agregadas.is_empty());
            assert_eq!(r.motivo, None);
        }
        Paso::Escribir { .. } => panic!("volvió a ofrecerse"),
    }
}

#[test]
fn saltado_lleva_el_archivo_y_el_motivo() {
    let r = Resultado::saltado(".config/gtk-3.0/settings.ini", "no se pudo escribir");
    assert_eq!(r.archivo, ".config/gtk-3.0/settings.ini");
    assert!(r.agregadas.is_empty());
    assert_eq!(r.motivo.as_deref(), Some("no se pudo escribir"));
}

/// The files of one account and of the package, in memory, and the record.
struct Disco {
    hogar: std::collections::HashMap<String, String>,
    skel: std::collections::HashMap<String, String>,
    registro: Option<String>,
}

fn escenario() -> Disco {
    Disco {
        hogar: std::collections::HashMap::new(),
        skel: std::collections::HashMap::new(),
        registro: None,
    }
}

fn poner(lado: &mut std::collections::HashMap<String, String>, relativo: &str, contenido: &str) {
    lado.insert(relativo.to_string(), contenido.to_string());
}

/// What the program does at the start of a session, on the files in memory.
fn aplicar(d: &mut Disco, escribir_cambios: bool) -> Vec<Resultado> {
    let mut ya = leer(d.registro.as_deref().unwrap_or(""));
    let mut resultados = Vec::new();
    let mut hubo_cambios = false;
    for relativo in archivos() {
        let paquete = d.skel.get(relativo).cloned();
        let usuario = d.hogar.get(relativo).cloned();
        match paso(relativo, paquete.as_deref(), usuario.as_deref(), &ya) {
            Paso::Listo(r) => resultados.push(r),
            Paso::Escribir { nuevo, agregadas } => {
                if escribir_cambios {
                    d.hogar.insert(relativo.to_string(), nuevo);
                    anotar(&mut ya, relativo, &agregadas);
                    hubo_cambios = true;
                }
                resultados.push(Resultado { archivo: relativo.to_string(), agregadas, motivo: None });
            }
        }
    }
    if escribir_cambios && hubo_cambios {
        d.registro = Some(escribir(&ya));
    }
    resultados
}

#[test]
fn el_modo_de_prueba_no_toca_nada() {
    let mut d = escenario();
    poner(&mut d.hogar, ".config/wayfire.ini", "[animate]\nduration = 300\n");
    poner(&mut d.skel, ".config/wayfire.ini", "[animate]\nduration = 150\nopen_animation = fade\n");

    let r = aplicar(&mut d, false);
    let wayfire = r.iter().find(|x| x.archivo == ".config/wayfire.ini").unwrap();
    assert_eq!(wayfire.agregadas.len(), 1);

    // El archivo sigue igual y no se creó el registro.
    assert_eq!(d.hogar[".config/wayfire.ini"], "[animate]\nduration = 300\n");
    assert!(d.registro.is_none());
}

#[test]
fn aplicar_agrega_y_anota() {
    let mut d = escenario();
    poner(&mut d.hogar, ".config/wayfire.ini", "[animate]\nduration = 300\n");
    poner(&mut d.skel, ".config/wayfire.ini", "[animate]\nduration = 150\nopen_animation = fade\n");

    aplicar(&mut d, true);
    let despues = d.hogar[".config/wayfire.ini"].clone();
    assert!(despues.contains("duration = 300"), "el valor de la persona queda");
    assert!(despues.contains("open_animation = fade"), "y lo nuevo entra");

    // Y una segunda pasada no vuelve a agregar nada.
    let r2 = aplicar(&mut d, true);
    assert!(r2.iter().all(|x| x.agregadas.is_empty()), "{r2:?}");
}

#[test]
fn lo_borrado_a_proposito_no_vuelve() {
    let mut d = escenario();
    poner(&mut d.hogar, ".config/wayfire.ini", "[animate]\nduration = 300\n");
    poner(&mut d.skel, ".config/wayfire.ini", "[animate]\nduration = 150\nopen_animation = fade\n");

    aplicar(&mut d, true);

    // La persona la borra.
    poner(&mut d.hogar, ".config/wayfire.ini", "[animate]\nduration = 300\n");

    let r = aplicar(&mut d, true);
    let despues = &d.hogar[".config/wayfire.ini"];
    assert!(!despues.contains("open_animation"), "volvió: {despues}");
    assert!(r.iter().all(|x| x.agregadas.is_empty()));
}

#[test]
fn no_se_le_crea_configuracion_que_no_tenia() {
    let mut d = escenario();
    poner(&mut d.skel, ".config/wayfire.ini", "[core]\nplugins = expo\n");

    aplicar(&mut d, true);
    assert!(!d.hogar.contains_key(".config/wayfire.ini"));
}

#[test]
fn un_archivo_que_el_paquete_no_trae_se_saltea() {
    let mut d = escenario();
    poner(&mut d.hogar, ".config/wayfire.ini", "[core]\nplugins = expo\n");

    let r = aplicar(&mut d, true);
    let wayfire = r.iter().find(|x| x.archivo == ".config/wayfire.ini").unwrap();
    assert!(wayfire.motivo.as_deref() == Some("el paquete no lo trae"), "{wayfire:?}");
}

#[test]
fn no_se_anota_lo_que_no_se_escribio() {
    let mut d = escenario();
    poner(&mut d.hogar, ".config/wayfire.ini", "[animate]\nduration = 300\n");
    poner(&mut d.skel, ".config/wayfire.ini", "[animate]\nopen_animation = fade\n");

    aplicar(&mut d, false);
    assert!(d.registro.is_none());

    // Y aplicando de verdad después, sí llega.
    aplicar(&mut d, true);
    assert!(d.hogar[".config/wayfire.ini"].contains("open_animation = fade"));
}

#[test]
fn lo_que_no_se_pudo_escribir_no_se_anota() {
    let mut ya = Registro::new();
    let agregadas = vec![("core".to_string(), "plugins".to_string())];
    let r = tras_escribir(&mut ya, ".config/wayfire.ini", agregadas, Some("disco lleno"));
    assert_eq!(r.archivo, ".config/wayfire.ini");
    assert!(r.agregadas.is_empty());
    assert_eq!(r.motivo.as_deref(), Some("no se pudo escribir: disco lleno"));
    assert!(!ya.contains(&(
        ".config/wayfire.ini".to_string(),
        "core".to_string(),
        "plugins".to_string()
    )));
}

#[test]
fn lo_escrito_se_anota_y_se_informa() {
    let mut ya = Registro::new();
    let agregadas = vec![("core".to_string(), "plugins".to_string())];
    let r = tras_escribir(&mut ya, ".config/wayfire.ini", agregadas.clone(), None);
    assert_eq!(r.agregadas, agregadas);
    assert_eq!(r.motivo, None);
    assert!(ya.contains(&(
        ".config/wayfire.ini".to_string(),
        "core".to_string(),
        "plugins".to_string()
    )));
}
