use vasak_session_manager::lock::auth::{can_authenticate, service_path};
use vasak_session_manager::lock::contexto::{
    agrupar_avisos, is_player, media_method, reproduccion, AplicacionConAvisos,
};
use vasak_session_manager::lock::{etiqueta_de, fondo_de_configuracion, pantalla_inicial, wallpaper_path};

#[test]
fn without_the_service_file_it_refuses() {
    let installed = std::path::Path::new(&service_path()).is_file();
    match (can_authenticate(installed), installed) {
        (Ok(()), true) => {}
        (Err(message), false) => assert!(message.contains("/etc/pam.d/vasak-lock-screen")),
        (Ok(()), false) => panic!("aceptó bloquear sin servicio PAM"),
        (Err(e), true) => panic!("rechazó con el servicio instalado: {e}"),
    }
}

#[test]
fn the_lock_is_refused_exactly_when_the_service_is_missing() {
    assert_eq!(service_path(), "/etc/pam.d/vasak-lock-screen");
    assert!(can_authenticate(true).is_ok());
    let e = can_authenticate(false).unwrap_err();
    assert!(e.starts_with("falta /etc/pam.d/vasak-lock-screen: "));
    assert!(e.ends_with("Se instala con el paquete vasak-session-manager."));
}

#[test]
fn los_avisos_se_agrupan_por_aplicacion() {
    let json = r#"[
        {"app_name":"Telegram","app_icon":"telegram","summary":"Hola","body":"secreto"},
        {"app_name":"Telegram","app_icon":"telegram","summary":"Otra","body":"secreto"},
        {"app_name":"Discord","app_icon":"discord","summary":"Ping","body":"secreto"}
    ]"#;

    assert_eq!(
        agrupar_avisos(json),
        vec![
            AplicacionConAvisos {
                icono: "telegram".into(),
                aplicacion: "Telegram".into(),
                cuantas: 2
            },
            AplicacionConAvisos {
                icono: "discord".into(),
                aplicacion: "Discord".into(),
                cuantas: 1
            },
        ]
    );
}

#[test]
fn el_contenido_no_sale_de_la_pantalla_bloqueada() {
    // Lo que importa de todo esto: que el resumen y el cuerpo no viajen a una
    // pantalla que puede estar mirando cualquiera.
    let json = r#"[{"app_name":"Telegram","app_icon":"telegram",
                    "summary":"Código 123456","body":"No se lo pases a nadie"}]"#;
    let serializado = format!("{:?}", agrupar_avisos(json));

    assert!(!serializado.contains("123456"), "{serializado}");
    assert!(!serializado.contains("No se lo pases"), "{serializado}");
    assert!(serializado.contains("telegram"));
}

#[test]
fn la_forma_real_que_manda_el_demonio_se_entiende() {
    let json = r#"[{"id":5113,"notif_id":290,"app_name":"Telegram Desktop",
                    "app_icon":"telegram-desktop","summary":"Un resumen",
                    "body":"Un cuerpo","urgency":1,
                    "actions":["default","Open"],"seen":false,
                    "timestamp":1787900000}]"#;

    assert_eq!(
        agrupar_avisos(json),
        vec![AplicacionConAvisos {
            icono: "telegram-desktop".into(),
            aplicacion: "Telegram Desktop".into(),
            cuantas: 1
        }]
    );
}

#[test]
fn una_aplicacion_sin_icono_igual_se_muestra() {
    let json = r#"[{"app_name":"Cosa","app_icon":""}]"#;
    let grupos = agrupar_avisos(json);
    assert_eq!(grupos.len(), 1);
    assert_eq!(grupos[0].icono, "dialog-information");
}

#[test]
fn lo_que_no_es_una_lista_no_rompe_nada() {
    assert!(agrupar_avisos("").is_empty());
    assert!(agrupar_avisos("no soy json").is_empty());
    assert!(agrupar_avisos("{}").is_empty());
    assert!(agrupar_avisos(r#"[{"sin":"nombre"}]"#).is_empty());
}

#[test]
fn solo_se_le_habla_a_un_reproductor_mpris() {
    assert!(media_method("org.freedesktop.login1", "next").is_none());
    assert!(media_method("org.vasak.Notifications", "playpause").is_none());
    // Y sólo esos dos métodos.
    assert!(media_method("org.mpris.MediaPlayer2.vlc", "Quit").is_none());
    assert_eq!(media_method("org.mpris.MediaPlayer2.vlc", "playpause"), Some("PlayPause"));
    assert_eq!(media_method("org.mpris.MediaPlayer2.vlc", "next"), Some("Next"));
    assert!(is_player("org.mpris.MediaPlayer2.spotify"));
}

#[test]
fn a_player_is_playing_only_when_it_says_so() {
    let r = reproduccion("org.mpris.MediaPlayer2.vlc", "Paused", "t".into(), "a".into());
    assert!(!r.sonando);
    let r = reproduccion("org.mpris.MediaPlayer2.vlc", "Playing", "t".into(), "a".into());
    assert!(r.sonando);
    assert_eq!(r.reproductor, "org.mpris.MediaPlayer2.vlc");
}

#[test]
fn the_form_starts_on_the_primary_monitor() {
    assert_eq!(etiqueta_de(3), "lock-3");
    assert_eq!(etiqueta_de(-12), "lock--12");
    assert_eq!(etiqueta_de(i32::MIN), "lock--2147483648");
    assert_eq!(pantalla_inicial(&[false, true, true]), "lock-1");
    assert_eq!(pantalla_inicial(&[false, false]), "lock-0");
    assert_eq!(pantalla_inicial(&[]), "lock-0");
}

#[test]
fn the_desktop_wallpaper_path_loses_its_scheme() {
    assert_eq!(wallpaper_path("file:///home/a/f.jpg").as_deref(), Some("/home/a/f.jpg"));
    assert_eq!(wallpaper_path("/home/a/f.jpg").as_deref(), Some("/home/a/f.jpg"));
    assert_eq!(wallpaper_path("file://"), None);
    assert_eq!(wallpaper_path(""), None);
}

#[test]
fn the_wallpaper_comes_from_the_first_entry_of_the_configuration() {
    let texto = r#"{"desktop":{"wallpaper":["file:///home/a/fondo.jpg","/otro.png"]}}"#;
    assert_eq!(fondo_de_configuracion(texto), Some("/home/a/fondo.jpg".to_string()));
    assert_eq!(fondo_de_configuracion(r#"{"desktop":{"wallpaper":["file://"]}}"#), None);
    assert_eq!(fondo_de_configuracion(r#"{"desktop":{"wallpaper":[]}}"#), None);
    assert_eq!(fondo_de_configuracion("no es json"), None);
}
