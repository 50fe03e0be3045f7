use vasak_session_manager::commands::appearance::{esquema_de_texto, esquema_utilizable, primera_linea, tema_de, tema_valido};
use vasak_session_manager::commands::auth::{
    comenzar, responder, session_environment, strip_field_codes, wrap_for_session_type, Accion,
    Peticion, Respuesta,
};
use vasak_session_manager::commands::background::{
    configured_path, configured_video, describe_video, image_candidates, is_video, usable_size,
    video_mime, MAX_VIDEO_BYTES,
};
use vasak_session_manager::commands::keyboard::{
    keyboard_layout, parse_layouts, vconsole_keymap, xorg_keyboard_option,
};
use vasak_session_manager::commands::screens::{primary_index, screen_layout};
use vasak_session_manager::commands::sessions::{
    is_desktop_file, parse_desktop_entry, sort_sessions, Session,
};
use vasak_session_manager::commands::state::{state_paths, LastLogin};
use vasak_session_manager::commands::users::{
    image_data_url, image_mime, is_login_shell, is_offered, login_defs_value, numero,
    real_name_from_gecos, sort_users, SystemUser,
};
use vasak_session_manager::idioma::language_of;

#[test]
fn el_tema_acepta_las_dos_palabras_y_nada_mas() {
    assert_eq!(tema_valido("dark"), Some("dark"));
    assert_eq!(tema_valido("light"), Some("light"));
    assert_eq!(tema_valido("  Dark\n"), Some("dark"), "espacios y mayúsculas");
    assert_eq!(tema_valido("oscuro"), None);
    assert_eq!(tema_valido(""), None);
}

#[test]
fn la_primera_linea_con_algo_es_la_que_vale() {
    assert_eq!(primera_linea("\n\n  light  \ndark\n").as_deref(), Some("light"));
    assert_eq!(primera_linea("   \n\t\n"), None);
    assert_eq!(primera_linea(""), None);
}

#[test]
fn sin_archivos_el_tema_es_oscuro() {
    // Una instalación que nunca configuró el inicio de sesión.
    assert_eq!(tema_de(None), "dark");
}

#[test]
fn el_tema_del_archivo_es_el_de_su_primera_linea_con_algo() {
    assert_eq!(tema_de(Some("\n  LIGHT \n")), "light");
    assert_eq!(tema_de(Some("violeta\nlight\n")), "dark");
    assert_eq!(tema_de(Some("")), "dark");
}

#[test]
fn un_esquema_necesita_las_dos_variantes_con_ui() {
    assert!(esquema_utilizable(true, true));
    assert!(!esquema_utilizable(true, false));
    assert!(!esquema_utilizable(false, true));
}

#[test]
fn field_codes_are_removed_from_the_command() {
    assert_eq!(strip_field_codes("gnome-session %U"), vec!["gnome-session"]);
    assert_eq!(strip_field_codes("run --flag %k file"), vec!["run", "--flag", "file"]);
    // `%%` is a literal percent sign, not a field code.
    assert_eq!(strip_field_codes("run 100%%"), vec!["run", "100%"]);
}

#[test]
fn a_percent_with_a_wide_character_is_not_a_field_code() {
    // Two characters but three bytes: not a field code.
    assert_eq!(strip_field_codes("run %é"), vec!["run", "%é"]);
    assert_eq!(strip_field_codes("  "), Vec::<String>::new());
    assert_eq!(strip_field_codes("a %%%"), vec!["a", "%%"]);
}

#[test]
fn wayland_sessions_run_unwrapped() {
    let cmd = vec!["vasak-session".to_string()];
    assert_eq!(wrap_for_session_type("wayland", cmd.clone()), cmd);
}

#[test]
fn x11_sessions_are_started_under_an_x_server() {
    assert_eq!(
        wrap_for_session_type("x11", vec!["i3".to_string(), "--flag".to_string()]),
        vec!["startx", "/usr/bin/env", "i3", "--flag"]
    );
}

#[test]
fn the_session_identifies_itself_to_applications() {
    let env = session_environment(
        "vasak.desktop",
        "wayland",
        &["VasakOS".to_string(), "wlroots".to_string()],
    );

    assert!(env.contains(&"XDG_SESSION_TYPE=wayland".to_string()));
    assert!(env.contains(&"XDG_SESSION_DESKTOP=vasak".to_string()));
    assert!(env.contains(&"DESKTOP_SESSION=vasak".to_string()));
    assert!(env.contains(&"XDG_CURRENT_DESKTOP=VasakOS:wlroots".to_string()));
}

#[test]
fn a_session_without_desktop_names_falls_back_to_its_file_name() {
    let env = session_environment("sway.desktop", "wayland", &[]);
    assert!(env.contains(&"XDG_CURRENT_DESKTOP=sway".to_string()));
}

#[test]
fn the_session_name_is_the_stem_of_its_file_name() {
    let env = session_environment("/usr/share/wayland-sessions/a.b.desktop", "x11", &[]);
    assert_eq!(
        env,
        vec![
            "XDG_SESSION_TYPE=x11",
            "XDG_SESSION_DESKTOP=a.b",
            "DESKTOP_SESSION=a.b",
            "XDG_CURRENT_DESKTOP=a.b",
        ]
    );
    let env = session_environment(".hidden", "wayland", &[]);
    assert!(env.contains(&"DESKTOP_SESSION=.hidden".to_string()));
}

fn enviado(a: Accion) -> Peticion {
    match a {
        Accion::Enviar(p) => p,
        _ => panic!("se esperaba un envío"),
    }
}

#[test]
fn a_login_answers_the_password_once_and_starts_the_session() {
    let (mut ingreso, primera) = comenzar(
        "ada".to_string(),
        "secreta".to_string(),
        "vasak-session %U".to_string(),
        "vasak.desktop".to_string(),
        "wayland".to_string(),
        vec!["VasakOS".to_string()],
    );
    assert!(matches!(primera, Peticion::CreateSession { ref username } if username == "ada"));

    let secreto = || Respuesta::AuthMessage {
        auth_message_type: "secret".to_string(),
        auth_message: "Password:".to_string(),
    };
    match enviado(responder(&mut ingreso, secreto())) {
        Peticion::PostAuthMessageResponse { response } => {
            assert_eq!(response.as_deref(), Some("secreta"))
        }
        _ => panic!("se esperaba una respuesta"),
    }
    // Una segunda pregunta por la contraseña ya no la recibe.
    match enviado(responder(&mut ingreso, secreto())) {
        Peticion::PostAuthMessageResponse { response } => assert_eq!(response, None),
        _ => panic!("se esperaba una respuesta"),
    }
    let visible = Respuesta::AuthMessage {
        auth_message_type: "visible".to_string(),
        auth_message: "Login:".to_string(),
    };
    match enviado(responder(&mut ingreso, visible)) {
        Peticion::PostAuthMessageResponse { response } => {
            assert_eq!(response.as_deref(), Some("ada"))
        }
        _ => panic!("se esperaba una respuesta"),
    }
    match enviado(responder(&mut ingreso, Respuesta::Success)) {
        Peticion::StartSession { cmd, env } => {
            assert_eq!(cmd, vec!["vasak-session"]);
            assert!(env.contains(&"XDG_CURRENT_DESKTOP=VasakOS".to_string()));
        }
        _ => panic!("se esperaba el inicio"),
    }
    assert!(matches!(responder(&mut ingreso, Respuesta::Success), Accion::Iniciada));
}

#[test]
fn a_rejected_login_cancels_with_greetds_message() {
    let (mut ingreso, _) = comenzar(
        "ada".to_string(),
        "mal".to_string(),
        "x".to_string(),
        "x.desktop".to_string(),
        "wayland".to_string(),
        Vec::new(),
    );
    let error = Respuesta::Error {
        error_type: "auth_error".to_string(),
        description: "bad password".to_string(),
    };
    match responder(&mut ingreso, error) {
        Accion::CancelarYFallar(m) => assert_eq!(m, "auth_error: bad password"),
        _ => panic!("se esperaba cancelar"),
    }
}

#[test]
fn an_empty_command_is_not_started() {
    let (mut ingreso, _) = comenzar(
        "ada".to_string(),
        "p".to_string(),
        "%U %k".to_string(),
        "x.desktop".to_string(),
        "wayland".to_string(),
        Vec::new(),
    );
    match responder(&mut ingreso, Respuesta::Success) {
        Accion::CancelarYFallar(m) => assert_eq!(m, "Empty session command"),
        _ => panic!("se esperaba cancelar"),
    }
}

#[test]
fn los_videos_se_reconocen_por_extension_sin_importar_la_capitalizacion() {
    assert!(is_video("/tmp/fondo.mp4"));
    assert!(is_video("/tmp/fondo.WebM"));
    assert!(is_video("/tmp/fondo.ogv"));

    assert!(!is_video("/tmp/fondo.jpg"));
    assert!(!is_video("/tmp/fondo"));
    assert!(!is_video("/tmp/fondo.mp4.jpg"));
}

#[test]
fn el_mime_es_el_del_contenedor_y_no_el_de_la_extension() {
    assert_eq!(
        video_mime("/tmp/fondo.ogv"),
        Some(("ogv".to_string(), "video/ogg".to_string()))
    );
}

#[test]
fn un_archivo_vacio_o_pasado_de_tamano_no_es_usable() {
    assert_eq!(usable_size(true, 0, 10), None);
    assert_eq!(usable_size(true, 32, 32), Some(32));
    assert_eq!(usable_size(true, 32, 31), None);
    // A directory, or a file that is not there.
    assert_eq!(usable_size(false, 4096, 1024), None);
    assert_eq!(usable_size(false, 0, 1024), None);
}

#[test]
fn the_override_file_names_the_first_path_that_is_not_a_comment() {
    assert_eq!(
        configured_path("# fondo\n\n  /srv/fondo.png  \n/otro\n").as_deref(),
        Some("/srv/fondo.png")
    );
    assert_eq!(configured_path("# nada\n   \n"), None);
}

#[test]
fn a_configured_image_means_no_video_even_if_a_default_exists() {
    assert_eq!(configured_video(Some("/srv/fondo.png"), &[true, true]), None);
    assert_eq!(
        configured_video(Some("/srv/fondo.webm"), &[false, false]).as_deref(),
        Some("/srv/fondo.webm")
    );
    assert_eq!(
        configured_video(None, &[false, true]).as_deref(),
        Some("/usr/share/backgrounds/vasakos/default.webm")
    );
    assert_eq!(configured_video(None, &[false, false]), None);
}

#[test]
fn the_images_tried_skip_a_configured_video() {
    assert_eq!(image_candidates(Some("/srv/fondo.mp4")).len(), 3);
    let c = image_candidates(Some("/srv/fondo.png"));
    assert_eq!(c[0], "/srv/fondo.png");
    assert_eq!(c[1], "/usr/share/backgrounds/vasakos/default.jpg");
}

#[test]
fn a_video_too_large_is_not_offered() {
    assert!(describe_video("/srv/v.mp4", true, MAX_VIDEO_BYTES + 1).is_none());
    assert!(describe_video("/srv/v.jpg", true, 10).is_none());
    let v = describe_video("/srv/v.MP4", true, 10).unwrap();
    assert_eq!(v.extension, "mp4");
    assert_eq!(v.mime, "video/mp4");
    assert_eq!(v.bytes, 10);
    assert_eq!(v.path, "/srv/v.MP4");
}

#[test]
fn a_layout_list_is_split_on_commas() {
    assert_eq!(parse_layouts("es,us"), vec!["es", "us"]);
    assert_eq!(parse_layouts(" es , us "), vec!["es", "us"]);
    assert_eq!(parse_layouts("es"), vec!["es"]);
    assert!(parse_layouts("").is_empty());
    assert!(parse_layouts(" , ").is_empty());
}

#[test]
fn the_x_keyboard_configuration_is_read() {
    let conf = "Section \"InputClass\"\n    Option \"XkbModel\" \"pc105\"\n    Option \"xkblayout\" \"es,us\"\nEndSection\n";
    assert_eq!(xorg_keyboard_option(conf, "XkbLayout").as_deref(), Some("es,us"));
    assert_eq!(xorg_keyboard_option(conf, "XkbVariant"), None);
}

#[test]
fn the_console_keymap_loses_its_variant() {
    assert_eq!(vconsole_keymap("FONT=x\nKEYMAP=\"es-dvorak\"\n").as_deref(), Some("es"));
    assert_eq!(vconsole_keymap("FONT=x\n"), None);
}

#[test]
fn the_layout_comes_from_the_best_source_there_is() {
    let l = keyboard_layout(Some(" , "), Some("Option \"XkbLayout\" \"de\"\n"), None);
    assert_eq!(l.layouts, vec!["de"]);
    assert!(!l.switchable);
    let l = keyboard_layout(Some("es,us"), None, None);
    assert!(l.switchable);
    let l = keyboard_layout(None, None, Some("KEYMAP=fr\n"));
    assert_eq!(l.layouts, vec!["fr"]);
    let l = keyboard_layout(None, None, None);
    assert_eq!(l.layouts, vec!["us"]);
}

#[test]
fn reads_the_desktop_entry_group() {
    let entry = parse_desktop_entry(
        "[Desktop Entry]\n\
         Name=Vasak\n\
         Comment=The VasakOS desktop\n\
         Exec=vasak-session\n\
         DesktopNames=VasakOS;wlroots;\n",
    )
    .expect("parsed");

    assert_eq!(entry.name, "Vasak");
    assert_eq!(entry.comment, "The VasakOS desktop");
    assert_eq!(entry.command, "vasak-session");
    assert_eq!(entry.desktop_names, vec!["VasakOS", "wlroots"]);
}

#[test]
fn later_groups_do_not_override_the_entry() {
    let entry = parse_desktop_entry(
        "[Desktop Entry]\n\
         Name=Vasak\n\
         Exec=vasak-session\n\
         \n\
         [Desktop Action New]\n\
         Name=New Window\n\
         Exec=vasak-session --new\n",
    )
    .expect("parsed");

    assert_eq!(entry.name, "Vasak");
    assert_eq!(entry.command, "vasak-session");
}

#[test]
fn hidden_entries_are_not_offered() {
    for flag in ["Hidden=true", "NoDisplay=true"] {
        let content = format!("[Desktop Entry]\nName=Hidden\nExec=nope\n{flag}\n");
        assert!(parse_desktop_entry(&content).is_none(), "{flag}");
    }
}

#[test]
fn localised_names_are_ignored_since_no_locale_is_known_yet() {
    let content = "[Desktop Entry]\nName[es]=Escritorio\nName=Desktop\nExec=run\n";
    assert_eq!(parse_desktop_entry(content).unwrap().name, "Desktop");
}

#[test]
fn an_entry_without_a_command_is_not_a_session() {
    assert!(parse_desktop_entry("[Desktop Entry]\nName=Nameless\n").is_none());
}

#[test]
fn the_try_exec_key_is_kept_for_the_caller_to_check() {
    let e = parse_desktop_entry("[Desktop Entry]\nName=A\nExec=a\nTryExec=/usr/bin/a\nHidden=False\n")
        .unwrap();
    assert_eq!(e.try_exec, "/usr/bin/a");
    assert!(!e.hidden);
    assert!(is_desktop_file("/usr/share/xsessions/a.desktop"));
    assert!(!is_desktop_file("/usr/share/xsessions/a.desktop.bak"));
}

fn sesion_de<'a>(state: &'a LastLogin, usuario: &str) -> Option<&'a str> {
    state.sessions.iter().find(|(u, _)| u == usuario).map(|(_, s)| s.as_str())
}

#[test]
fn the_session_of_an_older_state_file_is_kept_for_its_account() {
    let mut state = LastLogin {
        username: Some("ada".to_string()),
        sessions: Vec::new(),
        session_id: Some("wayfire.desktop".to_string()),
    };
    state.migrate();

    assert_eq!(state.username.as_deref(), Some("ada"));
    assert_eq!(sesion_de(&state, "ada"), Some("wayfire.desktop"));
}

#[test]
fn a_state_file_that_already_remembers_per_account_is_left_alone() {
    let mut state = LastLogin {
        username: Some("ada".to_string()),
        sessions: vec![
            ("ada".to_string(), "wayfire.desktop".to_string()),
            ("bob".to_string(), "plasma.desktop".to_string()),
        ],
        session_id: Some("old.desktop".to_string()),
    };
    state.migrate();

    assert_eq!(sesion_de(&state, "ada"), Some("wayfire.desktop"));
    assert_eq!(sesion_de(&state, "bob"), Some("plasma.desktop"));
}

#[test]
fn each_account_keeps_its_own_session() {
    let mut state = LastLogin::default();
    state.remember("ada".into(), "wayfire.desktop".into());
    state.remember("bob".into(), "plasma.desktop".into());

    assert_eq!(state.sessions.len(), 2);
    assert_eq!(sesion_de(&state, "ada"), Some("wayfire.desktop"));
    assert_eq!(state.username.as_deref(), Some("bob"));
    // Choosing again replaces the account's own choice only.
    state.remember("ada".into(), "sway.desktop".into());
    assert_eq!(state.sessions.len(), 2);
    assert_eq!(sesion_de(&state, "ada"), Some("sway.desktop"));
    assert_eq!(sesion_de(&state, "bob"), Some("plasma.desktop"));
}

#[test]
fn the_machine_wide_session_is_not_written_back() {
    let mut state = LastLogin {
        username: Some("ada".to_string()),
        sessions: Vec::new(),
        session_id: Some("wayfire.desktop".to_string()),
    };
    state.migrate();
    assert_eq!(state.session_id, None);
}

#[test]
fn a_missing_or_unreadable_file_is_simply_nothing_remembered() {
    let state = LastLogin::default();

    assert!(state.username.is_none());
    assert!(state.sessions.is_empty());
}

#[test]
fn the_state_file_is_looked_for_in_the_greeters_directory_first() {
    assert_eq!(
        state_paths(Some("/run/st"), Some("/home/g")),
        vec![
            "/var/lib/vasak-session-manager/last-login.json",
            "/run/st/vasak-session-manager/last-login.json",
            "/home/g/.local/state/vasak-session-manager/last-login.json",
        ]
    );
    assert_eq!(state_paths(None, None).len(), 1);
}

#[test]
fn only_the_first_gecos_field_is_the_persons_name() {
    assert_eq!(real_name_from_gecos("Ada Lovelace,,,"), "Ada Lovelace");
    assert_eq!(real_name_from_gecos("  Ada  "), "Ada");
    assert_eq!(real_name_from_gecos(""), "");
    // Some systems put the username there with no name at all.
    assert_eq!(real_name_from_gecos(",,,"), "");
}

#[test]
fn accounts_without_a_usable_shell_are_not_offered() {
    assert!(is_login_shell("/bin/bash"));
    assert!(is_login_shell("/usr/bin/zsh"));
    assert!(!is_login_shell("/usr/sbin/nologin"));
    assert!(!is_login_shell("/sbin/nologin"));
    assert!(!is_login_shell("/bin/false"));
    assert!(!is_login_shell(""));
}

#[test]
fn the_uid_range_decides_who_is_a_person() {
    assert!(is_offered(1000, 1000, 60000, "/bin/bash"));
    assert!(!is_offered(999, 1000, 60000, "/bin/bash"));
    assert!(!is_offered(1001, 1000, 60000, "/bin/sync"));
}

#[test]
fn login_defs_values_are_read_as_numbers() {
    let defs = "# comment\nUID_MIN\t\t\t 1500\nUID_MAX 60000 extra\nUID_MINIMO 3\n";
    assert_eq!(login_defs_value(defs, "UID_MIN"), Some(1500));
    assert_eq!(login_defs_value(defs, "UID_MAX"), Some(60000));
    assert_eq!(login_defs_value("UID_MIN=5\n", "UID_MIN"), None);
    assert_eq!(login_defs_value("UID_MIN 99999999999\n", "UID_MIN"), None);
    assert_eq!(numero(&['+', '7']), Some(7));
    assert_eq!(numero(&['+']), None);
    assert_eq!(numero(&['4', '2', '9', '4', '9', '6', '7', '2', '9', '5']), Some(u32::MAX));
}

#[test]
fn images_are_recognised_by_their_first_bytes() {
    assert_eq!(image_mime(b"\x89PNG\r\n"), Some("image/png"));
    assert_eq!(image_mime(&[0xff, 0xd8, 0xff, 0xe0]), Some("image/jpeg"));
    assert_eq!(image_mime(b"GIF89a"), Some("image/gif"));
    assert_eq!(image_mime(b"<svg xmlns"), Some("image/svg+xml"));
    assert_eq!(image_mime(b"RIFF\0\0\0\0WEBPVP8 "), Some("image/webp"));
    assert_eq!(image_mime(b"RIFF\0\0\0\0WAVE"), None);
    assert_eq!(image_mime(b"hola"), None);
}

#[test]
fn an_image_becomes_a_data_url_in_base64() {
    assert_eq!(image_data_url(b"GIF8").as_deref(), Some("data:image/gif;base64,R0lGOA=="));
    assert_eq!(image_data_url(b"texto"), None);
}

#[test]
fn the_screens_are_moved_to_the_surfaces_origin() {
    let rects = [(-1920, 0, 1920, 1080), (0, 0, 2560, 1440)];
    let names = ["A".to_string(), "B".to_string()];
    let l = screen_layout(&rects, &names, 1);
    assert_eq!(l.screens[0].x, 0);
    assert_eq!(l.screens[1].x, 1920);
    assert!(l.screens[1].primary && !l.screens[0].primary);
    assert_eq!(l.width, 1920 + 2560);
    assert_eq!(l.height, 1440);
    assert_eq!(screen_layout(&[], &[], 0).width, 0);
}

#[test]
fn without_a_primary_the_screen_at_the_origin_is_taken() {
    let rects = [(1920, 0, 1920, 1080), (0, 0, 1920, 1080), (0, 0, 800, 600)];
    assert_eq!(primary_index(&rects, None), 1);
    assert_eq!(primary_index(&rects, Some((1920, 0, 1920, 1080))), 0);
    assert_eq!(primary_index(&rects, Some((5, 5, 5, 5))), 1);
    assert_eq!(primary_index(&[], None), 0);
}

#[test]
fn english_only_when_the_locale_says_so() {
    assert_eq!(language_of("en_US.UTF-8"), "en");
    assert_eq!(language_of("en"), "en");
    assert_eq!(language_of("es_AR.UTF-8"), "es");
    assert_eq!(language_of("eng"), "es");
    assert_eq!(language_of(""), "es");
}

/// Whether a colour scheme document has both variants with their `ui`
/// section, as the login screen reads it.
fn utilizable(documento: &str) -> bool {
    let v: serde_json::Value = serde_json::from_str(documento).unwrap();
    let colores = &v["colors"];
    let con_ui = |variante: &str| colores[variante]["ui"].is_object();
    esquema_utilizable(con_ui("dark"), con_ui("light"))
}

#[test]
fn un_esquema_necesita_las_dos_variantes() {
    let completo = r##"{"colors": {
        "dark": { "ui": { "background": "#1e1e2e" } },
        "light": { "ui": { "background": "#eff1f5" } }
    }}"##;
    assert!(utilizable(completo));
}

#[test]
fn un_esquema_con_una_sola_variante_no_sirve() {
    let a_medias = r##"{ "colors": { "dark": { "ui": { "background": "#1e1e2e" } } } }"##;
    assert!(!utilizable(a_medias), "media interfaz quedaría sin color");
}

#[test]
fn un_esquema_sin_ui_no_sirve() {
    let sin_ui = r#"{"colors": { "dark": { "terminal": {} }, "light": { "terminal": {} } }}"#;
    assert!(!utilizable(sin_ui));
}

#[test]
fn un_documento_vacio_no_sirve() {
    assert!(!utilizable("{}"));
}

fn sesion(nombre: &str, tipo: &str) -> Session {
    Session {
        id: format!("{nombre}.desktop"),
        name: nombre.to_string(),
        comment: String::new(),
        command: nombre.to_lowercase(),
        path: String::new(),
        session_type: tipo.to_string(),
        desktop_names: Vec::new(),
    }
}

#[test]
fn wayland_sessions_come_first_then_by_name_ignoring_case() {
    let ordenadas = sort_sessions(vec![
        sesion("i3", "x11"),
        sesion("sway", "wayland"),
        sesion("Hyprland", "wayland"),
        sesion("awesome", "x11"),
        sesion("Vasak", "wayland"),
    ]);
    let nombres: Vec<&str> = ordenadas.iter().map(|s| s.name.as_str()).collect();
    assert_eq!(nombres, vec!["Hyprland", "sway", "Vasak", "awesome", "i3"]);
}

#[test]
fn sessions_with_the_same_name_keep_the_order_they_were_found_in() {
    let mut a = sesion("Plasma", "wayland");
    a.id = "primera".to_string();
    let mut b = sesion("plasma", "wayland");
    b.id = "segunda".to_string();
    let ordenadas = sort_sessions(vec![a, b]);
    assert_eq!(ordenadas[0].id, "primera");
    assert_eq!(ordenadas[1].id, "segunda");
}

fn cuenta(nombre: &str, propio: &str) -> SystemUser {
    SystemUser {
        name: nombre.to_string(),
        real_name: propio.to_string(),
        uid: 1000,
        gid: 1000,
        home: format!("/home/{nombre}"),
        shell: "/bin/bash".to_string(),
        avatar: None,
    }
}

#[test]
fn accounts_are_listed_by_the_name_shown() {
    let ordenadas = sort_users(vec![cuenta("zz", "Ada Lovelace"), cuenta("bob", ""), cuenta("aa", "Zoe")]);
    let nombres: Vec<&str> = ordenadas.iter().map(|u| u.name.as_str()).collect();
    assert_eq!(nombres, vec!["zz", "bob", "aa"]);
}

#[test]
fn a_scheme_needs_both_variants_and_valid_json() {
    let ambas = r##"{"colors":{"dark":{"ui":{"bg":"#000"}},"light":{"ui":{"bg":"#fff"}}}}"##;
    assert!(esquema_de_texto(ambas));
    let una = r##"{"colors":{"dark":{"ui":{"bg":"#000"}}}}"##;
    assert!(!esquema_de_texto(una));
    assert!(!esquema_de_texto("{colors"));
}
