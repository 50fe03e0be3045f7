# vasak_session_manager

The logic of the VasakOS session manager, verified with Verus: the login
screen (greeter) and the lock screen, and `config-migrate`, which brings the
package's new configuration options to existing accounts without overwriting
anything.

## Layout

- `src/` — the verified library.
  - `texto.rs`: text as sequences of characters (trimming, lines, words,
    splitting, searching, ordering), with the meaning of each fixed once as a
    spec function.
  - `ruta.rs`: the name, stem and extension of a path.
  - `migracion/`: merging INI files line by line (`ini.rs`), the record of
    what was offered (`estado.rs`), lines a shell file must load
    (`lineas.rs`), replacements of old defaults (`replacements.rs`), and the
    decision taken for each file (`mod.rs`); what a merge keeps and that a
    second one changes nothing, except on a package that binds a shortcut key
    twice in a section with a `command_*` half of its label before the second
    of them, or a file without Windows line endings that ends in a lone
    carriage return (`fusion.rs`),
    and what cleaning up shortcuts may take out, which of repeated lines
    stays, and that a second cleaning removes nothing (`limpieza.rs`).
  - `commands/`: what the login screen decides: the conversation with greetd,
    the sessions, accounts, keyboard layouts, screens, background, colours and
    what is remembered between logins.
  - `lock/`: what the lock screen may show and whether it may lock at all.
  - `idioma.rs`: the language the screens start in.
- `tests/` — the tests, run against the compiled library.
- `app/` — the programs around the library: reading and writing files, the
  greetd socket, PAM, the session bus, GTK and Tauri.

The laws the library keeps are public proof functions next to the
functions they speak of (for instance `lema_fusion_conserva_y_no_reofrece`,
`lema_fusionar_dos_veces`, `lema_limpiar_dos_veces`, `lema_aplicar_dos_veces`,
`lema_asegurar_dos_veces`, `lema_se_lee_lo_que_se_escribe`,
`lema_lo_anotado_no_vuelve`, `lema_lo_borrado_no_vuelve`).
