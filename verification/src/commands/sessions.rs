//! The desktop sessions offered on the login screen, read from their
//! `.desktop` files.

use vstd::prelude::*;
use crate::orden::{orden_estable, ordenar_por_clave, vista_claves, Clave};
use crate::ruta::{extension, extension_en};
use crate::texto::{
    a_string, buscar, caracteres, copia, iguales, iguales_sin_mayusculas, iguales_sin_mayusculas_en,
    indice, lineas, lineas_de, minusculas_de, minusculas_en, partes, piezas_recortadas,
    recortadas_no_vacias, recortado, recorte, vista, vista_textos, es_blanco, sin_blanco_final,
    sin_blanco_inicial,
};

verus! {

/// A session the login screen offers.
pub struct Session {
    pub id: String,
    pub name: String,
    pub comment: String,
    /// The `Exec=` line.
    pub command: String,
    pub path: String,
    /// `"wayland"` or `"x11"`.
    pub session_type: String,
    /// `DesktopNames`, used to set `XDG_CURRENT_DESKTOP` for the session.
    pub desktop_names: Vec<String>,
}

/// The `[Desktop Entry]` group of a session file.
pub struct DesktopEntry {
    pub name: String,
    pub comment: String,
    pub command: String,
    pub try_exec: String,
    pub hidden: bool,
    pub desktop_names: Vec<String>,
}

/// An entry, as values.
pub struct EntradaV {
    pub name: Seq<char>,
    pub comment: Seq<char>,
    pub command: Seq<char>,
    pub try_exec: Seq<char>,
    pub hidden: bool,
    pub desktop_names: Seq<Seq<char>>,
}

impl View for DesktopEntry {
    type V = EntradaV;

    open spec fn view(&self) -> EntradaV {
        EntradaV {
            name: self.name@,
            comment: self.comment@,
            command: self.command@,
            try_exec: self.try_exec@,
            hidden: self.hidden,
            desktop_names: vista_textos(self.desktop_names@),
        }
    }
}

/// The entry with key `k` set to `v`. Either `Hidden` or `NoDisplay` set to
/// `true` (in any case) means "do not offer this"; unknown keys are ignored.
pub open spec fn con_clave(e: EntradaV, k: Seq<char>, v: Seq<char>) -> EntradaV {
    if k == "Name"@ {
        EntradaV { name: v, ..e }
    } else if k == "Comment"@ {
        EntradaV { comment: v, ..e }
    } else if k == "Exec"@ {
        EntradaV { command: v, ..e }
    } else if k == "TryExec"@ {
        EntradaV { try_exec: v, ..e }
    } else if k == "Hidden"@ || k == "NoDisplay"@ {
        if iguales_sin_mayusculas(v, "true"@) {
            EntradaV { hidden: true, ..e }
        } else {
            e
        }
    } else if k == "DesktopNames"@ {
        EntradaV { desktop_names: recortadas_no_vacias(partes(v, ';')), ..e }
    } else {
        e
    }
}

/// Reading a file: the entry so far, and whether the lines are in the
/// `[Desktop Entry]` group.
pub struct LecturaV {
    pub entrada: EntradaV,
    pub en_grupo: bool,
}

/// One more line read. Blank lines and comments say nothing; a group header
/// says which group follows; inside `[Desktop Entry]`, a `key=value` line sets
/// the key, both trimmed, except a localised key such as `Name[es]`: the
/// greeter runs before any locale is known, so the plain key is the one.
pub open spec fn leer_linea(l: LecturaV, linea: Seq<char>) -> LecturaV {
    let t = recorte(linea);
    if t.len() == 0 || t[0] == '#' {
        l
    } else if t[0] == '[' {
        LecturaV { en_grupo: t == "[Desktop Entry]"@, ..l }
    } else if !l.en_grupo {
        l
    } else {
        let i = indice(t, '=');
        if i >= t.len() {
            l
        } else {
            let k = recorte(t.take(i));
            let v = recorte(t.skip(i + 1));
            if indice(k, '[') < k.len() {
                l
            } else {
                LecturaV { entrada: con_clave(l.entrada, k, v), ..l }
            }
        }
    }
}

/// The state reading starts from.
pub open spec fn lectura_vacia() -> LecturaV {
    LecturaV {
        entrada: EntradaV {
            name: seq![],
            comment: seq![],
            command: seq![],
            try_exec: seq![],
            hidden: false,
            desktop_names: seq![],
        },
        en_grupo: false,
    }
}

/// The lines read one after the other.
pub open spec fn lectura(ls: Seq<Seq<char>>) -> LecturaV
    decreases ls.len(),
{
    if ls.len() == 0 {
        lectura_vacia()
    } else {
        leer_linea(lectura(ls.drop_last()), ls.last())
    }
}

/// The session a file describes: none when it has no name or no command, or
/// when it asks not to be shown.
pub open spec fn entrada_de(contenido: Seq<char>) -> Option<EntradaV> {
    let e = lectura(lineas(contenido)).entrada;
    if e.name.len() == 0 || e.command.len() == 0 || e.hidden {
        None
    } else {
        Some(e)
    }
}

fn poner_clave(e: &mut DesktopEntry, k: &[char], v: &[char])
    ensures
        final(e)@ == con_clave(old(e)@, k@, v@),
{
    let nombre = caracteres("Name");
    let comentario = caracteres("Comment");
    let orden = caracteres("Exec");
    let prueba = caracteres("TryExec");
    let oculta = caracteres("Hidden");
    let sin_mostrar = caracteres("NoDisplay");
    let nombres = caracteres("DesktopNames");
    let verdadero = caracteres("true");
    if iguales(k, nombre.as_slice()) {
        e.name = a_string(v);
    } else if iguales(k, comentario.as_slice()) {
        e.comment = a_string(v);
    } else if iguales(k, orden.as_slice()) {
        e.command = a_string(v);
    } else if iguales(k, prueba.as_slice()) {
        e.try_exec = a_string(v);
    } else if iguales(k, oculta.as_slice()) || iguales(k, sin_mostrar.as_slice()) {
        if iguales_sin_mayusculas_en(v, verdadero.as_slice()) {
            e.hidden = true;
        }
    } else if iguales(k, nombres.as_slice()) {
        e.desktop_names = piezas_recortadas(v, ';');
    }
}

/// Reads the `[Desktop Entry]` group of a session file's content.
///
/// Only that group counts: a `Name=` in a trailing action group used to win
/// over the real one, and the session was listed under the wrong label.
/// `None` when the entry has no name or no command, or is hidden.
pub fn parse_desktop_entry(content: &str) -> (r: Option<DesktopEntry>)
    ensures
        match r {
            Some(e) => entrada_de(content@) == Some(e@),
            None => entrada_de(content@) is None,
        },
{
    let c = caracteres(content);
    let ls = lineas_de(c.as_slice());
    let ghost v = vista(ls@);
    let grupo = caracteres("[Desktop Entry]");
    let mut e = DesktopEntry {
        name: String::new(),
        comment: String::new(),
        command: String::new(),
        try_exec: String::new(),
        hidden: false,
        desktop_names: Vec::new(),
    };
    let mut en_grupo = false;
    let mut i: usize = 0;
    proof {
        assert(vista_textos(e.desktop_names@) =~= Seq::<Seq<char>>::empty());
        assert(v.take(0) =~= Seq::<Seq<char>>::empty());
    }
    while i < ls.len()
        invariant
            i <= ls@.len(),
            v == vista(ls@),
            v == lineas(content@),
            grupo@ == "[Desktop Entry]"@,
            lectura(v.take(i as int)) == (LecturaV { entrada: e@, en_grupo }),
        decreases ls@.len() - i,
    {
        proof {
            assert(v.take(i + 1).drop_last() =~= v.take(i as int));
            assert(v.take(i + 1).last() == ls@[i as int]@);
        }
        let t = recortado(ls[i].as_slice());
        if t.len() == 0 || t[0] == '#' {
        } else if t[0] == '[' {
            en_grupo = iguales(t.as_slice(), grupo.as_slice());
        } else if en_grupo {
            match buscar(t.as_slice(), '=') {
                None => {},
                Some(j) => {
                    let k = recortado(copia(t.as_slice(), 0, j).as_slice());
                    let val = recortado(copia(t.as_slice(), j + 1, t.len()).as_slice());
                    proof {
                        assert(t@.subrange(0, j as int) =~= t@.take(j as int));
                        assert(t@.subrange(j + 1, t@.len() as int) =~= t@.skip(j + 1));
                    }
                    match buscar(k.as_slice(), '[') {
                        Some(_) => {},
                        None => {
                            poner_clave(&mut e, k.as_slice(), val.as_slice());
                        },
                    }
                },
            }
        }
        i = i + 1;
    }
    proof {
        assert(v.take(ls@.len() as int) =~= v);
    }
    if e.name.as_str().is_empty() || e.command.as_str().is_empty() || e.hidden {
        return None;
    }
    Some(e)
}

/// Whether a file is a session file: its name ends in `.desktop`.
pub fn is_desktop_file(path: &str) -> (r: bool)
    ensures
        r == (extension(path@) == Some("desktop"@)),
{
    let c = caracteres(path);
    let d = caracteres("desktop");
    match extension_en(c.as_slice()) {
        Some(e) => iguales(e.as_slice(), d.as_slice()),
        None => false,
    }
}

/// The session a parsed entry offers, found as file `id` at `path` in the
/// directory of sessions of type `session_type`.
pub fn session_from(id: String, path: String, session_type: String, entry: DesktopEntry) -> (r:
    Session)
    ensures
        r.id@ == id@,
        r.path@ == path@,
        r.session_type@ == session_type@,
        r.name@ == entry@.name,
        r.comment@ == entry@.comment,
        r.command@ == entry@.command,
        vista_textos(r.desktop_names@) == entry@.desktop_names,
{
    Session {
        id,
        name: entry.name,
        comment: entry.comment,
        command: entry.command,
        path,
        session_type,
        desktop_names: entry.desktop_names,
    }
}

/// The key sessions are listed by: Wayland first (VasakOS is a Wayland
/// desktop, and the first entry is the one preselected), then by name
/// ignoring case.
pub open spec fn clave_de_sesion(s: Session) -> Clave {
    (s.session_type@ != "wayland"@, minusculas_de(s.name@))
}

/// The keys of the list, in order.
pub open spec fn claves_de_sesiones(v: Seq<Session>) -> Seq<Clave> {
    v.map_values(|s: Session| clave_de_sesion(s))
}

/// The sessions in the order they are offered: by their key, and those with
/// the same key in the order they were found.
pub fn sort_sessions(sessions: Vec<Session>) -> (r: Vec<Session>)
    ensures
        exists|p: Seq<int>|
            #![trigger orden_estable(p, claves_de_sesiones(sessions@))]
            orden_estable(p, claves_de_sesiones(sessions@)) && r@.len()
                == sessions@.len() && forall|k: int| 0 <= k < r@.len() ==> r@[k] == sessions@[p[k]],
{
    let ghost objetivo = claves_de_sesiones(sessions@);
    let w = String::from_str("wayland");
    let mut claves: Vec<(bool, Vec<char>)> = Vec::new();
    let mut i: usize = 0;
    while i < sessions.len()
        invariant
            i <= sessions@.len(),
            w@ == "wayland"@,
            objetivo == claves_de_sesiones(sessions@),
            vista_claves(claves@) == objetivo.take(i as int),
        decreases sessions@.len() - i,
    {
        let s = &sessions[i];
        let nombre = caracteres(s.name.as_str());
        let k = (s.session_type != w, minusculas_en(nombre.as_slice()));
        let ghost previo = vista_claves(claves@);
        let ghost kv = (k.0, k.1@);
        assert(kv == clave_de_sesion(*s));
        claves.push(k);
        proof {
            assert(vista_claves(claves@) =~= previo.push(kv));
            assert(objetivo[i as int] == clave_de_sesion(sessions@[i as int]));
            assert(vista_claves(claves@) =~= objetivo.take(i + 1));
        }
        i = i + 1;
    }
    proof {
        assert(objetivo.take(sessions@.len() as int) =~= objetivo);
    }
    ordenar_por_clave(sessions, claves)
}

/// Taking white space off the end before trimming changes nothing: the text
/// left at the end goes in either case.
proof fn lema_final_antes_de_recortar(v: Seq<char>)
    ensures
        recorte(sin_blanco_final(v)) == recorte(v),
    decreases v.len(),
{
    if v.len() > 0 && es_blanco(v.last()) {
        lema_final_antes_de_recortar(v.drop_last());
        lema_final_blanco(v);
    }
}

/// A text that ends in white space trims as it does without that last
/// character.
proof fn lema_final_blanco(v: Seq<char>)
    requires
        v.len() > 0,
        es_blanco(v.last()),
    ensures
        sin_blanco_final(sin_blanco_inicial(v)) == sin_blanco_final(sin_blanco_inicial(v.drop_last())),
    decreases v.len(),
{
    if v.len() == 1 {
        assert(v.drop_last() =~= Seq::<char>::empty());
        assert(sin_blanco_inicial(v.drop_first()) =~= Seq::<char>::empty());
    } else if es_blanco(v[0]) {
        let w = v.drop_first();
        assert(w.last() == v.last());
        lema_final_blanco(w);
        assert(w.drop_last() =~= v.drop_last().drop_first());
        assert(v.drop_last()[0] == v[0]);
    } else {
        assert(v.drop_last()[0] == v[0]);
        assert(sin_blanco_inicial(v) == v);
        assert(sin_blanco_inicial(v.drop_last()) == v.drop_last());
    }
}

/// White space at the end of what follows a text that ends in something else
/// is all the white space at its end.
proof fn lema_final_tras_prefijo(x: Seq<char>, v: Seq<char>)
    requires
        x.len() > 0,
        !es_blanco(x.last()),
    ensures
        sin_blanco_final(x + v) == x + sin_blanco_final(v),
    decreases v.len(),
{
    if v.len() > 0 && es_blanco(v.last()) {
        assert((x + v).drop_last() =~= x + v.drop_last());
        lema_final_tras_prefijo(x, v.drop_last());
    } else if v.len() == 0 {
        assert(x + v =~= x);
        assert(x + sin_blanco_final(v) =~= x);
    } else {
        assert((x + v).last() == v.last());
    }
}

/// Inside `[Desktop Entry]`, a line `key=value` sets the key to the value:
/// the key is what comes before the line's first `=`, and the value all that
/// follows it, trimmed, whatever it holds (an `=` too, as in
/// `Exec=env XDG_CURRENT_DESKTOP=sway sway`).
pub proof fn lema_clave_hasta_el_primer_igual(l: LecturaV, k: Seq<char>, v: Seq<char>)
    requires
        l.en_grupo,
        k.len() > 0,
        recorte(k) == k,
        k[0] != '#',
        k[0] != '[',
        forall|i: int| 0 <= i < k.len() ==> #[trigger] k[i] != '=' && k[i] != '[',
    ensures
        leer_linea(l, k + seq!['='] + v) == (LecturaV {
            entrada: con_clave(l.entrada, k, recorte(v)),
            en_grupo: true,
        }),
{
    let x = k + seq!['='];
    let linea = x + v;
    assert(k + seq!['='] + v == linea);
    // `k` starts and ends with something that is not white space.
    crate::texto::lema_sin_blanco_inicial_idempotente(k);
    assert(!es_blanco(k[0])) by {
        if es_blanco(k[0]) {
            assert(sin_blanco_inicial(k) == sin_blanco_inicial(k.drop_first()));
            crate::texto::lema_largo_sin_blanco_inicial(k);
            assert(recorte(k).len() <= sin_blanco_inicial(k).len()) by {
                crate::texto::lema_largo_sin_blanco_final(sin_blanco_inicial(k));
            }
        }
    }
    assert(linea[0] == k[0]);
    assert(sin_blanco_inicial(linea) == linea);
    assert(x.last() == '=');
    assert(!es_blanco('='));
    lema_final_tras_prefijo(x, v);
    let t = recorte(linea);
    assert(t == x + sin_blanco_final(v));
    let n = k.len() as int;
    assert forall|j: int| 0 <= j < n implies t[j] != '=' by {
        assert(t[j] == k[j]);
    }
    assert(t[n] == '=');
    crate::texto::lema_indice(t, '=', n);
    assert(indice(t, '=') == n);
    assert(t.take(n) =~= k);
    assert(t.skip(n + 1) =~= sin_blanco_final(v));
    lema_final_antes_de_recortar(v);
    crate::texto::lema_indice_es_el_primero(k, '[');
    assert(indice(k, '[') >= k.len());
    assert(t.len() > 0 && t[0] == k[0]);
}

} // verus!
