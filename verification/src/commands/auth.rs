//! The conversation with greetd.
//!
//! The greeter runs unprivileged: it does no PAM and drops no privileges. It
//! collects the user name, the password and the session, and drives greetd,
//! which owns the PAM transaction, the seat and the terminal and starts the
//! session once the greeter exits. Here is what to send at each step; the
//! socket, the framing and the JSON are the caller's.

use vstd::prelude::*;
use crate::ruta::{raiz, raiz_o_todo};
use crate::texto::{
    a_string, caracteres, de_textos, palabras, palabras_de, unir, unir_lineas, vista, vista_opcional, vista_textos,
};

verus! {

/// A word of an `Exec=` line that is a field code (`%U`, `%k`): a percent sign
/// and one ASCII character, two bytes in all. `%%` is not one: it is a literal
/// percent sign.
pub open spec fn es_codigo_de_campo(t: Seq<char>) -> bool {
    &&& t.len() == 2
    &&& t[0] == '%'
    &&& (t[1] as u32) < 0x80
    &&& t[1] != '%'
}

/// `s` with each `%%` turned into `%`, left to right, as `str::replace` does.
pub open spec fn sin_porcentaje_doble(s: Seq<char>) -> Seq<char>
    decreases s.len(),
{
    if s.len() == 0 {
        seq![]
    } else if s.len() >= 2 && s[0] == '%' && s[1] == '%' {
        seq!['%'] + sin_porcentaje_doble(s.skip(2))
    } else {
        seq![s[0]] + sin_porcentaje_doble(s.skip(1))
    }
}

/// The words of a command without its field codes, each with `%%` collapsed.
pub open spec fn sin_codigos(ws: Seq<Seq<char>>) -> Seq<Seq<char>>
    decreases ws.len(),
{
    if ws.len() == 0 {
        seq![]
    } else if es_codigo_de_campo(ws.last()) {
        sin_codigos(ws.drop_last())
    } else {
        sin_codigos(ws.drop_last()).push(sin_porcentaje_doble(ws.last()))
    }
}

fn es_codigo(t: &[char]) -> (r: bool)
    ensures
        r == es_codigo_de_campo(t@),
{
    t.len() == 2 && t[0] == '%' && (t[1] as u32) < 0x80 && t[1] != '%'
}

fn colapsar_porcentajes(s: &[char]) -> (r: Vec<char>)
    ensures
        r@ == sin_porcentaje_doble(s@),
{
    let mut r: Vec<char> = Vec::new();
    let mut i: usize = 0;
    assert(s@.skip(0) =~= s@);
    while i < s.len()
        invariant
            i <= s@.len(),
            sin_porcentaje_doble(s@) == r@ + sin_porcentaje_doble(s@.skip(i as int)),
        decreases s@.len() - i,
    {
        let ghost resto = s@.skip(i as int);
        if i + 1 < s.len() && s[i] == '%' && s[i + 1] == '%' {
            r.push('%');
            proof {
                assert(resto.skip(2) =~= s@.skip(i + 2));
                assert(resto[0] == '%' && resto[1] == '%');
            }
            i = i + 2;
        } else {
            r.push(s[i]);
            proof {
                assert(resto.skip(1) =~= s@.skip(i + 1));
                assert(resto[0] == s@[i as int]);
                if resto.len() >= 2 {
                    assert(resto[1] == s@[i + 1]);
                }
            }
            i = i + 1;
        }
    }
    proof {
        assert(s@.skip(i as int).len() == 0);
        assert(r@ + Seq::<char>::empty() =~= r@);
    }
    r
}

/// The words of an `Exec=` line without its desktop-entry field codes (`%U`,
/// `%k`), with `%%` collapsed to `%`.
pub fn strip_field_codes(cmd: &str) -> (r: Vec<String>)
    ensures
        vista_textos(r@) == sin_codigos(palabras(cmd@)),
{
    let c = caracteres(cmd);
    let ws = palabras_de(c.as_slice());
    let ghost v = vista(ws@);
    let mut r: Vec<String> = Vec::new();
    let mut i: usize = 0;
    while i < ws.len()
        invariant
            i <= ws@.len(),
            v == vista(ws@),
            vista_textos(r@) == sin_codigos(v.take(i as int)),
        decreases ws@.len() - i,
    {
        proof {
            assert(v.take(i + 1).drop_last() =~= v.take(i as int));
            assert(v.take(i + 1).last() == ws@[i as int]@);
        }
        if !es_codigo(ws[i].as_slice()) {
            let ghost previo = vista_textos(r@);
            let w = colapsar_porcentajes(ws[i].as_slice());
            r.push(a_string(w.as_slice()));
            proof {
                assert(vista_textos(r@) =~= previo.push(w@));
            }
        }
        i = i + 1;
    }
    proof {
        assert(v.take(ws@.len() as int) =~= v);
    }
    r
}

/// The command greetd runs for a session of this type: an X11 session goes
/// under `startx` (with `env` between them, since `startx` only takes an
/// absolute path there), because greetd hands the command straight to `exec`
/// with no X server behind it.
pub open spec fn envuelto(tipo: Seq<char>, cmd: Seq<Seq<char>>) -> Seq<Seq<char>> {
    if tipo == "x11"@ {
        seq!["startx"@, "/usr/bin/env"@] + cmd
    } else {
        cmd
    }
}

/// Wraps an X11 session so it actually starts; any other runs as it is.
pub fn wrap_for_session_type(session_type: &str, cmd: Vec<String>) -> (r: Vec<String>)
    ensures
        vista_textos(r@) == envuelto(session_type@, vista_textos(cmd@)),
{
    let x11 = String::from_str("x11");
    let tipo = String::from_str(session_type);
    if tipo != x11 {
        return cmd;
    }
    let mut wrapped: Vec<String> = Vec::new();
    wrapped.push(String::from_str("startx"));
    wrapped.push(String::from_str("/usr/bin/env"));
    let ghost w0 = vista_textos(wrapped@);
    let mut resto = cmd;
    let ghost c0 = vista_textos(resto@);
    wrapped.append(&mut resto);
    proof {
        assert(vista_textos(wrapped@) =~= w0 + c0);
        assert(w0 =~= seq!["startx"@, "/usr/bin/env"@]);
    }
    wrapped
}

/// The environment a session identifies itself with: its type, its name (the
/// stem of its file name, what `DESKTOP_SESSION` has always meant) and the
/// desktop names joined by `:`, or the name when it has none.
pub open spec fn entorno(id: Seq<char>, tipo: Seq<char>, nombres: Seq<Seq<char>>) -> Seq<Seq<char>> {
    let nombre = match raiz(id) {
        Some(s) => s,
        None => id,
    };
    let actual = if nombres.len() == 0 {
        nombre
    } else {
        unir(nombres, seq![':'])
    };
    seq![
        "XDG_SESSION_TYPE="@ + tipo,
        "XDG_SESSION_DESKTOP="@ + nombre,
        "DESKTOP_SESSION="@ + nombre,
        "XDG_CURRENT_DESKTOP="@ + actual,
    ]
}

fn con_prefijo(prefijo: &str, resto: &str) -> (r: String)
    ensures
        r@ == prefijo@ + resto@,
{
    let mut r = String::from_str(prefijo);
    r.append(resto);
    r
}

/// Builds the environment the desktop needs to identify itself: without it,
/// portals pick the wrong backend and menus and theming fall back to generic
/// defaults.
pub fn session_environment(session_id: &str, session_type: &str, desktop_names: &[String]) -> (r:
    Vec<String>)
    ensures
        vista_textos(r@) == entorno(session_id@, session_type@, vista_textos(desktop_names@)),
{
    let nombre = raiz_o_todo(session_id);
    let ghost nombre_v = match raiz(session_id@) {
        Some(s) => s,
        None => session_id@,
    };
    let ghost actual_v = if desktop_names@.len() == 0 {
        nombre_v
    } else {
        unir(vista_textos(desktop_names@), seq![':'])
    };
    let actual = if desktop_names.len() == 0 {
        nombre.clone()
    } else {
        let ns = de_textos(desktop_names);
        let sep = vec![':'];
        assert(sep@ =~= seq![':']);
        let unidos = unir_lineas(&ns, sep.as_slice());
        a_string(unidos.as_slice())
    };
    assert(actual@ == actual_v);
    let mut r: Vec<String> = Vec::new();
    r.push(con_prefijo("XDG_SESSION_TYPE=", session_type));
    r.push(con_prefijo("XDG_SESSION_DESKTOP=", nombre.as_str()));
    r.push(con_prefijo("DESKTOP_SESSION=", nombre.as_str()));
    r.push(con_prefijo("XDG_CURRENT_DESKTOP=", actual.as_str()));
    proof {
        assert(vista_textos(r@) =~= entorno(
            session_id@,
            session_type@,
            vista_textos(desktop_names@),
        ));
    }
    r
}

/// What the greeter sends to greetd.
pub enum Peticion {
    CreateSession { username: String },
    PostAuthMessageResponse { response: Option<String> },
    StartSession { cmd: Vec<String>, env: Vec<String> },
    CancelSession,
}

/// What greetd answers.
pub enum Respuesta {
    Success,
    Error { error_type: String, description: String },
    AuthMessage { auth_message_type: String, auth_message: String },
}

/// A request, as values.
pub enum PeticionV {
    CreateSession { username: Seq<char> },
    PostAuthMessageResponse { response: Option<Seq<char>> },
    StartSession { cmd: Seq<Seq<char>>, env: Seq<Seq<char>> },
    CancelSession,
}

/// An answer, as values.
pub enum RespuestaV {
    Success,
    Error { error_type: Seq<char>, description: Seq<char> },
    AuthMessage { auth_message_type: Seq<char>, auth_message: Seq<char> },
}

impl View for Peticion {
    type V = PeticionV;

    open spec fn view(&self) -> PeticionV {
        match self {
            Peticion::CreateSession { username } => PeticionV::CreateSession { username: username@ },
            Peticion::PostAuthMessageResponse { response } => PeticionV::PostAuthMessageResponse {
                response: vista_opcional(*response),
            },
            Peticion::StartSession { cmd, env } => PeticionV::StartSession {
                cmd: vista_textos(cmd@),
                env: vista_textos(env@),
            },
            Peticion::CancelSession => PeticionV::CancelSession,
        }
    }
}

impl View for Respuesta {
    type V = RespuestaV;

    open spec fn view(&self) -> RespuestaV {
        match self {
            Respuesta::Success => RespuestaV::Success,
            Respuesta::Error { error_type, description } => RespuestaV::Error {
                error_type: error_type@,
                description: description@,
            },
            Respuesta::AuthMessage { auth_message_type, auth_message } => RespuestaV::AuthMessage {
                auth_message_type: auth_message_type@,
                auth_message: auth_message@,
            },
        }
    }
}

/// Where a login stands.
#[derive(PartialEq, Eq, Structural)]
pub enum Fase {
    /// Answering the PAM conversation.
    Autenticando,
    /// The session was asked to start.
    Iniciando,
}

/// A login in progress: what was typed and chosen, and the step it is at.
pub struct Ingreso {
    pub username: String,
    pub password: Option<String>,
    pub cmd: String,
    pub session_id: String,
    pub session_type: String,
    pub desktop_names: Vec<String>,
    pub fase: Fase,
}

/// A login, as values.
pub struct IngresoV {
    pub username: Seq<char>,
    pub password: Option<Seq<char>>,
    pub cmd: Seq<char>,
    pub session_id: Seq<char>,
    pub session_type: Seq<char>,
    pub desktop_names: Seq<Seq<char>>,
    pub fase: Fase,
}

impl View for Ingreso {
    type V = IngresoV;

    open spec fn view(&self) -> IngresoV {
        IngresoV {
            username: self.username@,
            password: vista_opcional(self.password),
            cmd: self.cmd@,
            session_id: self.session_id@,
            session_type: self.session_type@,
            desktop_names: vista_textos(self.desktop_names@),
            fase: self.fase,
        }
    }
}

/// What to do after an answer.
pub enum Accion {
    /// Send this and hand back the answer.
    Enviar(Peticion),
    /// Send `CancelSession`, whatever it answers, and fail with this message.
    CancelarYFallar(String),
    /// Fail with this message.
    Fallar(String),
    /// The session starts once the greeter exits: exit.
    Iniciada,
}

/// An action, as values.
pub enum AccionV {
    Enviar(PeticionV),
    CancelarYFallar(Seq<char>),
    Fallar(Seq<char>),
    Iniciada,
}

impl View for Accion {
    type V = AccionV;

    open spec fn view(&self) -> AccionV {
        match self {
            Accion::Enviar(p) => AccionV::Enviar(p@),
            Accion::CancelarYFallar(m) => AccionV::CancelarYFallar(m@),
            Accion::Fallar(m) => AccionV::Fallar(m@),
            Accion::Iniciada => AccionV::Iniciada,
        }
    }
}

/// The message greetd's error becomes: its type and its description.
pub open spec fn mensaje_de_error(tipo: Seq<char>, descripcion: Seq<char>) -> Seq<char> {
    tipo + ": "@ + descripcion
}

/// The next step of a login, given greetd's answer.
///
/// While authenticating, a `secret` prompt is answered with the password (once:
/// it is given away), a `visible` one with the user name, and anything else
/// (information, an error such as an expired account) with nothing. Success
/// asks for the session to start, unless its command is empty; an error
/// cancels. Once the session was asked to start, success means exiting so
/// greetd can take over, and anything else is a failure.
pub open spec fn siguiente(e: IngresoV, r: RespuestaV) -> (IngresoV, AccionV) {
    match e.fase {
        Fase::Autenticando => match r {
            RespuestaV::AuthMessage { auth_message_type, .. } => if auth_message_type == "secret"@ {
                (
                    IngresoV { password: None, ..e },
                    AccionV::Enviar(PeticionV::PostAuthMessageResponse { response: e.password }),
                )
            } else if auth_message_type == "visible"@ {
                (
                    e,
                    AccionV::Enviar(
                        PeticionV::PostAuthMessageResponse { response: Some(e.username) },
                    ),
                )
            } else {
                (e, AccionV::Enviar(PeticionV::PostAuthMessageResponse { response: None }))
            },
            RespuestaV::Success => {
                let cmd = sin_codigos(palabras(e.cmd));
                if cmd.len() == 0 {
                    (e, AccionV::CancelarYFallar("Empty session command"@))
                } else {
                    (
                        IngresoV { fase: Fase::Iniciando, ..e },
                        AccionV::Enviar(
                            PeticionV::StartSession {
                                cmd: envuelto(e.session_type, cmd),
                                env: entorno(e.session_id, e.session_type, e.desktop_names),
                            },
                        ),
                    )
                }
            },
            RespuestaV::Error { error_type, description } => (
                e,
                AccionV::CancelarYFallar(mensaje_de_error(error_type, description)),
            ),
        },
        Fase::Iniciando => match r {
            RespuestaV::Success => (e, AccionV::Iniciada),
            RespuestaV::Error { error_type, description } => (
                e,
                AccionV::Fallar(mensaje_de_error(error_type, description)),
            ),
            RespuestaV::AuthMessage { .. } => (
                e,
                AccionV::Fallar("unexpected auth message after start"@),
            ),
        },
    }
}

/// The password is handed over once. Answering a `secret` prompt leaves no
/// password behind; once there is none, no answer brings it back; and a
/// `secret` prompt is then answered with nothing.
pub proof fn lema_clave_una_vez(e: IngresoV, r: RespuestaV, m: Seq<char>)
    ensures
        e.fase == Fase::Autenticando ==> siguiente(
            e,
            RespuestaV::AuthMessage { auth_message_type: "secret"@, auth_message: m },
        ).0.password is None,
        e.password is None ==> siguiente(e, r).0.password is None,
        e.password is None && e.fase == Fase::Autenticando ==> siguiente(
            e,
            RespuestaV::AuthMessage { auth_message_type: "secret"@, auth_message: m },
        ).1 == AccionV::Enviar(PeticionV::PostAuthMessageResponse { response: None }),
{
}

/// Starts a login: the state it is in, and the first request, which creates a
/// session for the user.
pub fn comenzar(
    username: String,
    password: String,
    cmd: String,
    session_id: String,
    session_type: String,
    desktop_names: Vec<String>,
) -> (r: (Ingreso, Peticion))
    ensures
        r.0@ == (IngresoV {
            username: username@,
            password: Some(password@),
            cmd: cmd@,
            session_id: session_id@,
            session_type: session_type@,
            desktop_names: vista_textos(desktop_names@),
            fase: Fase::Autenticando,
        }),
        r.1@ == (PeticionV::CreateSession { username: username@ }),
{
    let peticion = Peticion::CreateSession { username: username.clone() };
    let ingreso = Ingreso {
        username,
        password: Some(password),
        cmd,
        session_id,
        session_type,
        desktop_names,
        fase: Fase::Autenticando,
    };
    (ingreso, peticion)
}

fn error_de(tipo: &String, descripcion: &String) -> (r: String)
    ensures
        r@ == mensaje_de_error(tipo@, descripcion@),
{
    let mut m = tipo.clone();
    m.append(": ");
    m.append(descripcion.as_str());
    m
}

/// Takes one answer from greetd: what to do next.
pub fn responder(ingreso: &mut Ingreso, respuesta: Respuesta) -> (a: Accion)
    ensures
        (final(ingreso)@, a@) == siguiente(old(ingreso)@, respuesta@),
{
    match ingreso.fase {
        Fase::Autenticando => match respuesta {
            Respuesta::AuthMessage { auth_message_type, .. } => {
                if auth_message_type == String::from_str("secret") {
                    let clave = ingreso.password.take();
                    Accion::Enviar(Peticion::PostAuthMessageResponse { response: clave })
                } else if auth_message_type == String::from_str("visible") {
                    Accion::Enviar(
                        Peticion::PostAuthMessageResponse { response: Some(ingreso.username.clone()) },
                    )
                } else {
                    Accion::Enviar(Peticion::PostAuthMessageResponse { response: None })
                }
            },
            Respuesta::Success => {
                let cmd = strip_field_codes(ingreso.cmd.as_str());
                if cmd.len() == 0 {
                    return Accion::CancelarYFallar(String::from_str("Empty session command"));
                }
                let cmd = wrap_for_session_type(ingreso.session_type.as_str(), cmd);
                let env = session_environment(
                    ingreso.session_id.as_str(),
                    ingreso.session_type.as_str(),
                    ingreso.desktop_names.as_slice(),
                );
                ingreso.fase = Fase::Iniciando;
                Accion::Enviar(Peticion::StartSession { cmd, env })
            },
            Respuesta::Error { error_type, description } => {
                Accion::CancelarYFallar(error_de(&error_type, &description))
            },
        },
        Fase::Iniciando => match respuesta {
            Respuesta::Success => Accion::Iniciada,
            Respuesta::Error { error_type, description } => {
                Accion::Fallar(error_de(&error_type, &description))
            },
            Respuesta::AuthMessage { .. } => {
                Accion::Fallar(String::from_str("unexpected auth message after start"))
            },
        },
    }
}

} // verus!
