//! The colours of the login screen.
//!
//! The greeter runs before there is a session, so there is no user setting to
//! read: the colours come from two files the settings application leaves, as
//! administrator, beside the background's. Until they exist, or when one is
//! unreadable or broken, the login screen is drawn with the dark palette it
//! carries: it is a screen nobody can leave, and losing its colours would be
//! losing the way in.

use vstd::prelude::*;
use crate::texto::{
    caracteres, iguales_sin_mayusculas, iguales_sin_mayusculas_en, lineas, primera_con_algo,
    primera_linea_en, a_string, recortado, recorte, vista_opcional,
};

verus! {

/// The first line with something on it, without white space around.
pub fn primera_linea(contenido: &str) -> (r: Option<String>)
    ensures
        vista_opcional(r) == primera_con_algo(lineas(contenido@)),
{
    let c = caracteres(contenido);
    match primera_linea_en(c.as_slice()) {
        Some(v) => Some(a_string(v.as_slice())),
        None => None,
    }
}

/// The theme a value names: `dark` or `light`, ignoring white space around it
/// and ASCII case; anything else names none.
pub open spec fn tema_nombrado(valor: Seq<char>) -> Option<Seq<char>> {
    if iguales_sin_mayusculas(recorte(valor), "dark"@) {
        Some("dark"@)
    } else if iguales_sin_mayusculas(recorte(valor), "light"@) {
        Some("light"@)
    } else {
        None
    }
}

/// `dark` and `light` are the two values there are; anything else is a file
/// written by hand with a mistake, and is ignored.
pub fn tema_valido(valor: &str) -> (r: Option<&'static str>)
    ensures
        match r {
            Some(t) => tema_nombrado(valor@) == Some(t@),
            None => tema_nombrado(valor@) is None,
        },
{
    let v = caracteres(valor);
    let t = recortado(v.as_slice());
    let oscuro = caracteres("dark");
    let claro = caracteres("light");
    if iguales_sin_mayusculas_en(t.as_slice(), oscuro.as_slice()) {
        Some("dark")
    } else if iguales_sin_mayusculas_en(t.as_slice(), claro.as_slice()) {
        Some("light")
    } else {
        None
    }
}

/// The theme a `theme` file gives: the one its first line with something on it
/// names, and `dark` when there is no file, no such line, or no valid name.
pub open spec fn tema_del_archivo(contenido: Option<Seq<char>>) -> Seq<char> {
    match contenido {
        Some(c) => match primera_con_algo(lineas(c)) {
            Some(l) => match tema_nombrado(l) {
                Some(t) => t,
                None => "dark"@,
            },
            None => "dark"@,
        },
        None => "dark"@,
    }
}

/// The theme, given the content of the `theme` file when it could be read.
pub fn tema_de(contenido: Option<&str>) -> (r: &'static str)
    ensures
        r@ == tema_del_archivo(
            match contenido {
                Some(c) => Some(c@),
                None => None,
            },
        ),
{
    match contenido {
        Some(c) => match primera_linea(c) {
            Some(l) => match tema_valido(l.as_str()) {
                Some(t) => t,
                None => "dark",
            },
            None => "dark",
        },
        None => "dark",
    }
}

/// A colour scheme is usable when both variants, dark and light, carry their
/// `ui` section: the page reads from both, and with one missing half the
/// interface would have no colour.
pub fn esquema_utilizable(oscuro_con_ui: bool, claro_con_ui: bool) -> (r: bool)
    ensures
        r == (oscuro_con_ui && claro_con_ui),
{
    oscuro_con_ui && claro_con_ui
}

/// What `serde_json` reads in the text of a colour scheme: `None` when it is
/// not JSON, and otherwise whether `colors.dark.ui` and `colors.light.ui` are
/// objects. It depends on the text alone.
pub uninterp spec fn variantes_de_esquema(texto: Seq<char>) -> Option<(bool, bool)>;

/// `serde_json::from_str` into a `Value`, then `Value::index` down to
/// `colors.dark.ui` and `colors.light.ui` and `Value::is_object` on each:
/// `None` when the text is not JSON.
#[verifier::external_body]
fn leer_variantes(texto: &str) -> (r: Option<(bool, bool)>)
    ensures
        r == variantes_de_esquema(texto@),
{
    let v: serde_json::Value = serde_json::from_str(texto).ok()?;
    let c = &v["colors"];
    Some((c["dark"]["ui"].is_object(), c["light"]["ui"].is_object()))
}

/// Whether the text of `scheme.json` is a scheme the screens can use: JSON
/// with both colour variants.
pub fn esquema_de_texto(texto: &str) -> (r: bool)
    ensures
        r == match variantes_de_esquema(texto@) {
            Some((o, c)) => o && c,
            None => false,
        },
{
    match leer_variantes(texto) {
        Some((o, c)) => esquema_utilizable(o, c),
        None => false,
    }
}

} // verus!
