//! The lock screen: which surface shows the password form, what it may show
//! of the session, and whether the password can be checked at all. Covering
//! the monitors, talking to PAM and to the session bus stay outside.

pub mod auth;
pub mod contexto;

use vstd::prelude::*;
use crate::texto::{a_string, caracteres, empieza, empieza_con, copia};

verus! {

/// The decimal digits of a natural number.
pub open spec fn digitos(n: nat) -> Seq<char>
    decreases n,
{
    if n < 10 {
        seq![(n + 48) as char]
    } else {
        digitos(n / 10) + seq![((n % 10) + 48) as char]
    }
}

/// A number written in decimal, with a minus sign when negative.
pub open spec fn decimal(n: int) -> Seq<char> {
    if n < 0 {
        seq!['-'] + digitos((-n) as nat)
    } else {
        digitos(n as nat)
    }
}

fn digito(d: u64) -> (c: char)
    requires
        d < 10,
    ensures
        c == (d + 48) as char,
{
    if d == 0 {
        '0'
    } else if d == 1 {
        '1'
    } else if d == 2 {
        '2'
    } else if d == 3 {
        '3'
    } else if d == 4 {
        '4'
    } else if d == 5 {
        '5'
    } else if d == 6 {
        '6'
    } else if d == 7 {
        '7'
    } else if d == 8 {
        '8'
    } else {
        '9'
    }
}

fn digitos_de(n: u64) -> (r: Vec<char>)
    ensures
        r@ == digitos(n as nat),
    decreases n,
{
    if n < 10 {
        let mut r: Vec<char> = Vec::new();
        r.push(digito(n));
        r
    } else {
        let mut r = digitos_de(n / 10);
        r.push(digito(n % 10));
        r
    }
}

/// The label of the window on monitor `indice`.
pub fn etiqueta_de(indice: i32) -> (r: String)
    ensures
        r@ == "lock-"@ + decimal(indice as int),
{
    let mut v = caracteres("lock-");
    let ghost prefijo = v@;
    let n = indice as i64;
    if n < 0 {
        v.push('-');
        let d = digitos_de((-n) as u64);
        let mut d = d;
        v.append(&mut d);
    } else {
        let mut d = digitos_de(n as u64);
        v.append(&mut d);
    }
    proof {
        assert(v@ =~= prefijo + decimal(indice as int));
    }
    a_string(v.as_slice())
}

/// The screen that shows the form while the compositor says nothing else: the
/// primary monitor's, or the first one's when none is primary.
pub open spec fn pantalla_de_inicio(primarios: Seq<bool>) -> Seq<char> {
    if exists|i: int| 0 <= i < primarios.len() && primarios[i] {
        "lock-"@ + decimal(choose|i: int| 0 <= i < primarios.len() && primarios[i] && forall|j: int| 0 <= j < i ==> !primarios[j])
    } else {
        "lock-"@ + decimal(0)
    }
}

/// Which screen shows the form at first, given whether each monitor is the
/// primary one. Without this the page showed the form on every screen until
/// the pointer entered one, which with an idle lock, where nobody is touching
/// the mouse, is forever.
pub fn pantalla_inicial(primarios: &[bool]) -> (r: String)
    requires
        primarios@.len() <= i32::MAX,
    ensures
        r@ == pantalla_de_inicio(primarios@),
{
    let mut i: usize = 0;
    while i < primarios.len()
        invariant
            i <= primarios@.len() <= i32::MAX,
            forall|j: int| 0 <= j < i ==> !primarios@[j],
        decreases primarios@.len() - i,
    {
        if primarios[i] {
            proof {
                let k = choose|k: int| 0 <= k < primarios@.len() && primarios@[k] && forall|j: int| 0 <= j < k ==> !primarios@[j];
                if k < i {
                    assert(!primarios@[k]);
                } else if k > i {
                    assert(!primarios@[i as int]);
                }
            }
            return etiqueta_de(i as i32);
        }
        i = i + 1;
    }
    etiqueta_de(0)
}

/// The wallpaper the desktop shows, from the first path of its configuration:
/// without a `file://` in front, and none when nothing is left.
pub open spec fn fondo_configurado(primero: Seq<char>) -> Option<Seq<char>> {
    let p = if empieza(primero, "file://"@) {
        primero.skip(7)
    } else {
        primero
    };
    if p.len() == 0 {
        None
    } else {
        Some(p)
    }
}

/// The wallpaper path given the first entry of the desktop's wallpaper list.
pub fn wallpaper_path(primero: &str) -> (r: Option<String>)
    ensures
        match r {
            Some(p) => fondo_configurado(primero@) == Some(p@),
            None => fondo_configurado(primero@) is None,
        },
{
    let c = caracteres(primero);
    let prefijo = caracteres("file://");
    proof {
        reveal_strlit("file://");
    }
    let p = if empieza_con(c.as_slice(), prefijo.as_slice()) {
        let p = copia(c.as_slice(), 7, c.len());
        assert(p@ =~= c@.skip(7));
        p
    } else {
        c
    };
    if p.len() == 0 {
        None
    } else {
        Some(a_string(p.as_slice()))
    }
}

/// What `serde_json` reads in the text of the desktop's configuration: the
/// string at `/desktop/wallpaper/0`, or `None` when the text is not JSON or
/// nothing there is a string. It depends on the text alone.
pub uninterp spec fn primer_fondo(texto: Seq<char>) -> Option<Seq<char>>;

/// `serde_json::from_str` into a `Value`, then `Value::pointer` at
/// `/desktop/wallpaper/0` and `Value::as_str`.
#[verifier::external_body]
fn leer_primer_fondo(texto: &str) -> (r: Option<String>)
    ensures
        match r {
            Some(p) => primer_fondo(texto@) == Some(p@),
            None => primer_fondo(texto@) is None,
        },
{
    let v: serde_json::Value = serde_json::from_str(texto).ok()?;
    v.pointer("/desktop/wallpaper/0")?.as_str().map(String::from)
}

/// The wallpaper the desktop's configuration names, given its text.
pub fn fondo_de_configuracion(texto: &str) -> (r: Option<String>)
    ensures
        match r {
            Some(p) => primer_fondo(texto@) matches Some(primero) && fondo_configurado(primero)
                == Some(p@),
            None => match primer_fondo(texto@) {
                Some(primero) => fondo_configurado(primero) is None,
                None => true,
            },
        },
{
    match leer_primer_fondo(texto) {
        Some(primero) => wallpaper_path(primero.as_str()),
        None => None,
    }
}

} // verus!
