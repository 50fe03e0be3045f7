//! What keyboard layout the login screen is typing in.
//!
//! The greeter cannot change the keymap: the compositor owns it. What it can do
//! is say which layout is active, because a password typed on an unexpected
//! layout is invisible in a password field and looks exactly like a forgotten
//! one.

use vstd::prelude::*;
use crate::texto::{
    a_string, caracteres, copia, empieza, empieza_con, iguales_sin_mayusculas,
    iguales_sin_mayusculas_en, limites_recorte, lineas, lineas_de, partes, partir,
    piezas_recortadas, recortadas_no_vacias, recortado, recorte, sin_blanco_al_inicio,
    sin_blanco_inicial, vista, vista_textos, lema_partes_alguna,
};

verus! {

/// The layouts the compositor was given, and whether there is more than one.
pub struct KeyboardLayout {
    /// Every layout, in switching order.
    pub layouts: Vec<String>,
    /// True when more than one is available, so the page can mention the
    /// shortcut.
    pub switchable: bool,
}

/// A list of layouts, split at commas, each trimmed, without empty ones.
pub fn parse_layouts(value: &str) -> (r: Vec<String>)
    ensures
        vista_textos(r@) == recortadas_no_vacias(partes(value@, ',')),
{
    let v = caracteres(value);
    piezas_recortadas(v.as_slice(), ',')
}

/// The pieces that are not only white space, as they are.
pub open spec fn con_contenido(ps: Seq<Seq<char>>) -> Seq<Seq<char>>
    decreases ps.len(),
{
    if ps.len() == 0 {
        seq![]
    } else if recorte(ps.last()).len() > 0 {
        con_contenido(ps.drop_last()).push(ps.last())
    } else {
        con_contenido(ps.drop_last())
    }
}

/// The value a line gives to option `clave`: the line is
/// `Option "<key>" "<value>"`, the key compared ignoring ASCII case, and the
/// value trimmed and not empty.
pub open spec fn opcion_en_linea(l: Seq<char>, clave: Seq<char>) -> Option<Seq<char>> {
    let t = recorte(l);
    if !empieza(t, "Option"@) {
        None
    } else {
        let ps = con_contenido(partes(sin_blanco_inicial(t.skip(6)), '"'));
        if ps.len() < 2 || !iguales_sin_mayusculas(ps[0], clave) {
            None
        } else if recorte(ps[1]).len() == 0 {
            None
        } else {
            Some(recorte(ps[1]))
        }
    }
}

/// The value of option `clave` in the first line that gives it one.
pub open spec fn opcion_en(ls: Seq<Seq<char>>, clave: Seq<char>) -> Option<Seq<char>>
    decreases ls.len(),
{
    if ls.len() == 0 {
        None
    } else {
        match opcion_en_linea(ls[0], clave) {
            Some(v) => Some(v),
            None => opcion_en(ls.drop_first(), clave),
        }
    }
}

fn pedazos_con_contenido(v: &[char], c: char) -> (r: Vec<Vec<char>>)
    ensures
        vista(r@) == con_contenido(partes(v@, c)),
{
    let ps = partir(v, c);
    let ghost pv = vista(ps@);
    let mut r: Vec<Vec<char>> = Vec::new();
    let mut i: usize = 0;
    while i < ps.len()
        invariant
            i <= ps@.len(),
            pv == vista(ps@),
            vista(r@) == con_contenido(pv.take(i as int)),
        decreases ps@.len() - i,
    {
        proof {
            assert(pv.take(i + 1).drop_last() =~= pv.take(i as int));
            assert(pv.take(i + 1).last() == ps@[i as int]@);
        }
        let (a, b) = limites_recorte(ps[i].as_slice());
        if a < b {
            let ghost previo = vista(r@);
            let p = copia(ps[i].as_slice(), 0, ps[i].len());
            assert(p@ =~= ps@[i as int]@);
            r.push(p);
            proof {
                assert(vista(r@) =~= previo.push(pv[i as int]));
            }
        }
        i = i + 1;
    }
    proof {
        assert(pv.take(ps@.len() as int) =~= pv);
    }
    r
}

fn opcion_de_linea(l: &[char], clave: &[char]) -> (r: Option<Vec<char>>)
    ensures
        match r {
            Some(v) => opcion_en_linea(l@, clave@) == Some(v@),
            None => opcion_en_linea(l@, clave@) is None,
        },
{
    let t = recortado(l);
    let opcion = caracteres("Option");
    proof {
        reveal_strlit("Option");
    }
    if !empieza_con(t.as_slice(), opcion.as_slice()) {
        return None;
    }
    let resto = copia(t.as_slice(), 6, t.len());
    assert(resto@ =~= t@.skip(6));
    let resto = sin_blanco_al_inicio(resto.as_slice());
    let ps = pedazos_con_contenido(resto.as_slice(), '"');
    if ps.len() < 2 || !iguales_sin_mayusculas_en(ps[0].as_slice(), clave) {
        return None;
    }
    let v = recortado(ps[1].as_slice());
    if v.len() == 0 {
        return None;
    }
    Some(v)
}

/// Reads `Option "<key>" "<value>"` out of the X keyboard configuration, which
/// is what `localectl` writes and what the launcher reads too.
pub fn xorg_keyboard_option(content: &str, key: &str) -> (r: Option<String>)
    ensures
        match r {
            Some(v) => opcion_en(lineas(content@), key@) == Some(v@),
            None => opcion_en(lineas(content@), key@) is None,
        },
{
    let c = caracteres(content);
    let k = caracteres(key);
    let ls = lineas_de(c.as_slice());
    let ghost v = vista(ls@);
    let mut i: usize = 0;
    assert(v.skip(0) =~= v);
    while i < ls.len()
        invariant
            i <= ls@.len(),
            v == vista(ls@),
            v == lineas(content@),
            k@ == key@,
            opcion_en(v, key@) == opcion_en(v.skip(i as int), key@),
        decreases ls@.len() - i,
    {
        assert(v.skip(i as int).len() > 0);
        assert(v.skip(i as int)[0] == ls@[i as int]@);
        match opcion_de_linea(ls[i].as_slice(), k.as_slice()) {
            Some(valor) => {
                return Some(a_string(valor.as_slice()));
            },
            None => {},
        }
        assert(v.skip(i as int).drop_first() =~= v.skip(i + 1));
        i = i + 1;
    }
    None
}

/// `s` without the double quotes at either end, as `trim_matches('"')` leaves
/// it.
pub open spec fn sin_comillas(s: Seq<char>) -> Seq<char>
    decreases s.len(),
{
    if s.len() > 0 && s[0] == '"' {
        sin_comillas(s.drop_first())
    } else if s.len() > 0 && s.last() == '"' {
        sin_comillas(s.drop_last())
    } else {
        s
    }
}

/// The console keymap a line of `vconsole.conf` names: `KEYMAP=` and the value,
/// without quotes and without the variant after a `-` (console keymaps carry
/// variants the XKB names do not have, such as `es-dvorak`).
pub open spec fn keymap_en_linea(l: Seq<char>) -> Option<Seq<char>> {
    let t = recorte(l);
    if !empieza(t, "KEYMAP="@) {
        None
    } else {
        let base = recorte(partes(sin_comillas(t.skip(7)), '-')[0]);
        if base.len() == 0 {
            None
        } else {
            Some(base)
        }
    }
}

/// The keymap of the first line that names one.
pub open spec fn keymap_en(ls: Seq<Seq<char>>) -> Option<Seq<char>>
    decreases ls.len(),
{
    if ls.len() == 0 {
        None
    } else {
        match keymap_en_linea(ls[0]) {
            Some(v) => Some(v),
            None => keymap_en(ls.drop_first()),
        }
    }
}

fn quitar_comillas(s: &[char]) -> (r: Vec<char>)
    ensures
        r@ == sin_comillas(s@),
{
    let mut a: usize = 0;
    let mut b: usize = s.len();
    assert(s@.subrange(0, s@.len() as int) =~= s@);
    while a < b && (s[a] == '"' || s[b - 1] == '"')
        invariant
            a <= b <= s@.len(),
            sin_comillas(s@) == sin_comillas(s@.subrange(a as int, b as int)),
        decreases b - a,
    {
        let ghost t = s@.subrange(a as int, b as int);
        if s[a] == '"' {
            assert(t[0] == '"');
            assert(t.drop_first() =~= s@.subrange(a + 1, b as int));
            a = a + 1;
        } else {
            assert(t[0] != '"');
            assert(t.last() == '"');
            assert(t.drop_last() =~= s@.subrange(a as int, b - 1));
            b = b - 1;
        }
    }
    let r = copia(s, a, b);
    proof {
        let t = s@.subrange(a as int, b as int);
        if t.len() > 0 {
            assert(t[0] == s@[a as int]);
            assert(t.last() == s@[b - 1]);
        }
    }
    r
}

fn keymap_de_linea(l: &[char]) -> (r: Option<Vec<char>>)
    ensures
        match r {
            Some(v) => keymap_en_linea(l@) == Some(v@),
            None => keymap_en_linea(l@) is None,
        },
{
    let t = recortado(l);
    let prefijo = caracteres("KEYMAP=");
    proof {
        reveal_strlit("KEYMAP=");
    }
    if !empieza_con(t.as_slice(), prefijo.as_slice()) {
        return None;
    }
    let resto = copia(t.as_slice(), 7, t.len());
    assert(resto@ =~= t@.skip(7));
    let valor = quitar_comillas(resto.as_slice());
    let ps = partir(valor.as_slice(), '-');
    proof {
        lema_partes_alguna(valor@, '-');
    }
    assert(vista(ps@)[0] == ps@[0]@);
    let base = recortado(ps[0].as_slice());
    if base.len() == 0 {
        return None;
    }
    Some(base)
}

/// The keymap `vconsole.conf` names, without its variant.
pub fn vconsole_keymap(content: &str) -> (r: Option<String>)
    ensures
        match r {
            Some(v) => keymap_en(lineas(content@)) == Some(v@),
            None => keymap_en(lineas(content@)) is None,
        },
{
    let c = caracteres(content);
    let ls = lineas_de(c.as_slice());
    let ghost v = vista(ls@);
    let mut i: usize = 0;
    assert(v.skip(0) =~= v);
    while i < ls.len()
        invariant
            i <= ls@.len(),
            v == vista(ls@),
            v == lineas(content@),
            keymap_en(v) == keymap_en(v.skip(i as int)),
        decreases ls@.len() - i,
    {
        assert(v.skip(i as int).len() > 0);
        assert(v.skip(i as int)[0] == ls@[i as int]@);
        match keymap_de_linea(ls[i].as_slice()) {
            Some(valor) => {
                return Some(a_string(valor.as_slice()));
            },
            None => {},
        }
        assert(v.skip(i as int).drop_first() =~= v.skip(i + 1));
        i = i + 1;
    }
    None
}

/// The layouts, best source first: what the launcher exported (literally what
/// the keymap was built from), when it names any; then the X keyboard
/// configuration; then the console keymap; and `us` when nothing says.
pub open spec fn distribuciones(
    entorno: Option<Seq<char>>,
    xorg: Option<Seq<char>>,
    vconsole: Option<Seq<char>>,
) -> Seq<Seq<char>> {
    let del_entorno = match entorno {
        Some(e) => recortadas_no_vacias(partes(e, ',')),
        None => seq![],
    };
    if del_entorno.len() > 0 {
        del_entorno
    } else {
        let de_xorg = match xorg {
            Some(x) => opcion_en(lineas(x), "XkbLayout"@),
            None => None,
        };
        match de_xorg {
            Some(v) => recortadas_no_vacias(partes(v, ',')),
            None => {
                let de_consola = match vconsole {
                    Some(c) => keymap_en(lineas(c)),
                    None => None,
                };
                match de_consola {
                    Some(k) => seq![k],
                    None => seq!["us"@],
                }
            },
        }
    }
}

/// The layout the login screen types in, given `XKB_DEFAULT_LAYOUT` and the
/// contents of the X keyboard configuration and of `vconsole.conf`, each when
/// there is one.
pub fn keyboard_layout(
    entorno: Option<&str>,
    xorg: Option<&str>,
    vconsole: Option<&str>,
) -> (r: KeyboardLayout)
    ensures
        vista_textos(r.layouts@) == distribuciones(
            match entorno {
                Some(e) => Some(e@),
                None => None,
            },
            match xorg {
                Some(x) => Some(x@),
                None => None,
            },
            match vconsole {
                Some(c) => Some(c@),
                None => None,
            },
        ),
        r.switchable == (r.layouts@.len() > 1),
{
    let mut layouts: Vec<String> = match entorno {
        Some(e) => parse_layouts(e),
        None => Vec::new(),
    };
    if layouts.len() == 0 {
        let de_xorg = match xorg {
            Some(x) => xorg_keyboard_option(x, "XkbLayout"),
            None => None,
        };
        layouts = match de_xorg {
            Some(v) => parse_layouts(v.as_str()),
            None => {
                let de_consola = match vconsole {
                    Some(c) => vconsole_keymap(c),
                    None => None,
                };
                match de_consola {
                    Some(k) => {
                        let mut l: Vec<String> = Vec::new();
                        l.push(k);
                        l
                    },
                    None => {
                        let mut l: Vec<String> = Vec::new();
                        l.push(String::from_str("us"));
                        l
                    },
                }
            },
        };
    }
    proof {
        assert(vista_textos(layouts@) =~= distribuciones(
            match entorno {
                Some(e) => Some(e@),
                None => None,
            },
            match xorg {
                Some(x) => Some(x@),
                None => None,
            },
            match vconsole {
                Some(c) => Some(c@),
                None => None,
            },
        ));
    }
    let switchable = layouts.len() > 1;
    KeyboardLayout { layouts, switchable }
}

/// Where the layouts come from, in order: `XKB_DEFAULT_LAYOUT` when it names
/// any; else the X keyboard configuration's `XkbLayout`, whatever
/// `vconsole.conf` says (localectl writes both, and the X one is the one the
/// graphical session uses); else the console keymap; else `us`. So the
/// console's file only matters when neither of the others says anything, and
/// the X configuration only when the environment says nothing.
pub proof fn lema_de_donde_sale_la_distribucion(
    entorno: Option<Seq<char>>,
    xorg: Option<Seq<char>>,
    vconsole: Option<Seq<char>>,
    otra_consola: Option<Seq<char>>,
    otro_xorg: Option<Seq<char>>,
)
    ensures
        entorno is Some && recortadas_no_vacias(partes(entorno->0, ',')).len() > 0 ==> distribuciones(
            entorno,
            xorg,
            vconsole,
        ) == recortadas_no_vacias(partes(entorno->0, ',')) && distribuciones(entorno, xorg, vconsole)
            == distribuciones(entorno, otro_xorg, otra_consola),
        (entorno is None || recortadas_no_vacias(partes(entorno->0, ',')).len() == 0) && xorg is Some
            && opcion_en(lineas(xorg->0), "XkbLayout"@) is Some ==> distribuciones(entorno, xorg, vconsole)
            == recortadas_no_vacias(partes(opcion_en(lineas(xorg->0), "XkbLayout"@)->0, ','))
            && distribuciones(entorno, xorg, vconsole) == distribuciones(entorno, xorg, otra_consola),
        (entorno is None || recortadas_no_vacias(partes(entorno->0, ',')).len() == 0) && (xorg is None
            || opcion_en(lineas(xorg->0), "XkbLayout"@) is None) ==> distribuciones(entorno, xorg, vconsole)
            == (if vconsole is Some && keymap_en(lineas(vconsole->0)) is Some {
            seq![keymap_en(lineas(vconsole->0))->0]
        } else {
            seq!["us"@]
        }),
{
}

} // verus!
