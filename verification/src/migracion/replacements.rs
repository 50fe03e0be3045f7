//! Changing a value the package put there, and only that one.
//!
//! The rule of the whole migration still holds: **a value already there is
//! never changed**. But it has a hole: when the package changes a default, an
//! existing account keeps the old one forever. With a shortcut that is worse
//! than lagging behind, so a short list of replacements says which old default
//! gives way to which new one.
//!
//! A replacement applies **only when the current value is exactly what the
//! previous version of the package brought**: anything else was chosen by the
//! person. It is done once (it is recorded with the offered keys), never over
//! a shortcut already bound to something else, and only on the named key in
//! its section.

use vstd::prelude::*;
use crate::migracion::estado::{Clave, ClaveV, Registro, vista_clave};
use crate::migracion::ini::{
    combo, combos_de_partes, lema_combo_y_menor, lleva_salto_final, rearmar,
    asignaciones, asignaciones_de, combos, combos_en, es_igual_a, seccion_de, seccion_en_linea,
    terminador, terminador_en, tiene, tiene_en, vista_asignaciones, AsignacionV,
};
use crate::texto::{
    a_string, agregar, buscar, caracteres, copia, iguales, indice, lineas, lineas_de, recortado,
    recorte, unir, unir_lineas, vista, sin_blanco_inicial, sin_blanco_final, sin_caracter,
    lema_partes_sin, es_blanco, contiene,
};
use crate::migracion::fusion::{crlf, lema_lineas_del_usuario, lema_lineas_sin_salto, lineas_escribibles};
use crate::migracion::limpieza::{lema_lineas_desde_menos_ultima, lema_rearmar_lineas};

verus! {

/// The section replacements are recorded under, a name no section of a real
/// INI can have.
pub const REPLACEMENT_SECTION: &'static str = "@reemplazo";

/// A value of the package that changed from one version to the next.
#[derive(Debug, Clone, PartialEq, Eq)]
pub struct Replacement {
    /// The file, relative to the home.
    pub archivo: &'static str,
    pub seccion: &'static str,
    pub clave: &'static str,
    /// The value the package brought before. **It is only replaced if it is
    /// this one.**
    pub anterior: &'static str,
    /// The one it brings now.
    pub nuevo: &'static str,
}

/// A replacement, as values.
pub struct ReemplazoV {
    pub archivo: Seq<char>,
    pub seccion: Seq<char>,
    pub clave: Seq<char>,
    pub anterior: Seq<char>,
    pub nuevo: Seq<char>,
}

impl View for Replacement {
    type V = ReemplazoV;

    open spec fn view(&self) -> ReemplazoV {
        ReemplazoV {
            archivo: self.archivo@,
            seccion: self.seccion@,
            clave: self.clave@,
            anterior: self.anterior@,
            nuevo: self.nuevo@,
        }
    }
}

/// What was replaced, to report it.
#[derive(Debug, Clone, PartialEq, Eq)]
pub struct Aplicado {
    pub seccion: String,
    pub clave: String,
    pub anterior: String,
    pub nuevo: String,
}

/// What was replaced, as values.
pub struct AplicadoV {
    pub seccion: Seq<char>,
    pub clave: Seq<char>,
    pub anterior: Seq<char>,
    pub nuevo: Seq<char>,
}

impl View for Aplicado {
    type V = AplicadoV;

    open spec fn view(&self) -> AplicadoV {
        AplicadoV {
            seccion: self.seccion@,
            clave: self.clave@,
            anterior: self.anterior@,
            nuevo: self.nuevo@,
        }
    }
}

/// The replacements, as values.
pub open spec fn vista_aplicados(v: Seq<Aplicado>) -> Seq<AplicadoV> {
    v.map_values(|a: Aplicado| a@)
}

/// The replacements the desktop needs, as values.
pub open spec fn reemplazos() -> Seq<ReemplazoV> {
    seq![
        ReemplazoV {
            archivo: ".config/wayfire.ini"@,
            seccion: "command"@,
            clave: "binding_terminal_overlay"@,
            anterior: "KEY_F12"@,
            nuevo: "<super> <alt> KEY_T"@,
        },
    ]
}

/// The replacements the desktop needs.
///
/// The list is short on purpose: each entry is an explicit permission to
/// touch something of someone else's, added when the old value **gets in the
/// way**. The drop-down terminal leaves F12, which is the console of a number
/// of games, the boot menu of many machines and Steam's screenshot key.
pub fn replacements() -> (r: [Replacement; 1])
    ensures
        r@.map_values(|x: Replacement| x@) == reemplazos(),
{
    let r = [
        Replacement {
            archivo: ".config/wayfire.ini",
            seccion: "command",
            clave: "binding_terminal_overlay",
            anterior: "KEY_F12",
            nuevo: "<super> <alt> KEY_T",
        },
    ];
    proof {
        assert(r@.map_values(|x: Replacement| x@) =~= reemplazos());
    }
    r
}

/// How the record says this replacement was done: with the old value inside,
/// so that when the same shortcut changes a second time the new replacement
/// is another mark and applies.
pub open spec fn marca_de(r: ReemplazoV) -> ClaveV {
    (r.archivo, REPLACEMENT_SECTION@, r.clave + "@"@ + r.anterior)
}

/// How the record says this replacement was done.
pub fn marca(r: &Replacement) -> (c: Clave)
    ensures
        vista_clave(c) == marca_de(r@),
{
    let mut clave = String::from_str(r.clave);
    clave.append("@");
    clave.append(r.anterior);
    (String::from_str(r.archivo), String::from_str(REPLACEMENT_SECTION), clave)
}

/// Whether two values are the same: as shortcuts, normalised, when the first
/// is one; otherwise as text without the white space at the ends.
pub open spec fn mismo_valor(uno: Seq<char>, otro: Seq<char>) -> bool {
    if combos(uno).len() > 0 {
        combos(uno) == combos(otro)
    } else {
        recorte(uno) == recorte(otro)
    }
}

/// Whether the sequences of texts are the same.
fn iguales_todas(a: &Vec<Vec<char>>, b: &Vec<Vec<char>>) -> (r: bool)
    ensures
        r == (vista(a@) == vista(b@)),
{
    if a.len() != b.len() {
        return false;
    }
    let mut i: usize = 0;
    while i < a.len()
        invariant
            i <= a@.len() == b@.len(),
            forall|j: int| 0 <= j < i ==> vista(a@)[j] == vista(b@)[j],
        decreases a@.len() - i,
    {
        if !iguales(a[i].as_slice(), b[i].as_slice()) {
            assert(vista(a@)[i as int] != vista(b@)[i as int]);
            return false;
        }
        i = i + 1;
    }
    proof {
        assert(vista(a@) =~= vista(b@));
    }
    true
}

/// Whether two values are the same: as shortcuts when the first one is a
/// shortcut (so `KEY_T <super>` and `<super> KEY_T` are the same), and as
/// trimmed text otherwise.
pub fn es_el_mismo(uno: &str, otro: &str) -> (r: bool)
    ensures
        r == mismo_valor(uno@, otro@),
{
    let a = caracteres(uno);
    let b = caracteres(otro);
    es_el_mismo_en(a.as_slice(), b.as_slice())
}

/// Whether two values are the same.
fn es_el_mismo_en(uno: &[char], otro: &[char]) -> (r: bool)
    ensures
        r == mismo_valor(uno@, otro@),
{
    let c1 = combos_en(uno);
    if c1.len() > 0 {
        let c2 = combos_en(otro);
        return iguales_todas(&c1, &c2);
    }
    let a = recortado(uno);
    let b = recortado(otro);
    iguales(a.as_slice(), b.as_slice())
}

/// Whether the new value is already bound to another key of the file (the key
/// about to change does not count: its old value being there is the normal
/// case).
pub open spec fn en_uso(asigs: Seq<AsignacionV>, r: ReemplazoV) -> bool {
    exists|i: int|
        #![trigger asigs[i]]
        0 <= i < asigs.len() && !(asigs[i].seccion == r.seccion && asigs[i].clave == r.clave)
            && mismo_valor(asigs[i].valor, r.nuevo)
}

/// Whether the new value is already bound to another key of the file.
fn ya_esta_en_uso(texto: &str, r: &Replacement) -> (b: bool)
    ensures
        b == en_uso(asignaciones(texto@), r@),
{
    let asigs = asignaciones_de(texto);
    let ghost v = vista_asignaciones(asigs@);
    let seccion = caracteres(r.seccion);
    let clave = caracteres(r.clave);
    let nuevo = caracteres(r.nuevo);
    let mut i: usize = 0;
    while i < asigs.len()
        invariant
            i <= asigs@.len(),
            v == vista_asignaciones(asigs@),
            v == asignaciones(texto@),
            seccion@ == r@.seccion,
            clave@ == r@.clave,
            nuevo@ == r@.nuevo,
            forall|j: int|
                #![trigger v[j]]
                0 <= j < i ==> !(!(v[j].seccion == r@.seccion && v[j].clave == r@.clave)
                    && mismo_valor(v[j].valor, r@.nuevo)),
        decreases asigs@.len() - i,
    {
        let a = &asigs[i];
        assert(v[i as int] == a@);
        let misma_clave = es_igual_a(&a.seccion, seccion.as_slice()) && es_igual_a(
            &a.clave,
            clave.as_slice(),
        );
        if !misma_clave {
            let valor = caracteres(a.valor.as_str());
            if es_el_mismo_en(valor.as_slice(), nuevo.as_slice()) {
                assert(!(v[i as int].seccion == r@.seccion && v[i as int].clave == r@.clave));
                return true;
            }
        }
        i = i + 1;
    }
    false
}

/// Whether a replacement applies to this file: it names it, the record does
/// not have it done, the key is there, and the new value is not in use.
pub open spec fn aplica(r: ReemplazoV, relativo: Seq<char>, texto: Seq<char>, ya: Set<ClaveV>) -> bool {
    &&& r.archivo == relativo
    &&& !ya.contains(marca_de(r))
    &&& tiene_en(asignaciones(texto), r.seccion, r.clave)
    &&& !en_uso(asignaciones(texto), r)
}

/// The replacements that apply to this file, in order.
pub open spec fn aplicables(
    rs: Seq<ReemplazoV>,
    relativo: Seq<char>,
    texto: Seq<char>,
    ya: Set<ClaveV>,
) -> Seq<ReemplazoV>
    decreases rs.len(),
{
    if rs.len() == 0 {
        seq![]
    } else if aplica(rs.last(), relativo, texto, ya) {
        aplicables(rs.drop_last(), relativo, texto, ya).push(rs.last())
    } else {
        aplicables(rs.drop_last(), relativo, texto, ya)
    }
}

/// The first replacement of `mios`, from `j` on, that changes this line of
/// section `sec`: one of that section whose key is what comes before the
/// line's first `=` (trimmed), and whose old value is what comes after it.
pub open spec fn cambio_desde(mios: Seq<ReemplazoV>, j: int, sec: Seq<char>, l: Seq<char>) -> Option<int>
    decreases mios.len() - j,
{
    if j >= mios.len() || j < 0 {
        None
    } else if mios[j].seccion == sec && indice(l, '=') < l.len() && recorte(
        l.take(indice(l, '=')),
    ) == mios[j].clave && mismo_valor(l.skip(indice(l, '=') + 1), mios[j].anterior) {
        Some(j)
    } else {
        cambio_desde(mios, j + 1, sec, l)
    }
}

/// The lines from `i` on with the replacements made, `sec` being the section
/// in effect; with what was replaced. Of a changed line only what follows the
/// `=` changes.
pub open spec fn reemplazar_desde(ls: Seq<Seq<char>>, i: int, sec: Seq<char>, mios: Seq<ReemplazoV>) -> (
    Seq<Seq<char>>,
    Seq<AplicadoV>,
)
    decreases ls.len() - i,
{
    if i >= ls.len() || i < 0 {
        (seq![], seq![])
    } else {
        match seccion_en_linea(ls[i]) {
            Some(s) => {
                let r = reemplazar_desde(ls, i + 1, s, mios);
                (seq![ls[i]] + r.0, r.1)
            },
            None => {
                let r = reemplazar_desde(ls, i + 1, sec, mios);
                match cambio_desde(mios, 0, sec, ls[i]) {
                    Some(j) => {
                        let p = indice(ls[i], '=');
                        let nueva = ls[i].take(p) + seq!['=', ' '] + mios[j].nuevo;
                        let hecho = AplicadoV {
                            seccion: sec,
                            clave: mios[j].clave,
                            anterior: recorte(ls[i].skip(p + 1)),
                            nuevo: mios[j].nuevo,
                        };
                        (seq![nueva] + r.0, seq![hecho] + r.1)
                    },
                    None => (seq![ls[i]] + r.0, r.1),
                }
            },
        }
    }
}

/// The text with the replacements that apply made, and what was replaced.
/// With nothing to do, the text as it was and nothing.
pub open spec fn aplicacion(relativo: Seq<char>, texto: Seq<char>, ya: Set<ClaveV>) -> (
    Seq<char>,
    Seq<AplicadoV>,
) {
    let mios = aplicables(reemplazos(), relativo, texto, ya);
    if mios.len() == 0 {
        (texto, seq![])
    } else {
        let r = reemplazar_desde(lineas(texto), 0, seq![], mios);
        if r.1.len() == 0 {
            (texto, seq![])
        } else {
            (
                unir(r.0, terminador(texto)) + if texto.len() > 0 && texto.last() == '\n' {
                    terminador(texto)
                } else {
                    seq![]
                },
                r.1,
            )
        }
    }
}


/// The replacements, as values.
pub open spec fn vista_reemplazos(v: Seq<Replacement>) -> Seq<ReemplazoV> {
    v.map_values(|r: Replacement| r@)
}

/// Whether a replacement applies to this file.
fn se_aplica(r: &Replacement, relativo: &str, texto: &str, ya: &Registro) -> (b: bool)
    ensures
        b == aplica(r@, relativo@, texto@, ya@),
{
    let archivo = caracteres(r.archivo);
    let rel = caracteres(relativo);
    iguales(archivo.as_slice(), rel.as_slice()) && !ya.contains(&marca(r)) && tiene(
        texto,
        r.seccion,
        r.clave,
    ) && !ya_esta_en_uso(texto, r)
}

pub proof fn lema_cambio_desde(mios: Seq<ReemplazoV>, k: int, sec: Seq<char>, l: Seq<char>)
    requires
        0 <= k,
    ensures
        cambio_desde(mios, k, sec, l) matches Some(j) ==> k <= j < mios.len() && mios[j].seccion
            == sec && indice(l, '=') < l.len() && recorte(l.take(indice(l, '='))) == mios[j].clave
            && mismo_valor(l.skip(indice(l, '=') + 1), mios[j].anterior),
    decreases mios.len() - k,
{
    if k < mios.len() {
        lema_cambio_desde(mios, k + 1, sec, l);
    }
}

/// The first replacement that changes this line of section `sec`.
fn cambio_en(mios: &Vec<Replacement>, sec: &[char], linea: &[char]) -> (r: Option<usize>)
    ensures
        match r {
            Some(j) => cambio_desde(vista_reemplazos(mios@), 0, sec@, linea@) == Some(j as int) && j
                < mios@.len(),
            None => cambio_desde(vista_reemplazos(mios@), 0, sec@, linea@) is None,
        },
{
    let ghost m = vista_reemplazos(mios@);
    let mut j: usize = 0;
    while j < mios.len()
        invariant
            j <= mios@.len(),
            m == vista_reemplazos(mios@),
            cambio_desde(m, 0, sec@, linea@) == cambio_desde(m, j as int, sec@, linea@),
        decreases mios@.len() - j,
    {
        let r = &mios[j];
        assert(m[j as int] == r@);
        let seccion = caracteres(r.seccion);
        if iguales(seccion.as_slice(), sec) {
            match buscar(linea, '=') {
                Some(p) => {
                    assert(p < linea.len());
                    let antes = copia(linea, 0, p);
                    assert(antes@ =~= linea@.take(p as int));
                    let clave = recortado(antes.as_slice());
                    let buscada = caracteres(r.clave);
                    if iguales(clave.as_slice(), buscada.as_slice()) {
                        let despues = copia(linea, p + 1, linea.len());
                        assert(despues@ =~= linea@.skip(p + 1));
                        let anterior = caracteres(r.anterior);
                        if es_el_mismo_en(despues.as_slice(), anterior.as_slice()) {
                            return Some(j);
                        }
                    }
                },
                None => {},
            }
        }
        assert(cambio_desde(m, j as int, sec@, linea@) == cambio_desde(m, j + 1, sec@, linea@));
        j = j + 1;
    }
    None
}

/// Applies to a file the replacements that concern it.
///
/// Returns the new text and what was replaced; with nothing to do, the text as
/// it was and an empty list, so the file is not rewritten. Of the changed line
/// only what follows the `=` changes, so its spacing stays as it was; the
/// rest of the file is kept line by line, with its line endings and its final
/// line break (or lack of one).
pub fn apply(relativo: &str, texto: &str, ya: &Registro) -> (r: (String, Vec<Aplicado>))
    ensures
        (r.0@, vista_aplicados(r.1@)) == aplicacion(relativo@, texto@, ya@),
{
    let rs = replacements();
    let ghost todos = reemplazos();
    let mut mios: Vec<Replacement> = Vec::new();
    let mut k: usize = 0;
    while k < 1
        invariant
            k <= 1,
            rs@.map_values(|x: Replacement| x@) == todos,
            todos == reemplazos(),
            vista_reemplazos(mios@) == aplicables(todos.take(k as int), relativo@, texto@, ya@),
        decreases 1 - k,
    {
        let r = &rs[k];
        assert(todos[k as int] == r@);
        proof {
            assert(todos.take(k + 1).drop_last() =~= todos.take(k as int));
        }
        if se_aplica(r, relativo, texto, ya) {
            let copia_r = Replacement {
                archivo: r.archivo,
                seccion: r.seccion,
                clave: r.clave,
                anterior: r.anterior,
                nuevo: r.nuevo,
            };
            let ghost previo = vista_reemplazos(mios@);
            mios.push(copia_r);
            proof {
                assert(vista_reemplazos(mios@) =~= previo.push(r@));
            }
        }
        k = k + 1;
    }
    proof {
        assert(todos.take(1) =~= todos);
    }
    let ghost m = vista_reemplazos(mios@);
    if mios.len() == 0 {
        return (String::from_str(texto), Vec::new());
    }
    let t = caracteres(texto);
    let ls = lineas_de(t.as_slice());
    let ghost v = vista(ls@);
    let ghost objetivo = reemplazar_desde(v, 0, seq![], m);
    let mut seccion: Vec<char> = Vec::new();
    let mut salida: Vec<Vec<char>> = Vec::new();
    let mut aplicados: Vec<Aplicado> = Vec::new();
    let mut i: usize = 0;
    while i < ls.len()
        invariant
            i <= ls@.len(),
            v == vista(ls@),
            m == vista_reemplazos(mios@),
            objetivo == ({
                let resto = reemplazar_desde(v, i as int, seccion@, m);
                (vista(salida@) + resto.0, vista_aplicados(aplicados@) + resto.1)
            }),
        decreases ls@.len() - i,
    {
        let linea = ls[i].as_slice();
        assert(linea@ == v[i as int]);
        let ghost sal0 = vista(salida@);
        let ghost ap0 = vista_aplicados(aplicados@);
        match seccion_de(linea) {
            Some(s) => {
                seccion = s;
                salida.push(ls[i].clone());
                proof {
                    let resto = reemplazar_desde(v, i + 1, seccion@, m);
                    assert(vista(salida@) =~= sal0.push(v[i as int]));
                    assert(vista(salida@) + resto.0 =~= sal0 + (seq![v[i as int]] + resto.0));
                }
            },
            None => {
                match cambio_en(&mios, seccion.as_slice(), linea) {
                    Some(j) => {
                        let r = &mios[j];
                        assert(m[j as int] == r@);
                        proof {
                            lema_cambio_desde(m, 0, seccion@, linea@);
                        }
                        let p = match buscar(linea, '=') {
                            Some(p) => p,
                            None => {
                                return (String::from_str(texto), Vec::new());
                            },
                        };
                        assert(p < linea.len());
                        let mut nueva = copia(linea, 0, p);
                        agregar(&mut nueva, vec!['=', ' '].as_slice());
                        let nuevo = caracteres(r.nuevo);
                        agregar(&mut nueva, nuevo.as_slice());
                        let despues = copia(linea, p + 1, linea.len());
                        assert(despues@ =~= linea@.skip(p + 1));
                        let anterior = recortado(despues.as_slice());
                        let hecho = Aplicado {
                            seccion: a_string(seccion.as_slice()),
                            clave: String::from_str(r.clave),
                            anterior: a_string(anterior.as_slice()),
                            nuevo: String::from_str(r.nuevo),
                        };
                        let ghost hv = hecho@;
                        let ghost nv = nueva@;
                        salida.push(nueva);
                        aplicados.push(hecho);
                        proof {
                            let resto = reemplazar_desde(v, i + 1, seccion@, m);
                            assert(nv =~= v[i as int].take(p as int) + seq!['=', ' '] + m[j as int].nuevo);
                            assert(vista(salida@) =~= sal0.push(nv));
                            assert(vista_aplicados(aplicados@) =~= ap0.push(hv));
                            assert(vista(salida@) + resto.0 =~= sal0 + (seq![nv] + resto.0));
                            assert(vista_aplicados(aplicados@) + resto.1 =~= ap0 + (seq![hv]
                                + resto.1));
                        }
                    },
                    None => {
                        salida.push(ls[i].clone());
                        proof {
                            let resto = reemplazar_desde(v, i + 1, seccion@, m);
                            assert(vista(salida@) =~= sal0.push(v[i as int]));
                            assert(vista(salida@) + resto.0 =~= sal0 + (seq![v[i as int]]
                                + resto.0));
                        }
                    },
                }
            },
        }
        i = i + 1;
    }
    proof {
        assert(vista(salida@) + seq![] =~= vista(salida@));
        assert(vista_aplicados(aplicados@) + seq![] =~= vista_aplicados(aplicados@));
    }
    if aplicados.len() == 0 {
        return (String::from_str(texto), Vec::new());
    }
    let term = terminador_en(t.as_slice());
    let mut nuevo = unir_lineas(&salida, term.as_slice());
    let n = t.len();
    if n > 0 && t[n - 1] == '\n' {
        agregar(&mut nuevo, term.as_slice());
    } else {
        proof {
            assert(nuevo@ + seq![] =~= nuevo@);
        }
    }
    (a_string(nuevo.as_slice()), aplicados)
}

/// The line `antes` left as it was, or with only what follows its first `=`
/// changed.
pub open spec fn misma_clave(antes: Seq<char>, despues: Seq<char>) -> bool {
    ||| despues == antes
    ||| {
        let p = indice(antes, '=');
        &&& 0 <= p < antes.len()
        &&& despues.len() > p
        &&& despues.take(p) == antes.take(p)
        &&& despues[p] == '='
    }
}

proof fn lema_reemplazar_conserva(ls: Seq<Seq<char>>, i: int, sec: Seq<char>, mios: Seq<ReemplazoV>)
    requires
        0 <= i <= ls.len(),
    ensures
        reemplazar_desde(ls, i, sec, mios).0.len() == ls.len() - i,
        forall|k: int|
            0 <= k < ls.len() - i ==> misma_clave(ls[i + k], #[trigger] reemplazar_desde(ls, i, sec, mios).0[k]),
    decreases ls.len() - i,
{
    if i < ls.len() {
        let r = reemplazar_desde(ls, i, sec, mios);
        let sig = match seccion_en_linea(ls[i]) {
            Some(s) => s,
            None => sec,
        };
        lema_reemplazar_conserva(ls, i + 1, sig, mios);
        let resto = reemplazar_desde(ls, i + 1, sig, mios).0;
        assert(r.0.drop_first() == resto);
        assert forall|k: int| 0 <= k < ls.len() - i implies misma_clave(ls[i + k], #[trigger] r.0[k]) by {
            if k > 0 {
                assert(r.0[k] == resto[k - 1]);
                assert(ls[i + k] == ls[(i + 1) + (k - 1)]);
            } else {
                match seccion_en_linea(ls[i]) {
                    Some(_) => {},
                    None => match cambio_desde(mios, 0, sec, ls[i]) {
                        Some(j) => {
                            let p = indice(ls[i], '=');
                            lema_cambio_desde(mios, 0, sec, ls[i]);
                            crate::texto::lema_indice_es_el_primero(ls[i], '=');
                            assert(0 <= p < ls[i].len());
                            let nueva = ls[i].take(p) + seq!['=', ' '] + mios[j].nuevo;
                            assert(nueva.take(p) =~= ls[i].take(p));
                            assert(nueva[p] == '=');
                        },
                        None => {},
                    },
                }
            }
        }
    }
}

/// What a replacement does to the file: it is left as it was, or it is its
/// own lines, as many and in the same order, joined again with the file's line
/// ending, each unchanged or with only what follows its `=` replaced.
pub proof fn lema_apply_solo_cambia_valores(relativo: Seq<char>, texto: Seq<char>, ya: Set<ClaveV>)
    ensures
        aplicacion(relativo, texto, ya).0 == texto || exists|ls: Seq<Seq<char>>|
            #![trigger unir(ls, terminador(texto))]
            ls.len() == lineas(texto).len() && (forall|k: int|
                0 <= k < ls.len() ==> misma_clave(lineas(texto)[k], #[trigger] ls[k]))
                && aplicacion(relativo, texto, ya).0 == unir(ls, terminador(texto)) + if texto.len()
                > 0 && texto.last() == '\n' {
                terminador(texto)
            } else {
                seq![]
            },
{
    let mios = aplicables(reemplazos(), relativo, texto, ya);
    if mios.len() != 0 {
        let ls = lineas(texto);
        lema_reemplazar_conserva(ls, 0, seq![], mios);
        let r = reemplazar_desde(ls, 0, seq![], mios);
        if r.1.len() != 0 {
            assert forall|k: int| 0 <= k < r.0.len() implies misma_clave(ls[k], #[trigger] r.0[k]) by {
                assert(ls[0 + k] == ls[k]);
            }
            assert(unir(r.0, terminador(texto)) == unir(r.0, terminador(texto)));
        }
    }
}

proof fn lema_nada_aplicable(rs: Seq<ReemplazoV>, relativo: Seq<char>, texto: Seq<char>, ya: Set<ClaveV>)
    requires
        forall|i: int| 0 <= i < rs.len() ==> ya.contains(marca_de(#[trigger] rs[i])),
    ensures
        aplicables(rs, relativo, texto, ya).len() == 0,
    decreases rs.len(),
{
    if rs.len() > 0 {
        let dl = rs.drop_last();
        assert forall|i: int| 0 <= i < dl.len() implies ya.contains(marca_de(#[trigger] dl[i])) by {
            assert(dl[i] == rs[i]);
        }
        lema_nada_aplicable(dl, relativo, texto, ya);
        assert(ya.contains(marca_de(rs[rs.len() - 1])));
    }
}

/// Once done, not again: when the record notes every replacement as done, the
/// text is left as it is and nothing is replaced, whatever the file says now
/// (someone who put the old value back on purpose keeps it).
pub proof fn lema_hecho_no_se_repite(relativo: Seq<char>, texto: Seq<char>, ya: Set<ClaveV>)
    requires
        forall|i: int| 0 <= i < reemplazos().len() ==> ya.contains(marca_de(#[trigger] reemplazos()[i])),
    ensures
        aplicacion(relativo, texto, ya) == (texto, Seq::<AplicadoV>::empty()),
{
    lema_nada_aplicable(reemplazos(), relativo, texto, ya);
}

/// Each replacement changes the value: written after the `= ` that a
/// rewritten line gets, its new value is not the same as its old one.
proof fn lema_el_nuevo_no_es_el_anterior()
    ensures
        forall|j: int|
            0 <= j < reemplazos().len() ==> !mismo_valor(
                seq![' '] + #[trigger] reemplazos()[j].nuevo,
                reemplazos()[j].anterior,
            ),
        forall|j: int|
            0 <= j < reemplazos().len() ==> nuevo_escribible(#[trigger] reemplazos()[j].nuevo),
{
    reveal_strlit("<super> <alt> KEY_T");
    reveal_strlit("KEY_F12");
    let r = reemplazos()[0];
    let n = r.nuevo;
    let o = r.anterior;
    let u = seq![' '] + n;
    assert(n.len() == 19);
    assert(o.len() == 7);
    assert(u.drop_first() =~= n);
    assert(n[0] == '<');
    assert(sin_blanco_inicial(n) == n);
    assert(sin_blanco_inicial(u) == n);
    assert(n.last() == 'T');
    assert(sin_blanco_final(n) == n);
    assert(recorte(u) == n);
    assert(o[0] == 'K');
    assert(o.last() == '2');
    assert(sin_blanco_inicial(o) == o);
    assert(sin_blanco_final(o) == o);
    assert(recorte(o) == o);
    assert(!o.contains('<')) by {
        if o.contains('<') {
            let q = choose|q: int| 0 <= q < o.len() && o[q] == '<';
            assert(q == 0 || q == 1 || q == 2 || q == 3 || q == 4 || q == 5 || q == 6);
        }
    }
    assert(sin_caracter(u, '|')) by {
        assert forall|q: int| 0 <= q < u.len() implies #[trigger] u[q] != '|' by {
            if q > 0 {
                assert(u[q] == n[q - 1]);
            }
        }
    }
    assert(sin_caracter(o, '|'));
    lema_partes_sin(u, '|');
    lema_partes_sin(o, '|');
    lema_combo_y_menor(u);
    lema_combo_y_menor(o);
    let vacias = Seq::<Seq<char>>::empty();
    assert(seq![u].drop_last() =~= vacias);
    assert(seq![o].drop_last() =~= vacias);
    assert(combos_de_partes(vacias) =~= Seq::<Seq<char>>::empty());
    if combos(u).len() > 0 {
        assert(combo(u) is Some);
        let c = combo(u)->0;
        assert(combos(u) == seq![c]);
        if combos(u) == combos(o) {
            assert(combo(o) is Some);
            assert(combos(o) == seq![combo(o)->0]);
            assert(combos(u)[0] == combos(o)[0]);
            assert(combo(o)->0 == c);
            assert(c.contains('<'));
        }
    } else {
        assert(recorte(u)[0] != recorte(o)[0]);
    }
    assert(reemplazos()[0] == r);
    assert(sin_caracter(n, '\n'));
    assert(!es_blanco(n.last()));
    assert(nuevo_escribible(n));
}

/// A new value that can be written at the end of a line: no line break in
/// it, and it ends in something that is neither white space, nor the `]` of
/// a header, nor a carriage return.
pub open spec fn nuevo_escribible(v: Seq<char>) -> bool {
    &&& sin_caracter(v, '\n')
    &&& v.len() > 0
    &&& !es_blanco(v.last())
    &&& v.last() != ']'
    &&& v.last() != '\r'
}

/// What is left of a text without its leading white space still ends as the
/// text did, when that end is not white space.
proof fn lema_sin_blanco_inicial_final(s: Seq<char>)
    requires
        s.len() > 0,
        !es_blanco(s.last()),
    ensures
        sin_blanco_inicial(s).len() > 0,
        sin_blanco_inicial(s).last() == s.last(),
    decreases s.len(),
{
    if es_blanco(s[0]) {
        assert(s.len() > 1);
        assert(s.drop_first().last() == s.last());
        lema_sin_blanco_inicial_final(s.drop_first());
    }
}

/// The line a replacement writes: what came before the `=`, then `= ` and the
/// new value. It opens no section, its first `=` is where it was, and what
/// follows it is the new value.
proof fn lema_linea_nueva(l: Seq<char>, v: Seq<char>)
    requires
        0 <= indice(l, '=') < l.len(),
        nuevo_escribible(v),
    ensures
        ({
            let p = indice(l, '=');
            let nueva = l.take(p) + seq!['=', ' '] + v;
            &&& seccion_en_linea(nueva) is None
            &&& indice(nueva, '=') == p
            &&& nueva.take(p) == l.take(p)
            &&& nueva.skip(p + 1) == seq![' '] + v
            &&& nueva.last() == v.last()
            &&& sin_caracter(l, '\n') ==> sin_caracter(nueva, '\n')
        }),
{
    let p = indice(l, '=');
    let nueva = l.take(p) + seq!['=', ' '] + v;
    crate::texto::lema_indice_es_el_primero(l, '=');
    assert(nueva.take(p) =~= l.take(p));
    assert(nueva.skip(p + 1) =~= seq![' '] + v);
    assert(nueva[p] == '=');
    assert forall|j: int| 0 <= j < p implies nueva[j] != '=' by {
        assert(nueva[j] == l[j]);
    }
    crate::texto::lema_indice(nueva, '=', p);
    assert(nueva.last() == v.last());
    lema_sin_blanco_inicial_final(nueva);
    let y = sin_blanco_inicial(nueva);
    assert(sin_blanco_final(y) == y);
    assert(recorte(nueva) == y);
    if sin_caracter(l, '\n') {
        assert forall|j: int| 0 <= j < nueva.len() implies #[trigger] nueva[j] != '\n' by {
            if j < p {
                assert(nueva[j] == l[j]);
            } else if j >= p + 2 {
                assert(nueva[j] == v[j - p - 2]);
            }
        }
    }
}

/// Each line a replacement leaves is the one that was there, or one it wrote.
proof fn lema_reemplazar_lineas(ls: Seq<Seq<char>>, i: int, sec: Seq<char>, mios: Seq<ReemplazoV>)
    requires
        0 <= i <= ls.len(),
    ensures
        reemplazar_desde(ls, i, sec, mios).0.len() == ls.len() - i,
        forall|k: int|
            0 <= k < ls.len() - i ==> #[trigger] reemplazar_desde(ls, i, sec, mios).0[k] == ls[i + k] || exists|
                j: int,
            |
                0 <= j < mios.len() && 0 <= indice(ls[i + k], '=') < ls[i + k].len()
                    && reemplazar_desde(ls, i, sec, mios).0[k] == ls[i + k].take(indice(ls[i + k], '='))
                    + seq!['=', ' '] + #[trigger] mios[j].nuevo,
    decreases ls.len() - i,
{
    if i < ls.len() {
        let r = reemplazar_desde(ls, i, sec, mios);
        let sig = match seccion_en_linea(ls[i]) {
            Some(s) => s,
            None => sec,
        };
        lema_reemplazar_lineas(ls, i + 1, sig, mios);
        let resto = reemplazar_desde(ls, i + 1, sig, mios).0;
        assert(r.0.drop_first() == resto);
        assert forall|k: int| 0 <= k < ls.len() - i implies #[trigger] r.0[k] == ls[i + k] || exists|j: int|
            0 <= j < mios.len() && 0 <= indice(ls[i + k], '=') < ls[i + k].len() && r.0[k] == ls[i + k].take(
                indice(ls[i + k], '='),
            ) + seq!['=', ' '] + #[trigger] mios[j].nuevo by {
            if k > 0 {
                assert(r.0[k] == resto[k - 1]);
                assert(ls[i + k] == ls[(i + 1) + (k - 1)]);
            } else {
                match seccion_en_linea(ls[i]) {
                    Some(_) => {},
                    None => match cambio_desde(mios, 0, sec, ls[i]) {
                        Some(j) => {
                            lema_cambio_desde(mios, 0, sec, ls[i]);
                            crate::texto::lema_indice_es_el_primero(ls[i], '=');
                        },
                        None => {},
                    },
                }
            }
        }
    }
}

/// The replacements from a line on depend only on the lines from there on.
proof fn lema_reemplazar_desplazado(a: Seq<Seq<char>>, i: int, b: Seq<Seq<char>>, j: int, sec: Seq<char>, mios: Seq<ReemplazoV>)
    requires
        0 <= i <= a.len(),
        0 <= j <= b.len(),
        a.skip(i) == b.skip(j),
    ensures
        reemplazar_desde(a, i, sec, mios).1 == reemplazar_desde(b, j, sec, mios).1,
    decreases a.len() - i,
{
    if i < a.len() {
        assert(a.skip(i).len() == a.len() - i);
        assert(b.skip(j).len() == b.len() - j);
        assert(a[i] == a.skip(i)[0]);
        assert(b[j] == b.skip(j)[0]);
        assert(a.skip(i + 1) =~= a.skip(i).skip(1));
        assert(b.skip(j + 1) =~= b.skip(j).skip(1));
        match seccion_en_linea(a[i]) {
            Some(s) => lema_reemplazar_desplazado(a, i + 1, b, j + 1, s, mios),
            None => lema_reemplazar_desplazado(a, i + 1, b, j + 1, sec, mios),
        }
    } else {
        assert(b.skip(j).len() == 0);
    }
}

/// A replacement run again on the lines it left changes nothing: the lines
/// it wrote no longer hold the old value, and the others never did.
proof fn lema_reemplazar_quieto(ls: Seq<Seq<char>>, i: int, sec: Seq<char>, mios: Seq<ReemplazoV>)
    requires
        0 <= i <= ls.len(),
        mios.len() == 1,
        nuevo_escribible(mios[0].nuevo),
        !mismo_valor(seq![' '] + mios[0].nuevo, mios[0].anterior),
    ensures
        reemplazar_desde(reemplazar_desde(ls, i, sec, mios).0, 0, sec, mios).1.len() == 0,
    decreases ls.len() - i,
{
    let out = reemplazar_desde(ls, i, sec, mios).0;
    if i == ls.len() {
        assert(out =~= Seq::<Seq<char>>::empty());
    } else {
        match seccion_en_linea(ls[i]) {
            Some(s) => {
                lema_reemplazar_quieto(ls, i + 1, s, mios);
                let rr = reemplazar_desde(ls, i + 1, s, mios).0;
                assert(out == seq![ls[i]] + rr);
                assert(out.skip(1) =~= rr.skip(0));
                lema_reemplazar_desplazado(out, 1, rr, 0, s, mios);
            },
            None => {
                lema_reemplazar_quieto(ls, i + 1, sec, mios);
                let rr = reemplazar_desde(ls, i + 1, sec, mios).0;
                match cambio_desde(mios, 0, sec, ls[i]) {
                    Some(j) => {
                        lema_cambio_desde(mios, 0, sec, ls[i]);
                        assert(j == 0);
                        let p = indice(ls[i], '=');
                        let nueva = ls[i].take(p) + seq!['=', ' '] + mios[0].nuevo;
                        assert(out == seq![nueva] + rr);
                        crate::texto::lema_indice_es_el_primero(ls[i], '=');
                        lema_linea_nueva(ls[i], mios[0].nuevo);
                        assert(out[0] == nueva);
                        assert(cambio_desde(mios, 1, sec, nueva) is None);
                        assert(cambio_desde(mios, 0, sec, nueva) is None);
                        assert(out.skip(1) =~= rr.skip(0));
                        lema_reemplazar_desplazado(out, 1, rr, 0, sec, mios);
                    },
                    None => {
                        assert(out == seq![ls[i]] + rr);
                        assert(out.skip(1) =~= rr.skip(0));
                        lema_reemplazar_desplazado(out, 1, rr, 0, sec, mios);
                    },
                }
            },
        }
    }
}

/// Leaving out the last line leaves out no replacement but, maybe, its own.
proof fn lema_reemplazar_sin_ultima(ls: Seq<Seq<char>>, i: int, sec: Seq<char>, mios: Seq<ReemplazoV>)
    requires
        0 <= i <= ls.len(),
        ls.len() > 0,
        reemplazar_desde(ls, i, sec, mios).1.len() == 0,
    ensures
        reemplazar_desde(ls.drop_last(), i, sec, mios).1.len() == 0,
    decreases ls.len() - i,
{
    let d = ls.drop_last();
    if i < ls.len() - 1 {
        assert(d[i] == ls[i]);
        match seccion_en_linea(ls[i]) {
            Some(s) => lema_reemplazar_sin_ultima(ls, i + 1, s, mios),
            None => {
                if cambio_desde(mios, 0, sec, ls[i]) is None {
                    lema_reemplazar_sin_ultima(ls, i + 1, sec, mios);
                }
            },
        }
    }
}

/// Applying twice changes nothing the second time: on the text the
/// replacements left, applying them again gives that text back and reports
/// nothing, since a line they rewrote no longer holds the old value.
#[verifier::spinoff_prover]
#[verifier::rlimit(40)]
pub proof fn lema_aplicar_dos_veces(relativo: Seq<char>, texto: Seq<char>, ya: Set<ClaveV>)
    ensures
        aplicacion(relativo, aplicacion(relativo, texto, ya).0, ya) == (
            aplicacion(relativo, texto, ya).0,
            Seq::<AplicadoV>::empty(),
        ),
{
    let t1 = aplicacion(relativo, texto, ya).0;
    let rs = reemplazos();
    let mios = aplicables(rs, relativo, texto, ya);
    let ls = lineas(texto);
    let r = reemplazar_desde(ls, 0, seq![], mios);
    lema_el_nuevo_no_es_el_anterior();
    let vacios = Seq::<ReemplazoV>::empty();
    assert(rs.drop_last() =~= vacios);
    assert(aplicables(vacios, relativo, texto, ya) =~= vacios);
    if mios.len() == 0 || r.1.len() == 0 {
        assert(aplicacion(relativo, texto, ya) == (texto, Seq::<AplicadoV>::empty()));
    } else {
        let uno = rs[0];
        assert(mios == seq![uno]);
        let mios2 = aplicables(rs, relativo, t1, ya);
        assert(aplicables(vacios, relativo, t1, ya) =~= vacios);
        assert(ls.len() > 0);
        assert(texto.len() > 0) by {
            if texto.len() == 0 {
                assert(ls =~= Seq::<Seq<char>>::empty());
            }
        }
        assert(t1 == rearmar(r.0, texto));
        if mios2.len() > 0 {
            assert(mios2 == seq![uno]);
            let nv = uno.nuevo;
            assert(nuevo_escribible(nv));
            assert(!mismo_valor(seq![' '] + nv, uno.anterior));
            lema_reemplazar_lineas(ls, 0, seq![], mios);
            lema_lineas_sin_salto(texto);
            assert(Seq::<char>::empty() =~= texto.subrange(0, 0));
            lema_lineas_desde_menos_ultima(texto, 0, seq![]);
            let out = r.0;
            assert(out.len() == ls.len());
            assert forall|k: int| 0 <= k < out.len() implies (out[k] == ls[k] || (0 <= indice(ls[k], '=')
                < ls[k].len() && out[k] == ls[k].take(indice(ls[k], '=')) + seq!['=', ' '] + nv)) by {
                assert(ls[0 + k] == ls[k]);
                if out[k] != ls[k] {
                    let j = choose|j: int|
                        0 <= j < mios.len() && 0 <= indice(ls[k], '=') < ls[k].len() && out[k] == ls[k].take(
                            indice(ls[k], '='),
                        ) + seq!['=', ' '] + #[trigger] mios[j].nuevo;
                    assert(j == 0);
                }
            }
            assert forall|k: int| 0 <= k < out.len() implies sin_caracter(#[trigger] out[k], '\n') && (out[k]
                != ls[k] ==> out[k].len() > 0 && out[k].last() != '\r') by {
                assert(sin_caracter(ls[k], '\n'));
                if out[k] != ls[k] {
                    lema_linea_nueva(ls[k], nv);
                }
            }
            assert forall|k: int| 0 <= k < out.len() - 1 implies contiene(texto, crlf()) || #[trigger] out[k].len()
                == 0 || out[k].last() != '\r' by {
                if out[k] == ls[k] {
                    assert(ls[k].len() == 0 || ls[k].last() != '\r' || contiene(texto, crlf()));
                }
            }
            if lleva_salto_final(texto) {
                lema_lineas_del_usuario(texto);
                let k = out.len() - 1;
                if out[k] == ls[k] {
                    assert(lineas_escribibles(ls, texto));
                    assert(sin_caracter(ls[k], '\n') && (contiene(texto, crlf()) || ls[k].len() == 0 || ls[k].last() != '\r'));
                }
            }
            lema_rearmar_lineas(out, texto);
            lema_reemplazar_quieto(ls, 0, seq![], mios);
            if !lleva_salto_final(texto) && out.last().len() == 0 {
                lema_reemplazar_sin_ultima(out, 0, seq![], mios);
            }
        }
    }
}

} // verus!
