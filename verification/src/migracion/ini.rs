//! Merging an INI file without rewriting it.
//!
//! The user's file is kept byte for byte: lines are only **inserted** (the keys
//! it lacks, each in its section) or, when cleaning up shortcuts, removed. It is
//! never parsed and serialised again, which would lose the comments, the order
//! and the formatting.

use vstd::prelude::*;
use crate::texto::{
    lema_lex_irreflexivo, lema_lex_transitivo, lema_lex_total, a_string, agregar, buscar, caracteres, contiene, contiene_en, copia, empieza, es_blanco, blanco, iguales, indice, lema_largo_sin_blanco_inicial, lex_menor, lineas, lineas_de, minusculas_de, minusculas_en, recortado, recorte, sin_blanco_al_inicio, sin_blanco_inicial, limites_recorte, vista, lema_recorte_sin_blanco_inicial, lema_sin_blanco_inicial_idempotente, partes, partir, menor, empieza_con, unir, unir_lineas, subsecuencia, lema_subsecuencia_refleja, lema_subsecuencia_insertar, lema_subsecuencia_empujar, lema_subsecuencia_transitiva, lema_subsecuencia_con_cabeza,
};

verus! {

/// An assignment of an INI file, with the section it belongs to.
#[derive(Debug, Clone, PartialEq, Eq)]
pub struct Asignacion {
    pub seccion: String,
    pub clave: String,
    pub valor: String,
}

/// An assignment, as values.
pub struct AsignacionV {
    pub seccion: Seq<char>,
    pub clave: Seq<char>,
    pub valor: Seq<char>,
}

impl View for Asignacion {
    type V = AsignacionV;

    open spec fn view(&self) -> AsignacionV {
        AsignacionV { seccion: self.seccion@, clave: self.clave@, valor: self.valor@ }
    }
}

/// The assignments of a vector, as values.
pub open spec fn vista_asignaciones(v: Seq<Asignacion>) -> Seq<AsignacionV> {
    v.map_values(|a: Asignacion| a@)
}

/// The section a line opens, if it is a section header: `[name]`, with the
/// name trimmed.
pub open spec fn seccion_en_linea(l: Seq<char>) -> Option<Seq<char>> {
    let t = recorte(l);
    if t.len() >= 2 && t[0] == '[' && t.last() == ']' {
        Some(recorte(t.subrange(1, t.len() - 1)))
    } else {
        None
    }
}

/// The key a line assigns, if it is an assignment. Comments (`#`, `;`) are not,
/// even when they hold an `=`; the key is what comes before the first `=`,
/// trimmed, and it cannot be empty.
pub open spec fn clave_en_linea(l: Seq<char>) -> Option<Seq<char>> {
    let t = recorte(l);
    if t.len() == 0 || t[0] == '#' || t[0] == ';' || indice(t, '=') >= t.len() {
        None
    } else {
        let k = recorte(t.take(indice(t, '=')));
        if k.len() > 0 {
            Some(k)
        } else {
            None
        }
    }
}

/// The value of an assignment line: what follows the first `=`, trimmed.
pub open spec fn valor_en_linea(l: Seq<char>) -> Seq<char> {
    let t = recorte(l);
    if indice(t, '=') < t.len() {
        recorte(t.skip(indice(t, '=') + 1))
    } else {
        seq![]
    }
}

/// The assignments of the lines from `i` on, `sec` being the section in
/// effect at line `i`.
pub open spec fn asignaciones_desde(ls: Seq<Seq<char>>, i: int, sec: Seq<char>) -> Seq<AsignacionV>
    decreases ls.len() - i,
{
    if i >= ls.len() || i < 0 {
        seq![]
    } else {
        match seccion_en_linea(ls[i]) {
            Some(s) => asignaciones_desde(ls, i + 1, s),
            None => match clave_en_linea(ls[i]) {
                Some(k) => seq![AsignacionV { seccion: sec, clave: k, valor: valor_en_linea(ls[i]) }]
                    + asignaciones_desde(ls, i + 1, sec),
                None => asignaciones_desde(ls, i + 1, sec),
            },
        }
    }
}

/// The assignments of some lines, in order; before any header the section is
/// the empty one.
pub open spec fn asignaciones_lineas(ls: Seq<Seq<char>>) -> Seq<AsignacionV> {
    asignaciones_desde(ls, 0, seq![])
}

/// The assignments of a text, in order.
pub open spec fn asignaciones(t: Seq<char>) -> Seq<AsignacionV> {
    asignaciones_lineas(lineas(t))
}

/// The section in effect after the first `i` lines.
pub open spec fn seccion_tras(ls: Seq<Seq<char>>, i: int) -> Seq<char>
    decreases i,
{
    if i <= 0 || i > ls.len() {
        seq![]
    } else {
        match seccion_en_linea(ls[i - 1]) {
            Some(s) => s,
            None => seccion_tras(ls, i - 1),
        }
    }
}

/// Whether some assignment is in section `s` with key `k`.
pub open spec fn tiene_en(asigs: Seq<AsignacionV>, s: Seq<char>, k: Seq<char>) -> bool {
    exists|i: int| 0 <= i < asigs.len() && #[trigger] asigs[i].seccion == s && asigs[i].clave == k
}

/// The section a line opens, if it opens one.
pub fn seccion_de(linea: &[char]) -> (r: Option<Vec<char>>)
    ensures
        match r {
            Some(s) => seccion_en_linea(linea@) == Some(s@),
            None => seccion_en_linea(linea@) is None,
        },
{
    let (a, b) = limites_recorte(linea);
    proof {
        let t = recorte(linea@);
        assert(t =~= linea@.subrange(a as int, b as int));
    }
    if b - a >= 2 && linea[a] == '[' && linea[b - 1] == ']' {
        let dentro = copia(linea, a + 1, b - 1);
        proof {
            let t = recorte(linea@);
            assert(dentro@ =~= t.subrange(1, t.len() - 1));
        }
        Some(recortado(dentro.as_slice()))
    } else {
        None
    }
}

/// The key a line assigns, if it assigns one.
pub fn clave_de(linea: &[char]) -> (r: Option<Vec<char>>)
    ensures
        match r {
            Some(k) => clave_en_linea(linea@) == Some(k@),
            None => clave_en_linea(linea@) is None,
        },
{
    let t = recortado(linea);
    if t.len() == 0 || t[0] == '#' || t[0] == ';' {
        return None;
    }
    match buscar(t.as_slice(), '=') {
        None => None,
        Some(p) => {
            let antes = copia(t.as_slice(), 0, p);
            proof {
                assert(antes@ =~= t@.take(p as int));
            }
            let k = recortado(antes.as_slice());
            if k.len() > 0 {
                Some(k)
            } else {
                None
            }
        },
    }
}

/// The value of an assignment line.
pub fn valor_de(linea: &[char]) -> (r: Vec<char>)
    ensures
        r@ == valor_en_linea(linea@),
{
    let t = recortado(linea);
    match buscar(t.as_slice(), '=') {
        None => Vec::new(),
        Some(p) => {
            assert(p < t.len());
            let despues = copia(t.as_slice(), p + 1, t.len());
            proof {
                assert(despues@ =~= t@.skip(p + 1));
            }
            recortado(despues.as_slice())
        },
    }
}

/// The assignments of some lines, in order.
pub fn asignaciones_de_lineas(ls: &Vec<Vec<char>>) -> (r: Vec<Asignacion>)
    ensures
        vista_asignaciones(r@) == asignaciones_lineas(vista(ls@)),
{
    let ghost v = vista(ls@);
    let mut seccion: Vec<char> = Vec::new();
    let mut salida: Vec<Asignacion> = Vec::new();
    let mut i: usize = 0;
    while i < ls.len()
        invariant
            i <= ls@.len(),
            v == vista(ls@),
            seccion@ == seccion_tras(v, i as int),
            asignaciones_lineas(v) == vista_asignaciones(salida@) + asignaciones_desde(
                v,
                i as int,
                seccion@,
            ),
        decreases ls@.len() - i,
    {
        let linea = ls[i].as_slice();
        assert(linea@ == v[i as int]);
        match seccion_de(linea) {
            Some(s) => {
                seccion = s;
            },
            None => {
                match clave_de(linea) {
                    Some(k) => {
                        let ghost previo = vista_asignaciones(salida@);
                        let valor = valor_de(linea);
                        let a = Asignacion {
                            seccion: a_string(seccion.as_slice()),
                            clave: a_string(k.as_slice()),
                            valor: a_string(valor.as_slice()),
                        };
                        salida.push(a);
                        proof {
                            assert(vista_asignaciones(salida@) =~= previo.push(a@));
                        }
                    },
                    None => {},
                }
            },
        }
        i = i + 1;
    }
    proof {
        assert(vista_asignaciones(salida@) + seq![] =~= vista_asignaciones(salida@));
    }
    salida
}

/// The assignments of an INI text, in order.
pub fn asignaciones_de(texto: &str) -> (r: Vec<Asignacion>)
    ensures
        vista_asignaciones(r@) == asignaciones(texto@),
{
    let t = caracteres(texto);
    let ls = lineas_de(t.as_slice());
    asignaciones_de_lineas(&ls)
}


/// The line ending a text uses: `\r\n` when it has one anywhere, `\n` otherwise.
pub open spec fn terminador(t: Seq<char>) -> Seq<char> {
    if contiene(t, seq!['\r', '\n']) {
        seq!['\r', '\n']
    } else {
        seq!['\n']
    }
}

/// The line ending of a text, as characters.
pub fn terminador_en(t: &[char]) -> (r: Vec<char>)
    ensures
        r@ == terminador(t@),
{
    let crlf = vec!['\r', '\n'];
    if contiene_en(t, crlf.as_slice()) {
        crlf
    } else {
        vec!['\n']
    }
}

/// The line ending the file uses.
///
/// `str::lines()` takes both `\n` and `\r\n`, so rebuilding with a bare `\n`
/// would convert a file with Windows line endings as a whole.
pub fn terminador_de(texto: &str) -> (r: &'static str)
    ensures
        r@ == terminador(texto@),
{
    let t = caracteres(texto);
    let crlf = vec!['\r', '\n'];
    if contiene_en(t.as_slice(), crlf.as_slice()) {
        proof {
            reveal_strlit("\r\n");
            assert("\r\n"@ =~= seq!['\r', '\n']);
        }
        "\r\n"
    } else {
        proof {
            reveal_strlit("\n");
            assert("\n"@ =~= seq!['\n']);
        }
        "\n"
    }
}

/// Whether the string holds exactly these characters.
pub fn es_igual_a(s: &String, v: &[char]) -> (r: bool)
    ensures
        r == (s@ == v@),
{
    let c = caracteres(s.as_str());
    iguales(c.as_slice(), v)
}

/// Whether some assignment of the vector is in section `s` with key `k`.
pub fn tiene_asignacion(asigs: &Vec<Asignacion>, s: &[char], k: &[char]) -> (r: bool)
    ensures
        r == tiene_en(vista_asignaciones(asigs@), s@, k@),
{
    let ghost v = vista_asignaciones(asigs@);
    let mut i: usize = 0;
    while i < asigs.len()
        invariant
            i <= asigs@.len(),
            v == vista_asignaciones(asigs@),
            forall|j: int| 0 <= j < i ==> !(#[trigger] v[j].seccion == s@ && v[j].clave == k@),
        decreases asigs@.len() - i,
    {
        if es_igual_a(&asigs[i].seccion, s) && es_igual_a(&asigs[i].clave, k) {
            assert(v[i as int].seccion == s@ && v[i as int].clave == k@);
            return true;
        }
        i = i + 1;
    }
    false
}

/// Whether the file already has that key in that section.
pub fn tiene(texto: &str, seccion: &str, clave: &str) -> (r: bool)
    ensures
        r == tiene_en(asignaciones(texto@), seccion@, clave@),
{
    let asigs = asignaciones_de(texto);
    let s = caracteres(seccion);
    let k = caracteres(clave);
    tiene_asignacion(&asigs, s.as_slice(), k.as_slice())
}

/// Where section `sec` ends, scanning from line `i` with `actual` the section
/// in effect and `ultima` its last line with content so far: the line index
/// right after that last line. A section that has none ends right before the
/// next header, which is what puts a key without section before the first
/// header. `None` when the section is not in the file.
pub open spec fn fin_desde(
    ls: Seq<Seq<char>>,
    sec: Seq<char>,
    i: int,
    actual: Seq<char>,
    ultima: Option<int>,
) -> Option<int>
    decreases ls.len() - i,
{
    if i >= ls.len() || i < 0 {
        match ultima {
            Some(u) => Some(u + 1),
            None => None,
        }
    } else {
        match seccion_en_linea(ls[i]) {
            Some(s) => if actual == sec {
                Some(
                    match ultima {
                        Some(u) => u + 1,
                        None => i,
                    },
                )
            } else {
                fin_desde(
                    ls,
                    sec,
                    i + 1,
                    s,
                    if s == sec {
                        Some(i)
                    } else {
                        ultima
                    },
                )
            },
            None => fin_desde(
                ls,
                sec,
                i + 1,
                actual,
                if actual == sec && recorte(ls[i]).len() > 0 {
                    Some(i)
                } else {
                    ultima
                },
            ),
        }
    }
}

/// Where a section ends: the line index right after its last line with content.
pub open spec fn fin_de_seccion_en(ls: Seq<Seq<char>>, sec: Seq<char>) -> Option<int> {
    fin_desde(ls, sec, 0, seq![], None)
}

pub proof fn lema_fin_desde_acotado(
    ls: Seq<Seq<char>>,
    sec: Seq<char>,
    i: int,
    actual: Seq<char>,
    ultima: Option<int>,
)
    requires
        0 <= i,
        ultima matches Some(u) ==> 0 <= u < i && u < ls.len(),
    ensures
        fin_desde(ls, sec, i, actual, ultima) matches Some(d) ==> 0 <= d <= ls.len(),
    decreases ls.len() - i,
{
    if i < ls.len() {
        match seccion_en_linea(ls[i]) {
            Some(s) => if actual != sec {
                lema_fin_desde_acotado(
                    ls,
                    sec,
                    i + 1,
                    s,
                    if s == sec {
                        Some(i)
                    } else {
                        ultima
                    },
                );
            },
            None => lema_fin_desde_acotado(
                ls,
                sec,
                i + 1,
                actual,
                if actual == sec && recorte(ls[i]).len() > 0 {
                    Some(i)
                } else {
                    ultima
                },
            ),
        }
    }
}

/// Where a section ends.
fn fin_de_seccion(ls: &Vec<Vec<char>>, seccion: &[char]) -> (r: Option<usize>)
    ensures
        r matches Some(d) ==> d <= ls@.len(),
        fin_de_seccion_en(vista(ls@), seccion@) matches Some(d) ==> 0 <= d <= ls@.len(),
        r == (match fin_de_seccion_en(vista(ls@), seccion@) {
            Some(d) => Some(d as usize),
            None => None::<usize>,
        }),
{
    let ghost v = vista(ls@);
    proof {
        lema_fin_desde_acotado(v, seccion@, 0, seq![], None);
    }
    let mut actual: Vec<char> = Vec::new();
    let mut ultima: Option<usize> = None;
    let mut i: usize = 0;
    while i < ls.len()
        invariant
            i <= ls@.len(),
            v == vista(ls@),
            ultima matches Some(u) ==> u < i,
            fin_de_seccion_en(v, seccion@) == fin_desde(
                v,
                seccion@,
                i as int,
                actual@,
                match ultima {
                    Some(u) => Some(u as int),
                    None => None::<int>,
                },
            ),
        decreases ls@.len() - i,
    {
        let linea = ls[i].as_slice();
        assert(linea@ == v[i as int]);
        match seccion_de(linea) {
            Some(s) => {
                if iguales(actual.as_slice(), seccion) {
                    return Some(
                        match ultima {
                            Some(u) => u + 1,
                            None => i,
                        },
                    );
                }
                if iguales(s.as_slice(), seccion) {
                    ultima = Some(i);
                }
                actual = s;
            },
            None => {
                if iguales(actual.as_slice(), seccion) {
                    let (a, b) = limites_recorte(linea);
                    if a < b {
                        ultima = Some(i);
                    }
                }
            },
        }
        i = i + 1;
    }
    match ultima {
        Some(u) => Some(u + 1),
        None => None,
    }
}


/// Where the piece of a shortcut that starts at `s[0]` ends, looking from `i`:
/// at the first white space or `<`, or at the end.
pub open spec fn corte_desde(s: Seq<char>, i: int) -> int
    decreases s.len() - i,
{
    if i >= s.len() || i < 0 {
        s.len() as int
    } else if es_blanco(s[i]) || s[i] == '<' {
        i
    } else {
        corte_desde(s, i + 1)
    }
}

pub proof fn lema_corte_desde(s: Seq<char>, i: int)
    requires
        0 <= i <= s.len(),
    ensures
        i <= corte_desde(s, i) <= s.len(),
        forall|j: int| i <= j < corte_desde(s, i) ==> !es_blanco(#[trigger] s[j]) && s[j] != '<',
        corte_desde(s, i) < s.len() ==> es_blanco(s[corte_desde(s, i)]) || s[corte_desde(s, i)]
            == '<',
    decreases s.len() - i,
{
    if i < s.len() && !(es_blanco(s[i]) || s[i] == '<') {
        lema_corte_desde(s, i + 1);
    }
}

/// The pieces of a shortcut, reading `resto` (which starts with no white
/// space): a modifier `<...>`, lower-cased and trimmed inside, or a run of
/// characters up to the next white space or `<`. `None` when a `<` is never
/// closed.
pub open spec fn fichas(resto: Seq<char>) -> Option<Seq<Seq<char>>>
    decreases resto.len(),
{
    if resto.len() == 0 {
        Some(seq![])
    } else if resto[0] == '<' {
        let desde = resto.drop_first();
        let p = indice(desde, '>');
        if p >= desde.len() || p < 0 {
            None
        } else {
            let m = seq!['<'] + minusculas_de(recorte(desde.take(p))) + seq!['>'];
            let sigue = sin_blanco_inicial(desde.skip(p + 1));
            proof {
                lema_largo_sin_blanco_inicial(desde.skip(p + 1));
            }
            match fichas(sigue) {
                Some(r) => Some(seq![m] + r),
                None => None,
            }
        }
    } else {
        let fin = corte_desde(resto, 0);
        let sigue = sin_blanco_inicial(resto.skip(fin));
        proof {
            lema_corte_desde(resto, 0);
            lema_largo_sin_blanco_inicial(resto.skip(fin));
            if fin == 0 {
                assert(resto.skip(fin) =~= resto);
            }
        }
        match fichas(sigue) {
            Some(r) => Some(seq![resto.take(fin)] + r),
            None => None,
        }
    }
}

/// A modifier, `<...>`.
pub open spec fn es_modificador(f: Seq<char>) -> bool {
    f.len() > 0 && f[0] == '<'
}

/// A key or a button, `KEY_...` or `BTN_...`.
pub open spec fn es_tecla(f: Seq<char>) -> bool {
    empieza(f, "KEY_"@) || empieza(f, "BTN_"@)
}

/// The modifiers among the pieces, in order.
pub open spec fn modificadores(fs: Seq<Seq<char>>) -> Seq<Seq<char>>
    decreases fs.len(),
{
    if fs.len() == 0 {
        seq![]
    } else if es_modificador(fs.last()) {
        modificadores(fs.drop_last()).push(fs.last())
    } else {
        modificadores(fs.drop_last())
    }
}

/// The pieces that are not modifiers, in order.
pub open spec fn teclas(fs: Seq<Seq<char>>) -> Seq<Seq<char>>
    decreases fs.len(),
{
    if fs.len() == 0 {
        seq![]
    } else if !es_modificador(fs.last()) {
        teclas(fs.drop_last()).push(fs.last())
    } else {
        teclas(fs.drop_last())
    }
}

/// `x` put in its place in `s`, unless it is there already; in a sequence in
/// increasing order, the result is again in increasing order with no repeats.
pub open spec fn insertar_ordenado(s: Seq<Seq<char>>, x: Seq<char>) -> Seq<Seq<char>>
    decreases s.len(),
{
    if s.len() == 0 {
        seq![x]
    } else if x == s[0] {
        s
    } else if lex_menor(x, s[0]) {
        seq![x] + s
    } else {
        seq![s[0]] + insertar_ordenado(s.drop_first(), x)
    }
}

/// The pieces sorted, each once: what `sort` and then `dedup` leave.
pub open spec fn ordenar(m: Seq<Seq<char>>) -> Seq<Seq<char>>
    decreases m.len(),
{
    if m.len() == 0 {
        seq![]
    } else {
        insertar_ordenado(ordenar(m.drop_last()), m.last())
    }
}

/// The pieces one after the other.
pub open spec fn concatenar(s: Seq<Seq<char>>) -> Seq<char>
    decreases s.len(),
{
    if s.len() == 0 {
        seq![]
    } else {
        concatenar(s.drop_last()) + s.last()
    }
}

/// One shortcut, normalised: its modifiers sorted and each once, then its keys
/// in order. `None` when it is not a shortcut: a piece that is neither, no
/// piece at all, or a `<` never closed.
pub open spec fn combo(uno: Seq<char>) -> Option<Seq<char>> {
    match fichas(recorte(uno)) {
        None => None,
        Some(fs) => if fs.len() == 0 || !(forall|i: int|
            0 <= i < fs.len() ==> es_modificador(#[trigger] fs[i]) || es_tecla(fs[i])) {
            None
        } else {
            Some(concatenar(ordenar(modificadores(fs))) + concatenar(teclas(fs)))
        },
    }
}

/// The shortcuts of the pieces, leaving out what is not a shortcut.
pub open spec fn combos_de_partes(ps: Seq<Seq<char>>) -> Seq<Seq<char>>
    decreases ps.len(),
{
    if ps.len() == 0 {
        seq![]
    } else {
        match combo(ps.last()) {
            Some(c) => combos_de_partes(ps.drop_last()).push(c),
            None => combos_de_partes(ps.drop_last()),
        }
    }
}

/// The shortcuts a value expresses, normalised; several go separated by `|`.
/// Empty when the value is not a shortcut.
pub open spec fn combos(valor: Seq<char>) -> Seq<Seq<char>> {
    combos_de_partes(partes(valor, '|'))
}

/// Splits a shortcut into its pieces.
fn tokens_de(texto: &[char]) -> (r: Option<Vec<Vec<char>>>)
    ensures
        match r {
            Some(v) => fichas(recorte(texto@)) == Some(vista(v@)),
            None => fichas(recorte(texto@)) is None,
        },
{
    let mut salida: Vec<Vec<char>> = Vec::new();
    let mut resto = recortado(texto);
    proof {
        assert(sin_blanco_inicial(recorte(texto@)) == recorte(texto@)) by {
            let t = recorte(texto@);
            lema_recorte_sin_blanco_inicial(texto@);
        }
    }
    let ghost inicio = recorte(texto@);
    while resto.len() > 0
        invariant
            inicio == recorte(texto@),
            sin_blanco_inicial(resto@) == resto@,
            fichas(inicio) == match fichas(resto@) {
                Some(r) => Some(vista(salida@) + r),
                None => None,
            },
        decreases resto@.len(),
    {
        let ghost antes = resto@;
        if resto[0] == '<' {
            let desde = copia(resto.as_slice(), 1, resto.len());
            assert(desde@ =~= antes.drop_first());
            match buscar(desde.as_slice(), '>') {
                None => {
                    assert(fichas(antes) is None);
                    return None;
                },
                Some(p) => {
                    let dentro = copia(desde.as_slice(), 0, p);
                    assert(dentro@ =~= desde@.take(p as int));
                    let nombre = minusculas_en(recortado(dentro.as_slice()).as_slice());
                    let mut m: Vec<char> = vec!['<'];
                    agregar(&mut m, nombre.as_slice());
                    m.push('>');
                    assert(m@ =~= seq!['<'] + minusculas_de(recorte(desde@.take(p as int)))
                        + seq!['>']);
                    let despues = copia(desde.as_slice(), p + 1, desde.len());
                    assert(despues@ =~= desde@.skip(p + 1));
                    let ghost previo = vista(salida@);
                    salida.push(m);
                    resto = sin_blanco_al_inicio(despues.as_slice());
                    proof {
                        lema_sin_blanco_inicial_idempotente(despues@);
                        assert(vista(salida@) =~= previo.push(m@));
                        match fichas(resto@) {
                            Some(r) => {
                                assert(vista(salida@) + r =~= previo + (seq![m@] + r));
                            },
                            None => {},
                        }
                    }
                },
            }
        } else {
            let mut fin: usize = 0;
            while fin < resto.len() && !blanco(resto[fin]) && resto[fin] != '<'
                invariant
                    fin <= resto@.len(),
                    resto@ == antes,
                    corte_desde(antes, 0) == corte_desde(antes, fin as int),
                decreases resto@.len() - fin,
            {
                fin = fin + 1;
            }
            proof {
                lema_corte_desde(antes, 0);
                if fin == 0 {
                    lema_largo_sin_blanco_inicial(antes);
                }
            }
            let pieza = copia(resto.as_slice(), 0, fin);
            assert(pieza@ =~= antes.take(fin as int));
            let despues = copia(resto.as_slice(), fin, resto.len());
            assert(despues@ =~= antes.skip(fin as int));
            let ghost previo = vista(salida@);
            salida.push(pieza);
            resto = sin_blanco_al_inicio(despues.as_slice());
            proof {
                lema_sin_blanco_inicial_idempotente(despues@);
                lema_largo_sin_blanco_inicial(despues@);
                assert(vista(salida@) =~= previo.push(pieza@));
                match fichas(resto@) {
                    Some(r) => {
                        assert(vista(salida@) + r =~= previo + (seq![pieza@] + r));
                    },
                    None => {},
                }
            }
        }
    }
    proof {
        assert(vista(salida@) + seq![] =~= vista(salida@));
    }
    Some(salida)
}


/// Puts `x` in its place in `s`.
fn insertar(s: &mut Vec<Vec<char>>, x: Vec<char>)
    ensures
        vista(final(s)@) == insertar_ordenado(vista(old(s)@), x@),
{
    let ghost v0 = vista(s@);
    let mut k: usize = 0;
    proof {
        assert(v0.take(0) + v0.skip(0) =~= v0);
        assert(v0.skip(0) =~= v0);
    }
    while k < s.len()
        invariant
            k <= s@.len(),
            vista(s@) == v0,
            v0 == vista(old(s)@),
            insertar_ordenado(v0, x@) == v0.take(k as int) + insertar_ordenado(v0.skip(k as int), x@),
        decreases s@.len() - k,
    {
        proof {
            assert(v0.skip(k as int)[0] == s@[k as int]@);
        }
        if iguales(s[k].as_slice(), x.as_slice()) {
            proof {
                assert(v0.take(k as int) + v0.skip(k as int) =~= v0);
            }
            return;
        }
        if menor(x.as_slice(), s[k].as_slice()) {
            let ghost xv = x@;
            s.insert(k, x);
            proof {
                assert(vista(s@) =~= v0.take(k as int) + (seq![xv] + v0.skip(k as int)));
            }
            return;
        }
        proof {
            assert(v0.skip(k as int).drop_first() =~= v0.skip(k + 1));
            assert(v0.take(k as int) + seq![v0[k as int]] =~= v0.take(k + 1));
            assert(v0.take(k as int) + (seq![v0[k as int]] + insertar_ordenado(v0.skip(k + 1), x@))
                =~= v0.take(k + 1) + insertar_ordenado(v0.skip(k + 1), x@));
        }
        k = k + 1;
    }
    proof {
        assert(v0.skip(k as int) =~= Seq::<Seq<char>>::empty());
        assert(v0.take(k as int) =~= v0);
    }
    let ghost xv = x@;
    s.push(x);
    proof {
        assert(vista(s@) =~= v0 + seq![xv]);
    }
}

/// The pieces one after the other.
fn concatenar_en(s: &Vec<Vec<char>>) -> (r: Vec<char>)
    ensures
        r@ == concatenar(vista(s@)),
{
    let mut r: Vec<char> = Vec::new();
    let mut i: usize = 0;
    while i < s.len()
        invariant
            i <= s@.len(),
            r@ == concatenar(vista(s@).take(i as int)),
        decreases s@.len() - i,
    {
        agregar(&mut r, s[i].as_slice());
        i = i + 1;
        proof {
            assert(vista(s@).take(i as int).drop_last() =~= vista(s@).take(i - 1));
        }
    }
    proof {
        assert(vista(s@).take(s@.len() as int) =~= vista(s@));
    }
    r
}

/// One shortcut, normalised.
fn combo_de(uno: &[char]) -> (r: Option<Vec<char>>)
    ensures
        match r {
            Some(c) => combo(uno@) == Some(c@),
            None => combo(uno@) is None,
        },
{
    let fs = match tokens_de(uno) {
        Some(fs) => fs,
        None => {
            return None;
        },
    };
    let ghost fv = vista(fs@);
    let key = caracteres("KEY_");
    let btn = caracteres("BTN_");
    let mut mods: Vec<Vec<char>> = Vec::new();
    let mut teclas_txt: Vec<char> = Vec::new();
    let mut i: usize = 0;
    while i < fs.len()
        invariant
            i <= fs@.len(),
            fv == vista(fs@),
            key@ == "KEY_"@,
            btn@ == "BTN_"@,
            fichas(recorte(uno@)) == Some(fv),
            vista(mods@) == ordenar(modificadores(fv.take(i as int))),
            teclas_txt@ == concatenar(teclas(fv.take(i as int))),
            forall|j: int| 0 <= j < i ==> es_modificador(#[trigger] fv[j]) || es_tecla(fv[j]),
        decreases fs@.len() - i,
    {
        let f = fs[i].as_slice();
        assert(f@ == fv[i as int]);
        proof {
            assert(fv.take(i + 1).drop_last() =~= fv.take(i as int));
            assert(fv.take(i + 1).last() == fv[i as int]);
        }
        let ghost m0 = modificadores(fv.take(i as int));
        let ghost t0 = teclas(fv.take(i as int));
        if f.len() > 0 && f[0] == '<' {
            insertar(&mut mods, fs[i].clone());
            proof {
                assert(modificadores(fv.take(i + 1)) == m0.push(fv[i as int]));
                assert(m0.push(fv[i as int]).drop_last() =~= m0);
                assert(teclas(fv.take(i + 1)) == t0);
            }
        } else if empieza_con(f, key.as_slice()) || empieza_con(f, btn.as_slice()) {
            agregar(&mut teclas_txt, f);
            proof {
                assert(modificadores(fv.take(i + 1)) == m0);
                assert(teclas(fv.take(i + 1)) == t0.push(fv[i as int]));
                assert(t0.push(fv[i as int]).drop_last() =~= t0);
            }
        } else {
            assert(!(es_modificador(fv[i as int]) || es_tecla(fv[i as int])));
            return None;
        }
        i = i + 1;
    }
    proof {
        assert(fv.take(fs@.len() as int) =~= fv);
    }
    if fs.len() == 0 {
        return None;
    }
    let mut r = concatenar_en(&mods);
    agregar(&mut r, teclas_txt.as_slice());
    Some(r)
}

/// The shortcuts of some characters.
pub fn combos_en(valor: &[char]) -> (r: Vec<Vec<char>>)
    ensures
        vista(r@) == combos(valor@),
{
    let ps = partir(valor, '|');
    let ghost pv = vista(ps@);
    let mut r: Vec<Vec<char>> = Vec::new();
    let mut i: usize = 0;
    while i < ps.len()
        invariant
            i <= ps@.len(),
            pv == vista(ps@),
            vista(r@) == combos_de_partes(pv.take(i as int)),
        decreases ps@.len() - i,
    {
        proof {
            assert(pv.take(i + 1).drop_last() =~= pv.take(i as int));
            assert(pv.take(i + 1).last() == ps@[i as int]@);
        }
        match combo_de(ps[i].as_slice()) {
            Some(c) => {
                let ghost previo = vista(r@);
                let ghost cv = c@;
                r.push(c);
                proof {
                    assert(vista(r@) =~= previo.push(cv));
                }
            },
            None => {},
        }
        i = i + 1;
    }
    proof {
        assert(pv.take(ps@.len() as int) =~= pv);
    }
    r
}

/// The contents of each string.
pub open spec fn cadenas(v: Seq<String>) -> Seq<Seq<char>> {
    v.map_values(|s: String| s@)
}

/// Strings with the characters of each vector.
pub fn a_strings(v: &Vec<Vec<char>>) -> (r: Vec<String>)
    ensures
        cadenas(r@) == vista(v@),
{
    let mut r: Vec<String> = Vec::new();
    let mut i: usize = 0;
    while i < v.len()
        invariant
            i <= v@.len(),
            cadenas(r@) == vista(v@).take(i as int),
        decreases v@.len() - i,
    {
        let ghost previo = cadenas(r@);
        let s = a_string(v[i].as_slice());
        let ghost sv = s@;
        r.push(s);
        i = i + 1;
        proof {
            assert(cadenas(r@) =~= previo.push(sv));
            assert(cadenas(r@) =~= vista(v@).take(i as int));
        }
    }
    proof {
        assert(vista(v@).take(v@.len() as int) =~= vista(v@));
    }
    r
}

/// The shortcuts a value expresses, normalised; empty when it is not one.
///
/// Wayfire writes a shortcut as modifiers and a key, in either order, so
/// `<super> KEY_T` and `KEY_T <super>` are the same shortcut written two ways:
/// the modifiers are lower-cased, sorted and kept once, and the keys follow.
/// Modifiers may be written together (`<alt><ctrl> KEY_T`). Several shortcuts
/// for one action go separated by `|`. A value that is not a shortcut (a
/// command, a number, a plugin list) gives nothing.
pub fn combos_de(valor: &str) -> (r: Vec<String>)
    ensures
        cadenas(r@) == combos(valor@),
{
    let v = caracteres(valor);
    let c = combos_en(v.as_slice());
    a_strings(&c)
}


/// The label of a `[command]` shortcut key, if it is one: what follows
/// `repeatable_binding_`, `always_binding_` or `binding_`, looked for in that
/// order. `binding_terminal` is half of a pair whose other half is
/// `command_terminal`.
pub open spec fn sufijo_atajo(k: Seq<char>) -> Option<Seq<char>> {
    if empieza(k, "repeatable_binding_"@) {
        Some(k.skip("repeatable_binding_"@.len() as int))
    } else if empieza(k, "always_binding_"@) {
        Some(k.skip("always_binding_"@.len() as int))
    } else if empieza(k, "binding_"@) {
        Some(k.skip("binding_"@.len() as int))
    } else {
        None
    }
}

/// The label of a shortcut key (`binding_x`, `always_binding_x` or
/// `repeatable_binding_x` gives `x`), or `None` when the key binds no shortcut.
pub fn sufijo_de_atajo(clave: &str) -> (r: Option<String>)
    ensures
        match r {
            Some(s) => sufijo_atajo(clave@) == Some(s@),
            None => sufijo_atajo(clave@) is None,
        },
{
    let c = caracteres(clave);
    match sufijo_en(c.as_slice()) {
        Some(s) => Some(a_string(s.as_slice())),
        None => None,
    }
}

/// The label of a shortcut key, if it is one.
fn sufijo_en(clave: &[char]) -> (r: Option<Vec<char>>)
    ensures
        match r {
            Some(s) => sufijo_atajo(clave@) == Some(s@),
            None => sufijo_atajo(clave@) is None,
        },
{
    let prefijos = [
        caracteres("repeatable_binding_"),
        caracteres("always_binding_"),
        caracteres("binding_"),
    ];
    let mut i: usize = 0;
    while i < 3
        invariant
            i <= 3,
            prefijos@[0]@ == "repeatable_binding_"@,
            prefijos@[1]@ == "always_binding_"@,
            prefijos@[2]@ == "binding_"@,
            forall|j: int| 0 <= j < i ==> !empieza(clave@, #[trigger] prefijos@[j]@),
        decreases 3 - i,
    {
        let p = prefijos[i].as_slice();
        if empieza_con(clave, p) {
            let r = copia(clave, p.len(), clave.len());
            proof {
                assert(r@ =~= clave@.skip(p@.len() as int));
            }
            return Some(r);
        }
        i = i + 1;
    }
    None
}

/// The key of a shortcut.
pub type Atajo = (Seq<char>, Seq<char>);

/// The shortcuts a vector holds, as values.
pub open spec fn vista_pares(v: Seq<(Vec<char>, Vec<char>)>) -> Seq<Atajo> {
    v.map_values(|p: (Vec<char>, Vec<char>)| (p.0@, p.1@))
}

/// The shortcuts an assignment binds, each with its section, **when its key is
/// a free label** (`binding_*` of `[command]`); plugin options are left out even
/// when their value looks like a shortcut, since their names are fixed.
pub open spec fn atajos(a: AsignacionV) -> Seq<Atajo> {
    if sufijo_atajo(a.clave) is Some {
        combos(a.valor).map_values(|c: Seq<char>| (a.seccion, c))
    } else {
        seq![]
    }
}

/// The shortcuts an assignment binds.
fn atajos_de(a: &Asignacion) -> (r: Vec<(Vec<char>, Vec<char>)>)
    ensures
        vista_pares(r@) == atajos(a@),
{
    let clave = caracteres(a.clave.as_str());
    match sufijo_en(clave.as_slice()) {
        None => {
            return Vec::new();
        },
        Some(_) => {},
    }
    let seccion = caracteres(a.seccion.as_str());
    let valor = caracteres(a.valor.as_str());
    let cs = combos_en(valor.as_slice());
    let ghost objetivo = combos(a.valor@).map_values(|c: Seq<char>| (a.seccion@, c));
    let mut r: Vec<(Vec<char>, Vec<char>)> = Vec::new();
    let mut i: usize = 0;
    while i < cs.len()
        invariant
            i <= cs@.len(),
            vista(cs@) == combos(a.valor@),
            seccion@ == a.seccion@,
            objetivo == combos(a.valor@).map_values(|c: Seq<char>| (a.seccion@, c)),
            vista_pares(r@) == objetivo.take(i as int),
        decreases cs@.len() - i,
    {
        let ghost previo = vista_pares(r@);
        let par = (seccion.clone(), cs[i].clone());
        let ghost pv = (par.0@, par.1@);
        r.push(par);
        i = i + 1;
        proof {
            assert(vista(cs@)[i - 1] == cs@[i - 1]@);
            assert(vista_pares(r@) =~= previo.push(pv));
            assert(vista_pares(r@) =~= objetivo.take(i as int));
        }
    }
    proof {
        assert(objetivo.take(cs@.len() as int) =~= objetivo);
    }
    r
}

/// Whether the shortcut is among these.
fn esta_atajo(v: &Vec<(Vec<char>, Vec<char>)>, p: &(Vec<char>, Vec<char>)) -> (r: bool)
    ensures
        r == vista_pares(v@).contains((p.0@, p.1@)),
{
    let ghost objetivo = (p.0@, p.1@);
    let mut i: usize = 0;
    while i < v.len()
        invariant
            i <= v@.len(),
            objetivo == (p.0@, p.1@),
            forall|j: int| 0 <= j < i ==> vista_pares(v@)[j] != objetivo,
        decreases v@.len() - i,
    {
        if iguales(v[i].0.as_slice(), p.0.as_slice()) && iguales(v[i].1.as_slice(), p.1.as_slice()) {
            assert(vista_pares(v@)[i as int] == objetivo);
            return true;
        }
        i = i + 1;
    }
    false
}

/// Whether some of the shortcuts `a` is among `b`.
pub open spec fn choca(a: Seq<Atajo>, b: Seq<Atajo>) -> bool {
    exists|i: int| 0 <= i < a.len() && b.contains(#[trigger] a[i])
}

/// Whether some of the shortcuts `a` is among `b`.
fn choca_con(a: &Vec<(Vec<char>, Vec<char>)>, b: &Vec<(Vec<char>, Vec<char>)>) -> (r: bool)
    ensures
        r == choca(vista_pares(a@), vista_pares(b@)),
{
    let mut i: usize = 0;
    while i < a.len()
        invariant
            i <= a@.len(),
            forall|j: int| 0 <= j < i ==> !vista_pares(b@).contains(#[trigger] vista_pares(a@)[j]),
        decreases a@.len() - i,
    {
        if esta_atajo(b, &a[i]) {
            assert(vista_pares(a@)[i as int] == (a@[i as int].0@, a@[i as int].1@));
            return true;
        }
        i = i + 1;
    }
    false
}

/// The position of the first assignment in section `s` with key `k`, looking
/// from `i`.
pub open spec fn primera_asignacion(todas: Seq<AsignacionV>, s: Seq<char>, k: Seq<char>, i: int) -> Option<int>
    decreases todas.len() - i,
{
    if i >= todas.len() || i < 0 {
        None
    } else if todas[i].seccion == s && todas[i].clave == k {
        Some(i)
    } else {
        primera_asignacion(todas, s, k, i + 1)
    }
}

/// The command a shortcut fires: the value of the `command_x` of its
/// `binding_x`, in the same section.
pub open spec fn comando(todas: Seq<AsignacionV>, a: AsignacionV) -> Option<Seq<char>> {
    match sufijo_atajo(a.clave) {
        None => None,
        Some(suf) => match primera_asignacion(todas, a.seccion, "command_"@ + suf, 0) {
            Some(j) => Some(todas[j].valor),
            None => None,
        },
    }
}

pub proof fn lema_primera_asignacion(todas: Seq<AsignacionV>, s: Seq<char>, k: Seq<char>, i: int)
    requires
        0 <= i,
    ensures
        primera_asignacion(todas, s, k, i) matches Some(j) ==> i <= j < todas.len(),
    decreases todas.len() - i,
{
    if i < todas.len() && !(todas[i].seccion == s && todas[i].clave == k) {
        lema_primera_asignacion(todas, s, k, i + 1);
    }
}

/// The position of the first assignment in section `s` with key `k`.
fn buscar_asignacion(todas: &Vec<Asignacion>, s: &[char], k: &[char]) -> (r: Option<usize>)
    ensures
        match r {
            Some(j) => primera_asignacion(vista_asignaciones(todas@), s@, k@, 0) == Some(j as int)
                && j < todas@.len(),
            None => primera_asignacion(vista_asignaciones(todas@), s@, k@, 0) is None,
        },
{
    let ghost v = vista_asignaciones(todas@);
    proof {
        lema_primera_asignacion(v, s@, k@, 0);
    }
    let mut i: usize = 0;
    while i < todas.len()
        invariant
            i <= todas@.len(),
            v == vista_asignaciones(todas@),
            primera_asignacion(v, s@, k@, 0) == primera_asignacion(v, s@, k@, i as int),
        decreases todas@.len() - i,
    {
        if es_igual_a(&todas[i].seccion, s) && es_igual_a(&todas[i].clave, k) {
            return Some(i);
        }
        i = i + 1;
    }
    None
}

/// The command a shortcut fires.
fn comando_de(todas: &Vec<Asignacion>, a: &Asignacion) -> (r: Option<Vec<char>>)
    ensures
        match r {
            Some(c) => comando(vista_asignaciones(todas@), a@) == Some(c@),
            None => comando(vista_asignaciones(todas@), a@) is None,
        },
{
    let clave = caracteres(a.clave.as_str());
    let sufijo = match sufijo_en(clave.as_slice()) {
        Some(s) => s,
        None => {
            return None;
        },
    };
    let mut pareja = caracteres("command_");
    agregar(&mut pareja, sufijo.as_slice());
    let seccion = caracteres(a.seccion.as_str());
    match buscar_asignacion(todas, seccion.as_slice(), pareja.as_slice()) {
        Some(j) => {
            let c = caracteres(todas[j].valor.as_str());
            assert(vista_asignaciones(todas@)[j as int] == todas@[j as int]@);
            Some(c)
        },
        None => None,
    }
}


/// What the closure answers for a section and a key: true when some call with
/// those texts answers true.
pub open spec fn responde<F: Fn(&str, &str) -> bool>(f: &F, s: Seq<char>, k: Seq<char>) -> bool {
    exists|a: &str, b: &str| a@ == s && b@ == k && call_ensures(f, (a, b), true)
}

/// The closure is a predicate: it can always be called, and its answer depends
/// on the two texts alone.
pub open spec fn es_predicado<F: Fn(&str, &str) -> bool>(f: &F) -> bool {
    &&& forall|a: &str, b: &str| call_requires(f, (a, b))
    &&& forall|a1: &str, b1: &str, a2: &str, b2: &str, r1: bool, r2: bool|
        #![trigger call_ensures(f, (a1, b1), r1), call_ensures(f, (a2, b2), r2)]
        a1@ == a2@ && b1@ == b2@ && call_ensures(f, (a1, b1), r1) && call_ensures(f, (a2, b2), r2)
            ==> r1 == r2
}

/// Asks the closure about a section and a key.
fn preguntar<F: Fn(&str, &str) -> bool>(f: &F, s: &String, k: &String) -> (r: bool)
    requires
        es_predicado(f),
    ensures
        r == responde(f, s@, k@),
{
    f(s.as_str(), k.as_str())
}

/// Something that answers, for a section and a key, whether the key was
/// offered (or put) before: the record of an account, or a caller's predicate.
pub trait Consulta {
    /// Whether it can be asked.
    spec fn valida(&self) -> bool;

    /// What it answers.
    spec fn dice(&self, s: Seq<char>, k: Seq<char>) -> bool;

    /// Asks it.
    fn consultar(&self, s: &String, k: &String) -> (r: bool)
        requires
            self.valida(),
        ensures
            r == self.dice(s@, k@),
    ;
}

/// A caller's predicate, asked through a closure.
pub struct PorClausura<'a, F: Fn(&str, &str) -> bool> {
    pub f: &'a F,
}

impl<'a, F: Fn(&str, &str) -> bool> Consulta for PorClausura<'a, F> {
    open spec fn valida(&self) -> bool {
        es_predicado(self.f)
    }

    open spec fn dice(&self, s: Seq<char>, k: Seq<char>) -> bool {
        responde(self.f, s, k)
    }

    fn consultar(&self, s: &String, k: &String) -> (r: bool) {
        preguntar(self.f, s, k)
    }
}

/// What was added to a file: section and key of each line, in order.
#[derive(Debug, PartialEq, Eq)]
pub struct Agregado {
    pub claves: Vec<(String, String)>,
}

/// Pairs of strings, as values.
pub open spec fn vista_claves(v: Seq<(String, String)>) -> Seq<(Seq<char>, Seq<char>)> {
    v.map_values(|p: (String, String)| (p.0@, p.1@))
}

/// The shortcuts all these assignments bind, in order.
pub open spec fn atajos_todos(asigs: Seq<AsignacionV>) -> Seq<Atajo>
    decreases asigs.len(),
{
    if asigs.len() == 0 {
        seq![]
    } else {
        atajos_todos(asigs.drop_last()) + atajos(asigs.last())
    }
}

/// The line that assigns `a`: `clave = valor`.
pub open spec fn linea_de_asignacion(a: AsignacionV) -> Seq<char> {
    a.clave + seq![' ', '=', ' '] + a.valor
}

/// The lines with `nueva` put in section `sec`: after its last line with
/// content; or, when the section is not there, at the end under a new header,
/// after a blank line that keeps the file readable.
pub open spec fn con_linea(ls: Seq<Seq<char>>, sec: Seq<char>, nueva: Seq<char>) -> Seq<Seq<char>> {
    match fin_de_seccion_en(ls, sec) {
        Some(d) => ls.insert(d, nueva),
        None => {
            let ls1 = if ls.len() > 0 && recorte(ls.last()).len() > 0 {
                ls.push(seq![])
            } else {
                ls
            };
            let ls2 = if sec.len() > 0 {
                ls1.push(seq!['['] + sec + seq![']'])
            } else {
                ls1
            };
            ls2.push(nueva)
        },
    }
}

/// Where a merge stands: the lines so far, the shortcuts bound so far and
/// what was added.
pub struct EstadoFusion {
    pub lineas: Seq<Seq<char>>,
    pub ligados: Seq<Atajo>,
    pub agregadas: Seq<(Seq<char>, Seq<char>)>,
}

/// Whether a binding of the package with label `suf` in section `sec` is left
/// out for binding a shortcut that is bound already: it is not among the
/// lines, and it collides with what they bind. Its `command_*` half, on its
/// own, would fire nothing.
pub open spec fn suelta(
    paquete: Seq<AsignacionV>,
    ls: Seq<Seq<char>>,
    ligados: Seq<Atajo>,
    sec: Seq<char>,
    suf: Seq<char>,
) -> bool {
    exists|j: int|
        0 <= j < paquete.len() && #[trigger] paquete[j].seccion == sec && sufijo_atajo(
            paquete[j].clave,
        ) == Some(suf) && choca(atajos(paquete[j]), ligados) && !tiene_en(
            asignaciones_lineas(ls),
            paquete[j].seccion,
            paquete[j].clave,
        )
}

/// One assignment of the package, merged. It is added only when the key is
/// not there already, was never offered before, does not bind a shortcut that
/// is already bound (by the user's file or by a line added in this merge), and
/// is not the `command_*` half of a binding left out for that reason.
pub open spec fn paso_fusion(
    e: EstadoFusion,
    a: AsignacionV,
    ofrecida: spec_fn(Seq<char>, Seq<char>) -> bool,
    paquete: Seq<AsignacionV>,
) -> EstadoFusion {
    if tiene_en(asignaciones_lineas(e.lineas), a.seccion, a.clave) || ofrecida(a.seccion, a.clave) {
        e
    } else if choca(atajos(a), e.ligados) {
        e
    } else if empieza(a.clave, "command_"@) && suelta(
        paquete,
        e.lineas,
        e.ligados,
        a.seccion,
        a.clave.skip("command_"@.len() as int),
    ) {
        e
    } else {
        EstadoFusion {
            lineas: con_linea(e.lineas, a.seccion, linea_de_asignacion(a)),
            ligados: e.ligados + atajos(a),
            agregadas: e.agregadas.push((a.seccion, a.clave)),
        }
    }
}

/// The package's assignments from `i` on, merged one after the other.
pub open spec fn fusion_desde(
    ps: Seq<AsignacionV>,
    i: int,
    e: EstadoFusion,
    ofrecida: spec_fn(Seq<char>, Seq<char>) -> bool,
    paquete: Seq<AsignacionV>,
) -> EstadoFusion
    decreases ps.len() - i,
{
    if i >= ps.len() || i < 0 {
        e
    } else {
        fusion_desde(ps, i + 1, paso_fusion(e, ps[i], ofrecida, paquete), ofrecida, paquete)
    }
}

/// Whether the text ends with a line break, or is empty: then the rebuilt
/// text ends with one too, and otherwise it does not.
pub open spec fn lleva_salto_final(t: Seq<char>) -> bool {
    t.len() == 0 || t.last() == '\n'
}

/// The lines of a file joined back with its own line ending, with a final one
/// when the file had it.
pub open spec fn rearmar(ls: Seq<Seq<char>>, original: Seq<char>) -> Seq<char> {
    unir(ls, terminador(original)) + if lleva_salto_final(original) {
        terminador(original)
    } else {
        seq![]
    }
}

/// The state a merge starts from.
pub open spec fn inicio_fusion(usuario: Seq<char>) -> EstadoFusion {
    EstadoFusion {
        lineas: lineas(usuario),
        ligados: atajos_todos(asignaciones(usuario)),
        agregadas: seq![],
    }
}

/// The state a merge ends in.
pub open spec fn fin_fusion(
    usuario: Seq<char>,
    paquete: Seq<char>,
    ofrecida: spec_fn(Seq<char>, Seq<char>) -> bool,
) -> EstadoFusion {
    let pa = asignaciones(paquete);
    fusion_desde(pa, 0, inicio_fusion(usuario), ofrecida, pa)
}

/// The merged text, and the section and key of each added line.
pub open spec fn fusion(
    usuario: Seq<char>,
    paquete: Seq<char>,
    ofrecida: spec_fn(Seq<char>, Seq<char>) -> bool,
) -> (Seq<char>, Seq<(Seq<char>, Seq<char>)>) {
    let e = fin_fusion(usuario, paquete, ofrecida);
    (rearmar(e.lineas, usuario), e.agregadas)
}


/// The shortcuts all these assignments bind.
fn atajos_de_todas(asigs: &Vec<Asignacion>) -> (r: Vec<(Vec<char>, Vec<char>)>)
    ensures
        vista_pares(r@) == atajos_todos(vista_asignaciones(asigs@)),
{
    let ghost v = vista_asignaciones(asigs@);
    let mut r: Vec<(Vec<char>, Vec<char>)> = Vec::new();
    let mut i: usize = 0;
    while i < asigs.len()
        invariant
            i <= asigs@.len(),
            v == vista_asignaciones(asigs@),
            vista_pares(r@) == atajos_todos(v.take(i as int)),
        decreases asigs@.len() - i,
    {
        let mut nuevos = atajos_de(&asigs[i]);
        let ghost previo = vista_pares(r@);
        let ghost agregados = vista_pares(nuevos@);
        r.append(&mut nuevos);
        i = i + 1;
        proof {
            assert(v.take(i as int).drop_last() =~= v.take(i - 1));
            assert(v.take(i as int).last() == asigs@[i - 1]@);
            assert(vista_pares(r@) =~= previo + agregados);
        }
    }
    proof {
        assert(v.take(asigs@.len() as int) =~= v);
    }
    r
}

/// Whether a binding of the package with this label, in this section, is left
/// out for colliding.
fn suelta_en(
    paquete: &Vec<Asignacion>,
    ls: &Vec<Vec<char>>,
    ligados: &Vec<(Vec<char>, Vec<char>)>,
    sec: &[char],
    suf: &[char],
) -> (r: bool)
    ensures
        r == suelta(vista_asignaciones(paquete@), vista(ls@), vista_pares(ligados@), sec@, suf@),
{
    let ghost pv = vista_asignaciones(paquete@);
    let actuales = asignaciones_de_lineas(ls);
    let mut j: usize = 0;
    while j < paquete.len()
        invariant
            j <= paquete@.len(),
            pv == vista_asignaciones(paquete@),
            vista_asignaciones(actuales@) == asignaciones_lineas(vista(ls@)),
            forall|k: int|
                0 <= k < j ==> !(#[trigger] pv[k].seccion == sec@ && sufijo_atajo(pv[k].clave) == Some(
                    suf@,
                ) && choca(atajos(pv[k]), vista_pares(ligados@)) && !tiene_en(
                    asignaciones_lineas(vista(ls@)),
                    pv[k].seccion,
                    pv[k].clave,
                )),
        decreases paquete@.len() - j,
    {
        let p = &paquete[j];
        assert(pv[j as int] == p@);
        let seccion = caracteres(p.seccion.as_str());
        let clave = caracteres(p.clave.as_str());
        if iguales(seccion.as_slice(), sec) {
            match sufijo_en(clave.as_slice()) {
                Some(s) => {
                    if iguales(s.as_slice(), suf) {
                        let at = atajos_de(p);
                        if choca_con(&at, ligados) && !tiene_asignacion(
                            &actuales,
                            seccion.as_slice(),
                            clave.as_slice(),
                        ) {
                            assert(pv[j as int].seccion == sec@);
                            return true;
                        }
                    }
                },
                None => {},
            }
        }
        j = j + 1;
    }
    false
}

/// Puts `nueva` in section `sec`.
fn poner_linea(ls: &mut Vec<Vec<char>>, sec: &[char], nueva: Vec<char>)
    ensures
        vista(final(ls)@) == con_linea(vista(old(ls)@), sec@, nueva@),
{
    let ghost v0 = vista(ls@);
    let ghost nv = nueva@;
    match fin_de_seccion(ls, sec) {
        Some(d) => {
            ls.insert(d, nueva);
            proof {
                assert(vista(ls@) =~= v0.insert(d as int, nv));
            }
        },
        None => {
            let n = ls.len();
            if n > 0 {
                let (a, b) = limites_recorte(ls[n - 1].as_slice());
                if a < b {
                    ls.push(Vec::new());
                }
            }
            let ghost v1 = vista(ls@);
            proof {
                assert(v1 =~= (if v0.len() > 0 && recorte(v0.last()).len() > 0 {
                    v0.push(seq![])
                } else {
                    v0
                }));
            }
            if sec.len() > 0 {
                let mut cabecera: Vec<char> = vec!['['];
                agregar(&mut cabecera, sec);
                cabecera.push(']');
                let ghost cv = cabecera@;
                ls.push(cabecera);
                proof {
                    assert(cv =~= seq!['['] + sec@ + seq![']']);
                    assert(vista(ls@) =~= v1.push(cv));
                }
            }
            let ghost v2 = vista(ls@);
            ls.push(nueva);
            proof {
                assert(vista(ls@) =~= v2.push(nv));
            }
        },
    }
}

/// The lines joined with the file's line ending, with a final one when the
/// file had it.
pub fn rearmar_en(ls: &Vec<Vec<char>>, original: &[char]) -> (r: Vec<char>)
    ensures
        r@ == rearmar(vista(ls@), original@),
{
    let term = terminador_en(original);
    let mut texto = unir_lineas(ls, term.as_slice());
    let n = original.len();
    if n == 0 || original[n - 1] == '\n' {
        agregar(&mut texto, term.as_slice());
    } else {
        proof {
            assert(texto@ + seq![] =~= texto@);
        }
    }
    texto
}

/// The merge, asking `ya_ofrecidas` whether each key was offered.
pub(crate) fn fusionar_con<C: Consulta>(usuario: &str, paquete: &str, ya_ofrecidas: &C) -> (r: (
    String,
    Agregado,
))
    requires
        ya_ofrecidas.valida(),
    ensures
        (r.0@, vista_claves(r.1.claves@)) == fusion(
            usuario@,
            paquete@,
            |s: Seq<char>, k: Seq<char>| ya_ofrecidas.dice(s, k),
        ),
{
    let ghost ofrecida = |s: Seq<char>, k: Seq<char>| ya_ofrecidas.dice(s, k);
    let u = caracteres(usuario);
    let mut ls = lineas_de(u.as_slice());
    let del_usuario = asignaciones_de_lineas(&ls);
    let mut ligados = atajos_de_todas(&del_usuario);
    let del_paquete = asignaciones_de(paquete);
    let mut claves: Vec<(String, String)> = Vec::new();
    let comando = caracteres("command_");
    let ghost pa = vista_asignaciones(del_paquete@);
    let ghost fin = fin_fusion(usuario@, paquete@, ofrecida);
    proof {
        assert(vista_claves(claves@) =~= Seq::<(Seq<char>, Seq<char>)>::empty());
        assert(vista(ls@) == lineas(usuario@));
        assert(vista_asignaciones(del_usuario@) == asignaciones(usuario@));
        let e0 = EstadoFusion {
            lineas: vista(ls@),
            ligados: vista_pares(ligados@),
            agregadas: vista_claves(claves@),
        };
        assert(e0 == inicio_fusion(usuario@));
    }
    let mut i: usize = 0;
    while i < del_paquete.len()
        invariant
            i <= del_paquete@.len(),
            pa == vista_asignaciones(del_paquete@),
            pa == asignaciones(paquete@),
            comando@ == "command_"@,
            ya_ofrecidas.valida(),
            ofrecida == (|s: Seq<char>, k: Seq<char>| ya_ofrecidas.dice(s, k)),
            fin == fusion_desde(
                pa,
                i as int,
                EstadoFusion {
                    lineas: vista(ls@),
                    ligados: vista_pares(ligados@),
                    agregadas: vista_claves(claves@),
                },
                ofrecida,
                pa,
            ),
        decreases del_paquete@.len() - i,
    {
        let a = &del_paquete[i];
        assert(pa[i as int] == a@);
        let ghost e = EstadoFusion {
            lineas: vista(ls@),
            ligados: vista_pares(ligados@),
            agregadas: vista_claves(claves@),
        };
        let seccion = caracteres(a.seccion.as_str());
        let clave = caracteres(a.clave.as_str());
        let actuales = asignaciones_de_lineas(&ls);
        if tiene_asignacion(&actuales, seccion.as_slice(), clave.as_slice()) || ya_ofrecidas.consultar(
            &a.seccion,
            &a.clave,
        ) {
            i = i + 1;
            continue ;
        }
        let mut atajos = atajos_de(a);
        if choca_con(&atajos, &ligados) {
            i = i + 1;
            continue ;
        }
        if empieza_con(clave.as_slice(), comando.as_slice()) {
            let sufijo = copia(clave.as_slice(), comando.len(), clave.len());
            assert(sufijo@ =~= clave@.skip("command_"@.len() as int));
            if suelta_en(&del_paquete, &ls, &ligados, seccion.as_slice(), sufijo.as_slice()) {
                i = i + 1;
                continue ;
            }
        }
        let mut nueva = clave.clone();
        agregar(&mut nueva, vec![' ', '=', ' '].as_slice());
        let valor = caracteres(a.valor.as_str());
        agregar(&mut nueva, valor.as_slice());
        assert(nueva@ =~= linea_de_asignacion(a@));
        poner_linea(&mut ls, seccion.as_slice(), nueva);
        let ghost ligados0 = vista_pares(ligados@);
        let ghost atajos0 = vista_pares(atajos@);
        ligados.append(&mut atajos);
        let ghost claves0 = vista_claves(claves@);
        let par = (a.seccion.clone(), a.clave.clone());
        let ghost parv = (par.0@, par.1@);
        claves.push(par);
        proof {
            assert(vista_pares(ligados@) =~= ligados0 + atajos0);
            assert(vista_claves(claves@) =~= claves0.push(parv));
        }
        i = i + 1;
    }
    let texto = rearmar_en(&ls, u.as_slice());
    (a_string(texto.as_slice()), Agregado { claves })
}

/// Adds to `usuario` the keys of `paquete` it lacks, leaving out those
/// `ya_ofrecidas` says were offered before.
///
/// Returns the new text and what was added. A value already there is never
/// changed, even when the package brings another; nothing is removed, not even
/// what the package stopped bringing. A key offered before stays out, so that
/// one removed on purpose does not come back at every login. And a shortcut
/// that is already bound is not added under another name: in wayfire's
/// `[command]` the key is a free label and the shortcut lives in the value, so
/// comparing names is not enough.
pub fn fusionar<F: Fn(&str, &str) -> bool>(
    usuario: &str,
    paquete: &str,
    ya_ofrecidas: &F,
) -> (r: (String, Agregado))
    requires
        es_predicado(ya_ofrecidas),
    ensures
        (r.0@, vista_claves(r.1.claves@)) == fusion(
            usuario@,
            paquete@,
            |s: Seq<char>, k: Seq<char>| responde(ya_ofrecidas, s, k),
        ),
{
    let c = PorClausura { f: ya_ofrecidas };
    let r = fusionar_con(usuario, paquete, &c);
    proof {
        let f1 = |s: Seq<char>, k: Seq<char>| c.dice(s, k);
        let f2 = |s: Seq<char>, k: Seq<char>| responde(ya_ofrecidas, s, k);
        assert(f1 =~= f2);
    }
    r
}



/// None of these keys is one that `ofrecida` says was offered.
pub open spec fn ninguna_ofrecida(
    ag: Seq<(Seq<char>, Seq<char>)>,
    ofrecida: spec_fn(Seq<char>, Seq<char>) -> bool,
) -> bool {
    forall|j: int| 0 <= j < ag.len() ==> !ofrecida(#[trigger] ag[j].0, ag[j].1)
}

proof fn lema_con_linea_conserva(ls: Seq<Seq<char>>, sec: Seq<char>, nueva: Seq<char>)
    ensures
        subsecuencia(ls, con_linea(ls, sec, nueva)),
{
    match fin_de_seccion_en(ls, sec) {
        Some(d) => {
            lema_fin_desde_acotado(ls, sec, 0, seq![], None);
            lema_subsecuencia_insertar(ls, d, nueva);
        },
        None => {
            let ls1 = if ls.len() > 0 && recorte(ls.last()).len() > 0 {
                ls.push(seq![])
            } else {
                ls
            };
            let ls2 = if sec.len() > 0 {
                ls1.push(seq!['['] + sec + seq![']'])
            } else {
                ls1
            };
            lema_subsecuencia_refleja(ls);
            lema_subsecuencia_empujar(ls, seq![]);
            lema_subsecuencia_refleja(ls1);
            lema_subsecuencia_empujar(ls1, seq!['['] + sec + seq![']']);
            lema_subsecuencia_transitiva(ls, ls1, ls2);
            lema_subsecuencia_empujar(ls2, nueva);
            lema_subsecuencia_transitiva(ls, ls2, ls2.push(nueva));
        },
    }
}

proof fn lema_fusion_desde_conserva(
    ps: Seq<AsignacionV>,
    i: int,
    e: EstadoFusion,
    ofrecida: spec_fn(Seq<char>, Seq<char>) -> bool,
    paq: Seq<AsignacionV>,
)
    requires
        ninguna_ofrecida(e.agregadas, ofrecida),
    ensures
        subsecuencia(e.lineas, fusion_desde(ps, i, e, ofrecida, paq).lineas),
        ninguna_ofrecida(fusion_desde(ps, i, e, ofrecida, paq).agregadas, ofrecida),
    decreases ps.len() - i,
{
    if i >= ps.len() || i < 0 {
        lema_subsecuencia_refleja(e.lineas);
    } else {
        let a = ps[i];
        let e1 = paso_fusion(e, a, ofrecida, paq);
        if e1 == e {
            lema_subsecuencia_refleja(e.lineas);
        } else {
            lema_con_linea_conserva(e.lineas, a.seccion, linea_de_asignacion(a));
            assert(!ofrecida(a.seccion, a.clave));
            assert(ninguna_ofrecida(e1.agregadas, ofrecida)) by {
                assert forall|j: int| 0 <= j < e1.agregadas.len() implies !ofrecida(
                    #[trigger] e1.agregadas[j].0,
                    e1.agregadas[j].1,
                ) by {
                    if j < e.agregadas.len() {
                        assert(e1.agregadas[j] == e.agregadas[j]);
                    }
                }
            }
        }
        lema_fusion_desde_conserva(ps, i + 1, e1, ofrecida, paq);
        lema_subsecuencia_transitiva(
            e.lineas,
            e1.lineas,
            fusion_desde(ps, i + 1, e1, ofrecida, paq).lineas,
        );
    }
}

/// What a merge does to the user's file: every one of its lines stays, unchanged
/// and in its order (lines are only inserted among them, and the text is those
/// lines joined again); and no key the record says was offered is added.
pub proof fn lema_fusion_conserva_y_no_reofrece(
    usuario: Seq<char>,
    paquete: Seq<char>,
    ofrecida: spec_fn(Seq<char>, Seq<char>) -> bool,
)
    ensures
        subsecuencia(lineas(usuario), fin_fusion(usuario, paquete, ofrecida).lineas),
        fusion(usuario, paquete, ofrecida).0 == rearmar(
            fin_fusion(usuario, paquete, ofrecida).lineas,
            usuario,
        ),
        ninguna_ofrecida(fusion(usuario, paquete, ofrecida).1, ofrecida),
{
    let ua = asignaciones(usuario);
    let pa = asignaciones(paquete);
    lema_fusion_desde_conserva(
        pa,
        0,
        inicio_fusion(usuario),
        ofrecida,
        pa,
    );
}

/// A shortcut bound more than once **to different things**. It is not touched:
/// it is reported.
#[derive(Debug, PartialEq, Eq)]
pub struct Conflicto {
    /// The shortcut, normalised.
    pub combo: String,
    /// The keys that bind it, in file order.
    pub claves: Vec<String>,
}

/// A conflict, as values.
pub struct ConflictoV {
    pub combo: Seq<char>,
    pub claves: Seq<Seq<char>>,
}

impl View for Conflicto {
    type V = ConflictoV;

    open spec fn view(&self) -> ConflictoV {
        ConflictoV { combo: self.combo@, claves: cadenas(self.claves@) }
    }
}

/// Why a line was removed.
#[derive(Debug, Clone, Copy, PartialEq, Eq)]
pub enum Motivo {
    /// The migration put it there and it collides with a shortcut that was
    /// already bound.
    LaPusimosYChoca,
    /// An earlier line binds the same shortcut to the same command.
    RepiteAOtra,
}

/// A removed line: where it was and why it went.
#[derive(Debug, PartialEq, Eq)]
pub struct Quitada {
    pub seccion: String,
    pub clave: String,
    pub motivo: Motivo,
}

/// A removed line, as values.
pub struct QuitadaV {
    pub seccion: Seq<char>,
    pub clave: Seq<char>,
    pub motivo: Motivo,
}

impl View for Quitada {
    type V = QuitadaV;

    open spec fn view(&self) -> QuitadaV {
        QuitadaV { seccion: self.seccion@, clave: self.clave@, motivo: self.motivo }
    }
}

/// The result of cleaning a file.
#[derive(Debug, PartialEq, Eq)]
pub struct Limpieza {
    pub texto: String,
    pub quitadas: Vec<Quitada>,
    /// What was left unresolved, so it can be seen. Choosing for the person
    /// which of two different keys wins would change what their keyboard does.
    pub conflictos: Vec<Conflicto>,
}

/// For each assignment of the user's file, in order, the reason it is removed,
/// if it is. Lines are marked one by one, by their place in the file: a key
/// written twice is two lines, and removing one keeps the other.
pub type Marcas = Seq<Option<Motivo>>;

/// No line marked.
pub open spec fn sin_marcas(n: nat) -> Marcas {
    Seq::new(n, |j: int| None)
}

/// Whether some line is marked.
pub open spec fn alguna_marca(m: Marcas) -> bool {
    exists|j: int| 0 <= j < m.len() && #[trigger] m[j] is Some
}

/// Whether the migration put this line: the record says so, and it still says
/// what the package says.
pub open spec fn es_nuestra(
    a: AsignacionV,
    paquete: Seq<AsignacionV>,
    agregada: spec_fn(Seq<char>, Seq<char>) -> bool,
) -> bool {
    &&& agregada(a.seccion, a.clave)
    &&& exists|j: int|
        0 <= j < paquete.len() && #[trigger] paquete[j].seccion == a.seccion && paquete[j].clave
            == a.clave && paquete[j].valor == a.valor
}

/// The shortcuts bound by the lines the migration did not put.
pub open spec fn atajos_ajenos(usuario: Seq<AsignacionV>, nuestras: Seq<bool>) -> Seq<Atajo>
    decreases usuario.len(),
{
    if usuario.len() == 0 {
        seq![]
    } else if nuestras[usuario.len() - 1] {
        atajos_ajenos(usuario.drop_last(), nuestras)
    } else {
        atajos_ajenos(usuario.drop_last(), nuestras) + atajos(usuario.last())
    }
}

/// First pass: a line the migration put loses against what was already
/// bound, wherever it is written.
pub open spec fn primera_pasada(
    usuario: Seq<AsignacionV>,
    nuestras: Seq<bool>,
    i: int,
    ligados: Seq<Atajo>,
    sobran: Marcas,
) -> Marcas
    decreases usuario.len() - i,
{
    if i >= usuario.len() || i < 0 {
        sobran
    } else {
        let a = usuario[i];
        if !nuestras[i] || atajos(a).len() == 0 {
            primera_pasada(usuario, nuestras, i + 1, ligados, sobran)
        } else if choca(atajos(a), ligados) {
            primera_pasada(
                usuario,
                nuestras,
                i + 1,
                ligados,
                sobran.update(i, Some(Motivo::LaPusimosYChoca)),
            )
        } else {
            primera_pasada(usuario, nuestras, i + 1, ligados + atajos(a), sobran)
        }
    }
}

/// The first line that took a shortcut, among the owners so far.
pub open spec fn dueno_de(duenos: Seq<(Atajo, int)>, c: Atajo) -> Option<int>
    decreases duenos.len(),
{
    if duenos.len() == 0 {
        None
    } else if duenos[0].0 == c {
        Some(duenos[0].1)
    } else {
        dueno_de(duenos.drop_first(), c)
    }
}

/// The conflicts with one more key binding shortcut `combo`: added to the one
/// already reported for it, or reported anew with the line that had it first.
pub open spec fn anotar_conflicto(
    cs: Seq<ConflictoV>,
    combo: Seq<char>,
    primera: Seq<char>,
    otra: Seq<char>,
) -> Seq<ConflictoV>
    decreases cs.len(),
{
    if cs.len() == 0 {
        seq![ConflictoV { combo: combo, claves: seq![primera, otra] }]
    } else if cs[0].combo == combo {
        seq![ConflictoV { combo: combo, claves: cs[0].claves.push(otra) }] + cs.drop_first()
    } else {
        seq![cs[0]] + anotar_conflicto(cs.drop_first(), combo, primera, otra)
    }
}

/// Where the second pass stands.
pub struct PasadaV {
    pub duenos: Seq<(Atajo, int)>,
    pub conflictos: Seq<ConflictoV>,
    pub sobran: Marcas,
}

/// Second pass: of two lines that bind one shortcut to the same command, the
/// first stays; bound to different commands, neither is touched and it is
/// reported. Only lines that bind a single shortcut take part.
pub open spec fn segunda_pasada(usuario: Seq<AsignacionV>, i: int, p: PasadaV) -> PasadaV
    decreases usuario.len() - i,
{
    if i >= usuario.len() || i < 0 {
        p
    } else {
        let a = usuario[i];
        if p.sobran[i] is Some || atajos(a).len() != 1 {
            segunda_pasada(usuario, i + 1, p)
        } else {
            let atajo = atajos(a)[0];
            match dueno_de(p.duenos, atajo) {
                None => segunda_pasada(
                    usuario,
                    i + 1,
                    PasadaV { duenos: p.duenos.push((atajo, i)), ..p },
                ),
                Some(j) => {
                    let primero = usuario[j];
                    if comando(usuario, a) is Some && comando(usuario, a) == comando(usuario, primero) {
                        segunda_pasada(
                            usuario,
                            i + 1,
                            PasadaV {
                                sobran: p.sobran.update(i, Some(Motivo::RepiteAOtra)),
                                ..p
                            },
                        )
                    } else {
                        segunda_pasada(
                            usuario,
                            i + 1,
                            PasadaV {
                                conflictos: anotar_conflicto(
                                    p.conflictos,
                                    atajo.1,
                                    primero.clave,
                                    a.clave,
                                ),
                                ..p
                            },
                        )
                    }
                },
            }
        }
    }
}

/// Whether `a` is a shortcut key of section `sec` with label `suf`.
pub open spec fn con_etiqueta(a: AsignacionV, sec: Seq<char>, suf: Seq<char>) -> bool {
    a.seccion == sec && sufijo_atajo(a.clave) == Some(suf)
}

/// Whether the key of line `t` leaves the file: the line is marked, and so is
/// every line of the same section and key.
pub open spec fn sale_la_clave(ua: Seq<AsignacionV>, m: Marcas, t: int) -> bool {
    &&& m[t] is Some
    &&& forall|k: int|
        0 <= k < ua.len() && #[trigger] ua[k].seccion == ua[t].seccion && ua[k].clave == ua[t].clave
            ==> m[k] is Some
}

/// Whether a shortcut key of section `sec` with label `suf` leaves the file,
/// for reason `motivo`.
pub open spec fn sale_etiqueta(
    ua: Seq<AsignacionV>,
    m: Marcas,
    sec: Seq<char>,
    suf: Seq<char>,
    motivo: Motivo,
) -> bool {
    exists|t: int|
        0 <= t < ua.len() && con_etiqueta(#[trigger] ua[t], sec, suf) && sale_la_clave(ua, m, t) && m[t]
            == Some(motivo)
}

/// Why line `j` goes, if it goes: it was marked, or it is the `command_*` half
/// of a label one of whose shortcut keys leaves the file (on its own it fires
/// nothing). Removals are recorded one after the other, the first pass's
/// before the second's, and the last one gives the reason: repeating another
/// when some key of the label goes for that.
pub open spec fn motivo_final(ua: Seq<AsignacionV>, m: Marcas, j: int) -> Option<Motivo> {
    if m[j] is Some {
        m[j]
    } else if empieza(ua[j].clave, "command_"@) {
        let suf = ua[j].clave.skip("command_"@.len() as int);
        if sale_etiqueta(ua, m, ua[j].seccion, suf, Motivo::RepiteAOtra) {
            Some(Motivo::RepiteAOtra)
        } else if sale_etiqueta(ua, m, ua[j].seccion, suf, Motivo::LaPusimosYChoca) {
            Some(Motivo::LaPusimosYChoca)
        } else {
            None
        }
    } else {
        None
    }
}

/// Why each line goes, if it goes.
pub open spec fn marcas_finales(ua: Seq<AsignacionV>, m: Marcas) -> Marcas {
    Seq::new(ua.len(), |j: int| motivo_final(ua, m, j))
}

/// The lines from `i` on without those marked, `sec` being the section in
/// effect and `n` the number of assignments before line `i`; with what was
/// removed.
pub open spec fn sin_marcadas(ls: Seq<Seq<char>>, i: int, sec: Seq<char>, n: int, fin: Marcas) -> (
    Seq<Seq<char>>,
    Seq<QuitadaV>,
)
    decreases ls.len() - i,
{
    if i >= ls.len() || i < 0 {
        (seq![], seq![])
    } else {
        match seccion_en_linea(ls[i]) {
            Some(s) => {
                let r = sin_marcadas(ls, i + 1, s, n, fin);
                (seq![ls[i]] + r.0, r.1)
            },
            None => match clave_en_linea(ls[i]) {
                Some(k) => {
                    let r = sin_marcadas(ls, i + 1, sec, n + 1, fin);
                    if 0 <= n < fin.len() && fin[n] is Some {
                        (r.0, seq![QuitadaV { seccion: sec, clave: k, motivo: fin[n]->0 }] + r.1)
                    } else {
                        (seq![ls[i]] + r.0, r.1)
                    }
                },
                None => {
                    let r = sin_marcadas(ls, i + 1, sec, n, fin);
                    (seq![ls[i]] + r.0, r.1)
                },
            },
        }
    }
}

/// The lines the migration put, as the record says: one answer per line of the
/// user.
pub open spec fn marcas_nuestras(
    usuario: Seq<AsignacionV>,
    paquete: Seq<AsignacionV>,
    agregada: spec_fn(Seq<char>, Seq<char>) -> bool,
) -> Seq<bool> {
    usuario.map_values(|a: AsignacionV| es_nuestra(a, paquete, agregada))
}

/// What cleaning leaves: the text, the removed lines and the conflicts.
pub open spec fn limpieza(
    usuario: Seq<char>,
    paquete: Seq<char>,
    agregada: spec_fn(Seq<char>, Seq<char>) -> bool,
) -> (Seq<char>, Seq<QuitadaV>, Seq<ConflictoV>) {
    let ua = asignaciones(usuario);
    let nuestras = marcas_nuestras(ua, asignaciones(paquete), agregada);
    let s1 = primera_pasada(ua, nuestras, 0, atajos_ajenos(ua, nuestras), sin_marcas(ua.len()));
    let p = segunda_pasada(
        ua,
        0,
        PasadaV { duenos: seq![], conflictos: seq![], sobran: s1 },
    );
    if !alguna_marca(p.sobran) {
        (usuario, seq![], p.conflictos)
    } else {
        let r = sin_marcadas(lineas(usuario), 0, seq![], 0, marcas_finales(ua, p.sobran));
        (rearmar(r.0, usuario), r.1, p.conflictos)
    }
}

/// The owners of each shortcut, as values.
pub open spec fn vista_duenos(v: Seq<((Vec<char>, Vec<char>), usize)>) -> Seq<(Atajo, int)> {
    v.map_values(|e: ((Vec<char>, Vec<char>), usize)| ((e.0.0@, e.0.1@), e.1 as int))
}

/// The conflicts, as values.
pub open spec fn vista_conflictos(v: Seq<Conflicto>) -> Seq<ConflictoV> {
    v.map_values(|c: Conflicto| c@)
}

/// The removed lines, as values.
pub open spec fn vista_quitadas(v: Seq<Quitada>) -> Seq<QuitadaV> {
    v.map_values(|q: Quitada| q@)
}

/// No line marked, for `n` lines.
fn sin_marcas_en(n: usize) -> (r: Vec<Option<Motivo>>)
    ensures
        r@ == sin_marcas(n as nat),
{
    let mut r: Vec<Option<Motivo>> = Vec::new();
    let mut i: usize = 0;
    while i < n
        invariant
            i <= n,
            r@ =~= sin_marcas(i as nat),
        decreases n - i,
    {
        r.push(None);
        i = i + 1;
        assert(r@ =~= sin_marcas(i as nat));
    }
    r
}

/// Whether the package has this very assignment.
fn esta_en_paquete(paquete: &Vec<Asignacion>, a: &Asignacion) -> (r: bool)
    ensures
        r == exists|j: int|
            0 <= j < paquete@.len() && #[trigger] vista_asignaciones(paquete@)[j].seccion
                == a@.seccion && vista_asignaciones(paquete@)[j].clave == a@.clave
                && vista_asignaciones(paquete@)[j].valor == a@.valor,
{
    let ghost v = vista_asignaciones(paquete@);
    let mut i: usize = 0;
    while i < paquete.len()
        invariant
            i <= paquete@.len(),
            v == vista_asignaciones(paquete@),
            forall|j: int|
                0 <= j < i ==> !(#[trigger] v[j].seccion == a@.seccion && v[j].clave == a@.clave
                    && v[j].valor == a@.valor),
        decreases paquete@.len() - i,
    {
        if paquete[i].seccion == a.seccion && paquete[i].clave == a.clave && paquete[i].valor
            == a.valor {
            assert(v[i as int].seccion == a@.seccion);
            return true;
        }
        i = i + 1;
    }
    false
}

/// Whether each line of the user was put by the migration.
fn marcar_nuestras<F: Fn(&str, &str) -> bool>(
    usuario: &Vec<Asignacion>,
    paquete: &Vec<Asignacion>,
    fue_agregada: &F,
) -> (r: Vec<bool>)
    requires
        es_predicado(fue_agregada),
    ensures
        r@ == marcas_nuestras(
            vista_asignaciones(usuario@),
            vista_asignaciones(paquete@),
            |s: Seq<char>, k: Seq<char>| responde(fue_agregada, s, k),
        ),
{
    let ghost agregada = |s: Seq<char>, k: Seq<char>| responde(fue_agregada, s, k);
    let ghost uv = vista_asignaciones(usuario@);
    let ghost objetivo = marcas_nuestras(uv, vista_asignaciones(paquete@), agregada);
    let mut r: Vec<bool> = Vec::new();
    let mut i: usize = 0;
    while i < usuario.len()
        invariant
            i <= usuario@.len(),
            uv == vista_asignaciones(usuario@),
            es_predicado(fue_agregada),
            agregada == (|s: Seq<char>, k: Seq<char>| responde(fue_agregada, s, k)),
            objetivo == marcas_nuestras(uv, vista_asignaciones(paquete@), agregada),
            r@ == objetivo.take(i as int),
        decreases usuario@.len() - i,
    {
        let a = &usuario[i];
        let b = preguntar(fue_agregada, &a.seccion, &a.clave) && esta_en_paquete(paquete, a);
        r.push(b);
        i = i + 1;
        proof {
            assert(uv[i - 1] == a@);
            assert(r@ =~= objetivo.take(i as int));
        }
    }
    proof {
        assert(objetivo.take(usuario@.len() as int) =~= objetivo);
    }
    r
}

/// The shortcuts bound by the lines the migration did not put.
fn atajos_ajenos_de(usuario: &Vec<Asignacion>, nuestras: &Vec<bool>) -> (r: Vec<(Vec<char>, Vec<char>)>)
    requires
        nuestras@.len() == usuario@.len(),
    ensures
        vista_pares(r@) == atajos_ajenos(vista_asignaciones(usuario@), nuestras@),
{
    let ghost v = vista_asignaciones(usuario@);
    let mut r: Vec<(Vec<char>, Vec<char>)> = Vec::new();
    let mut i: usize = 0;
    while i < usuario.len()
        invariant
            i <= usuario@.len(),
            nuestras@.len() == usuario@.len(),
            v == vista_asignaciones(usuario@),
            vista_pares(r@) == atajos_ajenos(v.take(i as int), nuestras@),
        decreases usuario@.len() - i,
    {
        proof {
            assert(v.take(i + 1).drop_last() =~= v.take(i as int));
            assert(v.take(i + 1).last() == usuario@[i as int]@);
        }
        if !nuestras[i] {
            let mut nuevos = atajos_de(&usuario[i]);
            let ghost previo = vista_pares(r@);
            let ghost agregados = vista_pares(nuevos@);
            r.append(&mut nuevos);
            proof {
                assert(vista_pares(r@) =~= previo + agregados);
            }
        }
        i = i + 1;
    }
    proof {
        assert(v.take(usuario@.len() as int) =~= v);
    }
    r
}


/// The first pass.
fn primera_pasada_en(
    usuario: &Vec<Asignacion>,
    nuestras: &Vec<bool>,
    ligados_iniciales: Vec<(Vec<char>, Vec<char>)>,
) -> (r: Vec<Option<Motivo>>)
    requires
        nuestras@.len() == usuario@.len(),
    ensures
        r@ == primera_pasada(
            vista_asignaciones(usuario@),
            nuestras@,
            0,
            vista_pares(ligados_iniciales@),
            sin_marcas(usuario@.len()),
        ),
        r@.len() == usuario@.len(),
{
    let ghost v = vista_asignaciones(usuario@);
    let ghost objetivo = primera_pasada(
        v,
        nuestras@,
        0,
        vista_pares(ligados_iniciales@),
        sin_marcas(usuario@.len()),
    );
    let mut ligados = ligados_iniciales;
    let mut sobran = sin_marcas_en(usuario.len());
    let mut i: usize = 0;
    while i < usuario.len()
        invariant
            i <= usuario@.len(),
            nuestras@.len() == usuario@.len(),
            sobran@.len() == usuario@.len(),
            v == vista_asignaciones(usuario@),
            objetivo == primera_pasada(v, nuestras@, i as int, vista_pares(ligados@), sobran@),
        decreases usuario@.len() - i,
    {
        let a = &usuario[i];
        assert(v[i as int] == a@);
        if nuestras[i] {
            let mut atajos = atajos_de(a);
            if atajos.len() > 0 {
                if choca_con(&atajos, &ligados) {
                    sobran.set(i, Some(Motivo::LaPusimosYChoca));
                } else {
                    let ghost previo = vista_pares(ligados@);
                    let ghost nuevos = vista_pares(atajos@);
                    ligados.append(&mut atajos);
                    proof {
                        assert(vista_pares(ligados@) =~= previo + nuevos);
                    }
                }
            }
        }
        i = i + 1;
    }
    proof {
        lema_primera_pasada_largo(v, nuestras@, 0, vista_pares(ligados_iniciales@), sin_marcas(usuario@.len()));
    }
    sobran
}

/// The first pass keeps one mark per line.
pub(crate) proof fn lema_primera_pasada_largo(
    usuario: Seq<AsignacionV>,
    nuestras: Seq<bool>,
    i: int,
    ligados: Seq<Atajo>,
    sobran: Marcas,
)
    requires
        sobran.len() == usuario.len(),
    ensures
        primera_pasada(usuario, nuestras, i, ligados, sobran).len() == sobran.len(),
    decreases usuario.len() - i,
{
    if 0 <= i < usuario.len() {
        let a = usuario[i];
        if !nuestras[i] || atajos(a).len() == 0 {
            lema_primera_pasada_largo(usuario, nuestras, i + 1, ligados, sobran);
        } else if choca(atajos(a), ligados) {
            lema_primera_pasada_largo(
                usuario,
                nuestras,
                i + 1,
                ligados,
                sobran.update(i, Some(Motivo::LaPusimosYChoca)),
            );
        } else {
            lema_primera_pasada_largo(usuario, nuestras, i + 1, ligados + atajos(a), sobran);
        }
    }
}

/// The first line that took a shortcut.
fn dueno_en(duenos: &Vec<((Vec<char>, Vec<char>), usize)>, c: &(Vec<char>, Vec<char>)) -> (r: Option<usize>)
    ensures
        match r {
            Some(j) => dueno_de(vista_duenos(duenos@), (c.0@, c.1@)) == Some(j as int),
            None => dueno_de(vista_duenos(duenos@), (c.0@, c.1@)) is None,
        },
{
    let ghost v = vista_duenos(duenos@);
    let ghost k = (c.0@, c.1@);
    proof {
        assert(v.skip(0) =~= v);
    }
    let mut i: usize = 0;
    while i < duenos.len()
        invariant
            i <= duenos@.len(),
            v == vista_duenos(duenos@),
            k == (c.0@, c.1@),
            dueno_de(v, k) == dueno_de(v.skip(i as int), k),
        decreases duenos@.len() - i,
    {
        proof {
            assert(v.skip(i as int)[0] == v[i as int]);
            assert(v.skip(i as int).drop_first() =~= v.skip(i + 1));
        }
        if iguales(duenos[i].0.0.as_slice(), c.0.as_slice()) && iguales(
            duenos[i].0.1.as_slice(),
            c.1.as_slice(),
        ) {
            return Some(duenos[i].1);
        }
        i = i + 1;
    }
    None
}

/// Adds a key to the conflict of its shortcut, or reports the conflict.
fn anotar_conflicto_en(cs: &mut Vec<Conflicto>, combo: &[char], primera: &String, otra: &String)
    ensures
        vista_conflictos(final(cs)@) == anotar_conflicto(
            vista_conflictos(old(cs)@),
            combo@,
            primera@,
            otra@,
        ),
{
    let ghost v = vista_conflictos(cs@);
    let ghost objetivo = anotar_conflicto(v, combo@, primera@, otra@);
    proof {
        assert(v.take(0) + v.skip(0) =~= v);
        assert(v.skip(0) =~= v);
    }
    let mut k: usize = 0;
    while k < cs.len()
        invariant
            k <= cs@.len(),
            v == vista_conflictos(cs@),
            v == vista_conflictos(old(cs)@),
            objetivo == anotar_conflicto(v, combo@, primera@, otra@),
            objetivo == v.take(k as int) + anotar_conflicto(v.skip(k as int), combo@, primera@, otra@),
        decreases cs@.len() - k,
    {
        proof {
            assert(v.skip(k as int)[0] == v[k as int]);
            assert(v.skip(k as int).drop_first() =~= v.skip(k + 1));
        }
        if es_igual_a(&cs[k].combo, combo) {
            let mut c = cs.remove(k);
            let ghost claves0 = cadenas(c.claves@);
            c.claves.push(otra.clone());
            proof {
                assert(cadenas(c.claves@) =~= claves0.push(otra@));
            }
            let ghost cv = c@;
            cs.insert(k, c);
            proof {
                assert(vista_conflictos(cs@) =~= v.take(k as int) + (seq![cv] + v.skip(k + 1)));
            }
            return;
        }
        proof {
            assert(v.take(k as int) + seq![v[k as int]] =~= v.take(k + 1));
            assert(v.take(k as int) + (seq![v[k as int]] + anotar_conflicto(
                v.skip(k + 1),
                combo@,
                primera@,
                otra@,
            )) =~= v.take(k + 1) + anotar_conflicto(v.skip(k + 1), combo@, primera@, otra@));
        }
        k = k + 1;
    }
    proof {
        assert(v.take(k as int) =~= v);
        assert(v.skip(k as int) =~= Seq::<ConflictoV>::empty());
    }
    let mut claves: Vec<String> = Vec::new();
    claves.push(primera.clone());
    claves.push(otra.clone());
    let nuevo = Conflicto { combo: a_string(combo), claves };
    let ghost nv = nuevo@;
    proof {
        assert(nv.claves =~= seq![primera@, otra@]);
    }
    cs.push(nuevo);
    proof {
        assert(vista_conflictos(cs@) =~= v + seq![nv]);
    }
}


/// Whether the two commands are the same one, the first being there.
fn mismo_comando(a: &Option<Vec<char>>, b: &Option<Vec<char>>) -> (r: bool)
    ensures
        r == (a is Some && (match (a, b) {
            (Some(x), Some(y)) => x@ == y@,
            _ => false,
        })),
{
    match (a, b) {
        (Some(x), Some(y)) => iguales(x.as_slice(), y.as_slice()),
        _ => false,
    }
}

/// The second pass.
fn segunda_pasada_en(
    usuario: &Vec<Asignacion>,
    sobran: Vec<Option<Motivo>>,
) -> (r: (Vec<Option<Motivo>>, Vec<Conflicto>))
    requires
        sobran@.len() == usuario@.len(),
    ensures
        ({
            let p = segunda_pasada(
                vista_asignaciones(usuario@),
                0,
                PasadaV { duenos: seq![], conflictos: seq![], sobran: sobran@ },
            );
            r.0@ == p.sobran && vista_conflictos(r.1@) == p.conflictos
        }),
{
    let ghost v = vista_asignaciones(usuario@);
    let ghost objetivo = segunda_pasada(
        v,
        0,
        PasadaV { duenos: seq![], conflictos: seq![], sobran: sobran@ },
    );
    let mut sobran = sobran;
    let mut duenos: Vec<((Vec<char>, Vec<char>), usize)> = Vec::new();
    let mut conflictos: Vec<Conflicto> = Vec::new();
    proof {
        assert(vista_duenos(duenos@) =~= Seq::<(Atajo, int)>::empty());
        assert(vista_conflictos(conflictos@) =~= Seq::<ConflictoV>::empty());
    }
    let mut i: usize = 0;
    while i < usuario.len()
        invariant
            i <= usuario@.len(),
            v == vista_asignaciones(usuario@),
            sobran@.len() == usuario@.len(),
            forall|j: int| 0 <= j < duenos@.len() ==> #[trigger] duenos@[j].1 < i,
            objetivo == segunda_pasada(
                v,
                i as int,
                PasadaV {
                    duenos: vista_duenos(duenos@),
                    conflictos: vista_conflictos(conflictos@),
                    sobran: sobran@,
                },
            ),
        decreases usuario@.len() - i,
    {
        let a = &usuario[i];
        assert(v[i as int] == a@);
        if sobran[i].is_some() {
            i = i + 1;
            continue ;
        }
        let atajos = atajos_de(a);
        if atajos.len() != 1 {
            i = i + 1;
            continue ;
        }
        let atajo = &atajos[0];
        assert(vista_pares(atajos@)[0] == (atajo.0@, atajo.1@));
        match dueno_en(&duenos, atajo) {
            None => {
                let ghost previo = vista_duenos(duenos@);
                let entrada = ((atajo.0.clone(), atajo.1.clone()), i);
                let ghost ev = ((entrada.0.0@, entrada.0.1@), i as int);
                duenos.push(entrada);
                proof {
                    assert(vista_duenos(duenos@) =~= previo.push(ev));
                }
            },
            Some(j) => {
                proof {
                    lema_dueno_en_rango(vista_duenos(duenos@), (atajo.0@, atajo.1@), i as int);
                }
                let primero = &usuario[j];
                assert(v[j as int] == primero@);
                let c1 = comando_de(usuario, a);
                let c2 = comando_de(usuario, primero);
                if mismo_comando(&c1, &c2) {
                    sobran.set(i, Some(Motivo::RepiteAOtra));
                } else {
                    anotar_conflicto_en(&mut conflictos, atajo.1.as_slice(), &primero.clave, &a.clave);
                }
            },
        }
        i = i + 1;
    }
    (sobran, conflictos)
}

pub proof fn lema_dueno_en_rango(d: Seq<(Atajo, int)>, c: Atajo, tope: int)
    requires
        forall|j: int| 0 <= j < d.len() ==> 0 <= #[trigger] d[j].1 < tope,
    ensures
        dueno_de(d, c) matches Some(j) ==> 0 <= j < tope,
    decreases d.len(),
{
    if d.len() > 0 && d[0].0 != c {
        assert forall|j: int| 0 <= j < d.drop_first().len() implies 0 <= #[trigger] d.drop_first()[j].1
            < tope by {
            assert(d.drop_first()[j] == d[j + 1]);
        }
        lema_dueno_en_rango(d.drop_first(), c, tope);
    }
}

/// Whether `a` is a shortcut key of section `sec` with label `suf`.
fn con_etiqueta_en(a: &Asignacion, sec: &[char], suf: &[char]) -> (r: bool)
    ensures
        r == con_etiqueta(a@, sec@, suf@),
{
    let seccion = caracteres(a.seccion.as_str());
    if !iguales(seccion.as_slice(), sec) {
        return false;
    }
    let clave = caracteres(a.clave.as_str());
    match sufijo_en(clave.as_slice()) {
        Some(x) => iguales(x.as_slice(), suf),
        None => false,
    }
}

/// Whether a mark is `Some(motivo)`.
fn es_motivo(m: Option<Motivo>, motivo: Motivo) -> (r: bool)
    ensures
        r == (m == Some(motivo)),
{
    match (m, motivo) {
        (Some(Motivo::RepiteAOtra), Motivo::RepiteAOtra) => true,
        (Some(Motivo::LaPusimosYChoca), Motivo::LaPusimosYChoca) => true,
        _ => false,
    }
}

/// Whether the key of each line leaves the file.
fn salen_las_claves(ua: &Vec<Asignacion>, m: &Vec<Option<Motivo>>) -> (r: Vec<bool>)
    requires
        m@.len() == ua@.len(),
    ensures
        r@.len() == ua@.len(),
        forall|t: int| 0 <= t < ua@.len() ==> #[trigger] r@[t] == sale_la_clave(vista_asignaciones(ua@), m@, t),
{
    let ghost v = vista_asignaciones(ua@);
    let mut r: Vec<bool> = Vec::new();
    let mut t: usize = 0;
    while t < ua.len()
        invariant
            t <= ua@.len(),
            m@.len() == ua@.len(),
            v == vista_asignaciones(ua@),
            r@.len() == t,
            forall|q: int| 0 <= q < t ==> #[trigger] r@[q] == sale_la_clave(v, m@, q),
        decreases ua@.len() - t,
    {
        let mut sale = m[t].is_some();
        if sale {
            let seccion = caracteres(ua[t].seccion.as_str());
            let clave = caracteres(ua[t].clave.as_str());
            assert(v[t as int] == ua@[t as int]@);
            let mut k: usize = 0;
            while k < ua.len()
                invariant
                    k <= ua@.len(),
                    t < ua@.len(),
                    m@.len() == ua@.len(),
                    v == vista_asignaciones(ua@),
                    seccion@ == v[t as int].seccion,
                    clave@ == v[t as int].clave,
                    sale == forall|q: int|
                        0 <= q < k && #[trigger] v[q].seccion == v[t as int].seccion && v[q].clave
                            == v[t as int].clave ==> m@[q] is Some,
                decreases ua@.len() - k,
            {
                assert(v[k as int] == ua@[k as int]@);
                let s2 = caracteres(ua[k].seccion.as_str());
                let k2 = caracteres(ua[k].clave.as_str());
                let ghost antes = sale;
                let misma = iguales(s2.as_slice(), seccion.as_slice()) && iguales(
                    k2.as_slice(),
                    clave.as_slice(),
                );
                if misma && m[k].is_none() {
                    sale = false;
                }
                proof {
                    let vt = v[t as int];
                    assert(misma == (v[k as int].seccion == vt.seccion && v[k as int].clave == vt.clave));
                    if misma && m@[k as int] is None {
                        assert(!(forall|q: int|
                            0 <= q < k + 1 && #[trigger] v[q].seccion == vt.seccion && v[q].clave == vt.clave
                                ==> m@[q] is Some));
                    } else {
                        assert((forall|q: int|
                            0 <= q < k + 1 && #[trigger] v[q].seccion == vt.seccion && v[q].clave == vt.clave
                                ==> m@[q] is Some) == (forall|q: int|
                            0 <= q < k && #[trigger] v[q].seccion == vt.seccion && v[q].clave == vt.clave
                                ==> m@[q] is Some));
                    }
                }
                k = k + 1;
            }
        }
        r.push(sale);
        t = t + 1;
    }
    r
}

/// Whether a shortcut key of the section with that label leaves the file
/// for that reason.
fn sale_etiqueta_en(
    ua: &Vec<Asignacion>,
    m: &Vec<Option<Motivo>>,
    salen: &Vec<bool>,
    sec: &[char],
    suf: &[char],
    motivo: Motivo,
) -> (r: bool)
    requires
        m@.len() == ua@.len(),
        salen@.len() == ua@.len(),
        forall|t: int| 0 <= t < ua@.len() ==> #[trigger] salen@[t] == sale_la_clave(vista_asignaciones(ua@), m@, t),
    ensures
        r == sale_etiqueta(vista_asignaciones(ua@), m@, sec@, suf@, motivo),
{
    let ghost v = vista_asignaciones(ua@);
    let mut t: usize = 0;
    while t < ua.len()
        invariant
            t <= ua@.len(),
            m@.len() == ua@.len(),
            salen@.len() == ua@.len(),
            v == vista_asignaciones(ua@),
            forall|q: int| 0 <= q < ua@.len() ==> #[trigger] salen@[q] == sale_la_clave(v, m@, q),
            forall|q: int|
                0 <= q < t ==> !(con_etiqueta(#[trigger] v[q], sec@, suf@) && sale_la_clave(v, m@, q) && m@[q]
                    == Some(motivo)),
        decreases ua@.len() - t,
    {
        assert(v[t as int] == ua@[t as int]@);
        if con_etiqueta_en(&ua[t], sec, suf) && salen[t] && es_motivo(m[t], motivo) {
            assert(salen@[t as int] == sale_la_clave(v, m@, t as int));
            return true;
        }
        t = t + 1;
    }
    false
}

/// Why each line goes, if it goes.
fn marcas_finales_en(ua: &Vec<Asignacion>, m: &Vec<Option<Motivo>>) -> (r: Vec<Option<Motivo>>)
    requires
        m@.len() == ua@.len(),
    ensures
        r@ == marcas_finales(vista_asignaciones(ua@), m@),
{
    let ghost v = vista_asignaciones(ua@);
    let comando = caracteres("command_");
    let salen = salen_las_claves(ua, m);
    let mut r: Vec<Option<Motivo>> = Vec::new();
    let mut j: usize = 0;
    while j < ua.len()
        invariant
            j <= ua@.len(),
            m@.len() == ua@.len(),
            salen@.len() == ua@.len(),
            forall|t: int| 0 <= t < ua@.len() ==> #[trigger] salen@[t] == sale_la_clave(v, m@, t),
            v == vista_asignaciones(ua@),
            comando@ == "command_"@,
            r@ =~= Seq::new(j as nat, |x: int| motivo_final(v, m@, x)),
        decreases ua@.len() - j,
    {
        let a = &ua[j];
        assert(v[j as int] == a@);
        let mf = if m[j].is_some() {
            m[j]
        } else {
            let clave = caracteres(a.clave.as_str());
            if empieza_con(clave.as_slice(), comando.as_slice()) {
                let suf = copia(clave.as_slice(), comando.len(), clave.len());
                assert(suf@ =~= clave@.skip("command_"@.len() as int));
                let seccion = caracteres(a.seccion.as_str());
                if sale_etiqueta_en(ua, m, &salen, seccion.as_slice(), suf.as_slice(), Motivo::RepiteAOtra) {
                    Some(Motivo::RepiteAOtra)
                } else if sale_etiqueta_en(
                    ua,
                    m,
                    &salen,
                    seccion.as_slice(),
                    suf.as_slice(),
                    Motivo::LaPusimosYChoca,
                ) {
                    Some(Motivo::LaPusimosYChoca)
                } else {
                    None
                }
            } else {
                None
            }
        };
        assert(mf == motivo_final(v, m@, j as int));
        r.push(mf);
        j = j + 1;
    }
    proof {
        assert(r@ =~= marcas_finales(v, m@));
    }
    r
}

/// The lines without those that go, and what went.
fn sin_marcadas_en(ls: &Vec<Vec<char>>, fin: &Vec<Option<Motivo>>) -> (r: (
    Vec<Vec<char>>,
    Vec<Quitada>,
))
    ensures
        (vista(r.0@), vista_quitadas(r.1@)) == sin_marcadas(vista(ls@), 0, seq![], 0, fin@),
{
    let ghost v = vista(ls@);
    let ghost objetivo = sin_marcadas(v, 0, seq![], 0, fin@);
    let mut seccion: Vec<char> = Vec::new();
    let mut salida: Vec<Vec<char>> = Vec::new();
    let mut quitadas: Vec<Quitada> = Vec::new();
    let mut n: usize = 0;
    let mut i: usize = 0;
    while i < ls.len()
        invariant
            i <= ls@.len(),
            n <= i,
            v == vista(ls@),
            objetivo == ({
                let resto = sin_marcadas(v, i as int, seccion@, n as int, fin@);
                (vista(salida@) + resto.0, vista_quitadas(quitadas@) + resto.1)
            }),
        decreases ls@.len() - i,
    {
        let linea = ls[i].as_slice();
        assert(linea@ == v[i as int]);
        let ghost sal0 = vista(salida@);
        let ghost qu0 = vista_quitadas(quitadas@);
        match seccion_de(linea) {
            Some(s) => {
                seccion = s;
                salida.push(ls[i].clone());
                proof {
                    let resto = sin_marcadas(v, i + 1, seccion@, n as int, fin@);
                    assert(vista(salida@) =~= sal0.push(v[i as int]));
                    assert(vista(salida@) + resto.0 =~= sal0 + (seq![v[i as int]] + resto.0));
                }
            },
            None => {
                match clave_de(linea) {
                    Some(k) => {
                        let ghost sec0 = seccion@;
                        let marca = if n < fin.len() {
                            fin[n]
                        } else {
                            None
                        };
                        n = n + 1;
                        match marca {
                            Some(m) => {
                                let q = Quitada {
                                    seccion: a_string(seccion.as_slice()),
                                    clave: a_string(k.as_slice()),
                                    motivo: m,
                                };
                                let ghost qv = q@;
                                quitadas.push(q);
                                proof {
                                    let resto = sin_marcadas(v, i + 1, seccion@, n as int, fin@);
                                    assert(vista_quitadas(quitadas@) =~= qu0.push(qv));
                                    assert(vista_quitadas(quitadas@) + resto.1 =~= qu0 + (seq![qv]
                                        + resto.1));
                                }
                            },
                            None => {
                                salida.push(ls[i].clone());
                                proof {
                                    let resto = sin_marcadas(v, i + 1, seccion@, n as int, fin@);
                                    assert(vista(salida@) =~= sal0.push(v[i as int]));
                                    assert(vista(salida@) + resto.0 =~= sal0 + (seq![v[i as int]]
                                        + resto.0));
                                }
                            },
                        }
                    },
                    None => {
                        salida.push(ls[i].clone());
                        proof {
                            let resto = sin_marcadas(v, i + 1, seccion@, n as int, fin@);
                            assert(vista(salida@) =~= sal0.push(v[i as int]));
                            assert(vista(salida@) + resto.0 =~= sal0 + (seq![v[i as int]] + resto.0));
                        }
                    },
                }
            },
        }
        i = i + 1;
    }
    proof {
        assert(vista(salida@) + seq![] =~= vista(salida@));
        assert(vista_quitadas(quitadas@) + seq![] =~= vista_quitadas(quitadas@));
    }
    (salida, quitadas)
}

/// Whether some line is marked.
fn alguna_marca_en(m: &Vec<Option<Motivo>>) -> (r: bool)
    ensures
        r == alguna_marca(m@),
{
    let mut j: usize = 0;
    while j < m.len()
        invariant
            j <= m@.len(),
            forall|k: int| 0 <= k < j ==> !(#[trigger] m@[k] is Some),
        decreases m@.len() - j,
    {
        if m[j].is_some() {
            return true;
        }
        j = j + 1;
    }
    false
}

/// Removes from the user's file the lines that bind a shortcut that is
/// already bound.
///
/// Two cases, resolved differently, because the hard question is not which
/// line is extra but **which one stays**.
///
/// A line the migration put and that collides with what was already there
/// loses, wherever it is written. It is touched only when `fue_agregada` (the
/// record of what was offered) says it was ours, when it still says what the
/// package says, and when it really collides.
///
/// Two lines that bind one shortcut to **the same command** keep the first one:
/// the key keeps doing exactly what it did, once. Bound to different commands,
/// neither is touched and the conflict is reported: choosing the winner would
/// change what a key does for someone.
///
/// In both cases a `binding_x` key that leaves the file takes its
/// `command_x` with it: on its own it fires nothing. Lines go by their place in
/// the file, not by their key: of two equal lines the first stays, and the
/// repeat that goes leaves the key, and so its command, in place.
/// The rest of the file is kept as it was, line by line.
pub fn quitar_choques<F: Fn(&str, &str) -> bool>(
    usuario: &str,
    paquete: &str,
    fue_agregada: &F,
) -> (r: Limpieza)
    requires
        es_predicado(fue_agregada),
    ensures
        (r.texto@, vista_quitadas(r.quitadas@), vista_conflictos(r.conflictos@)) == limpieza(
            usuario@,
            paquete@,
            |s: Seq<char>, k: Seq<char>| responde(fue_agregada, s, k),
        ),
{
    let u = caracteres(usuario);
    let ls = lineas_de(u.as_slice());
    let del_usuario = asignaciones_de_lineas(&ls);
    let del_paquete = asignaciones_de(paquete);
    let nuestras = marcar_nuestras(&del_usuario, &del_paquete, fue_agregada);
    let ajenos = atajos_ajenos_de(&del_usuario, &nuestras);
    let sobran1 = primera_pasada_en(&del_usuario, &nuestras, ajenos);
    let (sobran, conflictos) = segunda_pasada_en(&del_usuario, sobran1);
    if !alguna_marca_en(&sobran) {
        return Limpieza { texto: a_string(u.as_slice()), quitadas: Vec::new(), conflictos };
    }
    proof {
        lema_segunda_pasada_largo(
            vista_asignaciones(del_usuario@),
            0,
            PasadaV { duenos: seq![], conflictos: seq![], sobran: sobran1@ },
        );
    }
    let fin = marcas_finales_en(&del_usuario, &sobran);
    let (salida, quitadas) = sin_marcadas_en(&ls, &fin);
    let texto = rearmar_en(&salida, u.as_slice());
    Limpieza { texto: a_string(texto.as_slice()), quitadas, conflictos }
}

/// The second pass keeps one mark per line.
pub(crate) proof fn lema_segunda_pasada_largo(usuario: Seq<AsignacionV>, i: int, p: PasadaV)
    requires
        p.sobran.len() == usuario.len(),
    ensures
        segunda_pasada(usuario, i, p).sobran.len() == p.sobran.len(),
    decreases usuario.len() - i,
{
    if 0 <= i < usuario.len() {
        let a = usuario[i];
        if p.sobran[i] is Some || atajos(a).len() != 1 {
            lema_segunda_pasada_largo(usuario, i + 1, p);
        } else {
            let atajo = atajos(a)[0];
            match dueno_de(p.duenos, atajo) {
                None => lema_segunda_pasada_largo(
                    usuario,
                    i + 1,
                    PasadaV { duenos: p.duenos.push((atajo, i)), ..p },
                ),
                Some(j) => {
                    let primero = usuario[j];
                    if comando(usuario, a) is Some && comando(usuario, a) == comando(usuario, primero) {
                        lema_segunda_pasada_largo(
                            usuario,
                            i + 1,
                            PasadaV { sobran: p.sobran.update(i, Some(Motivo::RepiteAOtra)), ..p },
                        );
                    } else {
                        lema_segunda_pasada_largo(
                            usuario,
                            i + 1,
                            PasadaV {
                                conflictos: anotar_conflicto(p.conflictos, atajo.1, primero.clave, a.clave),
                                ..p
                            },
                        );
                    }
                },
            }
        }
    }
}

pub(crate) proof fn lema_sin_marcadas_solo_quita(ls: Seq<Seq<char>>, i: int, sec: Seq<char>, n: int, fin: Marcas)
    requires
        0 <= i <= ls.len(),
    ensures
        subsecuencia(sin_marcadas(ls, i, sec, n, fin).0, ls.skip(i)),
    decreases ls.len() - i,
{
    if i >= ls.len() {
        let m = Seq::<int>::empty();
        assert(crate::texto::es_inclusion(m, sin_marcadas(ls, i, sec, n, fin).0, ls.skip(i)));
    } else {
        assert(ls.skip(i) =~= seq![ls[i]] + ls.skip(i + 1));
        match seccion_en_linea(ls[i]) {
            Some(s) => {
                lema_sin_marcadas_solo_quita(ls, i + 1, s, n, fin);
                lema_subsecuencia_con_cabeza(sin_marcadas(ls, i + 1, s, n, fin).0, ls.skip(i + 1), ls[i]);
            },
            None => match clave_en_linea(ls[i]) {
                Some(k) => {
                    lema_sin_marcadas_solo_quita(ls, i + 1, sec, n + 1, fin);
                    lema_subsecuencia_con_cabeza(
                        sin_marcadas(ls, i + 1, sec, n + 1, fin).0,
                        ls.skip(i + 1),
                        ls[i],
                    );
                },
                None => {
                    lema_sin_marcadas_solo_quita(ls, i + 1, sec, n, fin);
                    lema_subsecuencia_con_cabeza(sin_marcadas(ls, i + 1, sec, n, fin).0, ls.skip(i + 1), ls[i]);
                },
            },
        }
    }
}

/// What cleaning does to the user's file: it only takes lines out. Either the
/// text is left as it was, or it is some of its lines, unchanged and in their
/// order, joined again.
pub proof fn lema_limpieza_solo_quita(
    usuario: Seq<char>,
    paquete: Seq<char>,
    agregada: spec_fn(Seq<char>, Seq<char>) -> bool,
)
    ensures
        limpieza(usuario, paquete, agregada).0 == usuario || exists|quedan: Seq<Seq<char>>|
            #[trigger] subsecuencia(quedan, lineas(usuario)) && limpieza(usuario, paquete, agregada).0
                == rearmar(quedan, usuario),
{
    let ls = lineas(usuario);
    let ua = asignaciones(usuario);
    let nuestras = marcas_nuestras(ua, asignaciones(paquete), agregada);
    let s1 = primera_pasada(ua, nuestras, 0, atajos_ajenos(ua, nuestras), sin_marcas(ua.len()));
    let p = segunda_pasada(ua, 0, PasadaV { duenos: seq![], conflictos: seq![], sobran: s1 });
    if alguna_marca(p.sobran) {
        let fin = marcas_finales(ua, p.sobran);
        lema_sin_marcadas_solo_quita(ls, 0, seq![], 0, fin);
        assert(ls.skip(0) =~= ls);
        let quedan = sin_marcadas(ls, 0, seq![], 0, fin).0;
        assert(subsecuencia(quedan, lineas(usuario)));
    }
}

/// Strictly increasing: sorted, and each piece once.
pub open spec fn creciente(s: Seq<Seq<char>>) -> bool {
    forall|i: int, j: int| 0 <= i < j < s.len() ==> lex_menor(#[trigger] s[i], #[trigger] s[j])
}

proof fn lema_insertar_ordenado(s: Seq<Seq<char>>, x: Seq<char>)
    requires
        creciente(s),
    ensures
        creciente(insertar_ordenado(s, x)),
        insertar_ordenado(s, x).to_set() == s.to_set().insert(x),
    decreases s.len(),
{
    let r = insertar_ordenado(s, x);
    if s.len() == 0 {
        assert(r.to_set() =~= s.to_set().insert(x)) by {
            assert forall|y: Seq<char>| r.to_set().contains(y) implies y == x by {
                let k = choose|k: int| 0 <= k < r.len() && r[k] == y;
            }
            assert(r[0] == x);
        }
    } else if x == s[0] {
        assert(s.to_set().insert(x) =~= s.to_set()) by {
            assert(s.to_set().contains(s[0]));
        }
    } else if lex_menor(x, s[0]) {
        assert(creciente(r)) by {
            assert forall|i: int, j: int| 0 <= i < j < r.len() implies lex_menor(#[trigger] r[i], #[trigger] r[j]) by {
                if i == 0 {
                    if j > 1 {
                        lema_lex_transitivo(x, s[0], s[j - 1]);
                    }
                } else {
                    assert(r[i] == s[i - 1] && r[j] == s[j - 1]);
                }
            }
        }
        assert(r.to_set() =~= s.to_set().insert(x)) by {
            assert forall|y: Seq<char>| r.to_set().contains(y) <==> s.to_set().insert(x).contains(y) by {
                if r.to_set().contains(y) {
                    let k = choose|k: int| 0 <= k < r.len() && r[k] == y;
                    if k > 0 {
                        assert(s[k - 1] == y);
                    }
                }
                if s.to_set().contains(y) {
                    let k = choose|k: int| 0 <= k < s.len() && s[k] == y;
                    assert(r[k + 1] == y);
                }
                if y == x {
                    assert(r[0] == x);
                }
            }
        }
    } else {
        lema_lex_total(x, s[0]);
        let resto = s.drop_first();
        assert(creciente(resto)) by {
            assert forall|i: int, j: int| 0 <= i < j < resto.len() implies lex_menor(#[trigger] resto[i], #[trigger] resto[j]) by {
                assert(resto[i] == s[i + 1] && resto[j] == s[j + 1]);
            }
        }
        lema_insertar_ordenado(resto, x);
        let t = insertar_ordenado(resto, x);
        assert(r == seq![s[0]] + t);
        assert forall|k: int| 0 <= k < t.len() implies lex_menor(s[0], #[trigger] t[k]) by {
            assert(t.to_set().contains(t[k]));
            if t[k] != x {
                assert(resto.to_set().contains(t[k]));
                let q = choose|q: int| 0 <= q < resto.len() && resto[q] == t[k];
                assert(s[q + 1] == t[k]);
            }
        }
        assert(creciente(r)) by {
            assert forall|i: int, j: int| 0 <= i < j < r.len() implies lex_menor(#[trigger] r[i], #[trigger] r[j]) by {
                if i == 0 {
                    assert(r[j] == t[j - 1]);
                } else {
                    assert(r[i] == t[i - 1] && r[j] == t[j - 1]);
                }
            }
        }
        assert(r.to_set() =~= s.to_set().insert(x)) by {
            assert forall|y: Seq<char>| r.to_set().contains(y) <==> s.to_set().insert(x).contains(y) by {
                if r.to_set().contains(y) {
                    let k = choose|k: int| 0 <= k < r.len() && r[k] == y;
                    if k > 0 {
                        assert(t[k - 1] == y);
                        assert(t.to_set().contains(y));
                        if y != x {
                            let q = choose|q: int| 0 <= q < resto.len() && resto[q] == y;
                            assert(s[q + 1] == y);
                        }
                    }
                }
                if s.to_set().contains(y) {
                    let k = choose|k: int| 0 <= k < s.len() && s[k] == y;
                    if k > 0 {
                        assert(resto[k - 1] == y);
                        assert(t.to_set().contains(y));
                        let q = choose|q: int| 0 <= q < t.len() && t[q] == y;
                        assert(r[q + 1] == y);
                    } else {
                        assert(r[0] == y);
                    }
                }
                if y == x {
                    assert(t.to_set().contains(x));
                    let q = choose|q: int| 0 <= q < t.len() && t[q] == x;
                    assert(r[q + 1] == x);
                }
            }
        }
    }
}

proof fn lema_ordenar(m: Seq<Seq<char>>)
    ensures
        creciente(ordenar(m)),
        ordenar(m).to_set() == m.to_set(),
    decreases m.len(),
{
    if m.len() == 0 {
        assert(ordenar(m).to_set() =~= m.to_set());
    } else {
        lema_ordenar(m.drop_last());
        lema_insertar_ordenado(ordenar(m.drop_last()), m.last());
        assert(m.to_set() =~= m.drop_last().to_set().insert(m.last())) by {
            assert forall|y: Seq<char>| m.to_set().contains(y) <==> m.drop_last().to_set().insert(m.last()).contains(y) by {
                if m.to_set().contains(y) {
                    let k = choose|k: int| 0 <= k < m.len() && m[k] == y;
                    if k < m.len() - 1 {
                        assert(m.drop_last()[k] == y);
                    }
                }
                if m.drop_last().to_set().contains(y) {
                    let k = choose|k: int| 0 <= k < m.drop_last().len() && m.drop_last()[k] == y;
                    assert(m[k] == y);
                }
                if y == m.last() {
                    assert(m[m.len() - 1] == y);
                }
            }
        }
    }
}

proof fn lema_crecientes_iguales(a: Seq<Seq<char>>, b: Seq<Seq<char>>)
    requires
        creciente(a),
        creciente(b),
        a.to_set() == b.to_set(),
    ensures
        a == b,
    decreases a.len(),
{
    if a.len() == 0 {
        if b.len() > 0 {
            assert(b.to_set().contains(b[0]));
        }
        assert(a =~= b);
    } else {
        assert(a.to_set().contains(a[0]));
        let j = choose|j: int| 0 <= j < b.len() && b[j] == a[0];
        assert(b.to_set().contains(b[0]));
        let k = choose|k: int| 0 <= k < a.len() && a[k] == b[0];
        if j > 0 {
            assert(lex_menor(b[0], b[j]));
            if k == 0 {
                lema_lex_irreflexivo(a[0]);
            } else {
                assert(lex_menor(a[0], a[k]));
                lema_lex_transitivo(a[0], a[k], a[0]);
                lema_lex_irreflexivo(a[0]);
            }
        }
        assert(b[0] == a[0]);
        let ra = a.drop_first();
        let rb = b.drop_first();
        assert(creciente(ra)) by {
            assert forall|i: int, l: int| 0 <= i < l < ra.len() implies lex_menor(#[trigger] ra[i], #[trigger] ra[l]) by {
                assert(ra[i] == a[i + 1] && ra[l] == a[l + 1]);
            }
        }
        assert(creciente(rb)) by {
            assert forall|i: int, l: int| 0 <= i < l < rb.len() implies lex_menor(#[trigger] rb[i], #[trigger] rb[l]) by {
                assert(rb[i] == b[i + 1] && rb[l] == b[l + 1]);
            }
        }
        assert(ra.to_set() =~= rb.to_set()) by {
            assert forall|y: Seq<char>| ra.to_set().contains(y) implies rb.to_set().contains(y) by {
                let q = choose|q: int| 0 <= q < ra.len() && ra[q] == y;
                assert(a[q + 1] == y);
                assert(lex_menor(a[0], a[q + 1]));
                assert(a.to_set().contains(y));
                let w = choose|w: int| 0 <= w < b.len() && b[w] == y;
                if w == 0 {
                    lema_lex_irreflexivo(y);
                }
                assert(rb[w - 1] == y);
            }
            assert forall|y: Seq<char>| rb.to_set().contains(y) implies ra.to_set().contains(y) by {
                let q = choose|q: int| 0 <= q < rb.len() && rb[q] == y;
                assert(b[q + 1] == y);
                assert(lex_menor(b[0], b[q + 1]));
                assert(b.to_set().contains(y));
                let w = choose|w: int| 0 <= w < a.len() && a[w] == y;
                if w == 0 {
                    lema_lex_irreflexivo(y);
                }
                assert(ra[w - 1] == y);
            }
        }
        lema_crecientes_iguales(ra, rb);
        assert(a =~= seq![a[0]] + ra);
        assert(b =~= seq![b[0]] + rb);
    }
}

/// Whether two shortcuts have the same pieces: the same modifiers, in any
/// order and however many times each, and the same keys in the same order.
pub open spec fn mismas_piezas(a: Seq<char>, b: Seq<char>) -> bool {
    match (fichas(recorte(a)), fichas(recorte(b))) {
        (Some(fa), Some(fb)) => modificadores(fa).to_set() == modificadores(fb).to_set() && teclas(fa)
            == teclas(fb),
        _ => false,
    }
}

/// The same shortcut written in another order is the same shortcut:
/// `KEY_T <super>`, `<super> KEY_T` and `<super><super> KEY_T` normalise to one
/// value, so a binding is never added twice because of how it is written.
pub proof fn lema_el_orden_no_hace_otro_atajo(a: Seq<char>, b: Seq<char>)
    requires
        mismas_piezas(a, b),
        combo(a) is Some,
        combo(b) is Some,
    ensures
        combo(a) == combo(b),
{
    let fa = fichas(recorte(a)).unwrap();
    let fb = fichas(recorte(b)).unwrap();
    lema_ordenar(modificadores(fa));
    lema_ordenar(modificadores(fb));
    lema_crecientes_iguales(ordenar(modificadores(fa)), ordenar(modificadores(fb)));
}

/// The shortcuts of some pieces, then of some more, are those of all of them.
proof fn lema_combos_de_partes_unidas(p: Seq<Seq<char>>, q: Seq<Seq<char>>)
    ensures
        combos_de_partes(p + q) == combos_de_partes(p) + combos_de_partes(q),
    decreases q.len(),
{
    if q.len() == 0 {
        assert(p + q =~= p);
        assert(combos_de_partes(p) + combos_de_partes(q) =~= combos_de_partes(p));
    } else {
        assert((p + q).drop_last() =~= p + q.drop_last());
        assert((p + q).last() == q.last());
        lema_combos_de_partes_unidas(p, q.drop_last());
        match combo(q.last()) {
            Some(c) => {
                assert(combos_de_partes(p) + combos_de_partes(q.drop_last()).push(c) =~= (
                combos_de_partes(p) + combos_de_partes(q.drop_last())).push(c));
            },
            None => {},
        }
    }
}

/// Several shortcuts in one value go separated by `|`: the shortcuts of the
/// whole are those of each side, in order.
pub proof fn lema_combos_unidos(a: Seq<char>, b: Seq<char>)
    ensures
        combos(a + seq!['|'] + b) == combos(a) + combos(b),
{
    crate::texto::lema_partes_unidas(a, b, '|');
    lema_combos_de_partes_unidas(partes(a, '|'), partes(b, '|'));
}

/// The modifiers of some pieces are the pieces that are modifiers.
proof fn lema_modificadores_son(fs: Seq<Seq<char>>)
    ensures
        forall|k: int| 0 <= k < fs.len() && es_modificador(#[trigger] fs[k]) ==> modificadores(fs).contains(fs[k]),
        forall|x: Seq<char>| #[trigger] modificadores(fs).contains(x) ==> es_modificador(x) && fs.contains(x),
    decreases fs.len(),
{
    if fs.len() > 0 {
        let p = fs.drop_last();
        lema_modificadores_son(p);
        let m = modificadores(fs);
        assert forall|k: int| 0 <= k < fs.len() && es_modificador(#[trigger] fs[k]) implies m.contains(fs[k]) by {
            if k < fs.len() - 1 {
                assert(p[k] == fs[k]);
                assert(modificadores(p).contains(fs[k]));
                let q = choose|q: int| 0 <= q < modificadores(p).len() && modificadores(p)[q] == fs[k];
                if es_modificador(fs.last()) {
                    assert(m[q] == fs[k]);
                }
            } else {
                assert(m[m.len() - 1] == fs.last());
            }
        }
        assert forall|x: Seq<char>| #[trigger] m.contains(x) implies es_modificador(x) && fs.contains(x) by {
            let q = choose|q: int| 0 <= q < m.len() && m[q] == x;
            if es_modificador(fs.last()) && q == m.len() - 1 {
                assert(fs[fs.len() - 1] == x);
            } else {
                assert(modificadores(p)[q] == x);
                assert(modificadores(p).contains(x));
                let w = choose|w: int| 0 <= w < p.len() && p[w] == x;
                assert(fs[w] == x);
            }
        }
    }
}

/// The keys of some pieces are pieces that are not modifiers.
proof fn lema_teclas_son(fs: Seq<Seq<char>>)
    ensures
        forall|x: Seq<char>| #[trigger] teclas(fs).contains(x) ==> !es_modificador(x) && fs.contains(x),
    decreases fs.len(),
{
    if fs.len() > 0 {
        let p = fs.drop_last();
        lema_teclas_son(p);
        let t = teclas(fs);
        assert forall|x: Seq<char>| #[trigger] t.contains(x) implies !es_modificador(x) && fs.contains(x) by {
            let q = choose|q: int| 0 <= q < t.len() && t[q] == x;
            if !es_modificador(fs.last()) && q == t.len() - 1 {
                assert(fs[fs.len() - 1] == x);
            } else {
                assert(teclas(p)[q] == x);
                assert(teclas(p).contains(x));
                let w = choose|w: int| 0 <= w < p.len() && p[w] == x;
                assert(fs[w] == x);
            }
        }
    }
}

/// A character is in the pieces put one after the other exactly when it is in
/// one of them.
proof fn lema_concatenar_contiene(s: Seq<Seq<char>>, c: char)
    ensures
        concatenar(s).contains(c) <==> exists|k: int| 0 <= k < s.len() && #[trigger] s[k].contains(c),
    decreases s.len(),
{
    if s.len() > 0 {
        let p = s.drop_last();
        lema_concatenar_contiene(p, c);
        let a = concatenar(p);
        let b = s.last();
        assert(concatenar(s) == a + b);
        if (a + b).contains(c) {
            let q = choose|q: int| 0 <= q < (a + b).len() && (a + b)[q] == c;
            if q < a.len() {
                assert(a[q] == c);
                assert(a.contains(c));
                let k = choose|k: int| 0 <= k < p.len() && #[trigger] p[k].contains(c);
                assert(s[k] == p[k]);
            } else {
                assert(b[q - a.len()] == c);
                assert(b.contains(c));
                assert(s[s.len() - 1] == b);
            }
        }
        if exists|k: int| 0 <= k < s.len() && #[trigger] s[k].contains(c) {
            let k = choose|k: int| 0 <= k < s.len() && #[trigger] s[k].contains(c);
            if k < s.len() - 1 {
                assert(p[k] == s[k]);
                assert(a.contains(c));
                let q = choose|q: int| 0 <= q < a.len() && a[q] == c;
                assert((a + b)[q] == c);
            } else {
                let q = choose|q: int| 0 <= q < b.len() && b[q] == c;
                assert((a + b)[a.len() + q] == c);
            }
        }
    } else {
        assert(concatenar(s) =~= Seq::<char>::empty());
    }
}

/// What is left of a text without its leading white space is an end of it.
pub(crate) proof fn lema_sin_blanco_inicial_sufijo(s: Seq<char>)
    ensures
        exists|k: int| 0 <= k <= s.len() && #[trigger] s.skip(k) == sin_blanco_inicial(s),
    decreases s.len(),
{
    if s.len() > 0 && es_blanco(s[0]) {
        lema_sin_blanco_inicial_sufijo(s.drop_first());
        let k = choose|k: int| 0 <= k <= s.drop_first().len() && #[trigger] s.drop_first().skip(k) == sin_blanco_inicial(s.drop_first());
        assert(s.skip(k + 1) =~= s.drop_first().skip(k));
    } else {
        assert(s.skip(0) =~= s);
    }
}

/// Only a modifier of the pieces of a shortcut holds a `<`, and there is one
/// only when the text has a `<`.
proof fn lema_fichas_menor(t: Seq<char>)
    ensures
        fichas(t) matches Some(fs) ==> (forall|k: int|
            0 <= k < fs.len() && !es_modificador(#[trigger] fs[k]) ==> !fs[k].contains('<')) && ((exists|
            k: int,
        | 0 <= k < fs.len() && es_modificador(#[trigger] fs[k])) ==> t.contains('<')),
    decreases t.len(),
{
    if t.len() > 0 && fichas(t) is Some {
        let fs = fichas(t)->0;
        if t[0] == '<' {
            let desde = t.drop_first();
            let p = indice(desde, '>');
            let m = seq!['<'] + minusculas_de(recorte(desde.take(p))) + seq!['>'];
            let sigue = sin_blanco_inicial(desde.skip(p + 1));
            lema_largo_sin_blanco_inicial(desde.skip(p + 1));
            lema_fichas_menor(sigue);
            let r = fichas(sigue)->0;
            assert(fs == seq![m] + r);
            assert(t.contains('<')) by {
                assert(t[0] == '<');
            }
            assert forall|k: int| 0 <= k < fs.len() && !es_modificador(#[trigger] fs[k]) implies !fs[k].contains('<') by {
                if k == 0 {
                    assert(fs[0] == m);
                    assert(m[0] == '<');
                } else {
                    assert(fs[k] == r[k - 1]);
                }
            }
        } else {
            let fin = corte_desde(t, 0);
            lema_corte_desde(t, 0);
            let resto = t.skip(fin);
            let sigue = sin_blanco_inicial(resto);
            lema_largo_sin_blanco_inicial(resto);
            if fin == 0 {
                assert(resto =~= t);
            }
            lema_fichas_menor(sigue);
            let r = fichas(sigue)->0;
            let pieza = t.take(fin);
            assert(fs == seq![pieza] + r);
            assert(!pieza.contains('<')) by {
                if pieza.contains('<') {
                    let q = choose|q: int| 0 <= q < pieza.len() && pieza[q] == '<';
                    assert(t[q] != '<');
                }
            }
            assert(!es_modificador(pieza)) by {
                if pieza.len() > 0 {
                    assert(pieza[0] == t[0]);
                }
            }
            assert forall|k: int| 0 <= k < fs.len() && !es_modificador(#[trigger] fs[k]) implies !fs[k].contains('<') by {
                if k > 0 {
                    assert(fs[k] == r[k - 1]);
                }
            }
            if exists|k: int| 0 <= k < fs.len() && es_modificador(#[trigger] fs[k]) {
                let k = choose|k: int| 0 <= k < fs.len() && es_modificador(#[trigger] fs[k]);
                assert(k > 0);
                assert(r[k - 1] == fs[k]);
                assert(sigue.contains('<'));
                lema_sin_blanco_inicial_sufijo(resto);
                let j = choose|j: int| 0 <= j <= resto.len() && #[trigger] resto.skip(j) == sigue;
                let q = choose|q: int| 0 <= q < sigue.len() && sigue[q] == '<';
                assert(t[fin + j + q] == '<');
            }
        }
    }
}

/// A shortcut has a `<` in its normal form exactly when it has a modifier;
/// so one whose text has no `<` has none, and one that starts with a
/// modifier has one.
pub proof fn lema_combo_y_menor(v: Seq<char>)
    ensures
        combo(v) matches Some(c) ==> (c.contains('<') ==> recorte(v).contains('<')),
        combo(v) matches Some(c) ==> (recorte(v).len() > 0 && recorte(v)[0] == '<' ==> c.contains('<')),
{
    let t = recorte(v);
    if combo(v) is Some {
        let c = combo(v)->0;
        let fs = fichas(t)->0;
        let ms = ordenar(modificadores(fs));
        let ts = teclas(fs);
        assert(c == concatenar(ms) + concatenar(ts));
        lema_fichas_menor(t);
        lema_modificadores_son(fs);
        lema_teclas_son(fs);
        lema_ordenar(modificadores(fs));
        lema_concatenar_contiene(ms, '<');
        lema_concatenar_contiene(ts, '<');
        if c.contains('<') {
            let q = choose|q: int| 0 <= q < c.len() && c[q] == '<';
            if q < concatenar(ms).len() {
                assert(concatenar(ms)[q] == '<');
                assert(concatenar(ms).contains('<'));
                let k = choose|k: int| 0 <= k < ms.len() && #[trigger] ms[k].contains('<');
                assert(ms.to_set().contains(ms[k]));
                assert(modificadores(fs).to_set().contains(ms[k]));
                assert(modificadores(fs).contains(ms[k]));
                let w = choose|w: int| 0 <= w < fs.len() && fs[w] == ms[k];
                assert(es_modificador(fs[w]));
            } else {
                assert(concatenar(ts)[q - concatenar(ms).len()] == '<');
                assert(concatenar(ts).contains('<'));
                let k = choose|k: int| 0 <= k < ts.len() && #[trigger] ts[k].contains('<');
                assert(ts.contains(ts[k]));
                let w = choose|w: int| 0 <= w < fs.len() && fs[w] == ts[k];
                assert(!es_modificador(fs[w]));
            }
        }
        if t.len() > 0 && t[0] == '<' {
            let desde = t.drop_first();
            let p = indice(desde, '>');
            let m = seq!['<'] + minusculas_de(recorte(desde.take(p))) + seq!['>'];
            let sigue = sin_blanco_inicial(desde.skip(p + 1));
            assert(fs == seq![m] + fichas(sigue)->0);
            assert(fs[0] == m);
            assert(es_modificador(fs[0]));
            assert(modificadores(fs).contains(m));
            assert(modificadores(fs).to_set().contains(m));
            assert(ms.to_set().contains(m));
            let k = choose|k: int| 0 <= k < ms.len() && ms[k] == m;
            assert(m[0] == '<');
            assert(ms[k].contains('<'));
            assert(concatenar(ms).contains('<'));
            let q = choose|q: int| 0 <= q < concatenar(ms).len() && concatenar(ms)[q] == '<';
            assert(c[q] == '<');
        }
    }
}

} // verus!
