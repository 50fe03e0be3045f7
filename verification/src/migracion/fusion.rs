//! What a merge keeps of the user's file, what it never adds, and that a
//! second merge changes nothing.
//!
//! The merge only inserts lines, so every assignment the user's file had is
//! still there, in its section; and a key is added only where the file does not
//! have it, so a value the person set is never shadowed by a second one. Nor is
//! a key added that binds a shortcut the file already binds. Each added line
//! reads back as what was added, in its section, and the file is written back
//! with its own line ending, so merging what a merge left adds nothing.

use vstd::prelude::*;
use crate::texto::{
    es_blanco, sin_blanco_inicial, sin_blanco_final, recorte, indice, lineas, sin_caracter,
    lineas_desde, sin_cr, contiene, unir,
    lema_indice_es_el_primero, lema_sin_blanco_inicial_idempotente,
    lema_sin_blanco_final_conserva_inicio,
};
use crate::migracion::ini::{
    AsignacionV, Atajo, EstadoFusion, seccion_en_linea, clave_en_linea, valor_en_linea,
    asignaciones_desde, asignaciones_lineas, asignaciones, tiene_en, choca, atajos, atajos_todos,
    linea_de_asignacion, con_linea, fin_de_seccion_en, lema_fin_desde_acotado, paso_fusion,
    fusion_desde, inicio_fusion, fin_fusion, fusion, suelta, seccion_tras, fin_desde,
    lleva_salto_final, rearmar, terminador, sufijo_atajo,
};

verus! {

proof fn lema_sin_blanco_final_prefijo(s: Seq<char>)
    ensures
        sin_blanco_final(s).len() <= s.len(),
        sin_blanco_final(s) == s.take(sin_blanco_final(s).len() as int),
        sin_blanco_final(s).len() > 0 ==> !es_blanco(sin_blanco_final(s).last()),
    decreases s.len(),
{
    if s.len() > 0 && es_blanco(s.last()) {
        let t = s.drop_last();
        lema_sin_blanco_final_prefijo(t);
        let n = sin_blanco_final(t).len() as int;
        assert(t.take(n) =~= s.take(n));
    } else {
        assert(s.take(s.len() as int) =~= s);
    }
}

proof fn lema_sin_blanco_inicial_sufijo(s: Seq<char>)
    ensures
        sin_blanco_inicial(s).len() <= s.len(),
        sin_blanco_inicial(s) == s.skip(s.len() - sin_blanco_inicial(s).len()),
    decreases s.len(),
{
    if s.len() > 0 && es_blanco(s[0]) {
        let t = s.drop_first();
        lema_sin_blanco_inicial_sufijo(t);
        let n = sin_blanco_inicial(t).len() as int;
        assert(t.skip(t.len() - n) =~= s.skip(s.len() - n));
    } else {
        assert(s.skip(0) =~= s);
    }
}

/// A trimmed text starts and ends with something that is not white space.
proof fn lema_recorte_extremos(s: Seq<char>)
    ensures
        recorte(s).len() > 0 ==> !es_blanco(recorte(s)[0]) && !es_blanco(recorte(s).last()),
{
    let u = sin_blanco_inicial(s);
    lema_sin_blanco_inicial_idempotente(s);
    lema_sin_blanco_final_conserva_inicio(u);
    lema_sin_blanco_final_prefijo(u);
}

/// The line that assigns what an assignment line assigns is no section header.
#[verifier::spinoff_prover]
#[verifier::rlimit(40)]
proof fn lema_linea_no_abre(l: Seq<char>, k: Seq<char>, v: Seq<char>)
    requires
        seccion_en_linea(l) is None,
        clave_en_linea(l) == Some(k),
        valor_en_linea(l) == v,
    ensures
        seccion_en_linea(k + seq![' ', '=', ' '] + v) is None,
{
    let t = recorte(l);
    let idx = indice(t, '=');
    lema_indice_es_el_primero(t, '=');
    lema_recorte_extremos(l);
    let x = t.take(idx);
    assert(k == recorte(x));
    if idx == 0 {
        assert(x =~= Seq::<char>::empty());
        assert(false);
    }
    assert(x[0] == t[0]);
    assert(sin_blanco_inicial(x) == x);
    lema_sin_blanco_final_conserva_inicio(x);
    assert(k[0] == t[0]);
    let y = t.skip(idx + 1);
    assert(v == recorte(y));
    let lin = k + seq![' ', '=', ' '] + v;
    assert(lin[0] == k[0]);
    assert(sin_blanco_inicial(lin) == lin);
    if v.len() == 0 {
        assert(lin =~= k + seq![' ', '=', ' ']);
        let sin = k + seq![' ', '='];
        assert(lin.drop_last() =~= sin);
        assert(sin.last() == '=');
        assert(sin_blanco_final(sin) == sin);
        assert(recorte(lin) == sin);
    } else {
        let u = sin_blanco_inicial(y);
        lema_sin_blanco_inicial_sufijo(y);
        lema_sin_blanco_final_prefijo(u);
        lema_recorte_extremos(y);
        assert(u.len() > 0);
        assert(u.last() == y.last());
        assert(y.last() == t.last());
        assert(sin_blanco_final(u) == u);
        assert(v.last() == t.last());
        assert(lin.last() == v.last());
        assert(sin_blanco_final(lin) == lin);
        assert(recorte(lin) == lin);
        if lin[0] == '[' && lin.last() == ']' {
            assert(t.len() >= 2);
            assert(seccion_en_linea(l) is Some);
        }
    }
}

/// Whether the line that assigns `a` opens no section.
pub open spec fn no_abre(a: AsignacionV) -> bool {
    seccion_en_linea(linea_de_asignacion(a)) is None
}

proof fn lema_asignaciones_no_abren(ls: Seq<Seq<char>>, i: int, sec: Seq<char>)
    ensures
        forall|j: int|
            0 <= j < asignaciones_desde(ls, i, sec).len() ==> no_abre(
                #[trigger] asignaciones_desde(ls, i, sec)[j],
            ),
    decreases ls.len() - i,
{
    if i >= ls.len() || i < 0 {
    } else {
        match seccion_en_linea(ls[i]) {
            Some(s) => {
                lema_asignaciones_no_abren(ls, i + 1, s);
                assert(asignaciones_desde(ls, i, sec) == asignaciones_desde(ls, i + 1, s));
            },
            None => match clave_en_linea(ls[i]) {
                Some(k) => {
                    lema_asignaciones_no_abren(ls, i + 1, sec);
                    let a = AsignacionV { seccion: sec, clave: k, valor: valor_en_linea(ls[i]) };
                    let resto = asignaciones_desde(ls, i + 1, sec);
                    lema_linea_no_abre(ls[i], k, valor_en_linea(ls[i]));
                    assert(linea_de_asignacion(a) == k + seq![' ', '=', ' '] + valor_en_linea(ls[i]));
                    assert(asignaciones_desde(ls, i, sec) == seq![a] + resto);
                    assert(no_abre(a));
                    assert forall|j: int|
                        0 <= j < asignaciones_desde(ls, i, sec).len() implies no_abre(
                        #[trigger] asignaciones_desde(ls, i, sec)[j],
                    ) by {
                        if j > 0 {
                            assert(asignaciones_desde(ls, i, sec)[j] == resto[j - 1]);
                        } else {
                            assert(asignaciones_desde(ls, i, sec)[j] == a);
                        }
                    }
                },
                None => {
                    lema_asignaciones_no_abren(ls, i + 1, sec);
                    assert(asignaciones_desde(ls, i, sec) == asignaciones_desde(ls, i + 1, sec));
                },
            },
        }
    }
}

/// The assignments from a line on depend only on the lines from there on.
pub(crate) proof fn lema_desde_desplazado(a: Seq<Seq<char>>, i: int, b: Seq<Seq<char>>, j: int, sec: Seq<char>)
    requires
        0 <= i <= a.len(),
        0 <= j <= b.len(),
        a.skip(i) == b.skip(j),
    ensures
        asignaciones_desde(a, i, sec) == asignaciones_desde(b, j, sec),
    decreases a.len() - i,
{
    if i < a.len() {
        assert(a.skip(i).len() == a.len() - i);
        assert(b.skip(j).len() == b.len() - j);
        assert(a[i] == a.skip(i)[0]);
        assert(b[j] == b.skip(j)[0]);
        assert(a.skip(i + 1) =~= a.skip(i).skip(1));
        assert(b.skip(j + 1) =~= b.skip(j).skip(1));
        match seccion_en_linea(a[i]) {
            Some(s) => lema_desde_desplazado(a, i + 1, b, j + 1, s),
            None => lema_desde_desplazado(a, i + 1, b, j + 1, sec),
        }
    } else {
        assert(b.skip(j).len() == 0);
    }
}

/// Inserting a line that opens no section (or one at the very end) keeps every
/// assignment that was there.
proof fn lema_insertar_conserva(ls: Seq<Seq<char>>, d: int, x: Seq<char>, i: int, sec: Seq<char>)
    requires
        0 <= i <= d <= ls.len(),
        seccion_en_linea(x) is None || d == ls.len(),
    ensures
        forall|e: AsignacionV|
            asignaciones_desde(ls, i, sec).contains(e) ==> #[trigger] asignaciones_desde(
                ls.insert(d, x),
                i,
                sec,
            ).contains(e),
    decreases ls.len() - i,
{
    let ls2 = ls.insert(d, x);
    if i == d {
        if d < ls.len() {
            assert(ls.skip(d) =~= ls2.skip(d + 1));
            lema_desde_desplazado(ls, d, ls2, d + 1, sec);
            let resto = asignaciones_desde(ls2, d + 1, sec);
            match clave_en_linea(x) {
                Some(k) => {
                    let a = AsignacionV { seccion: sec, clave: k, valor: valor_en_linea(x) };
                    assert(asignaciones_desde(ls2, d, sec) == seq![a] + resto);
                    assert forall|e: AsignacionV| resto.contains(e) implies #[trigger] (seq![a]
                        + resto).contains(e) by {
                        let q = choose|q: int| 0 <= q < resto.len() && resto[q] == e;
                        assert((seq![a] + resto)[q + 1] == e);
                    }
                },
                None => {
                    assert(asignaciones_desde(ls2, d, sec) == resto);
                },
            }
        }
    } else {
        assert(ls2[i] == ls[i]);
        match seccion_en_linea(ls[i]) {
            Some(s) => {
                lema_insertar_conserva(ls, d, x, i + 1, s);
                assert(asignaciones_desde(ls, i, sec) == asignaciones_desde(ls, i + 1, s));
                assert(asignaciones_desde(ls2, i, sec) == asignaciones_desde(ls2, i + 1, s));
            },
            None => {
                lema_insertar_conserva(ls, d, x, i + 1, sec);
                let r1 = asignaciones_desde(ls, i + 1, sec);
                let r2 = asignaciones_desde(ls2, i + 1, sec);
                match clave_en_linea(ls[i]) {
                    Some(k) => {
                        let a = AsignacionV { seccion: sec, clave: k, valor: valor_en_linea(ls[i]) };
                        assert(asignaciones_desde(ls, i, sec) == seq![a] + r1);
                        assert(asignaciones_desde(ls2, i, sec) == seq![a] + r2);
                        assert forall|e: AsignacionV| (seq![a] + r1).contains(e) implies #[trigger] (
                        seq![a] + r2).contains(e) by {
                            let q = choose|q: int| 0 <= q < r1.len() + 1 && (seq![a] + r1)[q] == e;
                            if q == 0 {
                                assert((seq![a] + r2)[0] == e);
                            } else {
                                assert(r1[q - 1] == e);
                                assert(r1.contains(e));
                                assert(r2.contains(e));
                                let w = choose|w: int| 0 <= w < r2.len() && r2[w] == e;
                                assert((seq![a] + r2)[w + 1] == e);
                            }
                        }
                    },
                    None => {
                        assert(asignaciones_desde(ls, i, sec) == r1);
                        assert(asignaciones_desde(ls2, i, sec) == r2);
                    },
                }
            },
        }
    }
}

/// Putting a line that opens no section in its place keeps every assignment
/// that was there.
proof fn lema_con_linea_mantiene(ls: Seq<Seq<char>>, sec: Seq<char>, nueva: Seq<char>)
    requires
        seccion_en_linea(nueva) is None,
    ensures
        forall|e: AsignacionV|
            asignaciones_lineas(ls).contains(e) ==> #[trigger] asignaciones_lineas(
                con_linea(ls, sec, nueva),
            ).contains(e),
{
    match fin_de_seccion_en(ls, sec) {
        Some(d) => {
            lema_fin_desde_acotado(ls, sec, 0, seq![], None);
            lema_insertar_conserva(ls, d, nueva, 0, seq![]);
        },
        None => {
            let ls1 = if ls.len() > 0 && recorte(ls.last()).len() > 0 {
                ls.push(seq![])
            } else {
                ls
            };
            let ls2 = if sec.len() > 0 {
                ls1.push(seq!['['] + sec + seq![']'])
            } else {
                ls1
            };
            assert(ls.push(seq![]) =~= ls.insert(ls.len() as int, seq![]));
            lema_insertar_conserva(ls, ls.len() as int, seq![], 0, seq![]);
            let cab = seq!['['] + sec + seq![']'];
            assert(ls1.push(cab) =~= ls1.insert(ls1.len() as int, cab));
            lema_insertar_conserva(ls1, ls1.len() as int, cab, 0, seq![]);
            assert(ls2.push(nueva) =~= ls2.insert(ls2.len() as int, nueva));
            lema_insertar_conserva(ls2, ls2.len() as int, nueva, 0, seq![]);
            assert(con_linea(ls, sec, nueva) == ls2.push(nueva));
        },
    }
}

/// What a merge keeps as it goes: every assignment of the user's file `ua` is
/// still in the lines; every shortcut bound at the start is still bound; and
/// each key added is one that `ua` does not have, from an assignment of the
/// package that binds none of the shortcuts bound at the start.
pub open spec fn mantiene(
    e: EstadoFusion,
    ua: Seq<AsignacionV>,
    ligados0: Seq<Atajo>,
    ps: Seq<AsignacionV>,
) -> bool {
    &&& forall|x: AsignacionV| ua.contains(x) ==> #[trigger] asignaciones_lineas(e.lineas).contains(x)
    &&& forall|c: Atajo| ligados0.contains(c) ==> #[trigger] e.ligados.contains(c)
    &&& forall|j: int|
        0 <= j < e.agregadas.len() ==> !tiene_en(ua, #[trigger] e.agregadas[j].0, e.agregadas[j].1)
            && viene_del_paquete(ps, e.agregadas[j], ligados0)
}

/// Whether some assignment of the package has this section and key and binds
/// none of the shortcuts `ligados`.
pub open spec fn viene_del_paquete(
    ps: Seq<AsignacionV>,
    k: (Seq<char>, Seq<char>),
    ligados: Seq<Atajo>,
) -> bool {
    exists|p: int|
        0 <= p < ps.len() && #[trigger] ps[p].seccion == k.0 && ps[p].clave == k.1 && !choca(
            atajos(ps[p]),
            ligados,
        )
}

proof fn lema_paso_mantiene(
    e: EstadoFusion,
    ua: Seq<AsignacionV>,
    ligados0: Seq<Atajo>,
    ps: Seq<AsignacionV>,
    i: int,
    ofrecida: spec_fn(Seq<char>, Seq<char>) -> bool,
    paq: Seq<AsignacionV>,
)
    requires
        0 <= i < ps.len(),
        no_abre(ps[i]),
        mantiene(e, ua, ligados0, ps),
    ensures
        mantiene(paso_fusion(e, ps[i], ofrecida, paq), ua, ligados0, ps),
{
    let a = ps[i];
    let e1 = paso_fusion(e, a, ofrecida, paq);
    if e1 != e {
        let antes = asignaciones_lineas(e.lineas);
        assert(!tiene_en(antes, a.seccion, a.clave));
        assert(!choca(atajos(a), e.ligados));
        assert(e1.lineas == con_linea(e.lineas, a.seccion, linea_de_asignacion(a)));
        assert(e1.ligados == e.ligados + atajos(a));
        assert(e1.agregadas == e.agregadas.push((a.seccion, a.clave)));
        lema_con_linea_mantiene(e.lineas, a.seccion, linea_de_asignacion(a));
        assert forall|c: Atajo| ligados0.contains(c) implies #[trigger] e1.ligados.contains(c) by {
            assert(e.ligados.contains(c));
            let q = choose|q: int| 0 <= q < e.ligados.len() && e.ligados[q] == c;
            assert(e1.ligados[q] == c);
        }
        assert(!tiene_en(ua, a.seccion, a.clave)) by {
            if tiene_en(ua, a.seccion, a.clave) {
                let q = choose|q: int|
                    0 <= q < ua.len() && #[trigger] ua[q].seccion == a.seccion && ua[q].clave
                        == a.clave;
                assert(ua.contains(ua[q]));
                assert(antes.contains(ua[q]));
                let w = choose|w: int| 0 <= w < antes.len() && antes[w] == ua[q];
                assert(antes[w].seccion == a.seccion);
            }
        }
        assert(!choca(atajos(a), ligados0)) by {
            if choca(atajos(a), ligados0) {
                let q = choose|q: int| 0 <= q < atajos(a).len() && ligados0.contains(#[trigger] atajos(a)[q]);
                assert(e.ligados.contains(atajos(a)[q]));
            }
        }
        assert(ps[i].seccion == a.seccion);
        assert(viene_del_paquete(ps, (a.seccion, a.clave), ligados0));
        assert forall|j: int| 0 <= j < e1.agregadas.len() implies !tiene_en(
            ua,
            #[trigger] e1.agregadas[j].0,
            e1.agregadas[j].1,
        ) && viene_del_paquete(ps, e1.agregadas[j], ligados0) by {
            if j < e.agregadas.len() {
                assert(e1.agregadas[j] == e.agregadas[j]);
            } else {
                assert(e1.agregadas[j] == (a.seccion, a.clave));
            }
        }
    }
}

proof fn lema_fusion_desde_mantiene(
    e: EstadoFusion,
    ua: Seq<AsignacionV>,
    ligados0: Seq<Atajo>,
    ps: Seq<AsignacionV>,
    i: int,
    ofrecida: spec_fn(Seq<char>, Seq<char>) -> bool,
    paq: Seq<AsignacionV>,
)
    requires
        0 <= i,
        forall|j: int| 0 <= j < ps.len() ==> no_abre(#[trigger] ps[j]),
        mantiene(e, ua, ligados0, ps),
    ensures
        mantiene(fusion_desde(ps, i, e, ofrecida, paq), ua, ligados0, ps),
    decreases ps.len() - i,
{
    if i < ps.len() {
        lema_paso_mantiene(e, ua, ligados0, ps, i, ofrecida, paq);
        lema_fusion_desde_mantiene(
            paso_fusion(e, ps[i], ofrecida, paq),
            ua,
            ligados0,
            ps,
            i + 1,
            ofrecida,
            paq,
        );
    }
}

/// What a merge adds and what it keeps. Every assignment of the user's file is
/// still among the assignments of the merged lines, in its section and with
/// its value. Each key added is one the user's file does not have in that
/// section, so a value the person set is never shadowed by a second line; and
/// it comes from an assignment of the package that binds none of the
/// shortcuts the user's file binds, so a shortcut already bound is not bound
/// again under another name.
pub proof fn lema_fusion_no_repite_claves_ni_atajos(
    usuario: Seq<char>,
    paquete: Seq<char>,
    ofrecida: spec_fn(Seq<char>, Seq<char>) -> bool,
)
    ensures
        forall|x: AsignacionV|
            asignaciones(usuario).contains(x) ==> #[trigger] asignaciones_lineas(
                fin_fusion(usuario, paquete, ofrecida).lineas,
            ).contains(x),
        forall|j: int|
            0 <= j < fusion(usuario, paquete, ofrecida).1.len() ==> !tiene_en(
                asignaciones(usuario),
                #[trigger] fusion(usuario, paquete, ofrecida).1[j].0,
                fusion(usuario, paquete, ofrecida).1[j].1,
            ),
        forall|j: int|
            0 <= j < fusion(usuario, paquete, ofrecida).1.len() ==> viene_del_paquete(
                asignaciones(paquete),
                #[trigger] fusion(usuario, paquete, ofrecida).1[j],
                atajos_todos(asignaciones(usuario)),
            ),
{
    let ua = asignaciones(usuario);
    let pa = asignaciones(paquete);
    let ligados0 = atajos_todos(ua);
    let e0 = inicio_fusion(usuario);
    lema_asignaciones_no_abren(lineas(paquete), 0, seq![]);
    assert(mantiene(e0, ua, ligados0, pa));
    lema_fusion_desde_mantiene(e0, ua, ligados0, pa, 0, ofrecida, pa);
    let ag = fusion(usuario, paquete, ofrecida).1;
    assert(ag == fin_fusion(usuario, paquete, ofrecida).agregadas);
}

pub(crate) proof fn lema_contiene_cabeza<A>(a: A, r: Seq<A>)
    ensures
        forall|e: A| #[trigger] (seq![a] + r).contains(e) <==> (e == a || r.contains(e)),
{
    let t = seq![a] + r;
    assert forall|e: A| #[trigger] t.contains(e) <==> (e == a || r.contains(e)) by {
        if t.contains(e) {
            let q = choose|q: int| 0 <= q < t.len() && t[q] == e;
            if q > 0 {
                assert(r[q - 1] == e);
            }
        }
        if e == a {
            assert(t[0] == e);
        }
        if r.contains(e) {
            let q = choose|q: int| 0 <= q < r.len() && r[q] == e;
            assert(t[q + 1] == e);
        }
    }
}

/// Where a section ends lies within that section.
proof fn lema_fin_desde_seccion(
    ls: Seq<Seq<char>>,
    sec: Seq<char>,
    i: int,
    actual: Seq<char>,
    ultima: Option<int>,
)
    requires
        0 <= i <= ls.len(),
        actual == seccion_tras(ls, i),
        ultima matches Some(u) ==> 0 <= u < i && actual == sec && seccion_tras(ls, u + 1) == sec,
    ensures
        fin_desde(ls, sec, i, actual, ultima) matches Some(d) ==> seccion_tras(ls, d) == sec,
        fin_desde(ls, sec, i, actual, ultima) is None && actual == sec ==> seccion_tras(
            ls,
            ls.len() as int,
        ) == sec,
    decreases ls.len() - i,
{
    if i < ls.len() {
        match seccion_en_linea(ls[i]) {
            Some(s) => {
                if actual != sec {
                    assert(seccion_tras(ls, i + 1) == s);
                    lema_fin_desde_seccion(
                        ls,
                        sec,
                        i + 1,
                        s,
                        if s == sec {
                            Some(i)
                        } else {
                            ultima
                        },
                    );
                }
            },
            None => {
                assert(seccion_tras(ls, i + 1) == seccion_tras(ls, i));
                lema_fin_desde_seccion(
                    ls,
                    sec,
                    i + 1,
                    actual,
                    if actual == sec && recorte(ls[i]).len() > 0 {
                        Some(i)
                    } else {
                        ultima
                    },
                );
            },
        }
    }
}

/// The assignment a line makes in section `sec`, if it makes one.
pub open spec fn asignacion_de(x: Seq<char>, sec: Seq<char>) -> Option<AsignacionV> {
    match seccion_en_linea(x) {
        Some(_) => None,
        None => match clave_en_linea(x) {
            Some(k) => Some(AsignacionV { seccion: sec, clave: k, valor: valor_en_linea(x) }),
            None => None,
        },
    }
}

/// Inserting a line that opens no section (or one at the very end) adds the
/// assignment it makes, in the section in effect there, and nothing else.
#[verifier::spinoff_prover]
#[verifier::rlimit(40)]
proof fn lema_insertar_exacto(ls: Seq<Seq<char>>, d: int, x: Seq<char>, i: int, sec: Seq<char>)
    requires
        0 <= i <= d <= ls.len(),
        sec == seccion_tras(ls, i),
        seccion_en_linea(x) is None || d == ls.len(),
    ensures
        forall|e: AsignacionV|
            #[trigger] asignaciones_desde(ls.insert(d, x), i, sec).contains(e) <==> (
            asignaciones_desde(ls, i, sec).contains(e) || asignacion_de(x, seccion_tras(ls, d))
                == Some(e)),
    decreases ls.len() - i,
{
    let ls2 = ls.insert(d, x);
    if i == d {
        let resto = asignaciones_desde(ls2, d + 1, sec);
        if d < ls.len() {
            assert(ls.skip(d) =~= ls2.skip(d + 1));
            lema_desde_desplazado(ls, d, ls2, d + 1, sec);
        } else {
            assert(asignaciones_desde(ls, d, sec) =~= Seq::<AsignacionV>::empty());
        }
        assert(ls2[d] == x);
        match seccion_en_linea(x) {
            Some(s) => {
                assert(asignaciones_desde(ls2, d + 1, s) =~= Seq::<AsignacionV>::empty());
                assert(asignaciones_desde(ls2, d, sec) =~= Seq::<AsignacionV>::empty());
            },
            None => match clave_en_linea(x) {
                Some(k) => {
                    let a = AsignacionV { seccion: sec, clave: k, valor: valor_en_linea(x) };
                    assert(asignaciones_desde(ls2, d, sec) == seq![a] + resto);
                    lema_contiene_cabeza(a, resto);
                    if d == ls.len() {
                        assert(resto =~= Seq::<AsignacionV>::empty());
                    }
                },
                None => {
                    assert(asignaciones_desde(ls2, d, sec) == resto);
                    if d == ls.len() {
                        assert(resto =~= Seq::<AsignacionV>::empty());
                    }
                },
            },
        }
    } else {
        assert(ls2[i] == ls[i]);
        match seccion_en_linea(ls[i]) {
            Some(s) => {
                assert(seccion_tras(ls, i + 1) == s);
                lema_insertar_exacto(ls, d, x, i + 1, s);
                assert(asignaciones_desde(ls, i, sec) == asignaciones_desde(ls, i + 1, s));
                assert(asignaciones_desde(ls2, i, sec) == asignaciones_desde(ls2, i + 1, s));
            },
            None => {
                assert(seccion_tras(ls, i + 1) == seccion_tras(ls, i));
                lema_insertar_exacto(ls, d, x, i + 1, sec);
                let r1 = asignaciones_desde(ls, i + 1, sec);
                let r2 = asignaciones_desde(ls2, i + 1, sec);
                match clave_en_linea(ls[i]) {
                    Some(k) => {
                        let a = AsignacionV { seccion: sec, clave: k, valor: valor_en_linea(ls[i]) };
                        assert(asignaciones_desde(ls, i, sec) == seq![a] + r1);
                        assert(asignaciones_desde(ls2, i, sec) == seq![a] + r2);
                        lema_contiene_cabeza(a, r1);
                        lema_contiene_cabeza(a, r2);
                    },
                    None => {
                        assert(asignaciones_desde(ls, i, sec) == r1);
                        assert(asignaciones_desde(ls2, i, sec) == r2);
                    },
                }
            },
        }
    }
}

/// Trimming only takes characters off the ends.
proof fn lema_recorte_dentro(x: Seq<char>)
    ensures
        recorte(x).len() <= x.len(),
        forall|c: char| sin_caracter(x, c) ==> #[trigger] sin_caracter(recorte(x), c),
{
    let u = sin_blanco_inicial(x);
    lema_sin_blanco_inicial_sufijo(x);
    lema_sin_blanco_final_prefijo(u);
    let m = x.len() - u.len();
    let r = recorte(x);
    assert forall|c: char| sin_caracter(x, c) implies #[trigger] sin_caracter(recorte(x), c) by {
        assert forall|j: int| 0 <= j < r.len() implies #[trigger] r[j] != c by {
            assert(r[j] == u[j]);
            assert(u[j] == x[m + j]);
        }
    }
}

/// A text with no white space at either end is its own trim.
proof fn lema_recortado(x: Seq<char>)
    requires
        x.len() > 0,
        !es_blanco(x[0]),
        !es_blanco(x.last()),
    ensures
        recorte(x) == x,
{
    assert(sin_blanco_inicial(x) == x);
    assert(sin_blanco_final(x) == x);
}

proof fn lema_recorte_idempotente(x: Seq<char>)
    ensures
        recorte(recorte(x)) == recorte(x),
{
    lema_recorte_extremos(x);
    if recorte(x).len() > 0 {
        lema_recortado(recorte(x));
    } else {
        assert(recorte(x) =~= Seq::<char>::empty());
    }
}

/// Whether the line that assigns `a` reads back as `a` in its section, and
/// its section and line can be written back: trimmed, with no line break, and
/// a line that does not end in a carriage return.
pub open spec fn bien_formada(a: AsignacionV) -> bool {
    &&& asignacion_de(linea_de_asignacion(a), a.seccion) == Some(a)
    &&& recorte(a.seccion) == a.seccion
    &&& sin_caracter(a.seccion, '\n')
    &&& sin_caracter(linea_de_asignacion(a), '\n')
    &&& linea_de_asignacion(a).len() > 0
    &&& linea_de_asignacion(a).last() != '\r'
}

#[verifier::spinoff_prover]
#[verifier::rlimit(40)]
proof fn lema_linea_bien_formada(l: Seq<char>, sec: Seq<char>)
    requires
        seccion_en_linea(l) is None,
        clave_en_linea(l) is Some,
        sin_caracter(l, '\n'),
        recorte(sec) == sec,
        sin_caracter(sec, '\n'),
    ensures
        bien_formada(
            AsignacionV { seccion: sec, clave: clave_en_linea(l)->0, valor: valor_en_linea(l) },
        ),
{
    let k = clave_en_linea(l)->0;
    let v = valor_en_linea(l);
    let a = AsignacionV { seccion: sec, clave: k, valor: v };
    lema_linea_no_abre(l, k, v);
    let t = recorte(l);
    let idx = indice(t, '=');
    lema_indice_es_el_primero(t, '=');
    lema_recorte_extremos(l);
    lema_recorte_dentro(l);
    let x = t.take(idx);
    if idx == 0 {
        assert(x =~= Seq::<char>::empty());
        assert(false);
    }
    assert(sin_blanco_inicial(x) == x);
    lema_sin_blanco_final_conserva_inicio(x);
    assert(k[0] == t[0]);
    assert(sin_caracter(t, '\n'));
    assert(sin_caracter(x, '='));
    assert(sin_caracter(x, '\n')) by {
        assert forall|j: int| 0 <= j < x.len() implies #[trigger] x[j] != '\n' by {
            assert(x[j] == t[j]);
        }
    }
    lema_recorte_dentro(x);
    assert(sin_caracter(k, '='));
    assert(sin_caracter(k, '\n'));
    lema_recorte_extremos(x);
    let y = t.skip(idx + 1);
    assert(sin_caracter(y, '\n')) by {
        assert forall|j: int| 0 <= j < y.len() implies #[trigger] y[j] != '\n' by {
            assert(y[j] == t[j + idx + 1]);
        }
    }
    lema_recorte_dentro(y);
    lema_recorte_extremos(y);
    assert(sin_caracter(v, '\n'));
    let lin = k + seq![' ', '=', ' '] + v;
    assert(linea_de_asignacion(a) == lin);
    assert(sin_caracter(lin, '\n')) by {
        assert forall|j: int| 0 <= j < lin.len() implies #[trigger] lin[j] != '\n' by {
            if j < k.len() {
                assert(lin[j] == k[j]);
            } else if j >= k.len() + 3 {
                assert(lin[j] == v[j - k.len() - 3]);
            }
        }
    }
    assert(lin.len() > 0);
    assert(lin.last() != '\r') by {
        if v.len() > 0 {
            assert(lin.last() == v.last());
        } else {
            assert(lin.last() == ' ');
        }
    }
    // The line read back: its trim, its first `=`, its key and its value.
    let tl = recorte(lin);
    let n = k.len() as int;
    if v.len() == 0 {
        let sin = k + seq![' ', '='];
        assert(lin =~= k + seq![' ', '=', ' ']);
        assert(lin.drop_last() =~= sin);
        assert(sin_blanco_inicial(lin) == lin);
        assert(sin_blanco_final(sin) == sin);
        assert(tl == sin);
    } else {
        lema_recortado(lin);
        assert(tl == lin);
    }
    assert(tl[0] == k[0]);
    assert(tl[n] == ' ');
    assert(tl[n + 1] == '=');
    assert forall|j: int| 0 <= j < n + 1 implies tl[j] != '=' by {
        if j < n {
            assert(tl[j] == k[j]);
        }
    }
    crate::texto::lema_indice(tl, '=', n + 1);
    assert(indice(tl, '=') == n + 1);
    let kk = tl.take(n + 1);
    assert(kk =~= k.push(' '));
    assert(sin_blanco_inicial(kk) == kk);
    assert(kk.drop_last() =~= k);
    assert(sin_blanco_final(k) == k);
    assert(sin_blanco_final(kk) == k);
    assert(recorte(kk) == k);
    assert(clave_en_linea(lin) == Some(k));
    let vv = tl.skip(n + 2);
    if v.len() == 0 {
        assert(vv =~= Seq::<char>::empty());
        assert(recorte(vv) =~= Seq::<char>::empty());
    } else {
        assert(vv =~= seq![' '] + v);
        assert(vv.drop_first() =~= v);
        assert(sin_blanco_inicial(vv) == sin_blanco_inicial(v));
        lema_recortado(v);
        assert(sin_blanco_inicial(v) == v);
        assert(recorte(vv) == v);
    }
    assert(valor_en_linea(lin) == v);
    assert(asignacion_de(lin, sec) == Some(a));
}

proof fn lema_lineas_desde_sin_salto(t: Seq<char>, i: int, actual: Seq<char>)
    requires
        0 <= i,
        sin_caracter(actual, '\n'),
    ensures
        forall|k: int|
            0 <= k < lineas_desde(t, i, actual).len() ==> sin_caracter(
                #[trigger] lineas_desde(t, i, actual)[k],
                '\n',
            ),
    decreases t.len() - i,
{
    let r = lineas_desde(t, i, actual);
    if i >= t.len() {
        if actual.len() > 0 {
            assert(r == seq![actual]);
            assert(r[0] == actual);
        } else {
            assert(r =~= Seq::<Seq<char>>::empty());
        }
    } else if t[i] == '\n' {
        assert(r == seq![sin_cr(actual)] + lineas_desde(t, i + 1, seq![]));
        lema_lineas_desde_sin_salto(t, i + 1, seq![]);
        let resto = lineas_desde(t, i + 1, seq![]);
        assert(sin_caracter(sin_cr(actual), '\n')) by {
            assert forall|j: int| 0 <= j < sin_cr(actual).len() implies #[trigger] sin_cr(actual)[j]
                != '\n' by {
                assert(sin_cr(actual)[j] == actual[j]);
            }
        }
        assert forall|k: int| 0 <= k < r.len() implies sin_caracter(#[trigger] r[k], '\n') by {
            if k > 0 {
                assert(r[k] == resto[k - 1]);
            } else {
                assert(r[0] == sin_cr(actual));
            }
        }
    } else {
        let a2 = actual.push(t[i]);
        assert(sin_caracter(a2, '\n')) by {
            assert forall|j: int| 0 <= j < a2.len() implies #[trigger] a2[j] != '\n' by {
                if j < actual.len() {
                    assert(a2[j] == actual[j]);
                }
            }
        }
        lema_lineas_desde_sin_salto(t, i + 1, a2);
        assert(r == lineas_desde(t, i + 1, a2));
    }
}

/// No line of a text holds a line break.
pub(crate) proof fn lema_lineas_sin_salto(t: Seq<char>)
    ensures
        forall|k: int| 0 <= k < lineas(t).len() ==> sin_caracter(#[trigger] lineas(t)[k], '\n'),
{
    lema_lineas_desde_sin_salto(t, 0, seq![]);
}

/// The section a header opens is trimmed, and has no line break if the line
/// has none.
proof fn lema_seccion_bien_formada(l: Seq<char>)
    requires
        seccion_en_linea(l) is Some,
        sin_caracter(l, '\n'),
    ensures
        recorte(seccion_en_linea(l)->0) == seccion_en_linea(l)->0,
        sin_caracter(seccion_en_linea(l)->0, '\n'),
{
    let t = recorte(l);
    lema_recorte_dentro(l);
    assert(sin_caracter(t, '\n'));
    let m = t.subrange(1, t.len() - 1);
    assert(sin_caracter(m, '\n')) by {
        assert forall|j: int| 0 <= j < m.len() implies #[trigger] m[j] != '\n' by {
            assert(m[j] == t[j + 1]);
        }
    }
    lema_recorte_dentro(m);
    assert(sin_caracter(recorte(m), '\n'));
    lema_recorte_idempotente(m);
}

proof fn lema_asignaciones_bien_formadas(ls: Seq<Seq<char>>, i: int, sec: Seq<char>)
    requires
        forall|k: int| 0 <= k < ls.len() ==> sin_caracter(#[trigger] ls[k], '\n'),
        recorte(sec) == sec,
        sin_caracter(sec, '\n'),
    ensures
        forall|j: int|
            0 <= j < asignaciones_desde(ls, i, sec).len() ==> bien_formada(
                #[trigger] asignaciones_desde(ls, i, sec)[j],
            ),
    decreases ls.len() - i,
{
    if i >= ls.len() || i < 0 {
    } else {
        assert(sin_caracter(ls[i], '\n'));
        match seccion_en_linea(ls[i]) {
            Some(s) => {
                lema_seccion_bien_formada(ls[i]);
                lema_asignaciones_bien_formadas(ls, i + 1, s);
                assert(asignaciones_desde(ls, i, sec) == asignaciones_desde(ls, i + 1, s));
            },
            None => {
                lema_asignaciones_bien_formadas(ls, i + 1, sec);
                let resto = asignaciones_desde(ls, i + 1, sec);
                match clave_en_linea(ls[i]) {
                    Some(k) => {
                        let a = AsignacionV { seccion: sec, clave: k, valor: valor_en_linea(ls[i]) };
                        lema_linea_bien_formada(ls[i], sec);
                        let todas = asignaciones_desde(ls, i, sec);
                        assert(todas == seq![a] + resto);
                        assert forall|j: int| 0 <= j < todas.len() implies bien_formada(
                            #[trigger] todas[j],
                        ) by {
                            if j > 0 {
                                assert(todas[j] == resto[j - 1]);
                            } else {
                                assert(todas[0] == a);
                            }
                        }
                    },
                    None => {
                        assert(asignaciones_desde(ls, i, sec) == resto);
                    },
                }
            },
        }
    }
}

/// Every assignment of a text is well formed.
proof fn lema_texto_bien_formado(t: Seq<char>)
    ensures
        forall|j: int| 0 <= j < asignaciones(t).len() ==> bien_formada(#[trigger] asignaciones(t)[j]),
{
    lema_lineas_sin_salto(t);
    assert(recorte(Seq::<char>::empty()) =~= Seq::<char>::empty());
    lema_asignaciones_bien_formadas(lineas(t), 0, seq![]);
}

proof fn lema_seccion_tras_prefijo(ls: Seq<Seq<char>>, y: Seq<char>, t: int)
    requires
        0 <= t <= ls.len(),
    ensures
        seccion_tras(ls.push(y), t) == seccion_tras(ls, t),
    decreases t,
{
    if t > 0 {
        assert(ls.push(y)[t - 1] == ls[t - 1]);
        lema_seccion_tras_prefijo(ls, y, t - 1);
    }
}

/// The section in effect after one more line.
proof fn lema_seccion_tras_empujar(ls: Seq<Seq<char>>, y: Seq<char>)
    ensures
        seccion_tras(ls.push(y), ls.len() + 1int) == match seccion_en_linea(y) {
            Some(s) => s,
            None => seccion_tras(ls, ls.len() as int),
        },
{
    assert(ls.push(y)[ls.len() as int] == y);
    lema_seccion_tras_prefijo(ls, y, ls.len() as int);
}

/// The header of a trimmed, non-empty section opens that section.
proof fn lema_cabecera(sec: Seq<char>)
    requires
        sec.len() > 0,
        recorte(sec) == sec,
    ensures
        seccion_en_linea(seq!['['] + sec + seq![']']) == Some(sec),
{
    let h = seq!['['] + sec + seq![']'];
    assert(h[0] == '[');
    assert(h.last() == ']');
    lema_recortado(h);
    assert(h.subrange(1, h.len() - 1) =~= sec);
}

/// Putting the line of a well-formed assignment in its section adds exactly
/// that assignment.
#[verifier::spinoff_prover]
#[verifier::rlimit(40)]
proof fn lema_con_linea_exacta(ls: Seq<Seq<char>>, a: AsignacionV)
    requires
        bien_formada(a),
    ensures
        forall|e: AsignacionV|
            #[trigger] asignaciones_lineas(con_linea(ls, a.seccion, linea_de_asignacion(a))).contains(
                e,
            ) <==> (asignaciones_lineas(ls).contains(e) || e == a),
{
    let sec = a.seccion;
    let nueva = linea_de_asignacion(a);
    let vacia = Seq::<char>::empty();
    assert(seccion_tras(ls, 0) == vacia);
    lema_fin_desde_seccion(ls, sec, 0, vacia, None);
    match fin_de_seccion_en(ls, sec) {
        Some(d) => {
            lema_fin_desde_acotado(ls, sec, 0, vacia, None);
            lema_insertar_exacto(ls, d, nueva, 0, vacia);
        },
        None => {
            let ls1 = if ls.len() > 0 && recorte(ls.last()).len() > 0 {
                ls.push(seq![])
            } else {
                ls
            };
            assert(recorte(vacia) =~= vacia);
            assert(asignacion_de(vacia, seccion_tras(ls, ls.len() as int)) is None);
            if ls.len() > 0 && recorte(ls.last()).len() > 0 {
                assert(ls.push(vacia) =~= ls.insert(ls.len() as int, vacia));
                lema_insertar_exacto(ls, ls.len() as int, vacia, 0, vacia);
                lema_seccion_tras_empujar(ls, vacia);
            }
            assert(forall|e: AsignacionV| #[trigger] asignaciones_lineas(ls1).contains(e)
                <==> asignaciones_lineas(ls).contains(e));
            assert(seccion_tras(ls1, ls1.len() as int) == seccion_tras(ls, ls.len() as int));
            assert(seccion_tras(ls1, 0) == vacia);
            let cab = seq!['['] + sec + seq![']'];
            let ls2 = if sec.len() > 0 {
                ls1.push(cab)
            } else {
                ls1
            };
            if sec.len() > 0 {
                lema_cabecera(sec);
                assert(ls1.push(cab) =~= ls1.insert(ls1.len() as int, cab));
                lema_insertar_exacto(ls1, ls1.len() as int, cab, 0, vacia);
                lema_seccion_tras_empujar(ls1, cab);
                assert(seccion_tras(ls2, ls2.len() as int) == sec);
            } else {
                assert(sec =~= vacia);
                assert(seccion_tras(ls, ls.len() as int) == sec);
                assert(seccion_tras(ls2, ls2.len() as int) == sec);
            }
            assert(forall|e: AsignacionV| #[trigger] asignaciones_lineas(ls2).contains(e)
                <==> asignaciones_lineas(ls).contains(e));
            assert(seccion_tras(ls2, 0) == vacia);
            assert(ls2.push(nueva) =~= ls2.insert(ls2.len() as int, nueva));
            lema_insertar_exacto(ls2, ls2.len() as int, nueva, 0, vacia);
            assert(con_linea(ls, sec, nueva) == ls2.push(nueva));
        },
    }
}

/// The Windows line ending.
pub open spec fn crlf() -> Seq<char> {
    seq!['\r', '\n']
}

/// Whether no line of `ls` holds a line break, and none ends in a carriage
/// return unless the file `u` uses Windows line endings.
pub open spec fn lineas_escribibles(ls: Seq<Seq<char>>, u: Seq<char>) -> bool {
    forall|k: int|
        0 <= k < ls.len() ==> sin_caracter(#[trigger] ls[k], '\n') && (contiene(u, crlf())
            || ls[k].len() == 0 || ls[k].last() != '\r')
}

pub(crate) proof fn lema_lineas_desde_no_vacias(t: Seq<char>, i: int, actual: Seq<char>)
    requires
        0 <= i,
        i < t.len() || actual.len() > 0,
    ensures
        lineas_desde(t, i, actual).len() > 0,
    decreases t.len() - i,
{
    if i < t.len() && t[i] != '\n' {
        lema_lineas_desde_no_vacias(t, i + 1, actual.push(t[i]));
    }
}

/// A text that does not end in a line break ends in a line with something in
/// it.
proof fn lema_lineas_desde_ultima(t: Seq<char>, i: int, actual: Seq<char>)
    requires
        0 <= i <= t.len(),
        t.len() > 0,
        t.last() != '\n',
        i > 0 && t[i - 1] != '\n' ==> actual.len() > 0,
    ensures
        lineas_desde(t, i, actual).len() > 0,
        lineas_desde(t, i, actual).last().len() > 0,
    decreases t.len() - i,
{
    let r = lineas_desde(t, i, actual);
    if i == t.len() {
        assert(r == seq![actual]);
    } else if t[i] == '\n' {
        lema_lineas_desde_ultima(t, i + 1, seq![]);
        let resto = lineas_desde(t, i + 1, seq![]);
        assert(r == seq![sin_cr(actual)] + resto);
        assert(r.last() == resto.last());
    } else {
        lema_lineas_desde_ultima(t, i + 1, actual.push(t[i]));
    }
}

/// A text with a line break before its last character has at least two lines.
proof fn lema_lineas_desde_dos(t: Seq<char>, i: int, actual: Seq<char>, q: int)
    requires
        0 <= i <= q < t.len() - 1,
        t[q] == '\n',
        t.last() != '\n',
    ensures
        lineas_desde(t, i, actual).len() >= 2,
    decreases t.len() - i,
{
    let r = lineas_desde(t, i, actual);
    if t[i] == '\n' {
        lema_lineas_desde_no_vacias(t, i + 1, seq![]);
        assert(r == seq![sin_cr(actual)] + lineas_desde(t, i + 1, seq![]));
    } else {
        lema_lineas_desde_dos(t, i + 1, actual.push(t[i]), q);
    }
}

proof fn lema_lineas_desde_escribibles(t: Seq<char>, i: int, actual: Seq<char>)
    requires
        0 <= i <= t.len(),
        actual.len() <= i,
        actual == t.subrange(i - actual.len(), i),
        sin_caracter(actual, '\n'),
    ensures
        forall|k: int|
            0 <= k < lineas_desde(t, i, actual).len() ==> (#[trigger] lineas_desde(t, i, actual)[k].len()
                == 0 || lineas_desde(t, i, actual)[k].last() != '\r' || contiene(t, crlf()) || (
            t.len() > 0 && t.last() == '\r')),
    decreases t.len() - i,
{
    let r = lineas_desde(t, i, actual);
    if i == t.len() {
        if actual.len() > 0 {
            assert(r == seq![actual]);
            assert(actual.last() == t.last());
        } else {
            assert(r =~= Seq::<Seq<char>>::empty());
        }
    } else if t[i] == '\n' {
        assert(Seq::<char>::empty() =~= t.subrange(i + 1, i + 1));
        lema_lineas_desde_escribibles(t, i + 1, seq![]);
        let resto = lineas_desde(t, i + 1, seq![]);
        assert(r == seq![sin_cr(actual)] + resto);
        let l = sin_cr(actual);
        if l.len() > 0 && l.last() == '\r' {
            assert(actual.len() > 0 && actual.last() == '\r');
            assert(t[i - 1] == '\r');
            assert(t.subrange(i - 1, i - 1 + crlf().len()) =~= crlf());
            assert(contiene(t, crlf()));
        }
        assert forall|k: int| 0 <= k < r.len() implies (#[trigger] r[k].len() == 0 || r[k].last()
            != '\r' || contiene(t, crlf()) || (t.len() > 0 && t.last() == '\r')) by {
            if k > 0 {
                assert(r[k] == resto[k - 1]);
            }
        }
    } else {
        let a2 = actual.push(t[i]);
        assert(a2 =~= t.subrange(i + 1 - a2.len(), i + 1));
        assert(sin_caracter(a2, '\n')) by {
            assert forall|j: int| 0 <= j < a2.len() implies #[trigger] a2[j] != '\n' by {
                if j < actual.len() {
                    assert(a2[j] == actual[j]);
                }
            }
        }
        lema_lineas_desde_escribibles(t, i + 1, a2);
        assert(r == lineas_desde(t, i + 1, a2));
    }
}

/// What the lines of the user's file are like, as far as writing them back
/// goes.
pub(crate) proof fn lema_lineas_del_usuario(u: Seq<char>)
    requires
        contiene(u, crlf()) || u.len() == 0 || u.last() != '\r',
    ensures
        lineas_escribibles(lineas(u), u),
        !lleva_salto_final(u) ==> lineas(u).len() > 0 && lineas(u).last().len() > 0,
        contiene(u, crlf()) ==> lleva_salto_final(u) || lineas(u).len() >= 2,
        u.len() > 0 ==> lineas(u).len() > 0,
{
    let vacia = Seq::<char>::empty();
    lema_lineas_sin_salto(u);
    assert(vacia =~= u.subrange(0, 0));
    lema_lineas_desde_escribibles(u, 0, vacia);
    if !lleva_salto_final(u) {
        lema_lineas_desde_ultima(u, 0, vacia);
    }
    if u.len() > 0 {
        lema_lineas_desde_no_vacias(u, 0, vacia);
    }
    if contiene(u, crlf()) && !lleva_salto_final(u) {
        let p = choose|p: int| 0 <= p <= u.len() - 2 && #[trigger] u.subrange(p, p + 2) == crlf();
        assert(u.subrange(p, p + 2)[1] == u[p + 1]);
        lema_lineas_desde_dos(u, 0, vacia, p + 1);
    }
}

proof fn lema_lineas_desde_sin_salto_una(x: Seq<char>, i: int)
    requires
        sin_caracter(x, '\n'),
        x.len() > 0,
        0 <= i <= x.len(),
    ensures
        lineas_desde(x, i, x.take(i)) == seq![x],
    decreases x.len() - i,
{
    if i == x.len() {
        assert(x.take(i) =~= x);
    } else {
        assert(x.take(i).push(x[i]) =~= x.take(i + 1));
        lema_lineas_desde_sin_salto_una(x, i + 1);
    }
}

/// A non-empty text with no line break is one line.
pub(crate) proof fn lema_lineas_sin_salto_una(x: Seq<char>)
    requires
        sin_caracter(x, '\n'),
        x.len() > 0,
    ensures
        lineas(x) == seq![x],
{
    lema_lineas_desde_sin_salto_una(x, 0);
    assert(x.take(0) =~= Seq::<char>::empty());
}

/// Whether `term` is one of the two line endings.
pub open spec fn es_terminador(term: Seq<char>) -> bool {
    term == seq!['\n'] || term == crlf()
}

/// Whether the lines can be joined with `term` and read back as they are.
pub open spec fn se_leen_con(ls: Seq<Seq<char>>, term: Seq<char>) -> bool {
    forall|k: int|
        0 <= k < ls.len() ==> sin_caracter(#[trigger] ls[k], '\n') && (term == crlf() || ls[k].len()
            == 0 || ls[k].last() != '\r')
}

pub(crate) proof fn lema_linea_con_terminador(x: Seq<char>, term: Seq<char>)
    requires
        es_terminador(term),
        sin_caracter(x, '\n'),
        term == crlf() || x.len() == 0 || x.last() != '\r',
    ensures
        lineas(x + term) == seq![x],
{
    if term == crlf() {
        let y = x.push('\r');
        assert(x + term =~= y.push('\n'));
        assert(sin_caracter(y, '\n')) by {
            assert forall|j: int| 0 <= j < y.len() implies #[trigger] y[j] != '\n' by {
                if j < x.len() {
                    assert(y[j] == x[j]);
                }
            }
        }
        crate::texto::lema_lineas_una(y);
        assert(y.drop_last() =~= x);
    } else {
        assert(x + term =~= x.push('\n'));
        crate::texto::lema_lineas_una(x);
    }
}

/// Lines joined with a line ending after each read back as they were.
pub(crate) proof fn lema_lineas_unidas_con_final(ls: Seq<Seq<char>>, term: Seq<char>)
    requires
        ls.len() > 0,
        es_terminador(term),
        se_leen_con(ls, term),
    ensures
        lineas(unir(ls, term) + term) == ls,
    decreases ls.len(),
{
    let x = ls.last();
    assert(sin_caracter(ls[ls.len() - 1], '\n'));
    lema_linea_con_terminador(x, term);
    if ls.len() == 1 {
        assert(unir(ls, term) == ls[0]);
        assert(ls =~= seq![x]);
    } else {
        let prev = ls.drop_last();
        assert forall|k: int| 0 <= k < prev.len() implies sin_caracter(#[trigger] prev[k], '\n') && (
        term == crlf() || prev[k].len() == 0 || prev[k].last() != '\r') by {
            assert(prev[k] == ls[k]);
        }
        lema_lineas_unidas_con_final(prev, term);
        let p = unir(prev, term) + term;
        assert(unir(ls, term) + term =~= p + (x + term));
        assert(p.last() == '\n') by {
            assert(p.last() == term.last());
        }
        crate::texto::lema_lineas_concatenadas(p, x + term);
        assert(prev + seq![x] =~= ls);
    }
}

/// Lines joined with a line ending between them read back as they were when
/// the last one has something in it.
pub(crate) proof fn lema_lineas_unidas(ls: Seq<Seq<char>>, term: Seq<char>)
    requires
        ls.len() > 0,
        ls.last().len() > 0,
        es_terminador(term),
        se_leen_con(ls, term),
    ensures
        lineas(unir(ls, term)) == ls,
{
    let x = ls.last();
    assert(sin_caracter(ls[ls.len() - 1], '\n'));
    lema_lineas_sin_salto_una(x);
    if ls.len() == 1 {
        assert(ls =~= seq![x]);
    } else {
        let prev = ls.drop_last();
        assert forall|k: int| 0 <= k < prev.len() implies sin_caracter(#[trigger] prev[k], '\n') && (
        term == crlf() || prev[k].len() == 0 || prev[k].last() != '\r') by {
            assert(prev[k] == ls[k]);
        }
        lema_lineas_unidas_con_final(prev, term);
        let p = unir(prev, term) + term;
        assert(unir(ls, term) =~= p + x);
        assert(p.last() == '\n') by {
            assert(p.last() == term.last());
        }
        crate::texto::lema_lineas_concatenadas(p, x);
        assert(prev + seq![x] =~= ls);
    }
}

/// Whether no carriage return comes right before a line break.
pub open spec fn sin_crlf(s: Seq<char>) -> bool {
    forall|i: int| 0 <= i < s.len() - 1 ==> !(#[trigger] s[i] == '\r' && s[i + 1] == '\n')
}

proof fn lema_sin_crlf_no_contiene(s: Seq<char>)
    requires
        sin_crlf(s),
    ensures
        !contiene(s, crlf()),
{
    if contiene(s, crlf()) {
        let i = choose|i: int| 0 <= i <= s.len() - crlf().len() && #[trigger] s.subrange(i, i + crlf().len()) == crlf();
        assert(s.subrange(i, i + 2)[0] == s[i]);
        assert(s.subrange(i, i + 2)[1] == s[i + 1]);
    }
}

/// Lines that do not end in a carriage return, joined with bare line breaks,
/// hold no Windows line ending; and the text does not end in a carriage
/// return either.
proof fn lema_unir_sin_crlf(ls: Seq<Seq<char>>)
    requires
        se_leen_con(ls, seq!['\n']),
    ensures
        sin_crlf(unir(ls, seq!['\n'])),
        unir(ls, seq!['\n']).len() > 0 ==> unir(ls, seq!['\n']).last() != '\r',
    decreases ls.len(),
{
    let sep = seq!['\n'];
    if ls.len() == 0 {
    } else if ls.len() == 1 {
        assert(sin_caracter(ls[0], '\n'));
        assert(unir(ls, sep) == ls[0]);
    } else {
        let prev = ls.drop_last();
        let x = ls.last();
        assert(sin_caracter(ls[ls.len() - 1], '\n'));
        assert forall|k: int| 0 <= k < prev.len() implies sin_caracter(#[trigger] prev[k], '\n') && (
        sep == crlf() || prev[k].len() == 0 || prev[k].last() != '\r') by {
            assert(prev[k] == ls[k]);
        }
        lema_unir_sin_crlf(prev);
        let a = unir(prev, sep);
        let r = unir(ls, sep);
        assert(r =~= a + sep + x);
        assert forall|i: int| 0 <= i < r.len() - 1 implies !(#[trigger] r[i] == '\r' && r[i + 1]
            == '\n') by {
            if i < a.len() - 1 {
                assert(r[i] == a[i] && r[i + 1] == a[i + 1]);
            } else if i == a.len() - 1 {
                assert(r[i] == a.last());
            } else if i == a.len() {
                assert(r[i] == '\n');
            } else {
                assert(r[i] == x[i - a.len() - 1]);
                assert(r[i + 1] == x[i - a.len()]);
            }
        }
        if x.len() > 0 {
            assert(r.last() == x.last());
        } else {
            assert(r.last() == '\n');
        }
    }
}

/// The last character of lines joined is that of the last line, when it has
/// one.
proof fn lema_unir_ultimo(ls: Seq<Seq<char>>, sep: Seq<char>)
    requires
        ls.len() > 0,
        ls.last().len() > 0,
    ensures
        unir(ls, sep).len() > 0,
        unir(ls, sep).last() == ls.last().last(),
{
    if ls.len() > 1 {
        assert(unir(ls, sep) == unir(ls.drop_last(), sep) + sep + ls.last());
    }
}

/// A file written back from lines that can be written reads back as those
/// lines, with the same line ending and final line break as the file it came
/// from; so writing it back once more gives the same text.
#[verifier::spinoff_prover]
#[verifier::rlimit(40)]
proof fn lema_rearmar_estable(ls: Seq<Seq<char>>, u: Seq<char>)
    requires
        ls.len() > 0,
        lineas_escribibles(ls, u),
        !lleva_salto_final(u) ==> ls.last().len() > 0,
        contiene(u, crlf()) ==> lleva_salto_final(u) || ls.len() >= 2,
    ensures
        lineas(rearmar(ls, u)) == ls,
        terminador(rearmar(ls, u)) == terminador(u),
        lleva_salto_final(rearmar(ls, u)) == lleva_salto_final(u),
        rearmar(lineas(rearmar(ls, u)), rearmar(ls, u)) == rearmar(ls, u),
{
    let term = terminador(u);
    let t = rearmar(ls, u);
    let j = unir(ls, term);
    assert(crlf() == seq!['\r', '\n']);
    assert(es_terminador(term));
    assert(se_leen_con(ls, term)) by {
        assert forall|k: int| 0 <= k < ls.len() implies sin_caracter(#[trigger] ls[k], '\n') && (term
            == crlf() || ls[k].len() == 0 || ls[k].last() != '\r') by {
            assert(sin_caracter(ls[k], '\n'));
        }
    }
    assert(sin_caracter(ls[ls.len() - 1], '\n'));
    if lleva_salto_final(u) {
        assert(t == j + term);
        lema_lineas_unidas_con_final(ls, term);
        assert(t.last() == '\n');
    } else {
        assert(t =~= j);
        lema_lineas_unidas(ls, term);
        lema_unir_ultimo(ls, term);
        assert(t.last() != '\n');
    }
    if contiene(u, crlf()) {
        assert(term == crlf());
        if lleva_salto_final(u) {
            assert(t.subrange(j.len() as int, (j.len() + crlf().len()) as int) =~= crlf());
        } else {
            let a = unir(ls.drop_last(), term);
            assert(j == a + term + ls.last());
            assert(t.subrange(a.len() as int, (a.len() + crlf().len()) as int) =~= crlf());
        }
        assert(contiene(t, crlf()));
    } else {
        assert(term == seq!['\n']);
        lema_unir_sin_crlf(ls);
        if lleva_salto_final(u) {
            assert forall|i: int| 0 <= i < t.len() - 1 implies !(#[trigger] t[i] == '\r' && t[i + 1]
                == '\n') by {
                if i < j.len() - 1 {
                    assert(t[i] == j[i] && t[i + 1] == j[i + 1]);
                } else {
                    assert(t[i] == j.last());
                }
            }
        }
        lema_sin_crlf_no_contiene(t);
    }
}

/// Whether a shortcut key that appears more than once in a section of the
/// package (a `binding_*` key, or its `always_`/`repeatable_` form) comes,
/// each time, before every `command_*` half of its label in that section.
pub open spec fn repetidos_antes_del_comando(ps: Seq<AsignacionV>) -> bool {
    forall|i: int, j: int, c: int|
        #![trigger ps[i], ps[j], ps[c]]
        0 <= i < j < ps.len() && 0 <= c < ps.len() && sufijo_atajo(ps[i].clave) is Some
            && ps[c].seccion == ps[i].seccion && ps[c].clave == "command_"@ + sufijo_atajo(ps[i].clave)->0
            && ps[i].seccion == ps[j].seccion && ps[i].clave == ps[j].clave ==> j < c
}

/// The shortcuts of some assignments are those of each of them.
#[verifier::spinoff_prover]
#[verifier::rlimit(40)]
proof fn lema_atajos_todos(xs: Seq<AsignacionV>)
    ensures
        forall|c: Atajo|
            #[trigger] atajos_todos(xs).contains(c) <==> exists|x: AsignacionV|
                xs.contains(x) && #[trigger] atajos(x).contains(c),
    decreases xs.len(),
{
    if xs.len() > 0 {
        let prev = xs.drop_last();
        let y = xs.last();
        lema_atajos_todos(prev);
        let t = atajos_todos(xs);
        assert(t == atajos_todos(prev) + atajos(y));
        assert forall|c: Atajo| #[trigger] t.contains(c) <==> exists|x: AsignacionV|
            xs.contains(x) && #[trigger] atajos(x).contains(c) by {
            let a = atajos_todos(prev);
            if t.contains(c) {
                let q = choose|q: int| 0 <= q < t.len() && t[q] == c;
                if q < a.len() {
                    assert(a[q] == c);
                    assert(a.contains(c));
                    let x = choose|x: AsignacionV| prev.contains(x) && #[trigger] atajos(x).contains(c);
                    let w = choose|w: int| 0 <= w < prev.len() && prev[w] == x;
                    assert(xs[w] == x);
                    assert(xs.contains(x));
                } else {
                    assert(atajos(y)[q - a.len()] == c);
                    assert(atajos(y).contains(c));
                    assert(xs[xs.len() - 1] == y);
                    assert(xs.contains(y));
                }
            }
            if exists|x: AsignacionV| xs.contains(x) && #[trigger] atajos(x).contains(c) {
                let x = choose|x: AsignacionV| xs.contains(x) && #[trigger] atajos(x).contains(c);
                let w = choose|w: int| 0 <= w < xs.len() && xs[w] == x;
                if w < prev.len() {
                    assert(prev[w] == x);
                    assert(prev.contains(x));
                    assert(a.contains(c));
                    let q = choose|q: int| 0 <= q < a.len() && a[q] == c;
                    assert(t[q] == c);
                } else {
                    assert(x == y);
                    let q = choose|q: int| 0 <= q < atajos(y).len() && atajos(y)[q] == c;
                    assert(t[a.len() + q] == c);
                }
            }
        }
    } else {
        assert forall|c: Atajo| #[trigger] atajos_todos(xs).contains(c) <==> exists|x: AsignacionV|
            xs.contains(x) && #[trigger] atajos(x).contains(c) by {
            if exists|x: AsignacionV| xs.contains(x) && #[trigger] atajos(x).contains(c) {
                let x = choose|x: AsignacionV| xs.contains(x) && #[trigger] atajos(x).contains(c);
                assert(xs.contains(x));
            }
        }
    }
}

/// What the merge keeps as it goes, besides `mantiene`: the assignments of
/// its lines are exactly the user's and those added from the package; each
/// shortcut bound comes from one of them; and the lines can still be written
/// back as the user's file was.
pub open spec fn invariante(e: EstadoFusion, u: Seq<char>, ps: Seq<AsignacionV>) -> bool {
    &&& forall|x: AsignacionV|
        #[trigger] asignaciones_lineas(e.lineas).contains(x) ==> (asignaciones(u).contains(x) || (
        ps.contains(x) && e.agregadas.contains((x.seccion, x.clave))))
    &&& forall|c: Atajo|
        #[trigger] e.ligados.contains(c) ==> exists|x: AsignacionV|
            asignaciones_lineas(e.lineas).contains(x) && #[trigger] atajos(x).contains(c)
    &&& lineas_escribibles(e.lineas, u)
    &&& !lleva_salto_final(u) ==> e.lineas.len() > 0 && e.lineas.last().len() > 0
    &&& contiene(u, crlf()) ==> lleva_salto_final(u) || e.lineas.len() >= 2
    &&& u.len() > 0 ==> e.lineas.len() > 0
}

/// Putting the line of a well-formed assignment in its section keeps the
/// lines writable, and the last one with something in it.
proof fn lema_con_linea_escribible(ls: Seq<Seq<char>>, a: AsignacionV, u: Seq<char>)
    requires
        bien_formada(a),
        lineas_escribibles(ls, u),
    ensures
        lineas_escribibles(con_linea(ls, a.seccion, linea_de_asignacion(a)), u),
        con_linea(ls, a.seccion, linea_de_asignacion(a)).len() > ls.len(),
        (ls.len() == 0 || ls.last().len() > 0) ==> con_linea(
            ls,
            a.seccion,
            linea_de_asignacion(a),
        ).last().len() > 0,
{
    let sec = a.seccion;
    let nueva = linea_de_asignacion(a);
    let r = con_linea(ls, sec, nueva);
    match fin_de_seccion_en(ls, sec) {
        Some(d) => {
            lema_fin_desde_acotado(ls, sec, 0, seq![], None);
            assert(r == ls.insert(d, nueva));
            assert forall|k: int| 0 <= k < r.len() implies sin_caracter(#[trigger] r[k], '\n') && (
            contiene(u, crlf()) || r[k].len() == 0 || r[k].last() != '\r') by {
                if k < d {
                    assert(r[k] == ls[k]);
                } else if k > d {
                    assert(r[k] == ls[k - 1]);
                }
            }
            if d < ls.len() {
                assert(r.last() == ls.last());
            }
        },
        None => {
            let ls1 = if ls.len() > 0 && recorte(ls.last()).len() > 0 {
                ls.push(seq![])
            } else {
                ls
            };
            let cab = seq!['['] + sec + seq![']'];
            let ls2 = if sec.len() > 0 {
                ls1.push(cab)
            } else {
                ls1
            };
            assert(r == ls2.push(nueva));
            assert(sin_caracter(cab, '\n')) by {
                assert forall|j: int| 0 <= j < cab.len() implies #[trigger] cab[j] != '\n' by {
                    if 0 < j < cab.len() - 1 {
                        assert(cab[j] == sec[j - 1]);
                    }
                }
            }
            assert(cab.last() == ']');
            assert forall|k: int| 0 <= k < r.len() implies sin_caracter(#[trigger] r[k], '\n') && (
            contiene(u, crlf()) || r[k].len() == 0 || r[k].last() != '\r') by {
                if k < ls.len() {
                    assert(r[k] == ls[k]);
                } else if k == r.len() - 1 {
                    assert(r[k] == nueva);
                } else if k < ls1.len() {
                    assert(r[k] == Seq::<char>::empty());
                } else {
                    assert(r[k] == cab);
                }
            }
        },
    }
}

#[verifier::spinoff_prover]
#[verifier::rlimit(40)]
proof fn lema_paso_invariante(
    e: EstadoFusion,
    u: Seq<char>,
    ps: Seq<AsignacionV>,
    i: int,
    ofrecida: spec_fn(Seq<char>, Seq<char>) -> bool,
    paq: Seq<AsignacionV>,
)
    requires
        0 <= i < ps.len(),
        bien_formada(ps[i]),
        invariante(e, u, ps),
    ensures
        invariante(paso_fusion(e, ps[i], ofrecida, paq), u, ps),
{
    let a = ps[i];
    let e1 = paso_fusion(e, a, ofrecida, paq);
    if e1 != e {
        let ua = asignaciones(u);
        assert(e1.lineas == con_linea(e.lineas, a.seccion, linea_de_asignacion(a)));
        assert(e1.ligados == e.ligados + atajos(a));
        assert(e1.agregadas == e.agregadas.push((a.seccion, a.clave)));
        lema_con_linea_exacta(e.lineas, a);
        lema_con_linea_escribible(e.lineas, a, u);
        let antes = asignaciones_lineas(e.lineas);
        let ahora = asignaciones_lineas(e1.lineas);
        assert forall|x: AsignacionV| #[trigger] ahora.contains(x) implies (ua.contains(x) || (
        ps.contains(x) && e1.agregadas.contains((x.seccion, x.clave)))) by {
            let kx = (x.seccion, x.clave);
            if e.agregadas.contains(kx) {
                let q = choose|q: int| 0 <= q < e.agregadas.len() && e.agregadas[q] == kx;
                assert(e1.agregadas[q] == kx);
            }
            if x == a {
                assert(ps[i] == a);
                assert(ps.contains(x));
                assert(e1.agregadas[e.agregadas.len() as int] == kx);
            }
        }
        assert forall|c: Atajo| #[trigger] e1.ligados.contains(c) implies exists|x: AsignacionV|
            ahora.contains(x) && #[trigger] atajos(x).contains(c) by {
            let q = choose|q: int| 0 <= q < e1.ligados.len() && e1.ligados[q] == c;
            if q < e.ligados.len() {
                assert(e.ligados[q] == c);
                assert(e.ligados.contains(c));
                let x = choose|x: AsignacionV| antes.contains(x) && #[trigger] atajos(x).contains(c);
                assert(ahora.contains(x));
            } else {
                assert(atajos(a)[q - e.ligados.len()] == c);
                assert(atajos(a).contains(c));
                assert(ahora.contains(a));
            }
        }
    }
}

proof fn lema_fusion_desde_invariante(
    e: EstadoFusion,
    u: Seq<char>,
    ps: Seq<AsignacionV>,
    i: int,
    ofrecida: spec_fn(Seq<char>, Seq<char>) -> bool,
    paq: Seq<AsignacionV>,
)
    requires
        0 <= i,
        forall|j: int| 0 <= j < ps.len() ==> bien_formada(#[trigger] ps[j]),
        invariante(e, u, ps),
    ensures
        invariante(fusion_desde(ps, i, e, ofrecida, paq), u, ps),
    decreases ps.len() - i,
{
    if i < ps.len() {
        lema_paso_invariante(e, u, ps, i, ofrecida, paq);
        lema_fusion_desde_invariante(
            paso_fusion(e, ps[i], ofrecida, paq),
            u,
            ps,
            i + 1,
            ofrecida,
            paq,
        );
    }
}

/// Whether a merge at this state leaves assignment `a` out: its key is there,
/// it was offered, it binds a shortcut already bound, or it is the
/// `command_*` half of a skipped binding.
pub open spec fn quieta(
    a: AsignacionV,
    ls: Seq<Seq<char>>,
    ligados: Seq<Atajo>,
    ofrecida: spec_fn(Seq<char>, Seq<char>) -> bool,
    paq: Seq<AsignacionV>,
) -> bool {
    ||| tiene_en(asignaciones_lineas(ls), a.seccion, a.clave)
    ||| ofrecida(a.seccion, a.clave)
    ||| choca(atajos(a), ligados)
    ||| (crate::texto::empieza(a.clave, "command_"@) && suelta(
        paq,
        ls,
        ligados,
        a.seccion,
        a.clave.skip("command_"@.len() as int),
    ))
}

/// A binding of the package left out for colliding stays out for the rest of
/// the merge: what it collides with stays bound, and no other assignment of
/// the package has its key.
#[verifier::spinoff_prover]
#[verifier::rlimit(40)]
proof fn lema_no_entra(
    ps: Seq<AsignacionV>,
    i: int,
    e: EstadoFusion,
    ofrecida: spec_fn(Seq<char>, Seq<char>) -> bool,
    b: int,
)
    requires
        0 <= i,
        0 <= b < ps.len(),
        forall|j: int| 0 <= j < ps.len() ==> bien_formada(#[trigger] ps[j]),
        forall|j: int|
            i <= j < ps.len() && j != b ==> !(#[trigger] ps[j].seccion == ps[b].seccion && ps[j].clave
                == ps[b].clave),
        choca(atajos(ps[b]), e.ligados),
        !tiene_en(asignaciones_lineas(e.lineas), ps[b].seccion, ps[b].clave),
    ensures
        choca(atajos(ps[b]), fusion_desde(ps, i, e, ofrecida, ps).ligados),
        !tiene_en(
            asignaciones_lineas(fusion_desde(ps, i, e, ofrecida, ps).lineas),
            ps[b].seccion,
            ps[b].clave,
        ),
    decreases ps.len() - i,
{
    if i < ps.len() {
        let x = ps[i];
        let e1 = paso_fusion(e, x, ofrecida, ps);
        if e1 != e {
            assert(!choca(atajos(x), e.ligados));
            assert(i != b);
            assert(!(ps[i].seccion == ps[b].seccion && ps[i].clave == ps[b].clave));
            assert(e1.lineas == con_linea(e.lineas, x.seccion, linea_de_asignacion(x)));
            assert(e1.ligados == e.ligados + atajos(x));
            lema_con_linea_exacta(e.lineas, x);
            let antes = asignaciones_lineas(e.lineas);
            let ahora = asignaciones_lineas(e1.lineas);
            if tiene_en(ahora, ps[b].seccion, ps[b].clave) {
                let w = choose|w: int|
                    0 <= w < ahora.len() && #[trigger] ahora[w].seccion == ps[b].seccion && ahora[w].clave
                        == ps[b].clave;
                assert(ahora.contains(ahora[w]));
                assert(antes.contains(ahora[w]));
                let v = choose|v: int| 0 <= v < antes.len() && antes[v] == ahora[w];
                assert(antes[v].seccion == ps[b].seccion && antes[v].clave == ps[b].clave);
            }
            let q = choose|q: int| 0 <= q < atajos(ps[b]).len() && e.ligados.contains(#[trigger] atajos(ps[b])[q]);
            let z = choose|z: int| 0 <= z < e.ligados.len() && e.ligados[z] == atajos(ps[b])[q];
            assert(e1.ligados[z] == atajos(ps[b])[q]);
            assert(e1.ligados.contains(atajos(ps[b])[q]));
        }
        lema_no_entra(ps, i + 1, e1, ofrecida, b);
    }
}

/// After a merge, every assignment of the package is one a merge at the final
/// state would leave out: it was left out, or it was added and is there.
#[verifier::spinoff_prover]
#[verifier::rlimit(40)]
proof fn lema_razones(
    ps: Seq<AsignacionV>,
    i: int,
    e: EstadoFusion,
    ofrecida: spec_fn(Seq<char>, Seq<char>) -> bool,
    paq: Seq<AsignacionV>,
)
    requires
        0 <= i,
        forall|j: int| 0 <= j < ps.len() ==> bien_formada(#[trigger] ps[j]),
        repetidos_antes_del_comando(ps),
        paq == ps,
    ensures
        forall|j: int|
            i <= j < ps.len() ==> quieta(
                #[trigger] ps[j],
                fusion_desde(ps, i, e, ofrecida, paq).lineas,
                fusion_desde(ps, i, e, ofrecida, paq).ligados,
                ofrecida,
                paq,
            ),
        forall|x: AsignacionV|
            asignaciones_lineas(e.lineas).contains(x) ==> #[trigger] asignaciones_lineas(
                fusion_desde(ps, i, e, ofrecida, paq).lineas,
            ).contains(x),
        forall|c: Atajo|
            e.ligados.contains(c) ==> #[trigger] fusion_desde(ps, i, e, ofrecida, paq).ligados.contains(
                c,
            ),
    decreases ps.len() - i,
{
    if i < ps.len() {
        let a = ps[i];
        let e1 = paso_fusion(e, a, ofrecida, paq);
        let f = fusion_desde(ps, i, e, ofrecida, paq);
        assert(f == fusion_desde(ps, i + 1, e1, ofrecida, paq));
        lema_razones(ps, i + 1, e1, ofrecida, paq);
        let fa = asignaciones_lineas(f.lineas);
        if quieta(a, e.lineas, e.ligados, ofrecida, paq) {
            assert(e1 == e);
            if tiene_en(asignaciones_lineas(e.lineas), a.seccion, a.clave) {
                let q = choose|q: int|
                    0 <= q < asignaciones_lineas(e.lineas).len() && #[trigger] asignaciones_lineas(
                        e.lineas,
                    )[q].seccion == a.seccion && asignaciones_lineas(e.lineas)[q].clave == a.clave;
                let x = asignaciones_lineas(e.lineas)[q];
                assert(asignaciones_lineas(e.lineas).contains(x));
                assert(fa.contains(x));
                let w = choose|w: int| 0 <= w < fa.len() && fa[w] == x;
                assert(fa[w].seccion == a.seccion && fa[w].clave == a.clave);
            }
            if choca(atajos(a), e.ligados) {
                let q = choose|q: int| 0 <= q < atajos(a).len() && e.ligados.contains(#[trigger] atajos(a)[q]);
                assert(f.ligados.contains(atajos(a)[q]));
            }
            let suf = a.clave.skip("command_"@.len() as int);
            if crate::texto::empieza(a.clave, "command_"@) && suelta(paq, e.lineas, e.ligados, a.seccion, suf) {
                let b = choose|b: int|
                    0 <= b < paq.len() && #[trigger] paq[b].seccion == a.seccion && sufijo_atajo(
                        paq[b].clave,
                    ) == Some(suf) && choca(atajos(paq[b]), e.ligados) && !tiene_en(
                        asignaciones_lineas(e.lineas),
                        paq[b].seccion,
                        paq[b].clave,
                    );
                assert forall|j: int|
                    i <= j < ps.len() && j != b implies !(#[trigger] ps[j].seccion == ps[b].seccion
                        && ps[j].clave == ps[b].clave) by {
                    let ck = "command_"@ + suf;
                    assert(a.clave.take("command_"@.len() as int) =~= "command_"@);
                    assert(a.clave =~= a.clave.take("command_"@.len() as int) + suf);
                    assert(a.clave =~= ck);
                    assert(ps[i] == a);
                    if ps[j].seccion == ps[b].seccion && ps[j].clave == ps[b].clave {
                        if j < b {
                            assert(ps[i].seccion == ps[j].seccion && ps[i].clave == "command_"@ + sufijo_atajo(ps[j].clave)->0);
                            assert(b < i);
                        } else {
                            assert(ps[i].seccion == ps[b].seccion && ps[i].clave == "command_"@ + sufijo_atajo(ps[b].clave)->0);
                            assert(j < i);
                        }
                    }
                }
                lema_no_entra(ps, i, e, ofrecida, b);
                assert(suelta(paq, f.lineas, f.ligados, a.seccion, suf));
            }
        } else {
            assert(bien_formada(a));
            assert(e1.lineas == con_linea(e.lineas, a.seccion, linea_de_asignacion(a)));
            assert(e1.ligados == e.ligados + atajos(a));
            lema_con_linea_exacta(e.lineas, a);
            assert(asignaciones_lineas(e1.lineas).contains(a));
            assert(fa.contains(a));
            let w = choose|w: int| 0 <= w < fa.len() && fa[w] == a;
            assert(fa[w].seccion == a.seccion && fa[w].clave == a.clave);
            assert(tiene_en(fa, a.seccion, a.clave));
            assert forall|c: Atajo| e.ligados.contains(c) implies #[trigger] e1.ligados.contains(c) by {
                let q = choose|q: int| 0 <= q < e.ligados.len() && e.ligados[q] == c;
                assert(e1.ligados[q] == c);
            }
        }
        assert(quieta(ps[i], f.lineas, f.ligados, ofrecida, paq));
    }
}

/// A merge that leaves every assignment out changes nothing.
proof fn lema_fusion_desde_quieta(
    ps: Seq<AsignacionV>,
    i: int,
    e: EstadoFusion,
    ofrecida: spec_fn(Seq<char>, Seq<char>) -> bool,
    paq: Seq<AsignacionV>,
)
    requires
        0 <= i,
        forall|j: int| i <= j < ps.len() ==> quieta(#[trigger] ps[j], e.lineas, e.ligados, ofrecida, paq),
    ensures
        fusion_desde(ps, i, e, ofrecida, paq) == e,
    decreases ps.len() - i,
{
    if i < ps.len() {
        assert(quieta(ps[i], e.lineas, e.ligados, ofrecida, paq));
        assert(paso_fusion(e, ps[i], ofrecida, paq) == e);
        lema_fusion_desde_quieta(ps, i + 1, e, ofrecida, paq);
    }
}


proof fn lema_invariante_inicial(u: Seq<char>, ps: Seq<AsignacionV>)
    requires
        contiene(u, crlf()) || u.len() == 0 || u.last() != '\r',
    ensures
        invariante(inicio_fusion(u), u, ps),
{
    let e0 = inicio_fusion(u);
    let ua = asignaciones(u);
    lema_lineas_del_usuario(u);
    lema_atajos_todos(ua);
    assert forall|x: AsignacionV| #[trigger] asignaciones_lineas(e0.lineas).contains(x) <==> (
    ua.contains(x) || (ps.contains(x) && e0.agregadas.contains((x.seccion, x.clave)))) by {
        if e0.agregadas.contains((x.seccion, x.clave)) {
            let q = choose|q: int| 0 <= q < e0.agregadas.len() && e0.agregadas[q] == (x.seccion, x.clave);
        }
    }
    assert forall|c: Atajo| #[trigger] e0.ligados.contains(c) implies exists|x: AsignacionV|
        asignaciones_lineas(e0.lineas).contains(x) && #[trigger] atajos(x).contains(c) by {
        assert(atajos_todos(ua).contains(c));
    }
}

/// Merging a second time with the same package adds nothing and leaves the
/// text as the first merge left it, even when the record of what was offered
/// has grown in between. This runs at every login: otherwise the file would
/// grow at each one.
///
/// Two kinds of file are left out, on which it does not hold. A package that
/// binds the same shortcut key twice in a section, with a `command_*` half of
/// its label before the second of them: the half, skipped the first time for
/// a binding that clashes, comes in the second time, once the other binding
/// of that key has been added. And a user's file without Windows line endings
/// that ends in a lone carriage return: the line that ends in it gets a line
/// break after it, and the file then reads as one with Windows line endings.
#[verifier::spinoff_prover]
#[verifier::rlimit(40)]
pub proof fn lema_fusionar_dos_veces(
    usuario: Seq<char>,
    paquete: Seq<char>,
    ofrecida: spec_fn(Seq<char>, Seq<char>) -> bool,
    despues: spec_fn(Seq<char>, Seq<char>) -> bool,
)
    requires
        repetidos_antes_del_comando(asignaciones(paquete)),
        contiene(usuario, crlf()) || usuario.len() == 0 || usuario.last() != '\r',
        forall|s: Seq<char>, k: Seq<char>| #[trigger] ofrecida(s, k) ==> despues(s, k),
    ensures
        fusion(fusion(usuario, paquete, ofrecida).0, paquete, despues) == (
            fusion(usuario, paquete, ofrecida).0,
            Seq::<(Seq<char>, Seq<char>)>::empty(),
        ),
{
    let ua = asignaciones(usuario);
    let pa = asignaciones(paquete);
    let ligados0 = atajos_todos(ua);
    let paq = pa;
    let e0 = inicio_fusion(usuario);
    let f = fin_fusion(usuario, paquete, ofrecida);
    assert(f == fusion_desde(pa, 0, e0, ofrecida, paq));
    lema_texto_bien_formado(paquete);
    assert forall|j: int| 0 <= j < pa.len() implies no_abre(#[trigger] pa[j]) by {
        assert(bien_formada(pa[j]));
    }
    // The first merge: what it keeps, and why each assignment is left out at
    // its end.
    lema_invariante_inicial(usuario, pa);
    lema_fusion_desde_invariante(e0, usuario, pa, 0, ofrecida, paq);
    assert(mantiene(e0, ua, ligados0, pa));
    lema_fusion_desde_mantiene(e0, ua, ligados0, pa, 0, ofrecida, paq);
    lema_razones(pa, 0, e0, ofrecida, paq);
    let t1 = fusion(usuario, paquete, ofrecida).0;
    assert(t1 == rearmar(f.lineas, usuario));
    // The text it writes reads back as its lines, and writing those back
    // gives the same text.
    let l2 = lineas(t1);
    if f.lineas.len() > 0 {
        lema_rearmar_estable(f.lineas, usuario);
        assert(l2 == f.lineas);
    } else {
        assert(usuario.len() == 0);
        assert(terminador(usuario) == seq!['\n']);
        assert(t1 =~= seq!['\n']);
        let vacia = Seq::<char>::empty();
        crate::texto::lema_lineas_una(vacia);
        assert(vacia.push('\n') =~= t1);
        assert(l2 == seq![vacia]);
        assert(recorte(vacia) =~= vacia);
        assert(l2[0] == vacia);
        assert(seccion_en_linea(vacia) is None);
        assert(clave_en_linea(vacia) is None);
        assert(asignaciones_desde(l2, 1, vacia) =~= Seq::<AsignacionV>::empty());
        assert(asignaciones_desde(l2, 0, vacia) == asignaciones_desde(l2, 1, vacia));
        assert(asignaciones_lineas(l2) =~= Seq::<AsignacionV>::empty());
        assert(asignaciones_lineas(f.lineas) =~= Seq::<AsignacionV>::empty());
        assert(!contiene(t1, crlf()));
        assert(terminador(t1) == seq!['\n']);
        assert(unir(l2, seq!['\n']) == vacia);
        assert(rearmar(l2, t1) =~= t1);
    }
    assert(rearmar(l2, t1) == t1);
    let a2 = asignaciones(t1);
    assert(a2 == asignaciones_lineas(l2));
    assert(forall|x: AsignacionV| #[trigger] a2.contains(x) <==> asignaciones_lineas(f.lineas).contains(x));
    // The second merge starts where the first ended.
    let ligados2 = atajos_todos(a2);
    let e2 = inicio_fusion(t1);
    lema_atajos_todos(a2);
    assert forall|c: Atajo| f.ligados.contains(c) implies #[trigger] ligados2.contains(c) by {
        let x = choose|x: AsignacionV| asignaciones_lineas(f.lineas).contains(x) && #[trigger] atajos(x).contains(c);
        assert(a2.contains(x));
    }
    assert forall|j: int| 0 <= j < pa.len() implies quieta(#[trigger] pa[j], e2.lineas, e2.ligados, despues, pa) by {
        let a = pa[j];
        assert(quieta(a, f.lineas, f.ligados, ofrecida, paq));
        if tiene_en(asignaciones_lineas(f.lineas), a.seccion, a.clave) {
            let fa = asignaciones_lineas(f.lineas);
            let w = choose|w: int| 0 <= w < fa.len() && #[trigger] fa[w].seccion == a.seccion && fa[w].clave == a.clave;
            let x = fa[w];
            assert(fa.contains(x));
            assert(a2.contains(x));
            let v = choose|v: int| 0 <= v < a2.len() && a2[v] == x;
            assert(a2[v].seccion == a.seccion && a2[v].clave == a.clave);
        } else if ofrecida(a.seccion, a.clave) {
            assert(despues(a.seccion, a.clave));
        } else if choca(atajos(a), f.ligados) {
            let q = choose|q: int| 0 <= q < atajos(a).len() && f.ligados.contains(#[trigger] atajos(a)[q]);
            assert(ligados2.contains(atajos(a)[q]));
        } else {
            let suf = a.clave.skip("command_"@.len() as int);
            let b = choose|b: int|
                0 <= b < pa.len() && #[trigger] pa[b].seccion == a.seccion && sufijo_atajo(pa[b].clave)
                    == Some(suf) && choca(atajos(pa[b]), f.ligados) && !tiene_en(
                    asignaciones_lineas(f.lineas),
                    pa[b].seccion,
                    pa[b].clave,
                );
            let q = choose|q: int| 0 <= q < atajos(pa[b]).len() && f.ligados.contains(#[trigger] atajos(pa[b])[q]);
            assert(ligados2.contains(atajos(pa[b])[q]));
            if tiene_en(a2, pa[b].seccion, pa[b].clave) {
                let w = choose|w: int|
                    0 <= w < a2.len() && #[trigger] a2[w].seccion == pa[b].seccion && a2[w].clave == pa[b].clave;
                let x = a2[w];
                assert(a2.contains(x));
                let fa = asignaciones_lineas(f.lineas);
                assert(fa.contains(x));
                let v = choose|v: int| 0 <= v < fa.len() && fa[v] == x;
                assert(fa[v].seccion == pa[b].seccion && fa[v].clave == pa[b].clave);
            }
            assert(suelta(pa, e2.lineas, e2.ligados, a.seccion, suf));
        }
    }
    lema_fusion_desde_quieta(pa, 0, e2, despues, pa);
    assert(fin_fusion(t1, paquete, despues) == e2);
}

pub(crate) proof fn lema_desde_empujar_vacia(ls: Seq<Seq<char>>, i: int, sec: Seq<char>)
    requires
        0 <= i <= ls.len(),
    ensures
        asignaciones_desde(ls.push(seq![]), i, sec) == asignaciones_desde(ls, i, sec),
    decreases ls.len() - i,
{
    let ls2 = ls.push(seq![]);
    let vacia = Seq::<char>::empty();
    assert(recorte(vacia) =~= vacia);
    if i == ls.len() {
        assert(ls2[i] == vacia);
        assert(seccion_en_linea(vacia) is None);
        assert(clave_en_linea(vacia) is None);
        assert(asignaciones_desde(ls2, i + 1, sec) =~= Seq::<AsignacionV>::empty());
    } else {
        assert(ls2[i] == ls[i]);
        match seccion_en_linea(ls[i]) {
            Some(s) => lema_desde_empujar_vacia(ls, i + 1, s),
            None => lema_desde_empujar_vacia(ls, i + 1, sec),
        }
    }
}

/// Every assignment of the merged lines is one the lines had at the start, or
/// one whose key the merge reports as added; and what was reported stays
/// reported.
proof fn lema_fusion_desde_origen(
    ps: Seq<AsignacionV>,
    i: int,
    e: EstadoFusion,
    ofrecida: spec_fn(Seq<char>, Seq<char>) -> bool,
    paq: Seq<AsignacionV>,
)
    requires
        0 <= i,
        forall|j: int| 0 <= j < ps.len() ==> bien_formada(#[trigger] ps[j]),
    ensures
        forall|x: AsignacionV|
            #[trigger] asignaciones_lineas(fusion_desde(ps, i, e, ofrecida, paq).lineas).contains(x)
                ==> asignaciones_lineas(e.lineas).contains(x) || fusion_desde(
                ps,
                i,
                e,
                ofrecida,
                paq,
            ).agregadas.contains((x.seccion, x.clave)),
        forall|c: (Seq<char>, Seq<char>)|
            e.agregadas.contains(c) ==> #[trigger] fusion_desde(ps, i, e, ofrecida, paq).agregadas.contains(c),
    decreases ps.len() - i,
{
    if i < ps.len() {
        let a = ps[i];
        let e1 = paso_fusion(e, a, ofrecida, paq);
        let f = fusion_desde(ps, i, e, ofrecida, paq);
        assert(f == fusion_desde(ps, i + 1, e1, ofrecida, paq));
        lema_fusion_desde_origen(ps, i + 1, e1, ofrecida, paq);
        if e1 != e {
            assert(e1.lineas == con_linea(e.lineas, a.seccion, linea_de_asignacion(a)));
            assert(e1.agregadas == e.agregadas.push((a.seccion, a.clave)));
            lema_con_linea_exacta(e.lineas, a);
            assert(e1.agregadas[e.agregadas.len() as int] == (a.seccion, a.clave));
            assert(f.agregadas.contains((a.seccion, a.clave)));
            assert forall|c: (Seq<char>, Seq<char>)| e.agregadas.contains(c) implies #[trigger] f.agregadas.contains(c) by {
                let q = choose|q: int| 0 <= q < e.agregadas.len() && e.agregadas[q] == c;
                assert(e1.agregadas[q] == c);
                assert(e1.agregadas.contains(c));
            }
        }
    }
}

/// What a merge's lines assign is what the user's file assigned, or what the
/// merge reports as added.
pub(crate) proof fn lema_fusion_origen(
    usuario: Seq<char>,
    paquete: Seq<char>,
    ofrecida: spec_fn(Seq<char>, Seq<char>) -> bool,
)
    ensures
        forall|x: AsignacionV|
            #[trigger] asignaciones_lineas(fin_fusion(usuario, paquete, ofrecida).lineas).contains(x)
                ==> asignaciones(usuario).contains(x) || fusion(usuario, paquete, ofrecida).1.contains(
                (x.seccion, x.clave),
            ),
{
    let pa = asignaciones(paquete);
    lema_texto_bien_formado(paquete);
    lema_fusion_desde_origen(pa, 0, inicio_fusion(usuario), ofrecida, pa);
}

} // verus!
