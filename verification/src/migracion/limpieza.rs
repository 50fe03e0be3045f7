//! What cleaning up shortcuts may take out of the user's file.
//!
//! Removing someone's settings is what this crate promises not to do, so the
//! cleaning only ever takes out shortcut lines: the `binding_*` keys (with
//! their `always_`/`repeatable_` forms) and the `command_*` half of a label
//! one of whose keys leaves the file. Lines go one by one, by their place in
//! the file; of lines that do the same, the first stays, and a repeat of its
//! own key does not take its command with it.

use vstd::prelude::*;
use crate::texto::{contiene, empieza, lineas, lineas_desde, sin_caracter, sin_cr, unir};
use crate::migracion::fusion::{
    crlf, es_terminador, lema_linea_con_terminador, lema_lineas_del_usuario, lema_lineas_sin_salto,
    lema_lineas_sin_salto_una, lema_lineas_unidas_con_final, lineas_escribibles, se_leen_con,
};
use crate::migracion::ini::{
    AsignacionV, Marcas, Motivo, PasadaV, QuitadaV, atajos, asignaciones, atajos_ajenos, limpieza,
    marcas_nuestras, primera_pasada, segunda_pasada, sin_marcadas, sufijo_atajo, seccion_en_linea,
    clave_en_linea, asignaciones_desde, valor_en_linea, dueno_de, comando, sin_marcas,
    alguna_marca, marcas_finales, motivo_final, con_etiqueta, sale_la_clave, sale_etiqueta,
    lema_segunda_pasada_largo, primera_asignacion, Atajo, choca, asignaciones_lineas, rearmar,
    terminador, lleva_salto_final,
};

verus! {

/// Whether a key is a shortcut line: one that binds a shortcut, or the
/// `command_*` half that says what it runs.
pub open spec fn es_de_atajo(k: Seq<char>) -> bool {
    sufijo_atajo(k) is Some || empieza(k, "command_"@)
}

/// Whether only lines that bind a shortcut are marked.
pub open spec fn solo_atajos(m: Marcas, ua: Seq<AsignacionV>) -> bool {
    forall|t: int| 0 <= t < m.len() && #[trigger] m[t] is Some ==> atajos(ua[t]).len() > 0
}

proof fn lema_primera_solo_atajos(
    ua: Seq<AsignacionV>,
    ns: Seq<bool>,
    i: int,
    lig: Seq<(Seq<char>, Seq<char>)>,
    m: Marcas,
)
    requires
        solo_atajos(m, ua),
        m.len() == ua.len(),
    ensures
        solo_atajos(primera_pasada(ua, ns, i, lig, m), ua),
    decreases ua.len() - i,
{
    if 0 <= i < ua.len() {
        let a = ua[i];
        if !ns[i] || atajos(a).len() == 0 {
            lema_primera_solo_atajos(ua, ns, i + 1, lig, m);
        } else if crate::migracion::ini::choca(atajos(a), lig) {
            let m2 = m.update(i, Some(Motivo::LaPusimosYChoca));
            assert forall|t: int| 0 <= t < m2.len() && #[trigger] m2[t] is Some implies atajos(ua[t]).len() > 0 by {
                if t != i {
                    assert(m2[t] == m[t]);
                }
            }
            lema_primera_solo_atajos(ua, ns, i + 1, lig, m2);
        } else {
            lema_primera_solo_atajos(ua, ns, i + 1, lig + atajos(a), m);
        }
    }
}

/// One line of the second pass.
pub open spec fn paso_segunda(ua: Seq<AsignacionV>, i: int, p: PasadaV) -> PasadaV {
    let a = ua[i];
    if p.sobran[i] is Some || atajos(a).len() != 1 {
        p
    } else {
        let atajo = atajos(a)[0];
        match dueno_de(p.duenos, atajo) {
            None => PasadaV { duenos: p.duenos.push((atajo, i)), ..p },
            Some(j) => {
                let primero = ua[j];
                if comando(ua, a) is Some && comando(ua, a) == comando(ua, primero) {
                    PasadaV { sobran: p.sobran.update(i, Some(Motivo::RepiteAOtra)), ..p }
                } else {
                    PasadaV {
                        conflictos: crate::migracion::ini::anotar_conflicto(
                            p.conflictos,
                            atajo.1,
                            primero.clave,
                            a.clave,
                        ),
                        ..p
                    }
                }
            },
        }
    }
}

/// Where the second pass stands when it reaches line `i`.
pub open spec fn pasada_en(ua: Seq<AsignacionV>, p0: PasadaV, i: int) -> PasadaV
    decreases i,
{
    if i <= 0 {
        p0
    } else {
        paso_segunda(ua, i - 1, pasada_en(ua, p0, i - 1))
    }
}

proof fn lema_segunda_pasada_en(ua: Seq<AsignacionV>, p0: PasadaV, i: int)
    requires
        0 <= i <= ua.len(),
    ensures
        segunda_pasada(ua, i, pasada_en(ua, p0, i)) == segunda_pasada(ua, 0, p0),
        segunda_pasada(ua, ua.len() as int, pasada_en(ua, p0, ua.len() as int)) == pasada_en(
            ua,
            p0,
            ua.len() as int,
        ),
    decreases i,
{
    if i > 0 {
        lema_segunda_pasada_en(ua, p0, i - 1);
    }
}

/// What the second pass does to the marks: it keeps one per line, marks only
/// a line it reaches, only one that binds a shortcut, and only for repeating
/// another; and a mark once set stays.
proof fn lema_pasada_marcas(ua: Seq<AsignacionV>, p0: PasadaV, i: int)
    requires
        0 <= i <= ua.len(),
        p0.sobran.len() == ua.len(),
        solo_atajos(p0.sobran, ua),
    ensures
        pasada_en(ua, p0, i).sobran.len() == ua.len(),
        solo_atajos(pasada_en(ua, p0, i).sobran, ua),
        forall|t: int|
            0 <= t < ua.len() && p0.sobran[t] is Some ==> #[trigger] pasada_en(ua, p0, i).sobran[t]
                == p0.sobran[t],
        forall|t: int|
            i <= t < ua.len() ==> #[trigger] pasada_en(ua, p0, i).sobran[t] == p0.sobran[t],
        forall|t: int|
            0 <= t < ua.len() && p0.sobran[t] is None && #[trigger] pasada_en(ua, p0, i).sobran[t]
                is Some ==> pasada_en(ua, p0, i).sobran[t] == Some(Motivo::RepiteAOtra),
    decreases i,
{
    if i > 0 {
        lema_pasada_marcas(ua, p0, i - 1);
        let p = pasada_en(ua, p0, i - 1);
        let q = pasada_en(ua, p0, i);
        assert(q == paso_segunda(ua, i - 1, p));
        assert forall|t: int| 0 <= t < q.sobran.len() && #[trigger] q.sobran[t] is Some implies atajos(
            ua[t],
        ).len() > 0 by {
            if t != i - 1 {
                assert(q.sobran[t] == p.sobran[t]);
            }
        }
        assert forall|t: int| 0 <= t < ua.len() && p0.sobran[t] is Some implies #[trigger] q.sobran[t]
            == p0.sobran[t] by {
            if t != i - 1 {
                assert(q.sobran[t] == p.sobran[t]);
            }
        }
        assert forall|t: int| i <= t < ua.len() implies #[trigger] q.sobran[t] == p0.sobran[t] by {
            assert(q.sobran[t] == p.sobran[t]);
        }
        assert forall|t: int|
            0 <= t < ua.len() && p0.sobran[t] is None && #[trigger] q.sobran[t] is Some implies q.sobran[t]
                == Some(Motivo::RepiteAOtra) by {
            if t != i - 1 {
                assert(q.sobran[t] == p.sobran[t]);
            }
        }
    }
}

/// Whether line `j` takes part in the second pass: unmarked when it is
/// reached, and binding exactly one shortcut.
pub open spec fn participa(ua: Seq<AsignacionV>, p0: PasadaV, j: int) -> bool {
    pasada_en(ua, p0, j).sobran[j] is None && atajos(ua[j]).len() == 1
}

proof fn lema_dueno_de_empujar(
    d: Seq<((Seq<char>, Seq<char>), int)>,
    x: ((Seq<char>, Seq<char>), int),
    k: (Seq<char>, Seq<char>),
)
    ensures
        dueno_de(d.push(x), k) == match dueno_de(d, k) {
            Some(j) => Some(j),
            None => if x.0 == k {
                Some(x.1)
            } else {
                None
            },
        },
    decreases d.len(),
{
    if d.len() > 0 {
        assert(d.push(x)[0] == d[0]);
        assert(d.push(x).drop_first() =~= d.drop_first().push(x));
        lema_dueno_de_empujar(d.drop_first(), x, k);
    } else {
        let vacia = Seq::<((Seq<char>, Seq<char>), int)>::empty();
        assert(d.push(x).drop_first() =~= vacia);
        assert(dueno_de(vacia, k) is None);
        assert(d.push(x)[0] == x);
    }
}

/// The owner of a shortcut is the first line that took part with it.
#[verifier::spinoff_prover]
#[verifier::rlimit(40)]
proof fn lema_duenos(ua: Seq<AsignacionV>, p0: PasadaV, i: int)
    requires
        0 <= i <= ua.len(),
        p0.duenos.len() == 0,
    ensures
        forall|k: (Seq<char>, Seq<char>)|
            match #[trigger] dueno_de(pasada_en(ua, p0, i).duenos, k) {
                Some(j) => 0 <= j < i && participa(ua, p0, j) && atajos(ua[j])[0] == k && forall|j2: int|
                    0 <= j2 < j ==> !(participa(ua, p0, j2) && #[trigger] atajos(ua[j2])[0] == k),
                None => forall|j2: int|
                    0 <= j2 < i ==> !(participa(ua, p0, j2) && #[trigger] atajos(ua[j2])[0] == k),
            },
    decreases i,
{
    if i == 0 {
        assert forall|k: (Seq<char>, Seq<char>)| #[trigger] dueno_de(pasada_en(ua, p0, i).duenos, k) is None by {
        }
    } else {
        lema_duenos(ua, p0, i - 1);
        let p = pasada_en(ua, p0, i - 1);
        let a = ua[i - 1];
        let q = pasada_en(ua, p0, i);
        assert(q == paso_segunda(ua, i - 1, p));
        if participa(ua, p0, i - 1) {
            let atajo = atajos(a)[0];
            match dueno_de(p.duenos, atajo) {
                None => {
                    assert(q.duenos == p.duenos.push((atajo, i - 1)));
                    assert forall|k: (Seq<char>, Seq<char>)| match #[trigger] dueno_de(q.duenos, k) {
                        Some(j) => 0 <= j < i && participa(ua, p0, j) && atajos(ua[j])[0] == k && forall|
                            j2: int,
                        | 0 <= j2 < j ==> !(participa(ua, p0, j2) && #[trigger] atajos(ua[j2])[0] == k),
                        None => forall|j2: int|
                            0 <= j2 < i ==> !(participa(ua, p0, j2) && #[trigger] atajos(ua[j2])[0]
                                == k),
                    } by {
                        lema_dueno_de_empujar(p.duenos, (atajo, i - 1), k);
                        assert(dueno_de(p.duenos, k) matches Some(j) ==> 0 <= j < i - 1);
                    }
                },
                Some(j) => {
                    assert(q.duenos == p.duenos);
                },
            }
        } else {
            assert(q.duenos == p.duenos);
        }
    }
}

/// The removed lines, from the `n`-th assignment on: each with its section,
/// key and reason, in the order of the file.
pub open spec fn quitadas_de(ua: Seq<AsignacionV>, fin: Marcas, n: int) -> Seq<QuitadaV>
    decreases ua.len() - n,
{
    if n >= ua.len() || n < 0 {
        seq![]
    } else {
        let resto = quitadas_de(ua, fin, n + 1);
        if fin[n] is Some {
            seq![QuitadaV { seccion: ua[n].seccion, clave: ua[n].clave, motivo: fin[n]->0 }] + resto
        } else {
            resto
        }
    }
}

/// The lines cleaning removes are the assignments with a final mark, in
/// order: the `n`-th line that assigns is the `n`-th assignment.
proof fn lema_quitadas(ls: Seq<Seq<char>>, i: int, sec: Seq<char>, ua: Seq<AsignacionV>, n: int, fin: Marcas)
    requires
        0 <= i <= ls.len(),
        0 <= n <= ua.len(),
        fin.len() == ua.len(),
        asignaciones_desde(ls, i, sec) == ua.skip(n),
    ensures
        sin_marcadas(ls, i, sec, n, fin).1 == quitadas_de(ua, fin, n),
    decreases ls.len() - i,
{
    if i == ls.len() {
        assert(ua.skip(n).len() == 0);
    } else {
        match seccion_en_linea(ls[i]) {
            Some(s) => {
                lema_quitadas(ls, i + 1, s, ua, n, fin);
            },
            None => match clave_en_linea(ls[i]) {
                Some(k) => {
                    let a = AsignacionV { seccion: sec, clave: k, valor: valor_en_linea(ls[i]) };
                    assert(asignaciones_desde(ls, i, sec) == seq![a] + asignaciones_desde(ls, i + 1, sec));
                    assert(ua.skip(n).len() > 0);
                    assert(ua.skip(n)[0] == ua[n]);
                    assert(ua[n] == a);
                    assert(ua.skip(n + 1) =~= ua.skip(n).drop_first());
                    assert(asignaciones_desde(ls, i + 1, sec) =~= (seq![a] + asignaciones_desde(
                        ls,
                        i + 1,
                        sec,
                    )).drop_first());
                    lema_quitadas(ls, i + 1, sec, ua, n + 1, fin);
                },
                None => {
                    lema_quitadas(ls, i + 1, sec, ua, n, fin);
                },
            },
        }
    }
}

proof fn lema_quitadas_de_es(ua: Seq<AsignacionV>, fin: Marcas, n: int)
    requires
        0 <= n,
    ensures
        forall|w: int|
            0 <= w < quitadas_de(ua, fin, n).len() ==> exists|t: int|
                n <= t < ua.len() && #[trigger] quitadas_de(ua, fin, n)[w] == (QuitadaV {
                    seccion: ua[t].seccion,
                    clave: ua[t].clave,
                    motivo: fin[t]->0,
                }) && fin[t] is Some,
    decreases ua.len() - n,
{
    if n < ua.len() {
        lema_quitadas_de_es(ua, fin, n + 1);
        let q = quitadas_de(ua, fin, n);
        let resto = quitadas_de(ua, fin, n + 1);
        assert forall|w: int| 0 <= w < q.len() implies exists|t: int|
            n <= t < ua.len() && #[trigger] q[w] == (QuitadaV {
                seccion: ua[t].seccion,
                clave: ua[t].clave,
                motivo: fin[t]->0,
            }) && fin[t] is Some by {
            if fin[n] is Some {
                if w == 0 {
                    assert(q[0] == (QuitadaV {
                        seccion: ua[n].seccion,
                        clave: ua[n].clave,
                        motivo: fin[n]->0,
                    }));
                } else {
                    assert(q[w] == resto[w - 1]);
                }
            } else {
                assert(q[w] == resto[w]);
            }
        }
    }
}

/// The removed lines of a cleaning, and the marks they come from.
proof fn lema_limpieza_quitadas(
    usuario: Seq<char>,
    paquete: Seq<char>,
    agregada: spec_fn(Seq<char>, Seq<char>) -> bool,
)
    ensures
        ({
            let ua = asignaciones(usuario);
            let nuestras = marcas_nuestras(ua, asignaciones(paquete), agregada);
            let s1 = primera_pasada(ua, nuestras, 0, atajos_ajenos(ua, nuestras), sin_marcas(ua.len()));
            let p0 = PasadaV { duenos: seq![], conflictos: seq![], sobran: s1 };
            let m = pasada_en(ua, p0, ua.len() as int).sobran;
            &&& segunda_pasada(ua, 0, p0) == pasada_en(ua, p0, ua.len() as int)
            &&& s1.len() == ua.len()
            &&& m.len() == ua.len()
            &&& solo_atajos(s1, ua)
            &&& solo_atajos(m, ua)
            &&& limpieza(usuario, paquete, agregada).1 == if alguna_marca(m) {
                quitadas_de(ua, marcas_finales(ua, m), 0)
            } else {
                Seq::<QuitadaV>::empty()
            }
        }),
{
    let ua = asignaciones(usuario);
    let nuestras = marcas_nuestras(ua, asignaciones(paquete), agregada);
    let aj = atajos_ajenos(ua, nuestras);
    let s0 = sin_marcas(ua.len());
    assert(solo_atajos(s0, ua));
    crate::migracion::ini::lema_primera_pasada_largo(ua, nuestras, 0, aj, s0);
    lema_primera_solo_atajos(ua, nuestras, 0, aj, s0);
    let s1 = primera_pasada(ua, nuestras, 0, aj, s0);
    let p0 = PasadaV { duenos: seq![], conflictos: seq![], sobran: s1 };
    let n = ua.len() as int;
    lema_segunda_pasada_en(ua, p0, n);
    lema_pasada_marcas(ua, p0, n);
    let m = pasada_en(ua, p0, n).sobran;
    if alguna_marca(m) {
        let fin = marcas_finales(ua, m);
        let ls = lineas(usuario);
        assert(ua.skip(0) =~= ua);
        lema_quitadas(ls, 0, seq![], ua, 0, fin);
    }
}

/// Cleaning takes out nothing but shortcut lines: every line it removes is a
/// `binding_*` key (or its `always_`/`repeatable_` form) or the `command_*`
/// half of a label. Every other setting of the user's file stays.
pub proof fn lema_limpieza_solo_quita_atajos(
    usuario: Seq<char>,
    paquete: Seq<char>,
    agregada: spec_fn(Seq<char>, Seq<char>) -> bool,
)
    ensures
        forall|j: int|
            0 <= j < limpieza(usuario, paquete, agregada).1.len() ==> es_de_atajo(
                (#[trigger] limpieza(usuario, paquete, agregada).1[j]).clave,
            ),
{
    lema_limpieza_quitadas(usuario, paquete, agregada);
    let ua = asignaciones(usuario);
    let nuestras = marcas_nuestras(ua, asignaciones(paquete), agregada);
    let s1 = primera_pasada(ua, nuestras, 0, atajos_ajenos(ua, nuestras), sin_marcas(ua.len()));
    let p0 = PasadaV { duenos: seq![], conflictos: seq![], sobran: s1 };
    let m = pasada_en(ua, p0, ua.len() as int).sobran;
    let q = limpieza(usuario, paquete, agregada).1;
    if alguna_marca(m) {
        let fin = marcas_finales(ua, m);
        lema_quitadas_de_es(ua, fin, 0);
        assert forall|j: int| 0 <= j < q.len() implies es_de_atajo((#[trigger] q[j]).clave) by {
            let t = choose|t: int|
                0 <= t < ua.len() && #[trigger] q[j] == (QuitadaV {
                    seccion: ua[t].seccion,
                    clave: ua[t].clave,
                    motivo: fin[t]->0,
                }) && fin[t] is Some;
            assert(fin[t] == motivo_final(ua, m, t));
            if m[t] is Some {
                assert(atajos(ua[t]).len() > 0);
            }
        }
    }
}

/// Of lines that bind one shortcut to the same command, the first in the
/// file stays: every shortcut line removed for repeating another comes after
/// a line that binds the same shortcut to the same command, and that line
/// stays. Every `command_*` line of its label stays with it, so the key still
/// runs its command, unless another key of that label (not a repeat of its
/// own) leaves the file and takes the command along.
#[verifier::spinoff_prover]
#[verifier::rlimit(40)]
pub proof fn lema_limpieza_conserva_la_primera(
    usuario: Seq<char>,
    paquete: Seq<char>,
    agregada: spec_fn(Seq<char>, Seq<char>) -> bool,
)
    ensures
        ({
            let ua = asignaciones(usuario);
            let nuestras = marcas_nuestras(ua, asignaciones(paquete), agregada);
            let s1 = primera_pasada(ua, nuestras, 0, atajos_ajenos(ua, nuestras), sin_marcas(ua.len()));
            let m = segunda_pasada(ua, 0, PasadaV { duenos: seq![], conflictos: seq![], sobran: s1 }).sobran;
            let fin = marcas_finales(ua, m);
            forall|ix: int|
                0 <= ix < ua.len() && #[trigger] fin[ix] == Some(Motivo::RepiteAOtra) && sufijo_atajo(
                    ua[ix].clave,
                ) is Some ==> exists|io: int|
                    #![trigger ua[io]]
                    0 <= io < ix && atajos(ua[ix]).len() == 1 && atajos(ua[io]).len() == 1 && atajos(
                        ua[io],
                    )[0] == atajos(ua[ix])[0] && comando(ua, ua[ix]) is Some && comando(ua, ua[io])
                        == comando(ua, ua[ix]) && fin[io] is None && forall|c: int|
                        0 <= c < ua.len() && ua[c].seccion == ua[io].seccion && #[trigger] ua[c].clave
                            == "command_"@ + sufijo_atajo(ua[io].clave)->0 ==> fin[c] is None || sale_otra(
                            ua,
                            fin,
                            io,
                        )
        }),
{
    lema_limpieza_quitadas(usuario, paquete, agregada);
    let ua = asignaciones(usuario);
    let nuestras = marcas_nuestras(ua, asignaciones(paquete), agregada);
    let s1 = primera_pasada(ua, nuestras, 0, atajos_ajenos(ua, nuestras), sin_marcas(ua.len()));
    let p0 = PasadaV { duenos: seq![], conflictos: seq![], sobran: s1 };
    let n = ua.len() as int;
    let m = pasada_en(ua, p0, n).sobran;
    let fin = marcas_finales(ua, m);
    lema_primera_sin_repetir(
        ua,
        nuestras,
        0,
        atajos_ajenos(ua, nuestras),
        sin_marcas(ua.len()),
    );
    assert forall|ix: int|
        0 <= ix < ua.len() && #[trigger] fin[ix] == Some(Motivo::RepiteAOtra) && sufijo_atajo(
            ua[ix].clave,
        ) is Some implies exists|io: int|
        #![trigger ua[io]]
        0 <= io < ix && atajos(ua[ix]).len() == 1 && atajos(ua[io]).len() == 1 && atajos(ua[io])[0]
            == atajos(ua[ix])[0] && comando(ua, ua[ix]) is Some && comando(ua, ua[io]) == comando(
            ua,
            ua[ix],
        ) && fin[io] is None && forall|c: int|
            0 <= c < ua.len() && ua[c].seccion == ua[io].seccion && #[trigger] ua[c].clave == "command_"@
                + sufijo_atajo(ua[io].clave)->0 ==> fin[c] is None || sale_otra(ua, fin, io) by {
        assert(fin[ix] == motivo_final(ua, m, ix));
        crate::migracion::limpieza::lema_no_es_comando(ua[ix].clave);
        assert(m[ix] == Some(Motivo::RepiteAOtra));
        assert(s1[ix] != Some(Motivo::RepiteAOtra));
        // The mark was set by the second pass, when it reached this line.
        lema_pasada_fija(ua, p0, n, ix);
        lema_pasada_fija(ua, p0, ix, ix);
        let p = pasada_en(ua, p0, ix);
        let q = pasada_en(ua, p0, ix + 1);
        assert(q == paso_segunda(ua, ix, p));
        assert(p.sobran[ix] == s1[ix]);
        assert(m[ix] == q.sobran[ix]);
        assert(s1[ix] is None) by {
            if s1[ix] is Some {
                assert(q == p);
            }
        }
        assert(q.sobran[ix] == Some(Motivo::RepiteAOtra));
        let k = atajos(ua[ix])[0];
        lema_duenos(ua, p0, ix);
        let io = dueno_de(p.duenos, k)->0;
        assert(participa(ua, p0, io));
        // The owner is never marked afterwards.
        lema_dueno_queda(ua, p0, io, n);
        assert(m[io] is None);
        lema_no_es_comando(ua[io].clave);
        assert(fin[io] == motivo_final(ua, m, io));
        assert(fin[io] is None);
        let suf = sufijo_atajo(ua[io].clave)->0;
        assert forall|c: int|
            0 <= c < ua.len() && ua[c].seccion == ua[io].seccion && #[trigger] ua[c].clave == "command_"@
                + suf implies fin[c] is None || sale_otra(ua, fin, io) by {
            assert(fin[c] == motivo_final(ua, m, c));
            lema_comando_sale(ua, m, c, suf);
            if fin[c] is Some {
                let t = choose|t: int|
                    0 <= t < ua.len() && con_etiqueta(#[trigger] ua[t], ua[c].seccion, suf) && sale_la_clave(
                        ua,
                        m,
                        t,
                    );
                lema_sale_en_fin(ua, m, t);
                if ua[t].clave == ua[io].clave {
                    assert(m[io] is Some);
                }
            }
        }
    }
}

/// Whether some other key of the label of line `io`, in its section, leaves
/// the file: every line of it goes.
pub open spec fn sale_otra(ua: Seq<AsignacionV>, fin: Marcas, io: int) -> bool {
    exists|t: int|
        0 <= t < ua.len() && #[trigger] con_etiqueta(
            ua[t],
            ua[io].seccion,
            sufijo_atajo(ua[io].clave)->0,
        ) && ua[t].clave != ua[io].clave && fin[t] is Some && forall|k: int|
            0 <= k < ua.len() && #[trigger] ua[k].seccion == ua[t].seccion && ua[k].clave == ua[t].clave
                ==> fin[k] is Some
}

/// A `command_*` line goes exactly when a shortcut key of its label, in its
/// section, leaves the file.
proof fn lema_comando_sale(ua: Seq<AsignacionV>, m: Marcas, c: int, suf: Seq<char>)
    requires
        m.len() == ua.len(),
        solo_atajos(m, ua),
        0 <= c < ua.len(),
        ua[c].clave == "command_"@ + suf,
    ensures
        motivo_final(ua, m, c) is Some <==> exists|t: int|
            0 <= t < ua.len() && con_etiqueta(#[trigger] ua[t], ua[c].seccion, suf) && sale_la_clave(ua, m, t),
{
    lema_comando_no_es_atajo(suf);
    assert(atajos(ua[c]).len() == 0);
    assert(m[c] is None) by {
        if m[c] is Some {
            assert(atajos(ua[c]).len() > 0);
        }
    }
    let ck = ua[c].clave;
    assert(ck.take("command_"@.len() as int) =~= "command_"@);
    assert(ck.skip("command_"@.len() as int) =~= suf);
    if exists|t: int| 0 <= t < ua.len() && con_etiqueta(#[trigger] ua[t], ua[c].seccion, suf) && sale_la_clave(ua, m, t) {
        let t = choose|t: int| 0 <= t < ua.len() && con_etiqueta(#[trigger] ua[t], ua[c].seccion, suf) && sale_la_clave(ua, m, t);
        let mo = m[t]->0;
        assert(sale_etiqueta(ua, m, ua[c].seccion, suf, mo));
        match mo {
            Motivo::RepiteAOtra => {},
            Motivo::LaPusimosYChoca => {},
        }
    }
}

/// For a shortcut key that leaves the file, the final marks say it: its line
/// goes, and so does every line of the same section and key.
proof fn lema_sale_en_fin(ua: Seq<AsignacionV>, m: Marcas, t: int)
    requires
        m.len() == ua.len(),
        0 <= t < ua.len(),
        sufijo_atajo(ua[t].clave) is Some,
        sale_la_clave(ua, m, t),
    ensures
        marcas_finales(ua, m)[t] is Some,
        forall|k: int|
            0 <= k < ua.len() && #[trigger] ua[k].seccion == ua[t].seccion && ua[k].clave == ua[t].clave
                ==> marcas_finales(ua, m)[k] is Some,
{
    let fin = marcas_finales(ua, m);
    assert(fin[t] == motivo_final(ua, m, t));
    assert forall|k: int|
        0 <= k < ua.len() && #[trigger] ua[k].seccion == ua[t].seccion && ua[k].clave == ua[t].clave
            implies fin[k] is Some by {
        assert(fin[k] == motivo_final(ua, m, k));
        assert(m[k] is Some);
    }
}

/// When a shortcut key leaves the file (every line of that section and key
/// goes), the `command_*` half of its label goes with it: on its own it
/// fires nothing.
pub proof fn lema_limpieza_quita_el_par(
    usuario: Seq<char>,
    paquete: Seq<char>,
    agregada: spec_fn(Seq<char>, Seq<char>) -> bool,
)
    ensures
        ({
            let ua = asignaciones(usuario);
            let nuestras = marcas_nuestras(ua, asignaciones(paquete), agregada);
            let s1 = primera_pasada(ua, nuestras, 0, atajos_ajenos(ua, nuestras), sin_marcas(ua.len()));
            let m = segunda_pasada(ua, 0, PasadaV { duenos: seq![], conflictos: seq![], sobran: s1 }).sobran;
            let fin = marcas_finales(ua, m);
            forall|t: int, c: int|
                0 <= t < ua.len() && 0 <= c < ua.len() && #[trigger] fin[t] is Some && sufijo_atajo(
                    ua[t].clave,
                ) is Some && (forall|k: int|
                    0 <= k < ua.len() && #[trigger] ua[k].seccion == ua[t].seccion && ua[k].clave
                        == ua[t].clave ==> fin[k] is Some) && ua[c].seccion == ua[t].seccion
                    && #[trigger] ua[c].clave == "command_"@ + sufijo_atajo(ua[t].clave)->0 ==> fin[c] is Some
        }),
{
    lema_limpieza_quitadas(usuario, paquete, agregada);
    let ua = asignaciones(usuario);
    let nuestras = marcas_nuestras(ua, asignaciones(paquete), agregada);
    let s1 = primera_pasada(ua, nuestras, 0, atajos_ajenos(ua, nuestras), sin_marcas(ua.len()));
    let p0 = PasadaV { duenos: seq![], conflictos: seq![], sobran: s1 };
    let m = pasada_en(ua, p0, ua.len() as int).sobran;
    let fin = marcas_finales(ua, m);
    assert forall|t: int, c: int|
        0 <= t < ua.len() && 0 <= c < ua.len() && #[trigger] fin[t] is Some && sufijo_atajo(
            ua[t].clave,
        ) is Some && (forall|k: int|
            0 <= k < ua.len() && #[trigger] ua[k].seccion == ua[t].seccion && ua[k].clave == ua[t].clave
                ==> fin[k] is Some) && ua[c].seccion == ua[t].seccion && #[trigger] ua[c].clave == "command_"@
            + sufijo_atajo(ua[t].clave)->0 implies fin[c] is Some by {
        let sec = ua[t].seccion;
        let suf = sufijo_atajo(ua[t].clave)->0;
        lema_no_es_comando(ua[t].clave);
        assert(fin[t] == motivo_final(ua, m, t));
        assert(m[t] is Some);
        assert forall|k: int|
            0 <= k < ua.len() && #[trigger] ua[k].seccion == ua[t].seccion && ua[k].clave == ua[t].clave
                implies m[k] is Some by {
            assert(fin[k] is Some);
            assert(fin[k] == motivo_final(ua, m, k));
        }
        assert(sale_la_clave(ua, m, t));
        assert(con_etiqueta(ua[t], sec, suf));
        assert(fin[c] == motivo_final(ua, m, c));
        lema_comando_sale(ua, m, c, suf);
    }
}

/// A key that binds a shortcut does not start with `command_`.
pub proof fn lema_no_es_comando(k: Seq<char>)
    ensures
        sufijo_atajo(k) is Some ==> !empieza(k, "command_"@),
{
    reveal_strlit("command_");
    reveal_strlit("repeatable_binding_");
    reveal_strlit("always_binding_");
    reveal_strlit("binding_");
    if sufijo_atajo(k) is Some && empieza(k, "command_"@) {
        assert(k.take(8)[0] == k[0]);
        if empieza(k, "repeatable_binding_"@) {
            assert(k.take(19)[0] == k[0]);
        } else if empieza(k, "always_binding_"@) {
            assert(k.take(15)[0] == k[0]);
        } else {
            assert(k.take(8)[0] == k[0]);
        }
    }
}

/// A `command_*` key binds no shortcut.
proof fn lema_comando_no_es_atajo(suf: Seq<char>)
    ensures
        sufijo_atajo("command_"@ + suf) is None,
{
    let c = "command_"@ + suf;
    reveal_strlit("command_");
    assert(c.take(8) =~= "command_"@);
    lema_no_es_comando(c);
}

/// The first pass never marks a line as repeating another.
proof fn lema_primera_sin_repetir(
    ua: Seq<AsignacionV>,
    ns: Seq<bool>,
    i: int,
    lig: Seq<(Seq<char>, Seq<char>)>,
    m: Marcas,
)
    requires
        forall|t: int| 0 <= t < m.len() ==> #[trigger] m[t] != Some(Motivo::RepiteAOtra),
        m.len() == ua.len(),
    ensures
        forall|t: int|
            0 <= t < ua.len() ==> #[trigger] primera_pasada(ua, ns, i, lig, m)[t] != Some(
                Motivo::RepiteAOtra,
            ),
    decreases ua.len() - i,
{
    if 0 <= i < ua.len() {
        let a = ua[i];
        if !ns[i] || atajos(a).len() == 0 {
            lema_primera_sin_repetir(ua, ns, i + 1, lig, m);
        } else if crate::migracion::ini::choca(atajos(a), lig) {
            let m2 = m.update(i, Some(Motivo::LaPusimosYChoca));
            assert forall|t: int| 0 <= t < m2.len() implies #[trigger] m2[t] != Some(Motivo::RepiteAOtra) by {
                if t != i {
                    assert(m2[t] == m[t]);
                }
            }
            lema_primera_sin_repetir(ua, ns, i + 1, lig, m2);
        } else {
            lema_primera_sin_repetir(ua, ns, i + 1, lig + atajos(a), m);
        }
    }
}

/// The second pass keeps one mark per line, and the step at line `k`
/// changes no mark but that of line `k`: a line's mark is what it was at the
/// start until the pass reaches it, and what that step left afterwards.
proof fn lema_pasada_fija(ua: Seq<AsignacionV>, p0: PasadaV, i: int, t: int)
    requires
        0 <= i <= ua.len(),
        0 <= t < ua.len(),
        p0.sobran.len() == ua.len(),
    ensures
        pasada_en(ua, p0, i).sobran.len() == ua.len(),
        i <= t ==> pasada_en(ua, p0, i).sobran[t] == p0.sobran[t],
        i > t ==> pasada_en(ua, p0, i).sobran[t] == pasada_en(ua, p0, t + 1).sobran[t],
    decreases i,
{
    if i > 0 {
        lema_pasada_fija(ua, p0, i - 1, t);
        let p = pasada_en(ua, p0, i - 1);
        let q = pasada_en(ua, p0, i);
        assert(q == paso_segunda(ua, i - 1, p));
        if t != i - 1 {
            assert(q.sobran[t] == p.sobran[t]);
        }
    }
}

/// The owner of a shortcut is never marked.
proof fn lema_dueno_queda(ua: Seq<AsignacionV>, p0: PasadaV, j: int, i: int)
    requires
        p0.duenos.len() == 0,
        p0.sobran.len() == ua.len(),
        0 <= j < i <= ua.len(),
        participa(ua, p0, j),
        forall|j2: int|
            0 <= j2 < j ==> !(participa(ua, p0, j2) && #[trigger] atajos(ua[j2])[0] == atajos(
                ua[j],
            )[0]),
    ensures
        pasada_en(ua, p0, i).sobran[j] is None,
{
    lema_pasada_fija(ua, p0, i, j);
    let p = pasada_en(ua, p0, j);
    let q = pasada_en(ua, p0, j + 1);
    assert(q == paso_segunda(ua, j, p));
    lema_duenos(ua, p0, j);
    let k = atajos(ua[j])[0];
    assert(dueno_de(p.duenos, k) is None);
}

/// The positions, from `n` on, of the lines that stay, in order.
pub open spec fn quedan(fin: Marcas, n: int) -> Seq<int>
    decreases fin.len() - n,
{
    if n >= fin.len() || n < 0 {
        seq![]
    } else if fin[n] is Some {
        quedan(fin, n + 1)
    } else {
        seq![n] + quedan(fin, n + 1)
    }
}

/// The assignments that stay, in order.
pub open spec fn restantes(ua: Seq<AsignacionV>, fin: Marcas) -> Seq<AsignacionV> {
    Seq::new(quedan(fin, 0).len(), |j: int| ua[quedan(fin, 0)[j]])
}

proof fn lema_quedan(fin: Marcas, n: int)
    requires
        0 <= n,
    ensures
        forall|j: int|
            0 <= j < quedan(fin, n).len() ==> n <= #[trigger] quedan(fin, n)[j] < fin.len() && fin[quedan(
                fin,
                n,
            )[j]] is None,
        forall|j1: int, j2: int|
            0 <= j1 < j2 < quedan(fin, n).len() ==> #[trigger] quedan(fin, n)[j1] < #[trigger] quedan(
                fin,
                n,
            )[j2],
        forall|t: int|
            n <= t < fin.len() && #[trigger] fin[t] is None ==> exists|j: int|
                0 <= j < quedan(fin, n).len() && #[trigger] quedan(fin, n)[j] == t,
    decreases fin.len() - n,
{
    if n < fin.len() {
        lema_quedan(fin, n + 1);
        let r = quedan(fin, n + 1);
        let q = quedan(fin, n);
        if fin[n] is None {
            assert(q == seq![n] + r);
            assert forall|j: int| 0 <= j < q.len() implies n <= #[trigger] q[j] < fin.len() && fin[q[j]] is None by {
                if j > 0 {
                    assert(q[j] == r[j - 1]);
                }
            }
            assert forall|j1: int, j2: int| 0 <= j1 < j2 < q.len() implies #[trigger] q[j1] < #[trigger] q[j2] by {
                assert(q[j2] == r[j2 - 1]);
                if j1 > 0 {
                    assert(q[j1] == r[j1 - 1]);
                }
            }
            assert forall|t: int| n <= t < fin.len() && #[trigger] fin[t] is None implies exists|j: int|
                0 <= j < q.len() && #[trigger] q[j] == t by {
                if t == n {
                    assert(q[0] == n);
                } else {
                    let j = choose|j: int| 0 <= j < r.len() && #[trigger] r[j] == t;
                    assert(q[j + 1] == t);
                }
            }
        } else {
            assert(q == r);
        }
    }
}

proof fn lema_primera_asignacion_es(todas: Seq<AsignacionV>, s: Seq<char>, k: Seq<char>, i: int)
    requires
        0 <= i,
    ensures
        match primera_asignacion(todas, s, k, i) {
            Some(j) => i <= j < todas.len() && todas[j].seccion == s && todas[j].clave == k && forall|
                j2: int,
            | i <= j2 < j ==> !(#[trigger] todas[j2].seccion == s && todas[j2].clave == k),
            None => forall|j2: int|
                i <= j2 < todas.len() ==> !(#[trigger] todas[j2].seccion == s && todas[j2].clave == k),
        },
    decreases todas.len() - i,
{
    if i < todas.len() && !(todas[i].seccion == s && todas[i].clave == k) {
        lema_primera_asignacion_es(todas, s, k, i + 1);
    }
}

/// What a kept shortcut key runs, once cleaned, is what it ran, or nothing:
/// the `command_*` lines of a label go all together or not at all.
proof fn lema_comando_queda(ua: Seq<AsignacionV>, m: Marcas, y: int)
    requires
        m.len() == ua.len(),
        solo_atajos(m, ua),
        0 <= y < quedan(marcas_finales(ua, m), 0).len(),
    ensures
        comando(restantes(ua, marcas_finales(ua, m)), restantes(ua, marcas_finales(ua, m))[y]) == comando(
            ua,
            ua[quedan(marcas_finales(ua, m), 0)[y]],
        ) || comando(restantes(ua, marcas_finales(ua, m)), restantes(ua, marcas_finales(ua, m))[y])
            is None,
{
    let fin = marcas_finales(ua, m);
    let idx = quedan(fin, 0);
    let ua2 = restantes(ua, fin);
    lema_quedan(fin, 0);
    let x = idx[y];
    assert(ua2[y] == ua[x]);
    let a = ua[x];
    if sufijo_atajo(a.clave) is Some {
        let suf = sufijo_atajo(a.clave)->0;
        let sec = a.seccion;
        let ck = "command_"@ + suf;
        lema_no_es_comando(a.clave);
        assert(fin[x] == motivo_final(ua, m, x));
        assert(m[x] is None);
        lema_comando_no_es_atajo(suf);
        lema_primera_asignacion_es(ua, sec, ck, 0);
        lema_primera_asignacion_es(ua2, sec, ck, 0);
        match primera_asignacion(ua, sec, ck, 0) {
            None => {
                if primera_asignacion(ua2, sec, ck, 0) is Some {
                    let j = primera_asignacion(ua2, sec, ck, 0)->0;
                    assert(ua2[j] == ua[idx[j]]);
                }
            },
            Some(c) => {
                assert(atajos(ua[c]).len() == 0);
                assert(m[c] is None) by {
                    if m[c] is Some {
                        assert(atajos(ua[c]).len() > 0);
                    }
                }
                assert(fin[c] == motivo_final(ua, m, c));
                if fin[c] is Some {
                    // Every `command_*` line of the label goes with it.
                    if primera_asignacion(ua2, sec, ck, 0) is Some {
                        let j = primera_asignacion(ua2, sec, ck, 0)->0;
                        assert(ua2[j] == ua[idx[j]]);
                        let c2 = idx[j];
                        assert(m[c2] is None) by {
                            if m[c2] is Some {
                                assert(atajos(ua[c2]).len() > 0);
                            }
                        }
                        assert(fin[c2] == motivo_final(ua, m, c2));
                    }
                } else {
                    let yc = choose|j: int| 0 <= j < idx.len() && #[trigger] idx[j] == c;
                    assert(ua2[yc] == ua[c]);
                    match primera_asignacion(ua2, sec, ck, 0) {
                        None => {
                            assert(!(ua2[yc].seccion == sec && ua2[yc].clave == ck));
                        },
                        Some(j) => {
                            assert(ua2[j] == ua[idx[j]]);
                            if j < yc {
                                assert(idx[j] < idx[yc]);
                                assert(!(ua[idx[j]].seccion == sec && ua[idx[j]].clave == ck));
                            } else if j > yc {
                                assert(!(ua2[yc].seccion == sec && ua2[yc].clave == ck));
                            }
                        },
                    }
                }
            },
        }
    }
}

/// On the lines cleaning keeps, the second pass marks nothing: a kept line
/// that binds a shortcut owned by an earlier one was kept because it runs
/// something else, and it still does, or now runs nothing.
#[verifier::spinoff_prover]
#[verifier::rlimit(60)]
proof fn lema_segunda_nada(ua: Seq<AsignacionV>, p0: PasadaV, i: int)
    requires
        p0.duenos.len() == 0,
        p0.sobran.len() == ua.len(),
        solo_atajos(p0.sobran, ua),
        0 <= i <= restantes(ua, marcas_finales(ua, pasada_en(ua, p0, ua.len() as int).sobran)).len(),
    ensures
        ({
            let ua2 = restantes(ua, marcas_finales(ua, pasada_en(ua, p0, ua.len() as int).sobran));
            let q0 = PasadaV { duenos: seq![], conflictos: seq![], sobran: sin_marcas(ua2.len()) };
            &&& pasada_en(ua2, q0, i).sobran.len() == ua2.len()
            &&& forall|t: int| 0 <= t < ua2.len() ==> #[trigger] pasada_en(ua2, q0, i).sobran[t] is None
        }),
    decreases i,
{
    let n = ua.len() as int;
    let m = pasada_en(ua, p0, n).sobran;
    let fin = marcas_finales(ua, m);
    let idx = quedan(fin, 0);
    let ua2 = restantes(ua, fin);
    let q0 = PasadaV { duenos: seq![], conflictos: seq![], sobran: sin_marcas(ua2.len()) };
    if i > 0 {
        let j = i - 1;
        lema_segunda_nada(ua, p0, j);
        let p = pasada_en(ua2, q0, j);
        let q = pasada_en(ua2, q0, i);
        assert(q == paso_segunda(ua2, j, p));
        if !(p.sobran[j] is Some || atajos(ua2[j]).len() != 1) {
            let k = atajos(ua2[j])[0];
            if dueno_de(p.duenos, k) is Some {
                let o2 = dueno_de(p.duenos, k)->0;
                lema_duenos(ua2, q0, j);
                lema_quedan(fin, 0);
                lema_pasada_marcas(ua, p0, n);
                let x1 = idx[j];
                let o1p = idx[o2];
                assert(ua2[j] == ua[x1]);
                assert(ua2[o2] == ua[o1p]);
                assert(o1p < x1);
                // Both took part in the first cleaning's second pass.
                lema_no_es_comando(ua[x1].clave);
                lema_no_es_comando(ua[o1p].clave);
                assert(fin[x1] == motivo_final(ua, m, x1));
                assert(fin[o1p] == motivo_final(ua, m, o1p));
                assert(m[x1] is None);
                assert(m[o1p] is None);
                assert(p0.sobran[x1] is None);
                assert(p0.sobran[o1p] is None);
                lema_pasada_fija(ua, p0, x1, x1);
                lema_pasada_fija(ua, p0, o1p, o1p);
                assert(participa(ua, p0, x1));
                assert(participa(ua, p0, o1p));
                lema_duenos(ua, p0, x1);
                let p1 = pasada_en(ua, p0, x1);
                assert(dueno_de(p1.duenos, k) is Some);
                let o1 = dueno_de(p1.duenos, k)->0;
                assert(o1 <= o1p);
                lema_dueno_queda(ua, p0, o1, n);
                lema_no_es_comando(ua[o1].clave);
                assert(fin[o1] == motivo_final(ua, m, o1));
                assert(fin[o1] is None);
                let y = choose|y: int| 0 <= y < idx.len() && #[trigger] idx[y] == o1;
                assert(ua2[y] == ua[o1]);
                if y > o2 {
                    assert(idx[o2] < idx[y]);
                }
                if y < o2 {
                    lema_segunda_nada(ua, p0, y);
                    assert(participa(ua2, q0, y));
                }
                assert(y == o2);
                // What the first cleaning saw.
                let q1 = pasada_en(ua, p0, x1 + 1);
                assert(q1 == paso_segunda(ua, x1, p1));
                lema_pasada_fija(ua, p0, n, x1);
                assert(m[x1] == q1.sobran[x1]);
                lema_comando_queda(ua, m, j);
                lema_comando_queda(ua, m, o2);
            }
        }
    } else {
        assert forall|t: int| 0 <= t < ua2.len() implies #[trigger] pasada_en(ua2, q0, i).sobran[t] is None by {
        }
    }
}

/// The shortcuts bound when the first pass reaches line `i`.
pub open spec fn ligados_en(ua: Seq<AsignacionV>, ns: Seq<bool>, aj: Seq<Atajo>, i: int) -> Seq<Atajo>
    decreases i,
{
    if i <= 0 {
        aj
    } else {
        let antes = ligados_en(ua, ns, aj, i - 1);
        let a = ua[i - 1];
        if ns[i - 1] && atajos(a).len() > 0 && !choca(atajos(a), antes) {
            antes + atajos(a)
        } else {
            antes
        }
    }
}

/// A mark of the first pass, once set, stays.
proof fn lema_primera_persiste(ua: Seq<AsignacionV>, ns: Seq<bool>, i: int, lig: Seq<Atajo>, m: Marcas, t: int)
    requires
        m.len() == ua.len(),
        0 <= t < ua.len(),
        m[t] is Some,
    ensures
        primera_pasada(ua, ns, i, lig, m)[t] is Some,
        primera_pasada(ua, ns, i, lig, m).len() == ua.len(),
    decreases ua.len() - i,
{
    if 0 <= i < ua.len() {
        let a = ua[i];
        if !ns[i] || atajos(a).len() == 0 {
            lema_primera_persiste(ua, ns, i + 1, lig, m, t);
        } else if choca(atajos(a), lig) {
            let m2 = m.update(i, Some(Motivo::LaPusimosYChoca));
            assert(m2[t] is Some);
            lema_primera_persiste(ua, ns, i + 1, lig, m2, t);
        } else {
            lema_primera_persiste(ua, ns, i + 1, lig + atajos(a), m, t);
        }
    }
}

/// The first pass marks a line the migration put when its shortcuts clash
/// with those bound when it is reached.
proof fn lema_primera_marca(ua: Seq<AsignacionV>, ns: Seq<bool>, aj: Seq<Atajo>, i: int, m: Marcas, t: int)
    requires
        m.len() == ua.len(),
        0 <= i <= t < ua.len(),
        ns[t],
        atajos(ua[t]).len() > 0,
        choca(atajos(ua[t]), ligados_en(ua, ns, aj, t)),
    ensures
        primera_pasada(ua, ns, i, ligados_en(ua, ns, aj, i), m)[t] is Some,
    decreases ua.len() - i,
{
    let a = ua[i];
    let lig = ligados_en(ua, ns, aj, i);
    assert(ligados_en(ua, ns, aj, i + 1) == if ns[i] && atajos(a).len() > 0 && !choca(atajos(a), lig) {
        lig + atajos(a)
    } else {
        lig
    });
    if !ns[i] || atajos(a).len() == 0 {
        lema_primera_marca(ua, ns, aj, i + 1, m, t);
    } else if choca(atajos(a), lig) {
        let m2 = m.update(i, Some(Motivo::LaPusimosYChoca));
        if t == i {
            assert(m2[t] is Some);
            lema_primera_persiste(ua, ns, i + 1, lig, m2, t);
        } else {
            lema_primera_marca(ua, ns, aj, i + 1, m2, t);
        }
    } else {
        lema_primera_marca(ua, ns, aj, i + 1, m, t);
    }
}

/// What is bound only grows as the first pass goes on.
proof fn lema_ligados_crecen(ua: Seq<AsignacionV>, ns: Seq<bool>, aj: Seq<Atajo>, i: int, j: int)
    requires
        0 <= i <= j <= ua.len(),
    ensures
        forall|c: Atajo| ligados_en(ua, ns, aj, i).contains(c) ==> #[trigger] ligados_en(ua, ns, aj, j).contains(c),
    decreases j,
{
    if i < j {
        lema_ligados_crecen(ua, ns, aj, i, j - 1);
        let antes = ligados_en(ua, ns, aj, j - 1);
        let a = ua[j - 1];
        if ns[j - 1] && atajos(a).len() > 0 && !choca(atajos(a), antes) {
            assert forall|c: Atajo| antes.contains(c) implies #[trigger] (antes + atajos(a)).contains(c) by {
                let q = choose|q: int| 0 <= q < antes.len() && antes[q] == c;
                assert((antes + atajos(a))[q] == c);
            }
        }
    }
}

/// A line of ours that clashes with nothing binds its shortcuts for what
/// comes after it.
proof fn lema_ligados_suma(ua: Seq<AsignacionV>, ns: Seq<bool>, aj: Seq<Atajo>, t: int)
    requires
        0 <= t < ua.len(),
        ns[t],
        atajos(ua[t]).len() > 0,
        !choca(atajos(ua[t]), ligados_en(ua, ns, aj, t)),
    ensures
        forall|c: Atajo| atajos(ua[t]).contains(c) ==> #[trigger] ligados_en(ua, ns, aj, t + 1).contains(c),
{
    let antes = ligados_en(ua, ns, aj, t);
    let a = ua[t];
    assert(ligados_en(ua, ns, aj, t + 1) == antes + atajos(a));
    assert forall|c: Atajo| atajos(a).contains(c) implies #[trigger] (antes + atajos(a)).contains(c) by {
        let q = choose|q: int| 0 <= q < atajos(a).len() && atajos(a)[q] == c;
        assert((antes + atajos(a))[antes.len() + q] == c);
    }
}

proof fn lema_atajos_ajenos(xs: Seq<AsignacionV>, ns: Seq<bool>)
    requires
        ns.len() >= xs.len(),
    ensures
        forall|c: Atajo|
            #[trigger] atajos_ajenos(xs, ns).contains(c) <==> exists|j: int|
                0 <= j < xs.len() && !ns[j] && #[trigger] atajos(xs[j]).contains(c),
    decreases xs.len(),
{
    if xs.len() > 0 {
        let prev = xs.drop_last();
        lema_atajos_ajenos(prev, ns);
        let ap = atajos_ajenos(prev, ns);
        let n = xs.len() - 1;
        let t = atajos_ajenos(xs, ns);
        assert forall|c: Atajo| #[trigger] t.contains(c) <==> exists|j: int|
            0 <= j < xs.len() && !ns[j] && #[trigger] atajos(xs[j]).contains(c) by {
            if t.contains(c) {
                let q = choose|q: int| 0 <= q < t.len() && t[q] == c;
                if ns[n] {
                    assert(t == ap);
                    let j = choose|j: int| 0 <= j < prev.len() && !ns[j] && #[trigger] atajos(prev[j]).contains(c);
                    assert(xs[j] == prev[j]);
                } else {
                    assert(t == ap + atajos(xs.last()));
                    if q < ap.len() {
                        assert(ap[q] == c);
                        assert(ap.contains(c));
                        let j = choose|j: int| 0 <= j < prev.len() && !ns[j] && #[trigger] atajos(prev[j]).contains(c);
                        assert(xs[j] == prev[j]);
                    } else {
                        assert(atajos(xs[n])[q - ap.len()] == c);
                        assert(atajos(xs[n]).contains(c));
                    }
                }
            }
            if exists|j: int| 0 <= j < xs.len() && !ns[j] && #[trigger] atajos(xs[j]).contains(c) {
                let j = choose|j: int| 0 <= j < xs.len() && !ns[j] && #[trigger] atajos(xs[j]).contains(c);
                if j < n {
                    assert(prev[j] == xs[j]);
                    assert(ap.contains(c));
                    let q = choose|q: int| 0 <= q < ap.len() && ap[q] == c;
                    if ns[n] {
                        assert(t == ap);
                    } else {
                        assert(t == ap + atajos(xs.last()));
                        assert(t[q] == c);
                    }
                } else {
                    assert(t == ap + atajos(xs.last()));
                    let q = choose|q: int| 0 <= q < atajos(xs[n]).len() && atajos(xs[n])[q] == c;
                    assert(t[ap.len() + q] == c);
                }
            }
        }
    } else {
        assert forall|c: Atajo| #[trigger] atajos_ajenos(xs, ns).contains(c) <==> exists|j: int|
            0 <= j < xs.len() && !ns[j] && #[trigger] atajos(xs[j]).contains(c) by {
        }
    }
}

/// On the lines cleaning keeps, the first pass marks nothing: what is bound
/// when it reaches one of them was bound at that point the first time too,
/// and the line did not clash then.
proof fn lema_primera_nada(
    ua: Seq<AsignacionV>,
    ns: Seq<bool>,
    aj: Seq<Atajo>,
    fin: Marcas,
    ns2: Seq<bool>,
    j: int,
    lig: Seq<Atajo>,
)
    requires
        ns.len() == ua.len(),
        fin.len() == ua.len(),
        forall|t: int|
            0 <= t < ua.len() && #[trigger] fin[t] is None ==> primera_pasada(ua, ns, 0, aj, sin_marcas(ua.len()))[t]
                is None,
        ns2.len() == quedan(fin, 0).len(),
        forall|y: int| 0 <= y < ns2.len() ==> #[trigger] ns2[y] == ns[quedan(fin, 0)[y]],
        0 <= j <= ns2.len(),
        j < ns2.len() ==> forall|c: Atajo|
            lig.contains(c) ==> #[trigger] ligados_en(ua, ns, aj, quedan(fin, 0)[j]).contains(c),
    ensures
        primera_pasada(restantes(ua, fin), ns2, j, lig, sin_marcas(ns2.len())) == sin_marcas(ns2.len()),
    decreases ns2.len() - j,
{
    let idx = quedan(fin, 0);
    let ua2 = restantes(ua, fin);
    let z = sin_marcas(ns2.len());
    lema_quedan(fin, 0);
    if j < ns2.len() {
        let x = idx[j];
        let a = ua2[j];
        assert(a == ua[x]);
        if j + 1 < ns2.len() {
            assert(x < idx[j + 1]);
            lema_ligados_crecen(ua, ns, aj, x, idx[j + 1]);
        }
        if !ns2[j] || atajos(a).len() == 0 {
            lema_primera_nada(ua, ns, aj, fin, ns2, j + 1, lig);
        } else {
            let l1 = ligados_en(ua, ns, aj, x);
            assert(!choca(atajos(a), l1)) by {
                if choca(atajos(a), l1) {
                    lema_primera_marca(ua, ns, aj, 0, sin_marcas(ua.len()), x);
                }
            }
            assert(!choca(atajos(a), lig)) by {
                if choca(atajos(a), lig) {
                    let q = choose|q: int| 0 <= q < atajos(a).len() && lig.contains(#[trigger] atajos(a)[q]);
                    assert(l1.contains(atajos(a)[q]));
                }
            }
            let lig2 = lig + atajos(a);
            if j + 1 < ns2.len() {
                lema_ligados_suma(ua, ns, aj, x);
                lema_ligados_crecen(ua, ns, aj, x + 1, idx[j + 1]);
                assert forall|c: Atajo| lig2.contains(c) implies #[trigger] ligados_en(ua, ns, aj, idx[j + 1]).contains(c) by {
                    let q = choose|q: int| 0 <= q < lig2.len() && lig2[q] == c;
                    if q < lig.len() {
                        assert(lig[q] == c);
                        assert(lig.contains(c));
                    } else {
                        assert(atajos(a)[q - lig.len()] == c);
                        assert(atajos(a).contains(c));
                    }
                }
            }
            lema_primera_nada(ua, ns, aj, fin, ns2, j + 1, lig2);
        }
    }
}

/// Run again on the assignments that a cleaning keeps, the cleaning's rules
/// mark nothing.
#[verifier::spinoff_prover]
#[verifier::rlimit(40)]
proof fn lema_restantes_sin_marcas(
    usuario: Seq<char>,
    paquete: Seq<char>,
    agregada: spec_fn(Seq<char>, Seq<char>) -> bool,
)
    ensures
        ({
            let ua = asignaciones(usuario);
            let nuestras = marcas_nuestras(ua, asignaciones(paquete), agregada);
            let s1 = primera_pasada(ua, nuestras, 0, atajos_ajenos(ua, nuestras), sin_marcas(ua.len()));
            let m = segunda_pasada(ua, 0, PasadaV { duenos: seq![], conflictos: seq![], sobran: s1 }).sobran;
            let ua2 = restantes(ua, marcas_finales(ua, m));
            let ns2 = marcas_nuestras(ua2, asignaciones(paquete), agregada);
            let s2 = primera_pasada(ua2, ns2, 0, atajos_ajenos(ua2, ns2), sin_marcas(ua2.len()));
            !alguna_marca(segunda_pasada(ua2, 0, PasadaV { duenos: seq![], conflictos: seq![], sobran: s2 }).sobran)
        }),
{
    lema_limpieza_quitadas(usuario, paquete, agregada);
    let ua = asignaciones(usuario);
    let pa = asignaciones(paquete);
    let ns = marcas_nuestras(ua, pa, agregada);
    let aj = atajos_ajenos(ua, ns);
    let s1 = primera_pasada(ua, ns, 0, aj, sin_marcas(ua.len()));
    let p0 = PasadaV { duenos: seq![], conflictos: seq![], sobran: s1 };
    let n = ua.len() as int;
    lema_pasada_marcas(ua, p0, n);
    let m = pasada_en(ua, p0, n).sobran;
    let fin = marcas_finales(ua, m);
    let idx = quedan(fin, 0);
    let ua2 = restantes(ua, fin);
    let ns2 = marcas_nuestras(ua2, pa, agregada);
    let aj2 = atajos_ajenos(ua2, ns2);
    lema_quedan(fin, 0);
    assert forall|t: int| 0 <= t < ua.len() && #[trigger] fin[t] is None implies s1[t] is None by {
        assert(fin[t] == motivo_final(ua, m, t));
    }
    assert forall|y: int| 0 <= y < ns2.len() implies #[trigger] ns2[y] == ns[idx[y]] by {
        assert(ua2[y] == ua[idx[y]]);
    }
    if ua2.len() > 0 {
        lema_atajos_ajenos(ua2, ns2);
        lema_atajos_ajenos(ua, ns);
        lema_ligados_crecen(ua, ns, aj, 0, idx[0]);
        assert forall|c: Atajo| aj2.contains(c) implies #[trigger] ligados_en(ua, ns, aj, idx[0]).contains(c) by {
            let y = choose|y: int| 0 <= y < ua2.len() && !ns2[y] && #[trigger] atajos(ua2[y]).contains(c);
            assert(ua2[y] == ua[idx[y]]);
            assert(ns2[y] == ns[idx[y]]);
            assert(atajos(ua[idx[y]]).contains(c));
            assert(aj.contains(c));
        }
    }
    lema_primera_nada(ua, ns, aj, fin, ns2, 0, aj2);
    let q0 = PasadaV { duenos: seq![], conflictos: seq![], sobran: sin_marcas(ua2.len()) };
    lema_segunda_nada(ua, p0, ua2.len() as int);
    lema_segunda_pasada_en(ua2, q0, ua2.len() as int);
}

/// The assignments that stay, from the `n`-th on.
pub open spec fn restantes_desde(ua: Seq<AsignacionV>, fin: Marcas, n: int) -> Seq<AsignacionV>
    decreases ua.len() - n,
{
    if n >= ua.len() || n < 0 {
        seq![]
    } else if fin[n] is Some {
        restantes_desde(ua, fin, n + 1)
    } else {
        seq![ua[n]] + restantes_desde(ua, fin, n + 1)
    }
}

proof fn lema_restantes_desde(ua: Seq<AsignacionV>, fin: Marcas, n: int)
    requires
        0 <= n,
        fin.len() == ua.len(),
    ensures
        restantes_desde(ua, fin, n).len() == quedan(fin, n).len(),
        forall|j: int|
            0 <= j < quedan(fin, n).len() ==> #[trigger] restantes_desde(ua, fin, n)[j] == ua[quedan(
                fin,
                n,
            )[j]],
    decreases ua.len() - n,
{
    if n < ua.len() {
        lema_restantes_desde(ua, fin, n + 1);
        let r = restantes_desde(ua, fin, n);
        let q = quedan(fin, n);
        if fin[n] is None {
            assert forall|j: int| 0 <= j < q.len() implies #[trigger] r[j] == ua[q[j]] by {
                if j > 0 {
                    assert(r[j] == restantes_desde(ua, fin, n + 1)[j - 1]);
                    assert(q[j] == quedan(fin, n + 1)[j - 1]);
                }
            }
        }
    }
}

/// The kept lines make the assignments that stay: taking out assignment
/// lines leaves every section header in place.
proof fn lema_sin_marcadas_asignaciones(
    ls: Seq<Seq<char>>,
    i: int,
    sec: Seq<char>,
    ua: Seq<AsignacionV>,
    n: int,
    fin: Marcas,
)
    requires
        0 <= i <= ls.len(),
        0 <= n <= ua.len(),
        fin.len() == ua.len(),
        asignaciones_desde(ls, i, sec) == ua.skip(n),
    ensures
        asignaciones_desde(sin_marcadas(ls, i, sec, n, fin).0, 0, sec) == restantes_desde(ua, fin, n),
        forall|k: int|
            0 <= k < sin_marcadas(ls, i, sec, n, fin).0.len() ==> exists|j: int|
                i <= j < ls.len() && #[trigger] sin_marcadas(ls, i, sec, n, fin).0[k] == ls[j],
        forall|k: int|
            0 <= k < sin_marcadas(ls, i, sec, n, fin).0.len() - 1 ==> exists|j: int|
                i <= j < ls.len() - 1 && #[trigger] sin_marcadas(ls, i, sec, n, fin).0[k] == ls[j],
    decreases ls.len() - i,
{
    let r = sin_marcadas(ls, i, sec, n, fin).0;
    if i == ls.len() {
        assert(ua.skip(n).len() == 0);
    } else {
        match seccion_en_linea(ls[i]) {
            Some(s) => {
                lema_sin_marcadas_asignaciones(ls, i + 1, s, ua, n, fin);
                let rr = sin_marcadas(ls, i + 1, s, n, fin).0;
                assert(r == seq![ls[i]] + rr);
                assert(r.skip(1) =~= rr.skip(0));
                crate::migracion::fusion::lema_desde_desplazado(r, 1, rr, 0, s);
                assert forall|k: int| 0 <= k < r.len() implies exists|j: int|
                    i <= j < ls.len() && #[trigger] r[k] == ls[j] by {
                    if k > 0 {
                        assert(r[k] == rr[k - 1]);
                    }
                }
                assert forall|k: int| 0 <= k < r.len() - 1 implies exists|j: int|
                    i <= j < ls.len() - 1 && #[trigger] r[k] == ls[j] by {
                    if k > 0 {
                        assert(r[k] == rr[k - 1]);
                    } else {
                        assert(rr[0] == r[1]);
                    }
                }
            },
            None => match clave_en_linea(ls[i]) {
                Some(k) => {
                    let a = AsignacionV { seccion: sec, clave: k, valor: valor_en_linea(ls[i]) };
                    assert(asignaciones_desde(ls, i, sec) == seq![a] + asignaciones_desde(ls, i + 1, sec));
                    assert(ua.skip(n).len() > 0);
                    assert(ua.skip(n)[0] == ua[n]);
                    assert(ua[n] == a);
                    assert(ua.skip(n + 1) =~= ua.skip(n).drop_first());
                    assert(asignaciones_desde(ls, i + 1, sec) =~= (seq![a] + asignaciones_desde(
                        ls,
                        i + 1,
                        sec,
                    )).drop_first());
                    lema_sin_marcadas_asignaciones(ls, i + 1, sec, ua, n + 1, fin);
                    let rr = sin_marcadas(ls, i + 1, sec, n + 1, fin).0;
                    if fin[n] is None {
                        assert(r == seq![ls[i]] + rr);
                        assert(r.skip(1) =~= rr.skip(0));
                        crate::migracion::fusion::lema_desde_desplazado(r, 1, rr, 0, sec);
                        assert forall|q: int| 0 <= q < r.len() implies exists|j: int|
                            i <= j < ls.len() && #[trigger] r[q] == ls[j] by {
                            if q > 0 {
                                assert(r[q] == rr[q - 1]);
                            }
                        }
                        assert forall|q: int| 0 <= q < r.len() - 1 implies exists|j: int|
                            i <= j < ls.len() - 1 && #[trigger] r[q] == ls[j] by {
                            if q > 0 {
                                assert(r[q] == rr[q - 1]);
                            } else {
                                assert(rr[0] == r[1]);
                            }
                        }
                    } else {
                        assert(r == rr);
                    }
                },
                None => {
                    lema_sin_marcadas_asignaciones(ls, i + 1, sec, ua, n, fin);
                    let rr = sin_marcadas(ls, i + 1, sec, n, fin).0;
                    assert(r == seq![ls[i]] + rr);
                    assert(r.skip(1) =~= rr.skip(0));
                    crate::migracion::fusion::lema_desde_desplazado(r, 1, rr, 0, sec);
                    assert forall|q: int| 0 <= q < r.len() implies exists|j: int|
                        i <= j < ls.len() && #[trigger] r[q] == ls[j] by {
                        if q > 0 {
                            assert(r[q] == rr[q - 1]);
                        }
                    }
                    assert forall|q: int| 0 <= q < r.len() - 1 implies exists|j: int|
                        i <= j < ls.len() - 1 && #[trigger] r[q] == ls[j] by {
                        if q > 0 {
                            assert(r[q] == rr[q - 1]);
                        } else {
                            assert(rr[0] == r[1]);
                        }
                    }
                },
            },
        }
    }
}

/// Every line of a text but the last is followed by a line break: one that
/// ends in a carriage return is followed by `\r\n` in the text.
pub(crate) proof fn lema_lineas_desde_menos_ultima(t: Seq<char>, i: int, actual: Seq<char>)
    requires
        0 <= i <= t.len(),
        actual.len() <= i,
        actual == t.subrange(i - actual.len(), i),
    ensures
        forall|k: int|
            0 <= k < lineas_desde(t, i, actual).len() - 1 ==> (#[trigger] lineas_desde(t, i, actual)[k].len()
                == 0 || lineas_desde(t, i, actual)[k].last() != '\r' || contiene(t, crlf())),
    decreases t.len() - i,
{
    let r = lineas_desde(t, i, actual);
    if i < t.len() {
        if t[i] == '\n' {
            assert(Seq::<char>::empty() =~= t.subrange(i + 1, i + 1));
            lema_lineas_desde_menos_ultima(t, i + 1, seq![]);
            let resto = lineas_desde(t, i + 1, seq![]);
            assert(r == seq![sin_cr(actual)] + resto);
            let l = sin_cr(actual);
            if l.len() > 0 && l.last() == '\r' {
                assert(actual.len() > 0 && actual.last() == '\r');
                assert(t[i - 1] == '\r');
                assert(t.subrange(i - 1, i - 1 + crlf().len()) =~= crlf());
                assert(contiene(t, crlf()));
            }
            assert forall|k: int| 0 <= k < r.len() - 1 implies (#[trigger] r[k].len() == 0 || r[k].last()
                != '\r' || contiene(t, crlf())) by {
                if k > 0 {
                    assert(r[k] == resto[k - 1]);
                } else {
                    assert(r[0] == l);
                }
            }
        } else {
            let a2 = actual.push(t[i]);
            assert(a2 =~= t.subrange(i + 1 - a2.len(), i + 1));
            lema_lineas_desde_menos_ultima(t, i + 1, a2);
            assert(r == lineas_desde(t, i + 1, a2));
        }
    } else {
        assert(r.len() <= 1);
    }
}

/// Lines of a file, written back with its line ending, read back as those
/// lines; but for a last empty line when the file had no final line break,
/// which is not read back.
#[verifier::spinoff_prover]
pub(crate) proof fn lema_rearmar_lineas(ls: Seq<Seq<char>>, u: Seq<char>)
    requires
        forall|k: int| 0 <= k < ls.len() ==> sin_caracter(#[trigger] ls[k], '\n'),
        forall|k: int|
            0 <= k < ls.len() - 1 ==> contiene(u, crlf()) || #[trigger] ls[k].len() == 0 || ls[k].last()
                != '\r',
        lleva_salto_final(u) && ls.len() > 0 ==> contiene(u, crlf()) || ls.last().len() == 0
            || ls.last().last() != '\r',
    ensures
        ls.len() > 0 && (lleva_salto_final(u) || ls.last().len() > 0) ==> lineas(rearmar(ls, u)) == ls,
        !lleva_salto_final(u) && ls.len() > 0 && ls.last().len() == 0 ==> lineas(rearmar(ls, u))
            == ls.drop_last(),
        ls.len() == 0 ==> lineas(rearmar(ls, u)) == if lleva_salto_final(u) {
            seq![Seq::<char>::empty()]
        } else {
            Seq::<Seq<char>>::empty()
        },
{
    let term = terminador(u);
    let t = rearmar(ls, u);
    assert(crlf() == seq!['\r', '\n']);
    assert(es_terminador(term));
    let e = Seq::<char>::empty();
    if ls.len() == 0 {
        assert(unir(ls, term) == e);
        if lleva_salto_final(u) {
            assert(t =~= e + term);
            assert(sin_caracter(e, '\n'));
            lema_linea_con_terminador(e, term);
        } else {
            assert(t =~= e);
            assert(lineas(e) =~= Seq::<Seq<char>>::empty());
            assert(ls =~= Seq::<Seq<char>>::empty());
        }
    } else if lleva_salto_final(u) {
        assert(se_leen_con(ls, term)) by {
            assert forall|k: int| 0 <= k < ls.len() implies sin_caracter(#[trigger] ls[k], '\n') && (term
                == crlf() || ls[k].len() == 0 || ls[k].last() != '\r') by {
                assert(sin_caracter(ls[k], '\n'));
            }
        }
        assert(t == unir(ls, term) + term);
        lema_lineas_unidas_con_final(ls, term);
    } else if ls.last().len() > 0 {
        assert(t =~= unir(ls, term));
        let x = ls.last();
        assert(sin_caracter(ls[ls.len() - 1], '\n'));
        lema_lineas_sin_salto_una(x);
        if ls.len() == 1 {
            assert(unir(ls, term) == ls[0]);
            assert(ls =~= seq![x]);
        } else {
            let prev = ls.drop_last();
            assert(se_leen_con(prev, term)) by {
                assert forall|k: int| 0 <= k < prev.len() implies sin_caracter(#[trigger] prev[k], '\n')
                    && (term == crlf() || prev[k].len() == 0 || prev[k].last() != '\r') by {
                    assert(prev[k] == ls[k]);
                }
            }
            lema_lineas_unidas_con_final(prev, term);
            let p = unir(prev, term) + term;
            assert(unir(ls, term) =~= p + x);
            assert(p.last() == '\n') by {
                assert(p.last() == term.last());
            }
            crate::texto::lema_lineas_concatenadas(p, x);
            assert(prev + seq![x] =~= ls);
        }
    } else {
        let prev = ls.drop_last();
        assert(ls.last() =~= e);
        assert(ls =~= prev.push(e));
        assert(t =~= unir(ls, term));
        if prev.len() == 0 {
            assert(unir(ls, term) == ls[0]);
            assert(t =~= e);
            assert(lineas(e) =~= Seq::<Seq<char>>::empty());
            assert(prev =~= Seq::<Seq<char>>::empty());
        } else {
            assert(unir(ls, term) == unir(prev, term) + term + ls.last());
            assert(t =~= unir(prev, term) + term);
            assert(se_leen_con(prev, term)) by {
                assert forall|k: int| 0 <= k < prev.len() implies sin_caracter(#[trigger] prev[k], '\n')
                    && (term == crlf() || prev[k].len() == 0 || prev[k].last() != '\r') by {
                    assert(prev[k] == ls[k]);
                }
            }
            lema_lineas_unidas_con_final(prev, term);
        }
    }
}

/// Lines of a file, written back with its line ending, make the assignments
/// they made.
proof fn lema_rearmar_asignaciones(ls: Seq<Seq<char>>, u: Seq<char>)
    requires
        forall|k: int| 0 <= k < ls.len() ==> sin_caracter(#[trigger] ls[k], '\n'),
        forall|k: int|
            0 <= k < ls.len() - 1 ==> contiene(u, crlf()) || #[trigger] ls[k].len() == 0 || ls[k].last()
                != '\r',
        lleva_salto_final(u) && ls.len() > 0 ==> contiene(u, crlf()) || ls.last().len() == 0
            || ls.last().last() != '\r',
    ensures
        asignaciones(rearmar(ls, u)) == asignaciones_lineas(ls),
{
    lema_rearmar_lineas(ls, u);
    if ls.len() == 0 && lleva_salto_final(u) {
        crate::migracion::fusion::lema_desde_empujar_vacia(ls, 0, seq![]);
        assert(ls.push(seq![]) =~= seq![Seq::<char>::empty()]);
        assert(asignaciones_lineas(ls) =~= Seq::<AsignacionV>::empty());
    }
    if !lleva_salto_final(u) && ls.len() > 0 && ls.last().len() == 0 {
        let prev = ls.drop_last();
        assert(ls.last() =~= Seq::<char>::empty());
        assert(ls =~= prev.push(seq![]));
        crate::migracion::fusion::lema_desde_empujar_vacia(prev, 0, seq![]);
    }
}

/// Cleaning twice changes nothing the second time: what the first cleaning
/// leaves has no line left to take out, so the second gives the text back as
/// it is, with nothing removed.
#[verifier::spinoff_prover]
#[verifier::rlimit(40)]
pub proof fn lema_limpiar_dos_veces(
    usuario: Seq<char>,
    paquete: Seq<char>,
    agregada: spec_fn(Seq<char>, Seq<char>) -> bool,
)
    ensures
        limpieza(limpieza(usuario, paquete, agregada).0, paquete, agregada).0 == limpieza(
            usuario,
            paquete,
            agregada,
        ).0,
        limpieza(limpieza(usuario, paquete, agregada).0, paquete, agregada).1.len() == 0,
{
    lema_limpieza_quitadas(usuario, paquete, agregada);
    lema_restantes_sin_marcas(usuario, paquete, agregada);
    let ua = asignaciones(usuario);
    let ns = marcas_nuestras(ua, asignaciones(paquete), agregada);
    let s1 = primera_pasada(ua, ns, 0, atajos_ajenos(ua, ns), sin_marcas(ua.len()));
    let p0 = PasadaV { duenos: seq![], conflictos: seq![], sobran: s1 };
    let m = segunda_pasada(ua, 0, p0).sobran;
    let t1 = limpieza(usuario, paquete, agregada).0;
    if alguna_marca(m) {
        let fin = marcas_finales(ua, m);
        let ls = lineas(usuario);
        let r = sin_marcadas(ls, 0, seq![], 0, fin);
        assert(t1 == rearmar(r.0, usuario));
        assert(ua.skip(0) =~= ua);
        lema_sin_marcadas_asignaciones(ls, 0, seq![], ua, 0, fin);
        lema_lineas_sin_salto(usuario);
        assert(Seq::<char>::empty() =~= usuario.subrange(0, 0));
        lema_lineas_desde_menos_ultima(usuario, 0, seq![]);
        let quedan_ls = r.0;
        assert forall|k: int| 0 <= k < quedan_ls.len() implies sin_caracter(#[trigger] quedan_ls[k], '\n') by {
            let j = choose|j: int| 0 <= j < ls.len() && #[trigger] quedan_ls[k] == ls[j];
            assert(sin_caracter(ls[j], '\n'));
        }
        assert forall|k: int| 0 <= k < quedan_ls.len() - 1 implies contiene(usuario, crlf()) || #[trigger] quedan_ls[k].len()
            == 0 || quedan_ls[k].last() != '\r' by {
            let j = choose|j: int| 0 <= j < ls.len() - 1 && #[trigger] quedan_ls[k] == ls[j];
            assert(ls[j].len() == 0 || ls[j].last() != '\r' || contiene(usuario, crlf()));
        }
        if lleva_salto_final(usuario) && quedan_ls.len() > 0 {
            lema_lineas_del_usuario(usuario);
            let j = choose|j: int| 0 <= j < ls.len() && #[trigger] quedan_ls[quedan_ls.len() - 1] == ls[j];
            assert(lineas_escribibles(ls, usuario));
            assert(ls[j].len() == 0 || ls[j].last() != '\r' || contiene(usuario, crlf()));
        }
        lema_rearmar_asignaciones(r.0, usuario);
        lema_restantes_desde(ua, fin, 0);
        assert(restantes(ua, fin) =~= restantes_desde(ua, fin, 0));
        assert(asignaciones(t1) == restantes(ua, fin));
    }
}

} // verus!
