//! Bringing an update to the accounts that already exist, without overwriting
//! anything.
//!
//! The desktop's defaults are installed in `/etc/skel`, which only reaches new
//! accounts. Copying the package's file over the user's erases what the person
//! configured; doing nothing freezes the desktop in the version it was
//! installed with. So the keys that are missing are **added**, and none that is
//! there is touched:
//!
//! 1. A value already there is never changed, even if the package brings
//!    another.
//! 2. Nothing is removed, not even what the package stopped bringing.
//! 3. What was offered once is not offered again, so that an option removed on
//!    purpose does not come back at every login.
//!
//! Files are handled line by line, never parsed and rewritten, so their
//! comments survive.

pub mod estado;
pub mod fusion;
pub mod ini;

pub mod limpieza;
pub mod lineas;
pub mod replacements;

use vstd::prelude::*;
use crate::migracion::estado::{Clave, ClaveV, Registro, vista_clave};
use crate::migracion::ini::{
    asignaciones, asignaciones_lineas, fin_fusion, fusion, fusionar_con,
    lema_fusion_conserva_y_no_reofrece, tiene_en, vista_claves, Consulta,
};
use crate::texto::{a_string, agregar, caracteres};

verus! {

/// The files that are merged, relative to the home.
///
/// A fixed list and not "whatever is in skel": each file is in because merging
/// it by key was checked to make sense. A `.face` or a `.zshrc` merged by key
/// would be a silent disaster. `mimeapps.list` is left out on purpose: it is
/// where the person's choices live, and the system's defaults belong in
/// `/usr/share/applications/mimeapps.list`, which reaches every account.
pub fn archivos() -> (r: [&'static str; 4])
    ensures
        r[0]@ == ".config/wayfire.ini"@,
        r[1]@ == ".config/gtk-3.0/settings.ini"@,
        r[2]@ == ".config/gtk-4.0/settings.ini"@,
        r[3]@ == ".config/Trolltech.conf"@,
{
    [
        ".config/wayfire.ini",
        ".config/gtk-3.0/settings.ini",
        ".config/gtk-4.0/settings.ini",
        ".config/Trolltech.conf",
    ]
}

/// Where the defaults come from.
pub const SKEL: &'static str = "/etc/skel";

/// What happened to a file.
#[derive(Debug, PartialEq, Eq)]
pub struct Resultado {
    pub archivo: String,
    pub agregadas: Vec<(String, String)>,
    pub motivo: Option<String>,
}

impl Resultado {
    /// A file that was skipped, and why.
    pub fn saltado(archivo: &str, motivo: &str) -> (r: Self)
        ensures
            r.archivo@ == archivo@,
            r.agregadas@.len() == 0,
            r.motivo matches Some(m) && m@ == motivo@,
    {
        Resultado {
            archivo: String::from_str(archivo),
            agregadas: Vec::new(),
            motivo: Some(String::from_str(motivo)),
        }
    }
}

/// Whether key `k` of section `s` of file `relativo` is in the record.
pub open spec fn ofrecida_en(ya: Set<ClaveV>, relativo: Seq<char>) -> spec_fn(
    Seq<char>,
    Seq<char>,
) -> bool {
    |s: Seq<char>, k: Seq<char>| ya.contains((relativo, s, k))
}

/// The record of an account, asked about one of its files.
pub struct EnRegistro<'a> {
    pub relativo: &'a str,
    pub ya: &'a Registro,
}

impl<'a> Consulta for EnRegistro<'a> {
    open spec fn valida(&self) -> bool {
        true
    }

    open spec fn dice(&self, s: Seq<char>, k: Seq<char>) -> bool {
        self.ya@.contains((self.relativo@, s, k))
    }

    fn consultar(&self, s: &String, k: &String) -> (r: bool) {
        let c: Clave = (String::from_str(self.relativo), s.clone(), k.clone());
        proof {
            assert(vista_clave(c) == (self.relativo@, s@, k@));
        }
        self.ya.contains(&c)
    }
}

/// Merges one file and gives the new text, or `None` when there is nothing to
/// change, with the section and key of each added line.
///
/// It touches no disk: that is what makes it testable, and what allows the
/// trial mode that writes nothing.
pub fn fusionar_texto(relativo: &str, usuario: &str, paquete: &str, ya: &Registro) -> (r: (
    Option<String>,
    Vec<(String, String)>,
))
    ensures
        ({
            let f = fusion(usuario@, paquete@, ofrecida_en(ya@, relativo@));
            if f.1.len() == 0 {
                r.0 is None && r.1@.len() == 0
            } else {
                r.0 matches Some(t) && t@ == f.0 && vista_claves(r.1@) == f.1
            }
        }),
{
    let c = EnRegistro { relativo, ya };
    let (texto, agregado) = fusionar_con(usuario, paquete, &c);
    proof {
        let f1 = |s: Seq<char>, k: Seq<char>| c.dice(s, k);
        assert(f1 =~= ofrecida_en(ya@, relativo@));
    }
    if agregado.claves.len() == 0 {
        return (None, Vec::new());
    }
    (Some(texto), agregado.claves)
}

/// What to do with one file.
pub enum Paso {
    /// Nothing to write: this is the result.
    Listo(Resultado),
    /// Write `nuevo` over the user's file; these lines were added.
    Escribir { nuevo: String, agregadas: Vec<(String, String)> },
}

/// Whether the step skips file `relativo` for reason `motivo`.
pub open spec fn es_saltado(r: Paso, relativo: Seq<char>, motivo: Seq<char>) -> bool {
    match r {
        Paso::Listo(res) => res.archivo@ == relativo && res.agregadas@.len() == 0 && match res.motivo {
            Some(m) => m@ == motivo,
            None => false,
        },
        Paso::Escribir { .. } => false,
    }
}

/// Decides what to do with file `relativo`, given the package's copy and the
/// user's (`None` where there is none) and the record.
///
/// A file the package does not bring is skipped. One the account does not have
/// is skipped too and **not created**: it may not use that component, and
/// creating configuration it did not ask for is the opposite of all this.
pub fn paso(relativo: &str, paquete: Option<&str>, usuario: Option<&str>, ya: &Registro) -> (r:
    Paso)
    ensures
        paquete is None ==> es_saltado(r, relativo@, "el paquete no lo trae"@),
        paquete is Some && usuario is None ==> es_saltado(r, relativo@, "la cuenta no lo tiene"@),
        paquete matches Some(p) ==> (usuario matches Some(u) ==> ({
            let f = fusion(u@, p@, ofrecida_en(ya@, relativo@));
            if f.1.len() == 0 {
                r matches Paso::Listo(res) && res.archivo@ == relativo@ && res.agregadas@.len()
                    == 0 && res.motivo is None
            } else {
                r matches Paso::Escribir { nuevo, agregadas } && nuevo@ == f.0 && vista_claves(
                    agregadas@,
                ) == f.1
            }
        })),
{
    let p = match paquete {
        Some(p) => p,
        None => {
            return Paso::Listo(Resultado::saltado(relativo, "el paquete no lo trae"));
        },
    };
    let u = match usuario {
        Some(u) => u,
        None => {
            return Paso::Listo(Resultado::saltado(relativo, "la cuenta no lo tiene"));
        },
    };
    let (nuevo, agregadas) = fusionar_texto(relativo, u, p, ya);
    match nuevo {
        Some(nuevo) => Paso::Escribir { nuevo, agregadas },
        None => Paso::Listo(
            Resultado { archivo: String::from_str(relativo), agregadas: Vec::new(), motivo: None },
        ),
    }
}

/// The record with the keys added to file `relativo` noted.
pub open spec fn anotadas(
    ya: Set<ClaveV>,
    relativo: Seq<char>,
    agregadas: Seq<(Seq<char>, Seq<char>)>,
) -> Set<ClaveV> {
    ya.union(Set::new(|c: ClaveV| c.0 == relativo && agregadas.contains((c.1, c.2))))
}

/// Notes in the record the keys that were added to file `relativo`.
///
/// Only once they were written: noting without applying would make the option
/// never be offered again without ever having arrived.
pub fn anotar(ya: &mut Registro, relativo: &str, agregadas: &Vec<(String, String)>)
    ensures
        final(ya)@ == anotadas(old(ya)@, relativo@, vista_claves(agregadas@)),
{
    let ghost inicial = ya@;
    let ghost v = vista_claves(agregadas@);
    let mut i: usize = 0;
    proof {
        assert(anotadas(inicial, relativo@, v.take(0)) =~= inicial);
    }
    while i < agregadas.len()
        invariant
            i <= agregadas@.len(),
            v == vista_claves(agregadas@),
            ya@ == anotadas(inicial, relativo@, v.take(i as int)),
        decreases agregadas@.len() - i,
    {
        let (s, k) = &agregadas[i];
        let c: Clave = (String::from_str(relativo), s.clone(), k.clone());
        let ghost antes = ya@;
        ya.insert(c);
        proof {
            let t0 = v.take(i as int);
            let t1 = v.take(i + 1);
            assert(v[i as int] == (s@, k@));
            assert(t1 =~= t0.push((s@, k@)));
            assert(ya@ =~= anotadas(inicial, relativo@, t1)) by {
                assert forall|x: ClaveV| #[trigger] ya@.contains(x) == anotadas(
                    inicial,
                    relativo@,
                    t1,
                ).contains(x) by {
                    if x == (relativo@, s@, k@) {
                        assert(t1[i as int] == (s@, k@));
                    } else if x.0 == relativo@ && t1.contains((x.1, x.2)) {
                        let j = choose|j: int| #![trigger t1[j]] 0 <= j < t1.len() && t1[j] == (x.1, x.2);
                        assert(j < i);
                        assert(t0[j] == (x.1, x.2));
                    } else if x.0 == relativo@ && t0.contains((x.1, x.2)) {
                        let j = choose|j: int| #![trigger t0[j]] 0 <= j < t0.len() && t0[j] == (x.1, x.2);
                        assert(t1[j] == (x.1, x.2));
                    }
                }
            }
        }
        i = i + 1;
    }
    proof {
        assert(v.take(agregadas@.len() as int) =~= v);
    }
}

/// What is reported for a file once its new text was written, or could not
/// be, and what the record keeps of it.
///
/// A written file reports the keys it received, and they are noted. One that
/// could not be written (`error` says why) is reported as skipped for that
/// reason, and nothing of it is noted: noting without applying would make the
/// option never be offered again without ever having arrived.
pub fn tras_escribir(
    ya: &mut Registro,
    relativo: &str,
    agregadas: Vec<(String, String)>,
    error: Option<&str>,
) -> (r: Resultado)
    ensures
        r.archivo@ == relativo@,
        match error {
            None => {
                &&& final(ya)@ == anotadas(old(ya)@, relativo@, vista_claves(agregadas@))
                &&& r.agregadas@ == agregadas@
                &&& r.motivo is None
            },
            Some(e) => {
                &&& final(ya)@ == old(ya)@
                &&& r.agregadas@.len() == 0
                &&& r.motivo matches Some(m) && m@ == "no se pudo escribir: "@ + e@
            },
        },
{
    match error {
        None => {
            anotar(ya, relativo, &agregadas);
            Resultado { archivo: String::from_str(relativo), agregadas, motivo: None }
        },
        Some(e) => {
            let mut m = caracteres("no se pudo escribir: ");
            let detalle = caracteres(e);
            agregar(&mut m, detalle.as_slice());
            let motivo = a_string(m.as_slice());
            Resultado::saltado(relativo, motivo.as_str())
        },
    }
}

/// What was offered once is not offered again: once the keys a merge added to
/// a file are noted in the record, no later merge of that file adds any of
/// them, whatever the file says by then (the person may have removed one on
/// purpose).
pub proof fn lema_lo_anotado_no_vuelve(
    relativo: Seq<char>,
    usuario: Seq<char>,
    paquete: Seq<char>,
    ya: Set<ClaveV>,
    despues: Seq<char>,
)
    ensures
        ({
            let primera = fusion(usuario, paquete, ofrecida_en(ya, relativo));
            let anotado = anotadas(ya, relativo, primera.1);
            let segunda = fusion(despues, paquete, ofrecida_en(anotado, relativo));
            forall|i: int, j: int|
                0 <= i < primera.1.len() && 0 <= j < segunda.1.len() ==> #[trigger] primera.1[i]
                    != #[trigger] segunda.1[j]
        }),
{
    let primera = fusion(usuario, paquete, ofrecida_en(ya, relativo));
    let anotado = anotadas(ya, relativo, primera.1);
    let of2 = ofrecida_en(anotado, relativo);
    lema_fusion_conserva_y_no_reofrece(despues, paquete, of2);
    let segunda = fusion(despues, paquete, of2);
    assert forall|i: int, j: int|
        0 <= i < primera.1.len() && 0 <= j < segunda.1.len() implies #[trigger] primera.1[i]
            != #[trigger] segunda.1[j] by {
        let c = primera.1[i];
        assert(primera.1.contains(c));
        assert(anotado.contains((relativo, c.0, c.1)));
        assert(of2(c.0, c.1));
        assert(!of2(segunda.1[j].0, segunda.1[j].1));
    }
}

/// Deleted stays deleted: a key that a merge added to file `relativo`, once
/// noted in the record and then taken out of the file by the person, is
/// assigned by no line of any later merge of that file.
pub proof fn lema_lo_borrado_no_vuelve(
    relativo: Seq<char>,
    usuario: Seq<char>,
    paquete: Seq<char>,
    ya: Set<ClaveV>,
    despues: Seq<char>,
    s: Seq<char>,
    k: Seq<char>,
)
    requires
        fusion(usuario, paquete, ofrecida_en(ya, relativo)).1.contains((s, k)),
        !tiene_en(asignaciones(despues), s, k),
    ensures
        !tiene_en(
            asignaciones_lineas(
                fin_fusion(
                    despues,
                    paquete,
                    ofrecida_en(
                        anotadas(ya, relativo, fusion(usuario, paquete, ofrecida_en(ya, relativo)).1),
                        relativo,
                    ),
                ).lineas,
            ),
            s,
            k,
        ),
{
    let primera = fusion(usuario, paquete, ofrecida_en(ya, relativo));
    let anotado = anotadas(ya, relativo, primera.1);
    let of2 = ofrecida_en(anotado, relativo);
    let f2 = asignaciones_lineas(fin_fusion(despues, paquete, of2).lineas);
    let segunda = fusion(despues, paquete, of2);
    lema_lo_anotado_no_vuelve(relativo, usuario, paquete, ya, despues);
    crate::migracion::fusion::lema_fusion_origen(despues, paquete, of2);
    if tiene_en(f2, s, k) {
        let w = choose|w: int| 0 <= w < f2.len() && #[trigger] f2[w].seccion == s && f2[w].clave == k;
        let x = f2[w];
        assert(f2.contains(x));
        if asignaciones(despues).contains(x) {
            let v = choose|v: int| 0 <= v < asignaciones(despues).len() && asignaciones(despues)[v] == x;
            assert(asignaciones(despues)[v].seccion == s && asignaciones(despues)[v].clave == k);
        } else {
            assert(segunda.1.contains((s, k)));
            let j = choose|j: int| 0 <= j < segunda.1.len() && segunda.1[j] == (s, k);
            let i = choose|i: int| 0 <= i < primera.1.len() && primera.1[i] == (s, k);
            assert(primera.1[i] != segunda.1[j]);
        }
    }
}

} // verus!
