//! Which keys were already offered to this account.
//!
//! This is what separates "updating without overwriting" from "insisting
//! forever": without this record, an option the person **removed on purpose**
//! would come back at the next login, and the one after.
//!
//! The format is one line per key, tab-separated: readable, greppable and easy
//! to edit by hand when someone wants an option offered again.

use vstd::prelude::*;
use crate::texto::{
    a_string, caracteres, lema_lex_irreflexivo, lema_lex_total, lema_lex_transitivo, lex_menor, lineas, lineas_de, menor, partes, partir, recortado, recorte, vista, sin_caracter, sin_cr, lema_lineas_concatenadas, lema_lineas_una, lema_lineas_sin, lema_partes_sin, lema_partes_corte, lema_recortado_no_termina_en_blanco, es_blanco,
};

verus! {

/// The name of the file inside the state directory.
pub const NOMBRE: &'static str = "config-aplicada.tsv";

/// The comment the file starts with.
pub const CABECERA: &'static str = "# Claves que VasakOS ya le ofreció a esta cuenta.\n# Se anotan para no volver a agregar lo que se borró a propósito.\n# Borrar una línea hace que esa opción se vuelva a ofrecer.\n";

/// A key already offered: from which file, which section and which key.
pub type Clave = (String, String, String);

/// A key already offered, as values.
pub type ClaveV = (Seq<char>, Seq<char>, Seq<char>);

/// A key, as values.
pub open spec fn vista_clave(c: Clave) -> ClaveV {
    (c.0@, c.1@, c.2@)
}

/// The order of the keys in the file: by file, then section, then key, each
/// as `String` orders them.
pub open spec fn clave_menor(x: ClaveV, y: ClaveV) -> bool {
    ||| lex_menor(x.0, y.0)
    ||| x.0 == y.0 && lex_menor(x.1, y.1)
    ||| x.0 == y.0 && x.1 == y.1 && lex_menor(x.2, y.2)
}

/// Strictly increasing: in order, and each key once.
pub open spec fn ordenada(s: Seq<ClaveV>) -> bool {
    forall|i: int, j: int| 0 <= i < j < s.len() ==> clave_menor(#[trigger] s[i], #[trigger] s[j])
}

pub proof fn lema_clave_irreflexiva(x: ClaveV)
    ensures
        !clave_menor(x, x),
{
    lema_lex_irreflexivo(x.0);
    lema_lex_irreflexivo(x.1);
    lema_lex_irreflexivo(x.2);
}

pub proof fn lema_clave_transitiva(x: ClaveV, y: ClaveV, z: ClaveV)
    requires
        clave_menor(x, y),
        clave_menor(y, z),
    ensures
        clave_menor(x, z),
{
    if lex_menor(x.0, y.0) && lex_menor(y.0, z.0) {
        lema_lex_transitivo(x.0, y.0, z.0);
    } else if x.0 == y.0 && y.0 == z.0 {
        if lex_menor(x.1, y.1) && lex_menor(y.1, z.1) {
            lema_lex_transitivo(x.1, y.1, z.1);
        } else if x.1 == y.1 && y.1 == z.1 {
            lema_lex_transitivo(x.2, y.2, z.2);
        }
    }
}

pub proof fn lema_clave_total(x: ClaveV, y: ClaveV)
    requires
        x != y,
    ensures
        clave_menor(x, y) || clave_menor(y, x),
{
    if x.0 != y.0 {
        lema_lex_total(x.0, y.0);
    } else if x.1 != y.1 {
        lema_lex_total(x.1, y.1);
    } else {
        lema_lex_total(x.2, y.2);
    }
}

/// A sequence in increasing order has no repeats.
pub proof fn lema_ordenada_sin_repetidos(l: Seq<ClaveV>)
    requires
        ordenada(l),
    ensures
        l.no_duplicates(),
{
    assert forall|i: int, j: int| 0 <= i < l.len() && 0 <= j < l.len() && i != j implies l[i] != l[j] by {
        lema_clave_irreflexiva(l[i]);
    }
}

/// The keys offered to an account: a set, kept in the order the file lists
/// them, so two records with the same keys are the same value.
#[derive(Debug, PartialEq, Eq)]
pub struct Registro {
    claves: Vec<Clave>,
}

impl Registro {
    /// The keys in order.
    pub closed spec fn lista(&self) -> Seq<ClaveV> {
        self.claves@.map_values(|c: Clave| vista_clave(c))
    }

    #[verifier::type_invariant]
    spec fn bien_formado(&self) -> bool {
        ordenada(self.lista())
    }

    /// An empty record.
    pub fn new() -> (r: Registro)
        ensures
            r@ == Set::<ClaveV>::empty(),
    {
        let r = Registro { claves: Vec::new() };
        proof {
            assert(r.lista().to_set() =~= Set::<ClaveV>::empty());
        }
        r
    }

    /// How many keys there are.
    pub fn len(&self) -> (n: usize)
        ensures
            n == self@.len(),
    {
        proof {
            use_type_invariant(self);
            lema_ordenada_sin_repetidos(self.lista());
            self.lista().unique_seq_to_set();
        }
        self.claves.len()
    }

    /// Whether there are none.
    pub fn is_empty(&self) -> (r: bool)
        ensures
            r == (self@.len() == 0),
    {
        self.len() == 0
    }

    /// Whether the key was offered.
    pub fn contains(&self, c: &Clave) -> (r: bool)
        ensures
            r == self@.contains(vista_clave(*c)),
    {
        let ghost l = self.lista();
        let mut i: usize = 0;
        while i < self.claves.len()
            invariant
                i <= self.claves@.len(),
                l == self.lista(),
                forall|j: int| 0 <= j < i ==> l[j] != vista_clave(*c),
            decreases self.claves@.len() - i,
        {
            if self.claves[i].0 == c.0 && self.claves[i].1 == c.1 && self.claves[i].2 == c.2 {
                assert(l[i as int] == vista_clave(*c));
                assert(l.to_set().contains(l[i as int]));
                return true;
            }
            i = i + 1;
        }
        proof {
            if l.to_set().contains(vista_clave(*c)) {
                let j = choose|j: int| 0 <= j < l.len() && l[j] == vista_clave(*c);
                assert(l[j] == vista_clave(*c));
            }
        }
        false
    }

    /// Adds a key; `true` when it was not there yet.
    pub fn insert(&mut self, c: Clave) -> (r: bool)
        ensures
            final(self)@ == old(self)@.insert(vista_clave(c)),
            r == !old(self)@.contains(vista_clave(c)),
    {
        proof {
            use_type_invariant(&*self);
        }
        let ghost l = self.lista();
        let ghost x = vista_clave(c);
        let mut j: usize = 0;
        while j < self.claves.len() && menor_clave(&self.claves[j], &c)
            invariant
                j <= self.claves@.len(),
                l == self.lista(),
                ordenada(l),
                x == vista_clave(c),
                forall|k: int| 0 <= k < j ==> clave_menor(#[trigger] l[k], x),
            decreases self.claves@.len() - j,
        {
            j = j + 1;
        }
        if j < self.claves.len() && self.claves[j].0 == c.0 && self.claves[j].1 == c.1
            && self.claves[j].2 == c.2 {
            proof {
                assert(l[j as int] == x);
                assert(l.to_set().contains(x));
                assert(l.to_set().insert(x) =~= l.to_set());
            }
            return false;
        }
        proof {
            if j < l.len() {
                assert(!clave_menor(l[j as int], x));
                assert(l[j as int] != x);
                lema_clave_total(l[j as int], x);
            }
            assert forall|k: int| j <= k < l.len() implies clave_menor(x, #[trigger] l[k]) by {
                if k > j {
                    lema_clave_transitiva(x, l[j as int], l[k]);
                }
            }
            assert forall|k: int| 0 <= k < l.len() implies l[k] != x by {
                if k < j {
                    lema_clave_irreflexiva(x);
                } else {
                    lema_clave_irreflexiva(x);
                }
            }
        }
        let mut claves: Vec<Clave> = Vec::new();
        std::mem::swap(&mut claves, &mut self.claves);
        claves.insert(j, c);
        proof {
            let n = claves@.map_values(|c: Clave| vista_clave(c));
            assert(n =~= l.insert(j as int, x));
            assert(ordenada(n)) by {
                assert forall|a: int, b: int| 0 <= a < b < n.len() implies clave_menor(
                    #[trigger] n[a],
                    #[trigger] n[b],
                ) by {
                    if b < j {
                        assert(n[a] == l[a] && n[b] == l[b]);
                    } else if b == j {
                        assert(n[a] == l[a]);
                    } else if a < j {
                        assert(n[a] == l[a] && n[b] == l[b - 1]);
                        lema_clave_transitiva(l[a], x, l[b - 1]);
                    } else if a == j {
                        assert(n[b] == l[b - 1]);
                    } else {
                        assert(n[a] == l[a - 1] && n[b] == l[b - 1]);
                    }
                }
            }
        }
        self.claves = claves;
        proof {
            let n = self.lista();
            assert(n =~= l.insert(j as int, x));
            assert(n.to_set() =~= l.to_set().insert(x)) by {
                assert forall|y: ClaveV| n.to_set().contains(y) implies l.to_set().insert(x).contains(y) by {
                    let k = choose|k: int| 0 <= k < n.len() && n[k] == y;
                    if k < j {
                        assert(l[k] == y);
                    } else if k > j {
                        assert(l[k - 1] == y);
                    }
                }
                assert forall|y: ClaveV| l.to_set().insert(x).contains(y) implies n.to_set().contains(y) by {
                    if y == x {
                        assert(n[j as int] == x);
                    } else {
                        let k = choose|k: int| 0 <= k < l.len() && l[k] == y;
                        if k < j {
                            assert(n[k] == y);
                        } else {
                            assert(n[k + 1] == y);
                        }
                    }
                }
            }
            assert(!l.to_set().contains(x)) by {
                if l.to_set().contains(x) {
                    let k = choose|k: int| 0 <= k < l.len() && l[k] == x;
                    assert(l[k] != x);
                }
            }
        }
        true
    }
}

impl View for Registro {
    type V = Set<ClaveV>;

    open spec fn view(&self) -> Set<ClaveV> {
        self.lista().to_set()
    }
}

/// Whether key `a` goes before key `b`.
fn menor_clave(a: &Clave, b: &Clave) -> (r: bool)
    ensures
        r == clave_menor(vista_clave(*a), vista_clave(*b)),
{
    let a0 = caracteres(a.0.as_str());
    let b0 = caracteres(b.0.as_str());
    if menor(a0.as_slice(), b0.as_slice()) {
        return true;
    }
    if a.0 != b.0 {
        return false;
    }
    let a1 = caracteres(a.1.as_str());
    let b1 = caracteres(b.1.as_str());
    if menor(a1.as_slice(), b1.as_slice()) {
        return true;
    }
    if a.1 != b.1 {
        return false;
    }
    let a2 = caracteres(a.2.as_str());
    let b2 = caracteres(b.2.as_str());
    menor(a2.as_slice(), b2.as_slice())
}


/// The key a line of the record holds: three fields separated by tabs (more
/// are ignored), each trimmed; the file and the key cannot be empty. Any other
/// line, comments included, holds none.
pub open spec fn clave_en_registro(l: Seq<char>) -> Option<ClaveV> {
    let ps = partes(l, '\t');
    if ps.len() >= 3 && recorte(ps[0]).len() > 0 && recorte(ps[2]).len() > 0 {
        Some((recorte(ps[0]), recorte(ps[1]), recorte(ps[2])))
    } else {
        None
    }
}

/// The keys the lines hold.
pub open spec fn leidas(ls: Seq<Seq<char>>) -> Set<ClaveV>
    decreases ls.len(),
{
    if ls.len() == 0 {
        Set::empty()
    } else {
        match clave_en_registro(ls.last()) {
            Some(c) => leidas(ls.drop_last()).insert(c),
            None => leidas(ls.drop_last()),
        }
    }
}

/// Reads the record. A missing file is an empty record, and a line cut in half
/// is skipped without taking the rest with it.
pub fn leer(texto: &str) -> (r: Registro)
    ensures
        r@ == leidas(lineas(texto@)),
{
    let t = caracteres(texto);
    let ls = lineas_de(t.as_slice());
    let ghost v = vista(ls@);
    let mut r = Registro::new();
    let mut i: usize = 0;
    while i < ls.len()
        invariant
            i <= ls@.len(),
            v == vista(ls@),
            v == lineas(texto@),
            r@ == leidas(v.take(i as int)),
        decreases ls@.len() - i,
    {
        proof {
            assert(v.take(i + 1).drop_last() =~= v.take(i as int));
            assert(v.take(i + 1).last() == ls@[i as int]@);
        }
        let ps = partir(ls[i].as_slice(), '\t');
        if ps.len() >= 3 {
            let archivo = recortado(ps[0].as_slice());
            let seccion = recortado(ps[1].as_slice());
            let clave = recortado(ps[2].as_slice());
            if archivo.len() > 0 && clave.len() > 0 {
                let c = (
                    a_string(archivo.as_slice()),
                    a_string(seccion.as_slice()),
                    a_string(clave.as_slice()),
                );
                r.insert(c);
            }
        }
        i = i + 1;
    }
    proof {
        assert(v.take(ls@.len() as int) =~= v);
    }
    r
}

/// The line of the record that holds a key.
pub open spec fn linea_de_clave(c: ClaveV) -> Seq<char> {
    c.0 + seq!['\t'] + c.1 + seq!['\t'] + c.2 + seq!['\n']
}

/// The lines of the record that hold these keys, in this order.
pub open spec fn renglones(s: Seq<ClaveV>) -> Seq<char>
    decreases s.len(),
{
    if s.len() == 0 {
        seq![]
    } else {
        renglones(s.drop_last()) + linea_de_clave(s.last())
    }
}

/// Writes the record: the comment that explains it, then one line per key in
/// increasing order, so that the file does not change order between logins
/// and a `diff` tells what was added.
pub fn escribir(claves: &Registro) -> (r: String)
    ensures
        r@ == CABECERA@ + renglones(claves.lista()),
        ordenada(claves.lista()),
        claves.lista().to_set() == claves@,
{
    proof {
        use_type_invariant(claves);
        reveal_strlit("\t");
        reveal_strlit("\n");
        assert("\t"@ =~= seq!['\t']);
        assert("\n"@ =~= seq!['\n']);
    }
    let ghost l = claves.lista();
    let mut texto = String::from_str(CABECERA);
    let mut i: usize = 0;
    while i < claves.claves.len()
        invariant
            i <= claves.claves@.len(),
            l == claves.lista(),
            texto@ == CABECERA@ + renglones(l.take(i as int)),
            "\t"@ == seq!['\t'],
            "\n"@ == seq!['\n'],
        decreases claves.claves@.len() - i,
    {
        let c = &claves.claves[i];
        let ghost t0 = texto@;
        texto.append(c.0.as_str());
        texto.append("\t");
        texto.append(c.1.as_str());
        texto.append("\t");
        texto.append(c.2.as_str());
        texto.append("\n");
        i = i + 1;
        proof {
            assert(l.take(i as int).drop_last() =~= l.take(i - 1));
            assert(l.take(i as int).last() == vista_clave(*c));
            assert(texto@ =~= t0 + linea_de_clave(vista_clave(*c)));
            assert(texto@ =~= CABECERA@ + renglones(l.take(i as int)));
        }
    }
    proof {
        assert(l.take(l.len() as int) =~= l);
    }
    texto
}

/// A key the record's format holds as it is: no tab or line break in it, no
/// white space at either end of a field, and a file and a key that are not
/// empty.
pub open spec fn escribible(c: ClaveV) -> bool {
    &&& sin_caracter(c.0, '\t') && sin_caracter(c.1, '\t') && sin_caracter(c.2, '\t')
    &&& sin_caracter(c.0, '\n') && sin_caracter(c.1, '\n') && sin_caracter(c.2, '\n')
    &&& recorte(c.0) == c.0 && recorte(c.1) == c.1 && recorte(c.2) == c.2
    &&& c.0.len() > 0 && c.2.len() > 0
}

/// The line that holds a key, without its line break.
spec fn contenido(c: ClaveV) -> Seq<char> {
    c.0 + seq!['\t'] + c.1 + seq!['\t'] + c.2
}

proof fn lema_contenido(c: ClaveV)
    requires
        escribible(c),
    ensures
        linea_de_clave(c) == contenido(c).push('\n'),
        sin_caracter(contenido(c), '\n'),
        sin_cr(contenido(c)) == contenido(c),
        clave_en_registro(contenido(c)) == Some(c),
{
    let t = contenido(c);
    assert(linea_de_clave(c) =~= t.push('\n'));
    assert forall|k: int| 0 <= k < t.len() implies #[trigger] t[k] != '\n' by {
        let n0 = c.0.len() as int;
        let n1 = c.1.len() as int;
        if k < n0 {
            assert(t[k] == c.0[k]);
        } else if k == n0 {
            assert(t[k] == '\t');
        } else if k < n0 + 1 + n1 {
            assert(t[k] == c.1[k - n0 - 1]);
        } else if k == n0 + 1 + n1 {
            assert(t[k] == '\t');
        } else {
            assert(t[k] == c.2[k - n0 - n1 - 2]);
        }
    }
    lema_recortado_no_termina_en_blanco(c.2);
    assert(t.last() == c.2.last());
    assert(es_blanco('\r'));
    let resto = c.1 + seq!['\t'] + c.2;
    assert(t =~= c.0 + seq!['\t'] + resto);
    lema_partes_corte(c.0, resto, '\t');
    lema_partes_corte(c.1, c.2, '\t');
    lema_partes_sin(c.2, '\t');
    assert(partes(t, '\t') =~= seq![c.0, c.1, c.2]);
}

proof fn lema_lineas_renglones(l: Seq<ClaveV>)
    requires
        forall|i: int| 0 <= i < l.len() ==> escribible(#[trigger] l[i]),
    ensures
        lineas(renglones(l)) == l.map_values(|c: ClaveV| contenido(c)),
        renglones(l).len() == 0 || renglones(l).last() == '\n',
    decreases l.len(),
{
    if l.len() == 0 {
        assert(lineas(renglones(l)) =~= Seq::<Seq<char>>::empty());
        assert(l.map_values(|c: ClaveV| contenido(c)) =~= Seq::<Seq<char>>::empty());
    } else {
        let dl = l.drop_last();
        assert forall|i: int| 0 <= i < dl.len() implies escribible(#[trigger] dl[i]) by {
            assert(dl[i] == l[i]);
        }
        lema_lineas_renglones(dl);
        let c = l.last();
        assert(escribible(l[l.len() - 1]));
        lema_contenido(c);
        lema_lineas_concatenadas(renglones(dl), linea_de_clave(c));
        lema_lineas_una(contenido(c));
        assert(l.map_values(|c: ClaveV| contenido(c)) =~= dl.map_values(|c: ClaveV| contenido(c)).push(
            contenido(c),
        ));
        assert(renglones(l).last() == '\n');
    }
}

proof fn lema_leidas_concatenadas(a: Seq<Seq<char>>, b: Seq<Seq<char>>)
    ensures
        leidas(a + b) == leidas(a).union(leidas(b)),
    decreases b.len(),
{
    if b.len() == 0 {
        assert(a + b =~= a);
        assert(leidas(a).union(leidas(b)) =~= leidas(a));
    } else {
        assert((a + b).drop_last() =~= a + b.drop_last());
        assert((a + b).last() == b.last());
        lema_leidas_concatenadas(a, b.drop_last());
        match clave_en_registro(b.last()) {
            Some(c) => {
                assert(leidas(a + b) =~= leidas(a).union(leidas(b)));
            },
            None => {},
        }
    }
}

proof fn lema_leidas_sin_tab(ls: Seq<Seq<char>>)
    requires
        forall|k: int| 0 <= k < ls.len() ==> sin_caracter(#[trigger] ls[k], '\t'),
    ensures
        leidas(ls) == Set::<ClaveV>::empty(),
    decreases ls.len(),
{
    if ls.len() > 0 {
        let dl = ls.drop_last();
        assert forall|k: int| 0 <= k < dl.len() implies sin_caracter(#[trigger] dl[k], '\t') by {
            assert(dl[k] == ls[k]);
        }
        lema_leidas_sin_tab(dl);
        assert(sin_caracter(ls[ls.len() - 1], '\t'));
        lema_partes_sin(ls.last(), '\t');
    }
}

proof fn lema_leidas_contenidos(l: Seq<ClaveV>)
    requires
        forall|i: int| 0 <= i < l.len() ==> escribible(#[trigger] l[i]),
    ensures
        leidas(l.map_values(|c: ClaveV| contenido(c))) == l.to_set(),
    decreases l.len(),
{
    let m = l.map_values(|c: ClaveV| contenido(c));
    if l.len() == 0 {
        assert(l.to_set() =~= Set::<ClaveV>::empty());
    } else {
        let dl = l.drop_last();
        assert forall|i: int| 0 <= i < dl.len() implies escribible(#[trigger] dl[i]) by {
            assert(dl[i] == l[i]);
        }
        lema_leidas_contenidos(dl);
        assert(m.drop_last() =~= dl.map_values(|c: ClaveV| contenido(c)));
        assert(escribible(l[l.len() - 1]));
        lema_contenido(l.last());
        assert(m.last() == contenido(l.last()));
        assert(l.to_set() =~= dl.to_set().insert(l.last())) by {
            assert forall|x: ClaveV| #[trigger] l.to_set().contains(x) == dl.to_set().insert(
                l.last(),
            ).contains(x) by {
                if l.contains(x) {
                    let j = choose|j: int| 0 <= j < l.len() && l[j] == x;
                    if j < dl.len() {
                        assert(dl[j] == x);
                    }
                }
                if dl.contains(x) {
                    let j = choose|j: int| 0 <= j < dl.len() && dl[j] == x;
                    assert(l[j] == x);
                }
                if x == l.last() {
                    assert(l[l.len() - 1] == x);
                }
            }
        }
    }
}

proof fn lema_cabecera()
    ensures
        sin_caracter(CABECERA@, '\t'),
        CABECERA@.len() > 0,
        CABECERA@.last() == '\n',
{
    reveal_strlit(
        "# Claves que VasakOS ya le ofreció a esta cuenta.\n# Se anotan para no volver a agregar lo que se borró a propósito.\n# Borrar una línea hace que esa opción se vuelva a ofrecer.\n",
    );
}

/// The record reads back what it wrote: for keys the format holds as they
/// are, reading the written text gives exactly those keys, the comment at the
/// top included.
pub proof fn lema_se_lee_lo_que_se_escribe(l: Seq<ClaveV>)
    requires
        forall|i: int| 0 <= i < l.len() ==> escribible(#[trigger] l[i]),
    ensures
        leidas(lineas(CABECERA@ + renglones(l))) == l.to_set(),
{
    lema_cabecera();
    lema_lineas_concatenadas(CABECERA@, renglones(l));
    lema_lineas_renglones(l);
    lema_lineas_sin(CABECERA@, '\t');
    lema_leidas_sin_tab(lineas(CABECERA@));
    lema_leidas_concatenadas(lineas(CABECERA@), lineas(renglones(l)));
    lema_leidas_contenidos(l);
    assert(Set::<ClaveV>::empty().union(l.to_set()) =~= l.to_set());
}

/// Reading what `escribir` wrote gives the same record, when all its keys are
/// ones the format holds as they are.
pub proof fn lema_registro_se_lee_como_se_escribio(r: Registro)
    requires
        forall|c: ClaveV| r@.contains(c) ==> escribible(c),
    ensures
        leidas(lineas(CABECERA@ + renglones(r.lista()))) == r@,
{
    let l = r.lista();
    assert forall|i: int| 0 <= i < l.len() implies escribible(#[trigger] l[i]) by {
        assert(l.to_set().contains(l[i]));
    }
    lema_se_lee_lo_que_se_escribe(l);
}

/// `parte` added to the path `base`, as `PathBuf::join` does it: an absolute
/// `parte` replaces `base`, and a separator goes between them when `base`
/// does not end with one.
pub open spec fn unir_ruta(base: Seq<char>, parte: Seq<char>) -> Seq<char> {
    if parte.len() > 0 && parte[0] == '/' {
        parte
    } else if base.len() == 0 || base.last() == '/' {
        base + parte
    } else {
        base + seq!['/'] + parte
    }
}

/// `parte` added to the path `base`.
pub fn unir_rutas(base: &str, parte: &str) -> (r: String)
    ensures
        r@ == unir_ruta(base@, parte@),
{
    let b = caracteres(base);
    let p = caracteres(parte);
    if p.len() > 0 && p[0] == '/' {
        return String::from_str(parte);
    }
    let mut r = String::from_str(base);
    if b.len() > 0 && b[b.len() - 1] != '/' {
        proof {
            reveal_strlit("/");
        }
        r.append("/");
    }
    r.append(parte);
    r
}

/// Where the record lives: under `$XDG_STATE_HOME` when that is an absolute
/// path, and under `~/.local/state` otherwise.
pub open spec fn ruta_de_estado(xdg_state_home: Option<Seq<char>>, hogar: Seq<char>) -> Seq<char> {
    let dir = match xdg_state_home {
        Some(x) => if x.len() > 0 && x[0] == '/' {
            x
        } else {
            unir_ruta(hogar, ".local/state"@)
        },
        None => unir_ruta(hogar, ".local/state"@),
    };
    unir_ruta(unir_ruta(dir, "vasak"@), NOMBRE@)
}

/// Where the record lives, given `$XDG_STATE_HOME` (if set) and the home.
///
/// In the state directory and not in `~/.config`: this is not configuration
/// anyone edits, and a backup of the configuration taken to another machine
/// would skip there options that were never offered there. A relative
/// `$XDG_STATE_HOME` is ignored: the state would depend on the directory the
/// session started from.
pub fn ruta_desde(xdg_state_home: Option<&str>, hogar: &str) -> (r: String)
    ensures
        r@ == ruta_de_estado(
            match xdg_state_home {
                Some(x) => Some(x@),
                None => None,
            },
            hogar@,
        ),
{
    let dir = match xdg_state_home {
        Some(x) => {
            let c = caracteres(x);
            if c.len() > 0 && c[0] == '/' {
                String::from_str(x)
            } else {
                unir_rutas(hogar, ".local/state")
            }
        },
        None => unir_rutas(hogar, ".local/state"),
    };
    let vasak = unir_rutas(dir.as_str(), "vasak");
    unir_rutas(vasak.as_str(), NOMBRE)
}

} // verus!
