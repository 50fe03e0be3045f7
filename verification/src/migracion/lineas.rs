//! Making sure a line is in a file that is a program.
//!
//! `.zshrc`, `.profile` and `.xinitrc` cannot be merged by key: they are
//! programs, and order and conditions matter. So the package keeps its content
//! in a file of **its own**, under `/usr/share`, and the user's file gets one
//! line that loads it. The only thing to make sure of is that line.
//!
//! It goes **at the top**, after the shebang: what the person wrote comes after
//! and therefore wins.

use vstd::prelude::*;
use crate::migracion::ini::{lleva_salto_final, rearmar, rearmar_en, terminador};
use crate::texto::{
    a_string, caracteres, contiene, unir, contiene_en, empieza, empieza_con, limites_recorte, lineas,
    lineas_de, lineas_desde, recorte, sin_caracter, sin_cr, vista, subsecuencia, es_inclusion,
    lema_contiene_con_mas, lema_unir_contiene, lema_unir_concatenadas,
};
use crate::migracion::fusion::crlf;

verus! {

/// A line that has to be in a file of the user.
#[derive(Debug, Clone, PartialEq, Eq)]
pub struct Insercion {
    /// The file, relative to the home.
    pub archivo: &'static str,
    /// What tells that it is there already: a short, stable mark, not the whole
    /// text, so the comment next to it can improve without the line being
    /// added again.
    pub marca: &'static str,
    /// What is added, comment included.
    pub texto: &'static str,
}

/// The insertions the desktop needs: the ones for `.zshrc` and `.profile`.
pub fn inserciones() -> (r: [Insercion; 2])
    ensures
        r[0].archivo@ == ".zshrc"@,
        r[0].marca@ == "/usr/share/vasak/shell/zshrc"@,
        r[1].archivo@ == ".profile"@,
        r[1].marca@ == "/usr/share/vasak/shell/profile"@,
{
    [
        Insercion {
            archivo: ".zshrc",
            marca: "/usr/share/vasak/shell/zshrc",
            texto: "# La configuración de zsh que trae VasakOS. Se carga desde acá para que las\n# mejoras del escritorio lleguen sin tocar este archivo, que es tuyo. Lo que\n# escribas debajo gana, porque corre después.\n[ -r /usr/share/vasak/shell/zshrc ] && . /usr/share/vasak/shell/zshrc\n",
        },
        Insercion {
            archivo: ".profile",
            marca: "/usr/share/vasak/shell/profile",
            texto: "# El entorno que trae VasakOS. Se carga desde acá para que las mejoras del\n# escritorio lleguen sin tocar este archivo, que es tuyo. Lo que escribas\n# debajo gana, porque corre después.\n[ -r /usr/share/vasak/shell/profile ] && . /usr/share/vasak/shell/profile\n",
        },
    ]
}

/// Whether the file already loads the package's: the mark is looked for
/// anywhere, **comments included**, since someone who left it commented out does
/// not want it, and adding it again would be insisting.
pub fn ya_esta(usuario: &str, marca: &str) -> (r: bool)
    ensures
        r == contiene(usuario@, marca@),
{
    let u = caracteres(usuario);
    let m = caracteres(marca);
    contiene_en(u.as_slice(), m.as_slice())
}

/// The user's text with the lines of `texto` put at the top, after the shebang
/// if there is one (a line before the `#!` would make it stop being one), and
/// a blank line between them and what comes next when that has content. The
/// line endings and the final line break stay as the file had them.
pub open spec fn con_insercion(u: Seq<char>, texto: Seq<char>) -> Seq<char> {
    rearmar(lineas_insertadas(u, texto), u)
}

/// The lines of the user's text with those of `texto` put at the top.
pub open spec fn lineas_insertadas(u: Seq<char>, texto: Seq<char>) -> Seq<Seq<char>> {
    let ls = lineas(u);
    let donde: int = if ls.len() > 0 && empieza(ls[0], "#!"@) {
        1
    } else {
        0
    };
    let separador: Seq<Seq<char>> = if donde < ls.len() && recorte(ls[donde]).len() > 0 {
        seq![seq![]]
    } else {
        seq![]
    };
    ls.take(donde) + lineas(texto) + separador + ls.skip(donde)
}

/// Adds the line at the top of the file, or `None` if it was there already.
pub fn asegurar(usuario: &str, insercion: &Insercion) -> (r: Option<String>)
    ensures
        r matches Some(t) ==> t@ == con_insercion(usuario@, insercion.texto@),
        r is None <==> contiene(usuario@, insercion.marca@),
{
    if ya_esta(usuario, insercion.marca) {
        return None;
    }
    let u = caracteres(usuario);
    let ls = lineas_de(u.as_slice());
    let ghost v = vista(ls@);
    let shebang = caracteres("#!");
    let donde: usize = if ls.len() > 0 && empieza_con(ls[0].as_slice(), shebang.as_slice()) {
        1
    } else {
        0
    };
    let t = caracteres(insercion.texto);
    let mut nuevas = lineas_de(t.as_slice());
    let mut resultado: Vec<Vec<char>> = Vec::new();
    let mut i: usize = 0;
    while i < donde
        invariant
            i <= donde <= ls@.len(),
            vista(resultado@) == v.take(i as int),
            v == vista(ls@),
        decreases donde - i,
    {
        let ghost previo = vista(resultado@);
        resultado.push(ls[i].clone());
        i = i + 1;
        proof {
            assert(vista(resultado@) =~= previo.push(v[i - 1]));
            assert(vista(resultado@) =~= v.take(i as int));
        }
    }
    let ghost antes = vista(resultado@);
    let ghost insertadas = vista(nuevas@);
    resultado.append(&mut nuevas);
    proof {
        assert(vista(resultado@) =~= antes + insertadas);
    }
    let ghost con_nuevas = vista(resultado@);
    let mut separa = false;
    if donde < ls.len() {
        let (a, b) = limites_recorte(ls[donde].as_slice());
        if a < b {
            resultado.push(Vec::new());
            separa = true;
        }
    }
    proof {
        if separa {
            assert(vista(resultado@) =~= con_nuevas + seq![Seq::<char>::empty()]);
        } else {
            assert(vista(resultado@) =~= con_nuevas + Seq::<Seq<char>>::empty());
        }
    }
    let ghost con_separador = vista(resultado@);
    let mut j: usize = donde;
    while j < ls.len()
        invariant
            donde <= j <= ls@.len(),
            v == vista(ls@),
            vista(resultado@) == con_separador + v.subrange(donde as int, j as int),
        decreases ls@.len() - j,
    {
        let ghost previo = vista(resultado@);
        resultado.push(ls[j].clone());
        j = j + 1;
        proof {
            assert(vista(resultado@) =~= previo.push(v[j - 1]));
            assert(vista(resultado@) =~= con_separador + v.subrange(donde as int, j as int));
        }
    }
    proof {
        assert(v.subrange(donde as int, v.len() as int) =~= v.skip(donde as int));
    }
    let texto = rearmar_en(&resultado, u.as_slice());
    Some(a_string(texto.as_slice()))
}

/// What adding the line does to the file: every line the person had stays,
/// unchanged and in order; and when a line of the added text carries the mark,
/// the result carries it too, so a second run adds nothing.
pub proof fn lema_asegurar_conserva_y_no_repite(u: Seq<char>, texto: Seq<char>, marca: Seq<char>)
    ensures
        subsecuencia(lineas(u), lineas_insertadas(u, texto)),
        con_insercion(u, texto) == rearmar(lineas_insertadas(u, texto), u),
        (exists|k: int| 0 <= k < lineas(texto).len() && contiene(#[trigger] lineas(texto)[k], marca))
            ==> contiene(con_insercion(u, texto), marca),
{
    let ls = lineas(u);
    let nuevas = lineas(texto);
    let donde: int = if ls.len() > 0 && empieza(ls[0], "#!"@) {
        1
    } else {
        0
    };
    let separador: Seq<Seq<char>> = if donde < ls.len() && recorte(ls[donde]).len() > 0 {
        seq![seq![]]
    } else {
        seq![]
    };
    let r = lineas_insertadas(u, texto);
    assert(r == ls.take(donde) + nuevas + separador + ls.skip(donde));
    let extra = nuevas.len() + separador.len();
    let m = Seq::new(ls.len(), |i: int| if i < donde { i } else { i + extra });
    assert forall|i: int| 0 <= i < m.len() implies 0 <= #[trigger] m[i] < r.len() && r[m[i]] == ls[i] by {
        if i >= donde {
            assert(r[i + extra] == ls.skip(donde)[i - donde]);
        }
    }
    assert(es_inclusion(m, ls, r));
    if exists|k: int| 0 <= k < nuevas.len() && contiene(#[trigger] nuevas[k], marca) {
        let k = choose|k: int| 0 <= k < nuevas.len() && contiene(#[trigger] nuevas[k], marca);
        assert(r[donde + k] == nuevas[k]);
        lema_unir_contiene(r, terminador(u), donde + k, marca);
        let fin = if lleva_salto_final(u) {
            terminador(u)
        } else {
            seq![]
        };
        lema_contiene_con_mas(seq![], unir(r, terminador(u)), fin, marca);
        assert(seq![] + unir(r, terminador(u)) + fin =~= con_insercion(u, texto));
    }
}

/// A mark with no line break that occurs in a text, from where the current
/// line starts on, occurs in one of the lines read from there.
proof fn lema_lineas_desde_contienen(t: Seq<char>, i: int, actual: Seq<char>, p: int, marca: Seq<char>)
    requires
        0 <= i <= t.len(),
        actual.len() <= i,
        actual == t.subrange(i - actual.len(), i),
        sin_caracter(actual, '\n'),
        marca.len() > 0,
        sin_caracter(marca, '\n'),
        sin_caracter(marca, '\r'),
        i - actual.len() <= p,
        p + marca.len() <= t.len(),
        t.subrange(p, p + marca.len()) == marca,
    ensures
        exists|k: int|
            0 <= k < lineas_desde(t, i, actual).len() && contiene(
                #[trigger] lineas_desde(t, i, actual)[k],
                marca,
            ),
    decreases t.len() - i,
{
    let r = lineas_desde(t, i, actual);
    let ini = i - actual.len();
    if i == t.len() {
        assert(actual.subrange(p - ini, p - ini + marca.len()) =~= marca);
        assert(actual.len() > 0);
        assert(r[0] == actual);
        assert(contiene(r[0], marca));
    } else if t[i] == '\n' {
        if p + marca.len() <= i {
            let l = sin_cr(actual);
            if actual.len() > 0 && actual.last() == '\r' {
                assert(t[i - 1] == '\r');
                assert(marca[marca.len() - 1] == t[p + marca.len() - 1]);
                assert(p + marca.len() <= i - 1);
            }
            assert(l.subrange(p - ini, p - ini + marca.len()) =~= marca);
            assert(r[0] == l);
            assert(contiene(r[0], marca));
        } else {
            if p <= i {
                assert(marca[i - p] == t[i]);
            }
            assert(Seq::<char>::empty() =~= t.subrange(i + 1, i + 1));
            lema_lineas_desde_contienen(t, i + 1, seq![], p, marca);
            let resto = lineas_desde(t, i + 1, seq![]);
            let k = choose|k: int| 0 <= k < resto.len() && contiene(#[trigger] resto[k], marca);
            assert(r == seq![sin_cr(actual)] + resto);
            assert(r[k + 1] == resto[k]);
        }
    } else {
        let a2 = actual.push(t[i]);
        assert(a2 =~= t.subrange(i + 1 - a2.len(), i + 1));
        assert(sin_caracter(a2, '\n')) by {
            assert forall|j: int| 0 <= j < a2.len() implies #[trigger] a2[j] != '\n' by {
                if j < actual.len() {
                    assert(a2[j] == actual[j]);
                }
            }
        }
        lema_lineas_desde_contienen(t, i + 1, a2, p, marca);
    }
}

/// Adding the line twice adds it once: when the added text carries the mark
/// (and the mark breaks no line), the file that comes out carries it too, so
/// `asegurar` on it gives `None`.
pub proof fn lema_asegurar_dos_veces(u: Seq<char>, texto: Seq<char>, marca: Seq<char>)
    requires
        contiene(texto, marca),
        sin_caracter(marca, '\n'),
        sin_caracter(marca, '\r'),
    ensures
        contiene(con_insercion(u, texto), marca),
{
    if marca.len() == 0 {
        assert(con_insercion(u, texto).subrange(0, 0 + marca.len() as int) =~= marca);
        assert(contiene(con_insercion(u, texto), marca));
    } else {
        let p = choose|p: int| 0 <= p <= texto.len() - marca.len() && #[trigger] texto.subrange(p, p + marca.len()) == marca;
        assert(Seq::<char>::empty() =~= texto.subrange(0, 0));
        lema_lineas_desde_contienen(texto, 0, seq![], p, marca);
        let ls = lineas_desde(texto, 0, seq![]);
        let k = choose|k: int| 0 <= k < ls.len() && contiene(#[trigger] ls[k], marca);
        assert(lineas(texto)[k] == ls[k]);
        assert(contiene(lineas(texto)[k], marca));
        lema_asegurar_conserva_y_no_repite(u, texto, marca);
        assert(exists|j: int| 0 <= j < lineas(texto).len() && contiene(#[trigger] lineas(texto)[j], marca));
    }
}

/// A text without its final line break, if it has one.
pub open spec fn sin_salto_final(t: Seq<char>) -> Seq<char> {
    if t.len() > 0 && t.last() == '\n' {
        t.drop_last()
    } else {
        t
    }
}

/// With no Windows line ending in it, the lines of a text joined with `\n`
/// give back the text, but for its final line break.
proof fn lema_lineas_desde_unidas(t: Seq<char>, i: int, actual: Seq<char>)
    requires
        0 <= i <= t.len(),
        actual.len() <= i,
        actual == t.subrange(i - actual.len(), i),
        sin_caracter(actual, '\n'),
        !contiene(t, crlf()),
    ensures
        unir(lineas_desde(t, i, actual), seq!['\n']) == sin_salto_final(t.skip(i - actual.len())),
    decreases t.len() - i,
{
    let w = t.skip(i - actual.len());
    let r = lineas_desde(t, i, actual);
    let nl = seq!['\n'];
    if i == t.len() {
        assert(w =~= actual);
        if actual.len() > 0 {
            assert(r == seq![actual]);
            assert(actual.last() != '\n');
        } else {
            assert(r =~= Seq::<Seq<char>>::empty());
        }
    } else if t[i] == '\n' {
        assert(Seq::<char>::empty() =~= t.subrange(i + 1, i + 1));
        lema_lineas_desde_unidas(t, i + 1, seq![]);
        let resto = lineas_desde(t, i + 1, seq![]);
        assert(r == seq![sin_cr(actual)] + resto);
        assert(sin_cr(actual) == actual) by {
            if actual.len() > 0 && actual.last() == '\r' {
                assert(t[i - 1] == '\r');
                assert(t.subrange(i - 1, i - 1 + crlf().len()) =~= crlf());
            }
        }
        let cola = t.skip(i + 1);
        assert(w =~= actual + nl + cola);
        if i + 1 == t.len() {
            assert(resto =~= Seq::<Seq<char>>::empty());
            assert(r =~= seq![actual]);
            assert(sin_salto_final(w) =~= actual);
        } else {
            crate::migracion::fusion::lema_lineas_desde_no_vacias(t, i + 1, seq![]);
            lema_unir_concatenadas(seq![actual], resto, nl);
            assert(unir(seq![actual], nl) == actual);
            assert(cola.len() > 0);
            assert(sin_salto_final(w) =~= actual + nl + sin_salto_final(cola));
        }
    } else {
        let a2 = actual.push(t[i]);
        assert(a2 =~= t.subrange(i + 1 - a2.len(), i + 1));
        assert(sin_caracter(a2, '\n')) by {
            assert forall|j: int| 0 <= j < a2.len() implies #[trigger] a2[j] != '\n' by {
                if j < actual.len() {
                    assert(a2[j] == actual[j]);
                }
            }
        }
        lema_lineas_desde_unidas(t, i + 1, a2);
        assert(i + 1 - a2.len() == i - actual.len());
    }
}

/// Adding the line twice adds it once also for a mark that spans lines, in a
/// file and an added text with no Windows line endings: the added text is
/// written back as it is (its final line break aside), so any mark in it is in
/// the file that comes out, and `asegurar` on that file gives `None`.
pub proof fn lema_asegurar_dos_veces_en_lineas(u: Seq<char>, texto: Seq<char>, marca: Seq<char>)
    requires
        !contiene(u, crlf()),
        !contiene(texto, crlf()),
        contiene(sin_salto_final(texto), marca),
    ensures
        contiene(con_insercion(u, texto), marca),
{
    let nl = seq!['\n'];
    assert(crlf() == seq!['\r', '\n']);
    assert(terminador(u) == nl);
    let ls = lineas(u);
    let nuevas = lineas(texto);
    assert(Seq::<char>::empty() =~= texto.subrange(0, 0));
    lema_lineas_desde_unidas(texto, 0, seq![]);
    assert(texto.skip(0) =~= texto);
    assert(unir(nuevas, nl) == sin_salto_final(texto));
    let r = lineas_insertadas(u, texto);
    let donde: int = if ls.len() > 0 && empieza(ls[0], "#!"@) {
        1
    } else {
        0
    };
    let separador: Seq<Seq<char>> = if donde < ls.len() && recorte(ls[donde]).len() > 0 {
        seq![seq![]]
    } else {
        seq![]
    };
    let antes = ls.take(donde);
    let despues = separador + ls.skip(donde);
    assert(r =~= antes + nuevas + despues);
    let fin = if lleva_salto_final(u) {
        terminador(u)
    } else {
        seq![]
    };
    assert(con_insercion(u, texto) == unir(r, nl) + fin);
    if nuevas.len() == 0 {
        assert(unir(nuevas, nl) =~= Seq::<char>::empty());
        assert(marca.len() == 0);
        assert(con_insercion(u, texto).subrange(0, 0 + marca.len() as int) =~= marca);
    } else {
        let medio = unir(nuevas, nl);
        let izq: Seq<char> = if antes.len() > 0 {
            unir(antes, nl) + nl
        } else {
            seq![]
        };
        let der: Seq<char> = if despues.len() > 0 {
            nl + unir(despues, nl)
        } else {
            seq![]
        };
        let an = antes + nuevas;
        if antes.len() > 0 {
            lema_unir_concatenadas(antes, nuevas, nl);
        } else {
            assert(an =~= nuevas);
        }
        assert(unir(an, nl) =~= izq + medio);
        if despues.len() > 0 {
            lema_unir_concatenadas(an, despues, nl);
            assert(r =~= an + despues);
        } else {
            assert(r =~= an);
        }
        assert(unir(r, nl) =~= izq + medio + der);
        lema_contiene_con_mas(izq, medio, der + fin, marca);
        assert(izq + medio + (der + fin) =~= con_insercion(u, texto));
    }
}

/// The line goes at the top: the added lines come first, right after the
/// shebang when the file starts with one (`#!`, which must stay the first
/// line), and every other line of the person's file comes after them, in its
/// order, so what the person wrote runs later and wins. At most one blank line
/// stands between the added lines and the person's.
pub proof fn lema_se_agrega_arriba(u: Seq<char>, texto: Seq<char>)
    ensures
        ({
            let ls = lineas(u);
            let r = lineas_insertadas(u, texto);
            let nuevas = lineas(texto);
            let d: int = if ls.len() > 0 && ls[0].len() >= 2 && ls[0][0] == '#' && ls[0][1] == '!' {
                1
            } else {
                0
            };
            &&& r.len() >= d + nuevas.len()
            &&& r.take(d) == ls.take(d)
            &&& r.subrange(d, d + nuevas.len()) == nuevas
            &&& (r.skip(d + nuevas.len()) == ls.skip(d) || r.skip(d + nuevas.len()) == seq![
                Seq::<char>::empty(),
            ] + ls.skip(d))
        }),
{
    reveal_strlit("#!");
    let ls = lineas(u);
    let nuevas = lineas(texto);
    let d: int = if ls.len() > 0 && ls[0].len() >= 2 && ls[0][0] == '#' && ls[0][1] == '!' {
        1
    } else {
        0
    };
    let donde: int = if ls.len() > 0 && empieza(ls[0], "#!"@) {
        1
    } else {
        0
    };
    if ls.len() > 0 {
        if ls[0].len() >= 2 {
            assert(empieza(ls[0], "#!"@) <==> (ls[0][0] == '#' && ls[0][1] == '!')) by {
                if ls[0][0] == '#' && ls[0][1] == '!' {
                    assert(ls[0].take(2) =~= "#!"@);
                }
                if empieza(ls[0], "#!"@) {
                    assert(ls[0].take(2)[0] == ls[0][0]);
                    assert(ls[0].take(2)[1] == ls[0][1]);
                }
            }
        }
    }
    assert(d == donde);
    let separador: Seq<Seq<char>> = if donde < ls.len() && recorte(ls[donde]).len() > 0 {
        seq![seq![]]
    } else {
        seq![]
    };
    let r = lineas_insertadas(u, texto);
    assert(r == ls.take(donde) + nuevas + separador + ls.skip(donde));
    assert(r.take(d) =~= ls.take(d));
    assert(r.subrange(d, d + nuevas.len()) =~= nuevas);
    assert(r.skip(d + nuevas.len()) =~= separador + ls.skip(d));
    if separador.len() == 0 {
        assert(separador + ls.skip(d) =~= ls.skip(d));
    }
}

} // verus!
