//! Listing things in a stable order by a key: a flag that sends some to the
//! end, then a text compared character by character.

use vstd::prelude::*;
use crate::texto::{lema_lex_irreflexivo, lema_lex_total, lema_lex_transitivo, lex_menor, menor};

verus! {

/// A key: the entries with `false` come first, then the text decides.
pub type Clave = (bool, Seq<char>);

/// Whether key `a` goes strictly before key `b`.
pub open spec fn antes(a: Clave, b: Clave) -> bool {
    ||| !a.0 && b.0
    ||| a.0 == b.0 && lex_menor(a.1, b.1)
}

pub proof fn lema_antes_irreflexivo(a: Clave)
    ensures
        !antes(a, a),
{
    lema_lex_irreflexivo(a.1);
}

pub proof fn lema_antes_transitivo(a: Clave, b: Clave, c: Clave)
    requires
        antes(a, b),
        antes(b, c),
    ensures
        antes(a, c),
{
    if a.0 == b.0 && b.0 == c.0 {
        lema_lex_transitivo(a.1, b.1, c.1);
    }
}

pub proof fn lema_antes_total(a: Clave, b: Clave)
    requires
        a != b,
    ensures
        antes(a, b) || antes(b, a),
{
    if a.0 == b.0 {
        lema_lex_total(a.1, b.1);
    }
}

/// The keys, as values.
pub open spec fn vista_claves(v: Seq<(bool, Vec<char>)>) -> Seq<Clave> {
    v.map_values(|k: (bool, Vec<char>)| (k.0, k.1@))
}

/// `p` lists each position below `n` once.
pub open spec fn es_permutacion(p: Seq<int>, n: int) -> bool {
    &&& p.len() == n
    &&& forall|i: int| 0 <= i < n ==> 0 <= #[trigger] p[i] < n
    &&& forall|i: int, j: int| 0 <= i < j < n ==> #[trigger] p[i] != #[trigger] p[j]
}

/// Taking the entries at positions `p` of a list with keys `ks` lists them in
/// the order of their keys, and those with the same key in the order they
/// had: what a stable sort does.
pub open spec fn orden_estable(p: Seq<int>, ks: Seq<Clave>) -> bool {
    &&& es_permutacion(p, ks.len() as int)
    &&& forall|i: int, j: int| 0 <= i < j < p.len() ==> !antes(#[trigger] ks[p[j]], #[trigger] ks[p[i]])
    &&& forall|i: int, j: int|
        0 <= i < j < p.len() && #[trigger] ks[p[i]] == #[trigger] ks[p[j]] ==> p[i] < p[j]
}

fn va_antes(a: &(bool, Vec<char>), b: &(bool, Vec<char>)) -> (r: bool)
    ensures
        r == antes((a.0, a.1@), (b.0, b.1@)),
{
    (!a.0 && b.0) || (a.0 == b.0 && menor(a.1.as_slice(), b.1.as_slice()))
}

/// The entries sorted by their keys, stably: `claves[i]` is the key of
/// `items[i]`.
pub fn ordenar_por_clave<T>(items: Vec<T>, claves: Vec<(bool, Vec<char>)>) -> (r: Vec<T>)
    requires
        items@.len() == claves@.len(),
    ensures
        exists|p: Seq<int>|
            #![trigger orden_estable(p, vista_claves(claves@))]
            orden_estable(p, vista_claves(claves@)) && r@.len() == items@.len() && forall|k: int|
                0 <= k < r@.len() ==> r@[k] == items@[p[k]],
{
    let ghost ks = vista_claves(claves@);
    let ghost originales = items@;
    let n = items.len();
    let mut resto = items;
    let mut resto_claves = claves;
    let mut salida: Vec<T> = Vec::new();
    let mut salida_claves: Vec<(bool, Vec<char>)> = Vec::new();
    let ghost mut p: Seq<int> = Seq::empty();
    let mut tomados: usize = 0;
    while resto.len() > 0
        invariant
            n == originales.len() == ks.len(),
            tomados + resto@.len() == n,
            resto_claves@.len() == resto@.len(),
            forall|k: int| 0 <= k < resto@.len() ==> resto@[k] == originales[tomados + k],
            forall|k: int|
                0 <= k < resto_claves@.len() ==> vista_claves(resto_claves@)[k] == ks[tomados + k],
            p.len() == tomados,
            salida@.len() == tomados,
            salida_claves@.len() == tomados,
            forall|k: int| 0 <= k < tomados ==> 0 <= #[trigger] p[k] < tomados,
            forall|i: int, j: int| 0 <= i < j < tomados ==> #[trigger] p[i] != #[trigger] p[j],
            forall|k: int| 0 <= k < tomados ==> salida@[k] == originales[#[trigger] p[k]],
            forall|k: int| 0 <= k < tomados ==> vista_claves(salida_claves@)[k] == ks[#[trigger] p[k]],
            forall|i: int, j: int| 0 <= i < j < tomados ==> !antes(#[trigger] ks[p[j]], #[trigger] ks[p[i]]),
            forall|i: int, j: int|
                0 <= i < j < tomados && #[trigger] ks[p[i]] == #[trigger] ks[p[j]] ==> p[i] < p[j],
        decreases resto@.len(),
    {
        let ghost vr = vista_claves(resto_claves@);
        let x = resto.remove(0);
        let kx = resto_claves.remove(0);
        assert(vr[0] == ks[tomados as int]);
        let ghost clave = ks[tomados as int];
        assert(clave == (kx.0, kx.1@));
        let mut j: usize = 0;
        while j < salida_claves.len()
            invariant
                j <= salida_claves@.len(),
                clave == (kx.0, kx.1@),
                forall|k: int| 0 <= k < j ==> !antes(clave, #[trigger] vista_claves(salida_claves@)[k]),
            ensures
                j <= salida_claves@.len(),
                forall|k: int| 0 <= k < j ==> !antes(clave, #[trigger] vista_claves(salida_claves@)[k]),
                j < salida_claves@.len() ==> antes(clave, vista_claves(salida_claves@)[j as int]),
            decreases salida_claves@.len() - j,
        {
            if va_antes(&kx, &salida_claves[j]) {
                break;
            }
            j = j + 1;
        }
        let ghost vs = vista_claves(salida_claves@);
        proof {
            assert forall|k: int| j <= k < tomados implies !antes(#[trigger] vs[k], clave) by {
                if antes(vs[k], clave) {
                    lema_antes_transitivo(vs[k], clave, vs[j as int]);
                    if k == j {
                        lema_antes_irreflexivo(vs[j as int]);
                    } else {
                        assert(vs[j as int] == ks[p[j as int]] && vs[k] == ks[p[k]]);
                        assert(!antes(ks[p[k]], ks[p[j as int]]));
                    }
                }
            }
        }
        let ghost viejo_p = p;
        let ghost vsal = salida@;
        salida.insert(j, x);
        salida_claves.insert(j, kx);
        proof {
            p = viejo_p.insert(j as int, tomados as int);
            let nvs = vista_claves(salida_claves@);
            assert(nvs =~= vs.insert(j as int, clave));
            assert forall|k: int| 0 <= k < tomados + 1 implies salida@[k] == originales[#[trigger] p[k]] by {
                if k < j {
                    assert(salida@[k] == vsal[k]);
                } else if k > j {
                    assert(salida@[k] == vsal[k - 1]);
                }
            }
            assert forall|k: int| 0 <= k < tomados + 1 implies nvs[k] == ks[#[trigger] p[k]] by {
                if k < j {
                    assert(nvs[k] == vs[k]);
                } else if k > j {
                    assert(nvs[k] == vs[k - 1]);
                }
            }
            assert forall|k: int| 0 <= k < tomados + 1 implies 0 <= #[trigger] p[k] < tomados + 1 by {
                if k < j {
                    assert(p[k] == viejo_p[k]);
                } else if k > j {
                    assert(p[k] == viejo_p[k - 1]);
                }
            }
            assert forall|a: int, b: int| 0 <= a < b < tomados + 1 implies #[trigger] p[a] != #[trigger] p[b] by {
                if a != j && b != j {
                    let a0 = if a < j { a } else { a - 1 };
                    let b0 = if b < j { b } else { b - 1 };
                    assert(p[a] == viejo_p[a0] && p[b] == viejo_p[b0]);
                } else if a == j {
                    let b0 = b - 1;
                    assert(p[b] == viejo_p[b0]);
                } else {
                    assert(p[a] == viejo_p[a]);
                }
            }
            assert forall|a: int, b: int| 0 <= a < b < tomados + 1 implies !antes(#[trigger] ks[p[b]], #[trigger] ks[p[a]]) by {
                let ka = nvs[a];
                let kb = nvs[b];
                assert(ka == ks[p[a]] && kb == ks[p[b]]);
                if a != j && b != j {
                    let a0 = if a < j { a } else { a - 1 };
                    let b0 = if b < j { b } else { b - 1 };
                    assert(ka == vs[a0] && kb == vs[b0]);
                    assert(vs[a0] == ks[viejo_p[a0]] && vs[b0] == ks[viejo_p[b0]]);
                } else if a == j {
                    assert(kb == vs[b - 1]);
                } else {
                    assert(ka == vs[a]);
                }
            }
            assert forall|a: int, b: int|
                0 <= a < b < tomados + 1 && #[trigger] ks[p[a]] == #[trigger] ks[p[b]] implies p[a] < p[b] by {
                if a != j && b != j {
                    let a0 = if a < j { a } else { a - 1 };
                    let b0 = if b < j { b } else { b - 1 };
                    assert(p[a] == viejo_p[a0] && p[b] == viejo_p[b0]);
                } else if a == j {
                    assert(nvs[b] == vs[b - 1]);
                    assert(nvs[a] == clave);
                    assert(ks[p[b]] == clave);
                    assert(!antes(vs[j as int], clave));
                    if b - 1 >= j {
                        assert(antes(clave, vs[j as int]) || j == tomados);
                        if j < tomados {
                            if b - 1 == j {
                                lema_antes_irreflexivo(clave);
                            } else {
                                assert(vs[j as int] == ks[viejo_p[j as int]]);
                                assert(vs[b - 1] == ks[viejo_p[b - 1]]);
                                assert(!antes(vs[b - 1], vs[j as int]));
                                lema_antes_irreflexivo(clave);
                            }
                        }
                    }
                } else {
                    assert(p[a] == viejo_p[a]);
                    assert(p[b] == tomados);
                }
            }
        }
        tomados = tomados + 1;
        proof {
            assert forall|k: int| 0 <= k < resto_claves@.len() implies vista_claves(resto_claves@)[k]
                == ks[tomados + k] by {
                assert(vista_claves(resto_claves@)[k] == vr[k + 1]);
            }
        }
    }
    proof {
        assert(orden_estable(p, ks));
    }
    salida
}

} // verus!
