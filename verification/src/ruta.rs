//! The parts of a path the program looks at: the name of what it points to,
//! and that name split at its last dot, as `std::path::Path` splits them.

use vstd::prelude::*;
use crate::texto::{
    a_string, caracteres, copia, lema_ultimo_indice, partes, partir, ultimo_indice, buscar_ultimo,
    vista,
};

verus! {

/// The last piece of `segs` that names something: empty pieces (doubled or
/// trailing slashes) and `.` are not components of a path.
pub open spec fn ultimo_componente(segs: Seq<Seq<char>>) -> Option<Seq<char>>
    decreases segs.len(),
{
    if segs.len() == 0 {
        None
    } else if segs.last().len() == 0 || segs.last() == seq!['.'] {
        ultimo_componente(segs.drop_last())
    } else {
        Some(segs.last())
    }
}

/// The name of what the path points to, as `Path::file_name` gives it: its last
/// component, unless that is `..`, and nothing for `/` or `.`.
pub open spec fn nombre_de_archivo(p: Seq<char>) -> Option<Seq<char>> {
    match ultimo_componente(partes(p, '/')) {
        Some(c) => if c == seq!['.', '.'] {
            None
        } else {
            Some(c)
        },
        None => None,
    }
}

/// A name without what follows its last dot, as `Path::file_stem` leaves it: a
/// name with no dot, or whose only dot opens it (`.bashrc`), is all stem.
pub open spec fn raiz_de_nombre(n: Seq<char>) -> Seq<char> {
    let i = ultimo_indice(n, '.');
    if i <= 0 {
        n
    } else {
        n.take(i)
    }
}

/// What follows the last dot of a name, as `Path::extension` gives it.
pub open spec fn extension_de_nombre(n: Seq<char>) -> Option<Seq<char>> {
    let i = ultimo_indice(n, '.');
    if i <= 0 {
        None
    } else {
        Some(n.skip(i + 1))
    }
}

/// The stem of the path's name, if it has a name.
pub open spec fn raiz(p: Seq<char>) -> Option<Seq<char>> {
    match nombre_de_archivo(p) {
        Some(n) => Some(raiz_de_nombre(n)),
        None => None,
    }
}

/// The extension of the path's name, if it has one.
pub open spec fn extension(p: Seq<char>) -> Option<Seq<char>> {
    match nombre_de_archivo(p) {
        Some(n) => extension_de_nombre(n),
        None => None,
    }
}

/// The name of what the path points to.
pub fn nombre_de(p: &[char]) -> (r: Option<Vec<char>>)
    ensures
        match r {
            Some(v) => nombre_de_archivo(p@) == Some(v@),
            None => nombre_de_archivo(p@) is None,
        },
{
    let segs = partir(p, '/');
    let ghost vs = vista(segs@);
    let mut i: usize = segs.len();
    assert(vs.take(i as int) =~= vs);
    while i > 0
        invariant
            i <= segs@.len(),
            vs == vista(segs@),
            vs == partes(p@, '/'),
            ultimo_componente(vs) == ultimo_componente(vs.take(i as int)),
        decreases i,
    {
        let s = &segs[i - 1];
        assert(vs.take(i as int).last() == s@);
        if s.len() == 0 || (s.len() == 1 && s[0] == '.') {
            proof {
                if s.len() == 1 {
                    assert(s@ =~= seq!['.']);
                }
                assert(vs.take(i as int).drop_last() =~= vs.take(i - 1));
            }
            i = i - 1;
        } else {
            proof {
                if s@ == seq!['.'] {
                    assert(s@.len() == 1);
                }
            }
            if s.len() == 2 && s[0] == '.' && s[1] == '.' {
                assert(s@ =~= seq!['.', '.']);
                return None;
            }
            assert(s@ != seq!['.', '.']);
            let r = copia(s.as_slice(), 0, s.len());
            assert(r@ =~= s@);
            return Some(r);
        }
    }
    assert(vs.take(0) =~= Seq::<Seq<char>>::empty());
    None
}

/// The stem of the path's name, as `Path::file_stem` gives it.
pub fn raiz_en(p: &[char]) -> (r: Option<Vec<char>>)
    ensures
        match r {
            Some(v) => raiz(p@) == Some(v@),
            None => raiz(p@) is None,
        },
{
    match nombre_de(p) {
        None => None,
        Some(n) => {
            proof {
                lema_ultimo_indice(n@, '.');
            }
            match buscar_ultimo(n.as_slice(), '.') {
                Some(i) => if i == 0 {
                    Some(n)
                } else {
                    Some(copia(n.as_slice(), 0, i))
                },
                None => Some(n),
            }
        },
    }
}

/// The extension of the path's name, as `Path::extension` gives it.
pub fn extension_en(p: &[char]) -> (r: Option<Vec<char>>)
    ensures
        match r {
            Some(v) => extension(p@) == Some(v@),
            None => extension(p@) is None,
        },
{
    match nombre_de(p) {
        None => None,
        Some(n) => {
            proof {
                lema_ultimo_indice(n@, '.');
            }
            match buscar_ultimo(n.as_slice(), '.') {
                Some(i) => if i == 0 {
                    None
                } else {
                    let e = copia(n.as_slice(), i + 1, n.len());
                    assert(e@ =~= n@.skip(i + 1));
                    Some(e)
                },
                None => None,
            }
        },
    }
}

/// The stem of the path's name as a string, or the whole path when it names
/// nothing.
pub fn raiz_o_todo(p: &str) -> (r: String)
    ensures
        r@ == match raiz(p@) {
            Some(s) => s,
            None => p@,
        },
{
    let c = caracteres(p);
    match raiz_en(c.as_slice()) {
        Some(v) => a_string(v.as_slice()),
        None => String::from_str(p),
    }
}

} // verus!
