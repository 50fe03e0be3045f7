//! Text as sequences of characters: trimming, lines, searching and building.
//!
//! Every file this crate touches is handled line by line, so the meaning of
//! "a line", "trimmed" and "contains" is fixed here once, as spec functions over
//! `Seq<char>`, and the executable helpers are proved against them.

use vstd::prelude::*;
use vstd::std_specs::iter::IteratorSpec;

verus! {

/// A character with the Unicode `White_Space` property, which is what
/// `char::is_whitespace` (and therefore `str::trim`) goes by.
pub open spec fn es_blanco(c: char) -> bool {
    ||| ('\u{9}' <= c && c <= '\u{d}')
    ||| c == ' '
    ||| c == '\u{85}'
    ||| c == '\u{a0}'
    ||| c == '\u{1680}'
    ||| ('\u{2000}' <= c && c <= '\u{200a}')
    ||| c == '\u{2028}'
    ||| c == '\u{2029}'
    ||| c == '\u{202f}'
    ||| c == '\u{205f}'
    ||| c == '\u{3000}'
}

pub fn blanco(c: char) -> (r: bool)
    ensures
        r == es_blanco(c),
{
    ('\u{9}' <= c && c <= '\u{d}') || c == ' ' || c == '\u{85}' || c == '\u{a0}' || c
        == '\u{1680}' || ('\u{2000}' <= c && c <= '\u{200a}') || c == '\u{2028}' || c
        == '\u{2029}' || c == '\u{202f}' || c == '\u{205f}' || c == '\u{3000}'
}

/// `s` without its leading white space.
pub open spec fn sin_blanco_inicial(s: Seq<char>) -> Seq<char>
    decreases s.len(),
{
    if s.len() > 0 && es_blanco(s[0]) {
        sin_blanco_inicial(s.drop_first())
    } else {
        s
    }
}

/// `s` without its trailing white space.
pub open spec fn sin_blanco_final(s: Seq<char>) -> Seq<char>
    decreases s.len(),
{
    if s.len() > 0 && es_blanco(s.last()) {
        sin_blanco_final(s.drop_last())
    } else {
        s
    }
}

/// `s` without white space at either end, as `str::trim` leaves it.
pub open spec fn recorte(s: Seq<char>) -> Seq<char> {
    sin_blanco_final(sin_blanco_inicial(s))
}

/// Whether `s` is nothing but white space (or nothing at all).
pub open spec fn solo_blanco(s: Seq<char>) -> bool {
    forall|i: int| 0 <= i < s.len() ==> es_blanco(#[trigger] s[i])
}

pub proof fn lema_sin_blanco_inicial(s: Seq<char>, i: int)
    requires
        0 <= i <= s.len(),
        forall|j: int| 0 <= j < i ==> es_blanco(#[trigger] s[j]),
    ensures
        sin_blanco_inicial(s) == sin_blanco_inicial(s.skip(i)),
    decreases i,
{
    if i > 0 {
        lema_sin_blanco_inicial(s, i - 1);
        assert(s.skip(i - 1).drop_first() =~= s.skip(i));
    } else {
        assert(s.skip(0) =~= s);
    }
}

pub proof fn lema_sin_blanco_final(s: Seq<char>, f: int)
    requires
        0 <= f <= s.len(),
        forall|j: int| f <= j < s.len() ==> es_blanco(#[trigger] s[j]),
    ensures
        sin_blanco_final(s) == sin_blanco_final(s.take(f)),
    decreases s.len() - f,
{
    if f < s.len() {
        lema_sin_blanco_final(s, f + 1);
        assert(s.take(f + 1).drop_last() =~= s.take(f));
    } else {
        assert(s.take(f) =~= s);
    }
}

pub proof fn lema_sin_blanco_inicial_idempotente(s: Seq<char>)
    ensures
        sin_blanco_inicial(sin_blanco_inicial(s)) == sin_blanco_inicial(s),
        sin_blanco_inicial(s).len() > 0 ==> !es_blanco(sin_blanco_inicial(s)[0]),
    decreases s.len(),
{
    if s.len() > 0 && es_blanco(s[0]) {
        lema_sin_blanco_inicial_idempotente(s.drop_first());
    }
}

pub proof fn lema_sin_blanco_final_conserva_inicio(s: Seq<char>)
    requires
        s.len() > 0 ==> !es_blanco(s[0]),
    ensures
        sin_blanco_final(s).len() > 0 ==> !es_blanco(sin_blanco_final(s)[0]),
        sin_blanco_final(s).len() > 0 ==> sin_blanco_final(s)[0] == s[0],
    decreases s.len(),
{
    if s.len() > 0 && es_blanco(s.last()) {
        lema_sin_blanco_final_conserva_inicio(s.drop_last());
    }
}

/// A trimmed text starts with no white space.
pub proof fn lema_recorte_sin_blanco_inicial(s: Seq<char>)
    ensures
        sin_blanco_inicial(recorte(s)) == recorte(s),
{
    lema_sin_blanco_inicial_idempotente(s);
    lema_sin_blanco_final_conserva_inicio(sin_blanco_inicial(s));
}

/// Where the trimmed part of `s` starts and ends.
pub fn limites_recorte(s: &[char]) -> (r: (usize, usize))
    ensures
        r.0 <= r.1 <= s@.len(),
        s@.subrange(r.0 as int, r.1 as int) == recorte(s@),
        r.0 == r.1 ==> solo_blanco(s@),
{
    let n = s.len();
    let mut i: usize = 0;
    while i < n && blanco(s[i])
        invariant
            i <= n == s@.len(),
            forall|j: int| 0 <= j < i ==> es_blanco(#[trigger] s@[j]),
        decreases n - i,
    {
        i = i + 1;
    }
    proof {
        lema_sin_blanco_inicial(s@, i as int);
        assert(sin_blanco_inicial(s@.skip(i as int)) == s@.skip(i as int));
    }
    let mut f: usize = n;
    while f > i && blanco(s[f - 1])
        invariant
            i <= f <= n == s@.len(),
            forall|j: int| f <= j < n ==> es_blanco(#[trigger] s@[j]),
        decreases f,
    {
        f = f - 1;
    }
    proof {
        let t = s@.skip(i as int);
        assert forall|j: int| f - i <= j < t.len() implies es_blanco(#[trigger] t[j]) by {
            assert(t[j] == s@[j + i]);
        }
        lema_sin_blanco_final(t, f - i);
        assert(t.take(f - i) =~= s@.subrange(i as int, f as int));
        if f > i {
            assert(s@.subrange(i as int, f as int).last() == s@[f - 1]);
        }
        if f == i {
            assert forall|j: int| 0 <= j < s@.len() implies es_blanco(#[trigger] s@[j]) by {
                if j >= i {
                }
            }
        }
    }
    (i, f)
}

/// The trimmed copy of `s`.
pub fn recortado(s: &[char]) -> (r: Vec<char>)
    ensures
        r@ == recorte(s@),
{
    let (a, b) = limites_recorte(s);
    copia(s, a, b)
}

/// The characters of `s` from `a` to `b`, as a vector.
pub fn copia(s: &[char], a: usize, b: usize) -> (r: Vec<char>)
    requires
        a <= b <= s@.len(),
    ensures
        r@ == s@.subrange(a as int, b as int),
{
    let mut r: Vec<char> = Vec::new();
    let mut i = a;
    while i < b
        invariant
            a <= i <= b <= s@.len(),
            r@ == s@.subrange(a as int, i as int),
        decreases b - i,
    {
        r.push(s[i]);
        i = i + 1;
        proof {
            assert(r@ =~= s@.subrange(a as int, i as int));
        }
    }
    r
}

/// The characters of a string slice.
pub fn caracteres(s: &str) -> (r: Vec<char>)
    ensures
        r@ == s@,
{
    let mut r: Vec<char> = Vec::new();
    for c in it: s.chars()
        invariant
            r@ == it.seq().take(it.index()),
            it.seq() == s@,
    {
        r.push(c);
        proof {
            assert(r@ =~= it.seq().take(it.index() + 1));
        }
    }
    proof {
        assert(r@ =~= s@);
    }
    r
}


/// A line without the carriage return that ends it, if it had one.
pub open spec fn sin_cr(l: Seq<char>) -> Seq<char> {
    if l.len() > 0 && l.last() == '\r' {
        l.drop_last()
    } else {
        l
    }
}

/// The lines of `t` from position `i` on, `actual` being the part of the
/// current line already read. A line ends at `\n`, and a `\r` right before that
/// `\n` is not part of it; the last line needs no `\n`, and an empty last line
/// is not a line. This is `str::lines`.
pub open spec fn lineas_desde(t: Seq<char>, i: int, actual: Seq<char>) -> Seq<Seq<char>>
    decreases t.len() - i,
{
    if i >= t.len() {
        if actual.len() > 0 {
            seq![actual]
        } else {
            seq![]
        }
    } else if t[i] == '\n' {
        seq![sin_cr(actual)] + lineas_desde(t, i + 1, seq![])
    } else {
        lineas_desde(t, i + 1, actual.push(t[i]))
    }
}

/// The lines of `t`, as `str::lines` gives them.
pub open spec fn lineas(t: Seq<char>) -> Seq<Seq<char>> {
    lineas_desde(t, 0, seq![])
}

/// The contents of each vector.
pub open spec fn vista(ls: Seq<Vec<char>>) -> Seq<Seq<char>> {
    ls.map_values(|l: Vec<char>| l@)
}

/// The lines of `t`.
pub fn lineas_de(t: &[char]) -> (r: Vec<Vec<char>>)
    ensures
        vista(r@) == lineas(t@),
{
    let mut r: Vec<Vec<char>> = Vec::new();
    let mut actual: Vec<char> = Vec::new();
    let n = t.len();
    let mut i: usize = 0;
    while i < n
        invariant
            i <= n == t@.len(),
            lineas(t@) == vista(r@) + lineas_desde(t@, i as int, actual@),
        decreases n - i,
    {
        let c = t[i];
        if c == '\n' {
            let ghost previo = vista(r@);
            let ghost resto = lineas_desde(t@, i + 1, seq![]);
            let l = if actual.len() > 0 && actual[actual.len() - 1] == '\r' {
                let m = actual.len() - 1;
                copia(actual.as_slice(), 0, m)
            } else {
                copia(actual.as_slice(), 0, actual.len())
            };
            proof {
                assert(actual@.subrange(0, actual@.len() as int) =~= actual@);
                if actual@.len() > 0 {
                    assert(actual@.drop_last() =~= actual@.subrange(0, actual@.len() - 1));
                }
                assert(l@ == sin_cr(actual@));
            }
            r.push(l);
            actual = Vec::new();
            proof {
                assert(vista(r@) =~= previo.push(l@));
                assert(lineas(t@) =~= vista(r@) + resto);
            }
        } else {
            actual.push(c);
        }
        i = i + 1;
    }
    if actual.len() > 0 {
        let ghost previo = vista(r@);
        let ghost ultima = actual@;
        r.push(actual);
        proof {
            assert(vista(r@) =~= previo + seq![ultima]);
        }
    } else {
        proof {
            assert(vista(r@) + seq![] =~= vista(r@));
        }
    }
    r
}

/// The lines `ls` joined with `sep` between each two, as `[T]::join` does.
pub open spec fn unir(ls: Seq<Seq<char>>, sep: Seq<char>) -> Seq<char>
    decreases ls.len(),
{
    if ls.len() == 0 {
        seq![]
    } else if ls.len() == 1 {
        ls[0]
    } else {
        unir(ls.drop_last(), sep) + sep + ls.last()
    }
}

/// Appends `b` to `a`.
pub fn agregar(a: &mut Vec<char>, b: &[char])
    ensures
        final(a)@ == old(a)@ + b@,
{
    let mut i: usize = 0;
    while i < b.len()
        invariant
            i <= b@.len(),
            a@ == old(a)@ + b@.take(i as int),
        decreases b@.len() - i,
    {
        a.push(b[i]);
        i = i + 1;
        proof {
            assert(a@ =~= old(a)@ + b@.take(i as int));
        }
    }
    proof {
        assert(b@.take(b@.len() as int) =~= b@);
    }
}

/// The lines joined with `sep`.
pub fn unir_lineas(ls: &Vec<Vec<char>>, sep: &[char]) -> (r: Vec<char>)
    ensures
        r@ == unir(vista(ls@), sep@),
{
    let mut r: Vec<char> = Vec::new();
    let mut i: usize = 0;
    while i < ls.len()
        invariant
            i <= ls@.len(),
            r@ == unir(vista(ls@).take(i as int), sep@),
        decreases ls@.len() - i,
    {
        let ghost previo = vista(ls@).take(i as int);
        if i > 0 {
            agregar(&mut r, sep);
        }
        agregar(&mut r, ls[i].as_slice());
        i = i + 1;
        proof {
            let ahora = vista(ls@).take(i as int);
            assert(ahora.drop_last() =~= previo);
            assert(ahora.last() == vista(ls@)[i - 1]);
            if i == 1 {
                assert(previo =~= Seq::<Seq<char>>::empty());
                assert(r@ =~= ahora[0]);
            }
        }
    }
    proof {
        assert(vista(ls@).take(ls@.len() as int) =~= vista(ls@));
    }
    r
}

/// Whether the two character sequences are the same.
pub fn iguales(a: &[char], b: &[char]) -> (r: bool)
    ensures
        r == (a@ == b@),
{
    if a.len() != b.len() {
        return false;
    }
    let mut i: usize = 0;
    while i < a.len()
        invariant
            i <= a@.len() == b@.len(),
            forall|j: int| 0 <= j < i ==> a@[j] == b@[j],
        decreases a@.len() - i,
    {
        if a[i] != b[i] {
            return false;
        }
        i = i + 1;
    }
    proof {
        assert(a@ =~= b@);
    }
    true
}

/// Whether `s` begins with `p`.
pub open spec fn empieza(s: Seq<char>, p: Seq<char>) -> bool {
    p.len() <= s.len() && s.take(p.len() as int) == p
}

/// Whether `s` ends with `p`.
pub open spec fn termina(s: Seq<char>, p: Seq<char>) -> bool {
    p.len() <= s.len() && s.skip(s.len() - p.len()) == p
}

/// Whether `p` occurs in `s`, at some position.
pub open spec fn contiene(s: Seq<char>, p: Seq<char>) -> bool {
    exists|i: int| 0 <= i <= s.len() - p.len() && #[trigger] s.subrange(i, i + p.len()) == p
}

/// Whether `p` occurs in `s` at position `i`.
pub fn aparece_en(s: &[char], p: &[char], i: usize) -> (r: bool)
    requires
        i + p@.len() <= s@.len(),
    ensures
        r == (s@.subrange(i as int, i + p@.len()) == p@),
{
    let n = s.len();
    let mut j: usize = 0;
    while j < p.len()
        invariant
            j <= p@.len(),
            n == s@.len(),
            i + p@.len() <= s@.len(),
            forall|k: int| 0 <= k < j ==> s@[i + k] == p@[k],
        decreases p@.len() - j,
    {
        assert(i + j < s@.len());
        if s[i + j] != p[j] {
            proof {
                assert(s@.subrange(i as int, i + p@.len())[j as int] != p@[j as int]);
            }
            return false;
        }
        j = j + 1;
    }
    proof {
        assert(s@.subrange(i as int, i + p@.len()) =~= p@);
    }
    true
}

/// Whether `s` begins with `p`.
pub fn empieza_con(s: &[char], p: &[char]) -> (r: bool)
    ensures
        r == empieza(s@, p@),
{
    if p.len() > s.len() {
        return false;
    }
    let r = aparece_en(s, p, 0);
    proof {
        assert(s@.subrange(0, p@.len() as int) =~= s@.take(p@.len() as int));
    }
    r
}

/// Whether `s` ends with `p`.
pub fn termina_con(s: &[char], p: &[char]) -> (r: bool)
    ensures
        r == termina(s@, p@),
{
    if p.len() > s.len() {
        return false;
    }
    let r = aparece_en(s, p, s.len() - p.len());
    proof {
        assert(s@.subrange(s@.len() - p@.len(), s@.len() as int) =~= s@.skip(
            s@.len() - p@.len(),
        ));
    }
    r
}

/// Whether `p` occurs in `s`.
pub fn contiene_en(s: &[char], p: &[char]) -> (r: bool)
    ensures
        r == contiene(s@, p@),
{
    if p.len() > s.len() {
        return false;
    }
    let tope = s.len() - p.len();
    let mut i: usize = 0;
    loop
        invariant
            tope == s@.len() - p@.len(),
            i <= tope,
            forall|k: int| 0 <= k < i ==> #[trigger] s@.subrange(k, k + p@.len()) != p@,
        decreases tope - i,
    {
        if aparece_en(s, p, i) {
            return true;
        }
        if i == tope {
            return false;
        }
        i = i + 1;
    }
}

/// The first position of `c` in `s` at or after `i`, or the length of `s`
/// when there is none.
pub open spec fn indice_desde(s: Seq<char>, c: char, i: int) -> int
    decreases s.len() - i,
{
    if i >= s.len() {
        s.len() as int
    } else if s[i] == c {
        i
    } else {
        indice_desde(s, c, i + 1)
    }
}

/// The first position of `c` in `s`, or the length of `s` when it does not occur.
pub open spec fn indice(s: Seq<char>, c: char) -> int {
    indice_desde(s, c, 0)
}

pub proof fn lema_indice(s: Seq<char>, c: char, i: int)
    requires
        0 <= i <= s.len(),
        forall|j: int| 0 <= j < i ==> s[j] != c,
    ensures
        indice(s, c) == indice_desde(s, c, i),
    decreases i,
{
    if i > 0 {
        lema_indice(s, c, i - 1);
    }
}

/// What `indice` means: the first occurrence, or none at all.
pub proof fn lema_indice_es_el_primero(s: Seq<char>, c: char)
    ensures
        0 <= indice(s, c) <= s.len(),
        indice(s, c) < s.len() ==> s[indice(s, c)] == c,
        forall|j: int| 0 <= j < indice(s, c) ==> s[j] != c,
{
    lema_indice_desde(s, c, 0);
}

proof fn lema_indice_desde(s: Seq<char>, c: char, i: int)
    requires
        0 <= i,
    ensures
        i <= s.len() ==> i <= indice_desde(s, c, i) <= s.len(),
        indice_desde(s, c, i) < s.len() ==> s[indice_desde(s, c, i)] == c,
        forall|j: int| i <= j < indice_desde(s, c, i) ==> s[j] != c,
    decreases s.len() - i,
{
    if i < s.len() && s[i] != c {
        lema_indice_desde(s, c, i + 1);
    }
}

/// The first position of `c` in `s`.
pub fn buscar(s: &[char], c: char) -> (r: Option<usize>)
    ensures
        0 <= indice(s@, c) <= s@.len(),
        r == (if indice(s@, c) < s@.len() {
            Some(indice(s@, c) as usize)
        } else {
            None::<usize>
        }),
        match r {
            Some(i) => i < s@.len() && s@[i as int] == c && forall|j: int|
                0 <= j < i ==> s@[j] != c,
            None => forall|j: int| 0 <= j < s@.len() ==> s@[j] != c,
        },
{
    proof {
        lema_indice_es_el_primero(s@, c);
    }
    let mut i: usize = 0;
    while i < s.len()
        invariant
            i <= s@.len(),
            forall|j: int| 0 <= j < i ==> s@[j] != c,
        decreases s@.len() - i,
    {
        if s[i] == c {
            proof {
                lema_indice(s@, c, i as int);
            }
            return Some(i);
        }
        i = i + 1;
    }
    proof {
        lema_indice(s@, c, i as int);
    }
    None
}

/// `s` without its leading white space.
pub fn sin_blanco_al_inicio(s: &[char]) -> (r: Vec<char>)
    ensures
        r@ == sin_blanco_inicial(s@),
        r@.len() <= s@.len(),
{
    let mut i: usize = 0;
    while i < s.len() && blanco(s[i])
        invariant
            i <= s@.len(),
            forall|j: int| 0 <= j < i ==> es_blanco(#[trigger] s@[j]),
        decreases s@.len() - i,
    {
        i = i + 1;
    }
    proof {
        lema_sin_blanco_inicial(s@, i as int);
        assert(sin_blanco_inicial(s@.skip(i as int)) == s@.skip(i as int));
    }
    let r = copia(s, i, s.len());
    proof {
        assert(r@ =~= s@.skip(i as int));
    }
    r
}

pub proof fn lema_largo_sin_blanco_inicial(s: Seq<char>)
    ensures
        sin_blanco_inicial(s).len() <= s.len(),
        s.len() > 0 && es_blanco(s[0]) ==> sin_blanco_inicial(s).len() < s.len(),
    decreases s.len(),
{
    if s.len() > 0 && es_blanco(s[0]) {
        lema_largo_sin_blanco_inicial(s.drop_first());
    }
}

/// The pieces of `s` between the occurrences of `c`, from position `i` on,
/// `actual` being the piece already read. There is always at least one piece,
/// possibly empty, as with `str::split`.
pub open spec fn partes_desde(s: Seq<char>, c: char, i: int, actual: Seq<char>) -> Seq<Seq<char>>
    decreases s.len() - i,
{
    if i >= s.len() || i < 0 {
        seq![actual]
    } else if s[i] == c {
        seq![actual] + partes_desde(s, c, i + 1, seq![])
    } else {
        partes_desde(s, c, i + 1, actual.push(s[i]))
    }
}

/// The pieces of `s` between the occurrences of `c`, as `str::split` gives them.
pub open spec fn partes(s: Seq<char>, c: char) -> Seq<Seq<char>> {
    partes_desde(s, c, 0, seq![])
}

/// The pieces of `s` between the occurrences of `c`.
pub fn partir(s: &[char], c: char) -> (r: Vec<Vec<char>>)
    ensures
        vista(r@) == partes(s@, c),
{
    let mut r: Vec<Vec<char>> = Vec::new();
    let mut actual: Vec<char> = Vec::new();
    let mut i: usize = 0;
    while i < s.len()
        invariant
            i <= s@.len(),
            partes(s@, c) == vista(r@) + partes_desde(s@, c, i as int, actual@),
        decreases s@.len() - i,
    {
        if s[i] == c {
            let ghost previo = vista(r@);
            let ghost pieza = actual@;
            r.push(actual);
            actual = Vec::new();
            proof {
                assert(vista(r@) =~= previo.push(pieza));
                assert(partes(s@, c) =~= vista(r@) + partes_desde(s@, c, i + 1, actual@));
            }
        } else {
            actual.push(s[i]);
        }
        i = i + 1;
    }
    let ghost previo = vista(r@);
    let ghost pieza = actual@;
    r.push(actual);
    proof {
        assert(vista(r@) =~= previo + seq![pieza]);
    }
    r
}

/// Whether `a` comes before `b` in the order of `String`: character by
/// character, by code point, a prefix before what extends it.
pub open spec fn lex_menor(a: Seq<char>, b: Seq<char>) -> bool
    decreases a.len(),
{
    if a.len() == 0 {
        b.len() > 0
    } else if b.len() == 0 {
        false
    } else if a[0] != b[0] {
        a[0] < b[0]
    } else {
        lex_menor(a.drop_first(), b.drop_first())
    }
}

pub proof fn lema_lex_irreflexivo(a: Seq<char>)
    ensures
        !lex_menor(a, a),
    decreases a.len(),
{
    if a.len() > 0 {
        lema_lex_irreflexivo(a.drop_first());
    }
}

pub proof fn lema_lex_transitivo(a: Seq<char>, b: Seq<char>, c: Seq<char>)
    requires
        lex_menor(a, b),
        lex_menor(b, c),
    ensures
        lex_menor(a, c),
    decreases a.len(),
{
    if a.len() > 0 && b.len() > 0 && c.len() > 0 && a[0] == b[0] && b[0] == c[0] {
        lema_lex_transitivo(a.drop_first(), b.drop_first(), c.drop_first());
    }
}

pub proof fn lema_lex_total(a: Seq<char>, b: Seq<char>)
    requires
        a != b,
    ensures
        lex_menor(a, b) || lex_menor(b, a),
    decreases a.len(),
{
    if a.len() > 0 && b.len() > 0 && a[0] == b[0] {
        if a.drop_first() == b.drop_first() {
            assert(a =~= seq![a[0]] + a.drop_first());
            assert(b =~= seq![b[0]] + b.drop_first());
        }
        lema_lex_total(a.drop_first(), b.drop_first());
    } else if a.len() == 0 && b.len() == 0 {
        assert(a =~= b);
    }
}

pub proof fn lema_lex_asimetrico(a: Seq<char>, b: Seq<char>)
    requires
        lex_menor(a, b),
    ensures
        !lex_menor(b, a),
{
    if lex_menor(b, a) {
        lema_lex_transitivo(a, b, a);
        lema_lex_irreflexivo(a);
    }
}

/// Whether `a` comes before `b`.
pub fn menor(a: &[char], b: &[char]) -> (r: bool)
    ensures
        r == lex_menor(a@, b@),
{
    let mut i: usize = 0;
    proof {
        assert(a@.skip(0) =~= a@);
        assert(b@.skip(0) =~= b@);
    }
    while i < a.len() && i < b.len() && a[i] == b[i]
        invariant
            i <= a@.len(),
            i <= b@.len(),
            lex_menor(a@, b@) == lex_menor(a@.skip(i as int), b@.skip(i as int)),
        decreases a@.len() - i,
    {
        proof {
            assert(a@.skip(i as int).drop_first() =~= a@.skip(i + 1));
            assert(b@.skip(i as int).drop_first() =~= b@.skip(i + 1));
        }
        i = i + 1;
    }
    if i == a.len() {
        i < b.len()
    } else if i == b.len() {
        false
    } else {
        a[i] < b[i]
    }
}

/// What `str::to_lowercase` makes of a text. Its result depends on the text
/// alone: it follows the Unicode case tables, with no locale involved.
pub uninterp spec fn minusculas_de(s: Seq<char>) -> Seq<char>;

/// Whether every character of a text is ASCII.
pub open spec fn todo_ascii(s: Seq<char>) -> bool {
    forall|i: int| 0 <= i < s.len() ==> (#[trigger] s[i] as u32) < 128
}

/// A character in lower case as ASCII has it: `A`-`Z` become `a`-`z`, and
/// every other character stays.
pub open spec fn minuscula_ascii(c: char) -> char {
    if 'A' <= c && c <= 'Z' {
        ((c as u32) + 32) as char
    } else {
        c
    }
}

/// `str::to_lowercase`: the text in lower case, by Unicode's rules. On a text
/// of ASCII characters those rules are ASCII's: each capital letter becomes
/// its small letter, and everything else stays.
#[verifier::external_body]
fn minusculas(s: &str) -> (r: String)
    ensures
        r@ == minusculas_de(s@),
        todo_ascii(s@) ==> r@ == Seq::new(s@.len(), |i: int| minuscula_ascii(s@[i])),
{
    s.to_lowercase()
}

/// The characters in lower case.
pub fn minusculas_en(v: &[char]) -> (r: Vec<char>)
    ensures
        r@ == minusculas_de(v@),
{
    let s = a_string(v);
    let m = minusculas(s.as_str());
    caracteres(m.as_str())
}

/// A string with the characters of `v`.
pub fn a_string(v: &[char]) -> (r: String)
    ensures
        r@ == v@,
{
    let mut r = String::new();
    let mut i: usize = 0;
    while i < v.len()
        invariant
            i <= v@.len(),
            r@ == v@.take(i as int),
        decreases v@.len() - i,
    {
        empujar(&mut r, v[i]);
        i = i + 1;
        proof {
            assert(r@ =~= v@.take(i as int));
        }
    }
    proof {
        assert(v@.take(v@.len() as int) =~= v@);
    }
    r
}

/// `String::push`: `c` goes at the end of `s`.
#[verifier::external_body]
pub(crate) fn empujar(s: &mut String, c: char)
    ensures
        final(s)@ == old(s)@.push(c),
{
    s.push(c)
}

/// `m` places each element of `a` in `b`, in increasing positions.
pub open spec fn es_inclusion<A>(m: Seq<int>, a: Seq<A>, b: Seq<A>) -> bool {
    &&& m.len() == a.len()
    &&& forall|i: int| 0 <= i < m.len() ==> 0 <= #[trigger] m[i] < b.len() && b[m[i]] == a[i]
    &&& forall|i: int, j: int| 0 <= i < j < m.len() ==> #[trigger] m[i] < #[trigger] m[j]
}

/// The elements of `a` appear in `b` in the same order, possibly with others
/// between them: `b` is `a` with things inserted.
pub open spec fn subsecuencia<A>(a: Seq<A>, b: Seq<A>) -> bool {
    exists|m: Seq<int>| es_inclusion(m, a, b)
}

pub proof fn lema_subsecuencia_refleja<A>(a: Seq<A>)
    ensures
        subsecuencia(a, a),
{
    let m = Seq::new(a.len(), |i: int| i);
    assert(es_inclusion(m, a, a));
}

pub proof fn lema_subsecuencia_insertar<A>(a: Seq<A>, d: int, x: A)
    requires
        0 <= d <= a.len(),
    ensures
        subsecuencia(a, a.insert(d, x)),
{
    let m = Seq::new(a.len(), |i: int| if i < d { i } else { i + 1 });
    assert(es_inclusion(m, a, a.insert(d, x)));
}

pub proof fn lema_subsecuencia_empujar<A>(a: Seq<A>, x: A)
    ensures
        subsecuencia(a, a.push(x)),
{
    let m = Seq::new(a.len(), |i: int| i);
    assert(es_inclusion(m, a, a.push(x)));
}

pub proof fn lema_subsecuencia_transitiva<A>(a: Seq<A>, b: Seq<A>, c: Seq<A>)
    requires
        subsecuencia(a, b),
        subsecuencia(b, c),
    ensures
        subsecuencia(a, c),
{
    let m1 = choose|m: Seq<int>| es_inclusion(m, a, b);
    let m2 = choose|m: Seq<int>| es_inclusion(m, b, c);
    let m = Seq::new(a.len(), |i: int| m2[m1[i]]);
    assert forall|i: int| 0 <= i < m.len() implies 0 <= #[trigger] m[i] < c.len() && c[m[i]] == a[i] by {
        assert(0 <= m1[i] < b.len());
    }
    assert forall|i: int, j: int| 0 <= i < j < m.len() implies #[trigger] m[i] < #[trigger] m[j] by {
        assert(m1[i] < m1[j]);
        assert(0 <= m1[j] < b.len());
    }
    assert(es_inclusion(m, a, c));
}

pub proof fn lema_subsecuencia_con_cabeza<A>(a: Seq<A>, b: Seq<A>, x: A)
    requires
        subsecuencia(a, b),
    ensures
        subsecuencia(seq![x] + a, seq![x] + b),
        subsecuencia(a, seq![x] + b),
{
    let m1 = choose|m: Seq<int>| es_inclusion(m, a, b);
    let m = seq![0int] + Seq::new(a.len(), |i: int| m1[i] + 1);
    assert forall|i: int| 0 <= i < m.len() implies 0 <= #[trigger] m[i] < (seq![x] + b).len() && (
    seq![x] + b)[m[i]] == (seq![x] + a)[i] by {
        if i > 0 {
            assert(0 <= m1[i - 1] < b.len());
        }
    }
    assert forall|i: int, j: int| 0 <= i < j < m.len() implies #[trigger] m[i] < #[trigger] m[j] by {
        assert(0 <= m1[j - 1] < b.len());
        if i > 0 {
            assert(m1[i - 1] < m1[j - 1]);
        }
    }
    assert(es_inclusion(m, seq![x] + a, seq![x] + b));
    let n = Seq::new(a.len(), |i: int| m1[i] + 1);
    assert forall|i: int| 0 <= i < n.len() implies 0 <= #[trigger] n[i] < (seq![x] + b).len() && (
    seq![x] + b)[n[i]] == a[i] by {
        assert(0 <= m1[i] < b.len());
    }
    assert forall|i: int, j: int| 0 <= i < j < n.len() implies #[trigger] n[i] < #[trigger] n[j] by {
        assert(m1[i] < m1[j]);
    }
    assert(es_inclusion(n, a, seq![x] + b));
}

/// No character of `s` is `c`.
pub open spec fn sin_caracter(s: Seq<char>, c: char) -> bool {
    forall|i: int| 0 <= i < s.len() ==> #[trigger] s[i] != c
}

proof fn lema_lineas_desde_corrido(p: Seq<char>, q: Seq<char>, j: int, actual: Seq<char>)
    requires
        0 <= j <= q.len(),
    ensures
        lineas_desde(p + q, p.len() + j, actual) == lineas_desde(q, j, actual),
    decreases q.len() - j,
{
    if j < q.len() {
        assert((p + q)[p.len() + j] == q[j]);
        if q[j] == '\n' {
            lema_lineas_desde_corrido(p, q, j + 1, seq![]);
        } else {
            lema_lineas_desde_corrido(p, q, j + 1, actual.push(q[j]));
        }
    }
}

proof fn lema_lineas_desde_concatenadas(p: Seq<char>, q: Seq<char>, i: int, actual: Seq<char>)
    requires
        p.len() > 0,
        p.last() == '\n',
        0 <= i <= p.len(),
        i == p.len() ==> actual == Seq::<char>::empty(),
    ensures
        lineas_desde(p + q, i, actual) == lineas_desde(p, i, actual) + lineas(q),
    decreases p.len() - i,
{
    if i == p.len() {
        lema_lineas_desde_corrido(p, q, 0, actual);
        assert(lineas_desde(p, i, actual) =~= Seq::<Seq<char>>::empty());
        assert(lineas_desde(p, i, actual) + lineas(q) =~= lineas(q));
    } else {
        assert((p + q)[i] == p[i]);
        if p[i] == '\n' {
            lema_lineas_desde_concatenadas(p, q, i + 1, seq![]);
            assert(lineas_desde(p + q, i, actual) =~= lineas_desde(p, i, actual) + lineas(q));
        } else {
            lema_lineas_desde_concatenadas(p, q, i + 1, actual.push(p[i]));
        }
    }
}

/// Text that ends a line (or is empty) and what follows it: the lines of the
/// whole are the lines of each part.
pub proof fn lema_lineas_concatenadas(p: Seq<char>, q: Seq<char>)
    requires
        p.len() == 0 || p.last() == '\n',
    ensures
        lineas(p + q) == lineas(p) + lineas(q),
{
    if p.len() == 0 {
        assert(p + q =~= q);
        assert(lineas(p) =~= Seq::<Seq<char>>::empty());
        assert(lineas(p) + lineas(q) =~= lineas(q));
    } else {
        lema_lineas_desde_concatenadas(p, q, 0, seq![]);
    }
}

proof fn lema_lineas_desde_una(s: Seq<char>, i: int)
    requires
        sin_caracter(s, '\n'),
        0 <= i <= s.len(),
    ensures
        lineas_desde(s.push('\n'), i, s.take(i)) == seq![sin_cr(s)],
    decreases s.len() - i,
{
    let t = s.push('\n');
    if i == s.len() {
        assert(s.take(i) =~= s);
        assert(lineas_desde(t, i + 1, seq![]) =~= Seq::<Seq<char>>::empty());
        assert(lineas_desde(t, i, s.take(i)) =~= seq![sin_cr(s)]);
    } else {
        assert(t[i] == s[i]);
        assert(s[i] != '\n');
        assert(s.take(i).push(s[i]) =~= s.take(i + 1));
        lema_lineas_desde_una(s, i + 1);
    }
}

/// A text with no line break, and one after it, is one line.
pub proof fn lema_lineas_una(s: Seq<char>)
    requires
        sin_caracter(s, '\n'),
    ensures
        lineas(s.push('\n')) == seq![sin_cr(s)],
{
    lema_lineas_desde_una(s, 0);
    assert(s.take(0) =~= Seq::<char>::empty());
}

proof fn lema_lineas_desde_sin(t: Seq<char>, c: char, i: int, actual: Seq<char>)
    requires
        sin_caracter(t, c),
        sin_caracter(actual, c),
        0 <= i,
    ensures
        forall|k: int|
            0 <= k < lineas_desde(t, i, actual).len() ==> sin_caracter(
                #[trigger] lineas_desde(t, i, actual)[k],
                c,
            ),
    decreases t.len() - i,
{
    let res = lineas_desde(t, i, actual);
    if i < t.len() {
        if t[i] == '\n' {
            lema_lineas_desde_sin(t, c, i + 1, seq![]);
            let r = lineas_desde(t, i + 1, seq![]);
            assert(res == seq![sin_cr(actual)] + r);
            assert(sin_caracter(sin_cr(actual), c)) by {
                assert forall|k: int| 0 <= k < sin_cr(actual).len() implies #[trigger] sin_cr(
                    actual,
                )[k] != c by {
                    assert(sin_cr(actual)[k] == actual[k]);
                }
            }
            assert forall|k: int| 0 <= k < res.len() implies sin_caracter(#[trigger] res[k], c) by {
                if k > 0 {
                    assert(res[k] == r[k - 1]);
                } else {
                    assert(res[k] == sin_cr(actual));
                }
            }
        } else {
            let a2 = actual.push(t[i]);
            assert(sin_caracter(a2, c)) by {
                assert forall|k: int| 0 <= k < a2.len() implies #[trigger] a2[k] != c by {
                    if k < actual.len() {
                        assert(a2[k] == actual[k]);
                    }
                }
            }
            lema_lineas_desde_sin(t, c, i + 1, a2);
            assert(res == lineas_desde(t, i + 1, a2));
        }
    } else if actual.len() > 0 {
        assert(res =~= seq![actual]);
        assert forall|k: int| 0 <= k < res.len() implies sin_caracter(#[trigger] res[k], c) by {
            assert(res[k] == actual);
        }
    } else {
        assert(res.len() == 0);
    }
}

/// A character the text lacks is in none of its lines.
pub proof fn lema_lineas_sin(t: Seq<char>, c: char)
    requires
        sin_caracter(t, c),
    ensures
        forall|k: int| 0 <= k < lineas(t).len() ==> sin_caracter(#[trigger] lineas(t)[k], c),
{
    lema_lineas_desde_sin(t, c, 0, seq![]);
}

proof fn lema_partes_desde_sin(s: Seq<char>, c: char, i: int, actual: Seq<char>)
    requires
        0 <= i <= s.len(),
        forall|k: int| i <= k < s.len() ==> #[trigger] s[k] != c,
    ensures
        partes_desde(s, c, i, actual) == seq![actual + s.subrange(i, s.len() as int)],
    decreases s.len() - i,
{
    if i == s.len() {
        assert(actual + s.subrange(i, s.len() as int) =~= actual);
    } else {
        lema_partes_desde_sin(s, c, i + 1, actual.push(s[i]));
        assert(actual.push(s[i]) + s.subrange(i + 1, s.len() as int) =~= actual + s.subrange(
            i,
            s.len() as int,
        ));
    }
}

/// A text without `c` is one piece.
pub proof fn lema_partes_sin(s: Seq<char>, c: char)
    requires
        sin_caracter(s, c),
    ensures
        partes(s, c) == seq![s],
{
    lema_partes_desde_sin(s, c, 0, seq![]);
    assert(Seq::<char>::empty() + s.subrange(0, s.len() as int) =~= s);
}

proof fn lema_partes_desde_corrido(p: Seq<char>, q: Seq<char>, c: char, j: int, actual: Seq<char>)
    requires
        0 <= j <= q.len(),
    ensures
        partes_desde(p + q, c, p.len() + j, actual) == partes_desde(q, c, j, actual),
    decreases q.len() - j,
{
    if j < q.len() {
        assert((p + q)[p.len() + j] == q[j]);
        if q[j] == c {
            lema_partes_desde_corrido(p, q, c, j + 1, seq![]);
        } else {
            lema_partes_desde_corrido(p, q, c, j + 1, actual.push(q[j]));
        }
    }
}

/// A piece without `c`, then `c`, then the rest: the first piece, then the
/// pieces of the rest.
pub proof fn lema_partes_corte(x: Seq<char>, y: Seq<char>, c: char)
    requires
        sin_caracter(x, c),
    ensures
        partes(x + seq![c] + y, c) == seq![x] + partes(y, c),
{
    let s = x + seq![c] + y;
    assert forall|k: int| 0 <= k < x.len() implies #[trigger] s[k] != c by {
        assert(s[k] == x[k]);
    }
    lema_partes_desde_hasta(s, c, 0, seq![], x.len() as int);
    assert(s[x.len() as int] == c);
    assert(Seq::<char>::empty() + s.subrange(0, x.len() as int) =~= x);
    lema_partes_desde_corrido(x + seq![c], y, c, 0, seq![]);
    assert(x + seq![c] + y =~= s);
    assert((x + seq![c]).len() == x.len() + 1);
}

proof fn lema_partes_desde_hasta(s: Seq<char>, c: char, i: int, actual: Seq<char>, f: int)
    requires
        0 <= i <= f < s.len(),
        s[f] == c,
        forall|k: int| i <= k < f ==> #[trigger] s[k] != c,
    ensures
        partes_desde(s, c, i, actual) == seq![actual + s.subrange(i, f)] + partes_desde(
            s,
            c,
            f + 1,
            seq![],
        ),
    decreases f - i,
{
    if i == f {
        assert(actual + s.subrange(i, f) =~= actual);
    } else {
        lema_partes_desde_hasta(s, c, i + 1, actual.push(s[i]), f);
        assert(actual.push(s[i]) + s.subrange(i + 1, f) =~= actual + s.subrange(i, f));
    }
}

pub proof fn lema_largo_sin_blanco_final(s: Seq<char>)
    ensures
        sin_blanco_final(s).len() <= s.len(),
        s.len() > 0 && es_blanco(s.last()) ==> sin_blanco_final(s).len() < s.len(),
    decreases s.len(),
{
    if s.len() > 0 && es_blanco(s.last()) {
        lema_largo_sin_blanco_final(s.drop_last());
    }
}

/// A text that trimming leaves as it is does not end in white space.
pub proof fn lema_recortado_no_termina_en_blanco(s: Seq<char>)
    requires
        recorte(s) == s,
        s.len() > 0,
    ensures
        !es_blanco(s.last()),
{
    lema_largo_sin_blanco_inicial(s);
    lema_largo_sin_blanco_final(sin_blanco_inicial(s));
    if es_blanco(s.last()) {
        if s.len() > 0 && es_blanco(s[0]) {
        } else {
            assert(sin_blanco_inicial(s) == s);
        }
    }
}

/// What contains `p` still contains it with more around it.
pub proof fn lema_contiene_con_mas(a: Seq<char>, s: Seq<char>, b: Seq<char>, p: Seq<char>)
    requires
        contiene(s, p),
    ensures
        contiene(a + s + b, p),
{
    let i = choose|i: int| 0 <= i <= s.len() - p.len() && #[trigger] s.subrange(i, i + p.len()) == p;
    let t = a + s + b;
    assert(t.subrange(a.len() + i, a.len() + i + p.len()) =~= s.subrange(i, i + p.len()));
}

/// Joining lines keeps what each of them contains.
pub proof fn lema_unir_contiene(ls: Seq<Seq<char>>, sep: Seq<char>, k: int, p: Seq<char>)
    requires
        0 <= k < ls.len(),
        contiene(ls[k], p),
    ensures
        contiene(unir(ls, sep), p),
    decreases ls.len(),
{
    if ls.len() == 1 {
    } else if k == ls.len() - 1 {
        lema_contiene_con_mas(unir(ls.drop_last(), sep) + sep, ls.last(), seq![], p);
        assert(unir(ls.drop_last(), sep) + sep + ls.last() + seq![] =~= unir(ls, sep));
    } else {
        assert(ls.drop_last()[k] == ls[k]);
        lema_unir_contiene(ls.drop_last(), sep, k, p);
        lema_contiene_con_mas(seq![], unir(ls.drop_last(), sep), sep + ls.last(), p);
        assert(seq![] + unir(ls.drop_last(), sep) + (sep + ls.last()) =~= unir(ls, sep));
    }
}

/// The words of `s` from position `i` on, `actual` being the word being read:
/// the longest runs without white space, as `str::split_whitespace` gives them.
pub open spec fn palabras_desde(s: Seq<char>, i: int, actual: Seq<char>) -> Seq<Seq<char>>
    decreases s.len() - i,
{
    if i >= s.len() || i < 0 {
        if actual.len() > 0 {
            seq![actual]
        } else {
            seq![]
        }
    } else if es_blanco(s[i]) {
        (if actual.len() > 0 {
            seq![actual]
        } else {
            seq![]
        }) + palabras_desde(s, i + 1, seq![])
    } else {
        palabras_desde(s, i + 1, actual.push(s[i]))
    }
}

/// The words of `s`.
pub open spec fn palabras(s: Seq<char>) -> Seq<Seq<char>> {
    palabras_desde(s, 0, seq![])
}

/// The words of `s`.
pub fn palabras_de(s: &[char]) -> (r: Vec<Vec<char>>)
    ensures
        vista(r@) == palabras(s@),
{
    let mut r: Vec<Vec<char>> = Vec::new();
    let mut actual: Vec<char> = Vec::new();
    let mut i: usize = 0;
    while i < s.len()
        invariant
            i <= s@.len(),
            palabras(s@) == vista(r@) + palabras_desde(s@, i as int, actual@),
        decreases s@.len() - i,
    {
        if blanco(s[i]) {
            let ghost previo = vista(r@);
            let ghost pieza = actual@;
            if actual.len() > 0 {
                r.push(actual);
                proof {
                    assert(vista(r@) =~= previo + seq![pieza]);
                }
            } else {
                proof {
                    assert(vista(r@) =~= previo + Seq::<Seq<char>>::empty());
                }
            }
            actual = Vec::new();
            proof {
                assert(palabras(s@) =~= vista(r@) + palabras_desde(s@, i + 1, actual@));
            }
        } else {
            actual.push(s[i]);
        }
        i = i + 1;
    }
    if actual.len() > 0 {
        let ghost previo = vista(r@);
        let ghost pieza = actual@;
        r.push(actual);
        proof {
            assert(vista(r@) =~= previo + seq![pieza]);
        }
    } else {
        proof {
            assert(vista(r@) =~= vista(r@) + Seq::<Seq<char>>::empty());
        }
    }
    r
}

/// The code of `c` with an ASCII capital taken to its small letter; any other
/// character keeps its code.
pub open spec fn codigo_sin_mayuscula(c: char) -> u32 {
    if 'A' <= c && c <= 'Z' {
        (c as u32 + 32) as u32
    } else {
        c as u32
    }
}

/// Whether `a` and `b` are equal when ASCII capitals are taken as small letters,
/// as `str::eq_ignore_ascii_case` compares them.
pub open spec fn iguales_sin_mayusculas(a: Seq<char>, b: Seq<char>) -> bool {
    &&& a.len() == b.len()
    &&& forall|i: int| 0 <= i < a.len() ==> #[trigger] codigo_sin_mayuscula(a[i]) == codigo_sin_mayuscula(b[i])
}

fn codigo_minuscula(c: char) -> (r: u32)
    ensures
        r == codigo_sin_mayuscula(c),
{
    if 'A' <= c && c <= 'Z' {
        (c as u32) + 32
    } else {
        c as u32
    }
}

/// Whether `a` and `b` are equal ignoring ASCII capitals.
pub fn iguales_sin_mayusculas_en(a: &[char], b: &[char]) -> (r: bool)
    ensures
        r == iguales_sin_mayusculas(a@, b@),
{
    if a.len() != b.len() {
        return false;
    }
    let mut i: usize = 0;
    while i < a.len()
        invariant
            i <= a@.len() == b@.len(),
            forall|j: int| 0 <= j < i ==> #[trigger] codigo_sin_mayuscula(a@[j]) == codigo_sin_mayuscula(b@[j]),
        decreases a@.len() - i,
    {
        if codigo_minuscula(a[i]) != codigo_minuscula(b[i]) {
            return false;
        }
        i = i + 1;
    }
    true
}

/// The last position of `c` in `s`, or -1.
pub open spec fn ultimo_indice(s: Seq<char>, c: char) -> int
    decreases s.len(),
{
    if s.len() == 0 {
        -1
    } else if s.last() == c {
        s.len() - 1
    } else {
        ultimo_indice(s.drop_last(), c)
    }
}

pub proof fn lema_ultimo_indice(s: Seq<char>, c: char)
    ensures
        -1 <= ultimo_indice(s, c) < s.len(),
        ultimo_indice(s, c) >= 0 ==> s[ultimo_indice(s, c)] == c,
        forall|j: int| ultimo_indice(s, c) < j < s.len() ==> s[j] != c,
    decreases s.len(),
{
    if s.len() > 0 && s.last() != c {
        lema_ultimo_indice(s.drop_last(), c);
        assert forall|j: int| ultimo_indice(s, c) < j < s.len() implies s[j] != c by {
            if j < s.len() - 1 {
                assert(s.drop_last()[j] == s[j]);
            }
        }
    }
}

/// The last position of `c` in `s`.
pub fn buscar_ultimo(s: &[char], c: char) -> (r: Option<usize>)
    ensures
        match r {
            Some(i) => i as int == ultimo_indice(s@, c),
            None => ultimo_indice(s@, c) == -1,
        },
{
    let mut i: usize = s.len();
    assert(s@.take(i as int) =~= s@);
    while i > 0
        invariant
            i <= s@.len(),
            ultimo_indice(s@, c) == ultimo_indice(s@.take(i as int), c),
        decreases i,
    {
        if s[i - 1] == c {
            assert(s@.take(i as int).last() == c);
            return Some(i - 1);
        }
        assert(s@.take(i as int).drop_last() =~= s@.take(i - 1));
        i = i - 1;
    }
    assert(s@.take(0) =~= Seq::<char>::empty());
    None
}

/// The contents of each string.
pub open spec fn vista_textos(v: Seq<String>) -> Seq<Seq<char>> {
    v.map_values(|s: String| s@)
}

/// The contents of an optional string.
pub open spec fn vista_opcional(o: Option<String>) -> Option<Seq<char>> {
    match o {
        Some(s) => Some(s@),
        None => None,
    }
}

/// The strings of these characters.
pub fn a_textos(v: &Vec<Vec<char>>) -> (r: Vec<String>)
    ensures
        vista_textos(r@) == vista(v@),
{
    let mut r: Vec<String> = Vec::new();
    let mut i: usize = 0;
    while i < v.len()
        invariant
            i <= v@.len(),
            vista_textos(r@) == vista(v@).take(i as int),
        decreases v@.len() - i,
    {
        let ghost previo = vista_textos(r@);
        let t = a_string(v[i].as_slice());
        r.push(t);
        proof {
            assert(vista_textos(r@) =~= previo.push(v@[i as int]@));
            assert(vista(v@).take(i + 1) =~= vista(v@).take(i as int).push(v@[i as int]@));
        }
        i = i + 1;
    }
    proof {
        assert(vista(v@).take(v@.len() as int) =~= vista(v@));
    }
    r
}

/// The characters of these strings.
pub fn de_textos(v: &[String]) -> (r: Vec<Vec<char>>)
    ensures
        vista(r@) == vista_textos(v@),
{
    let mut r: Vec<Vec<char>> = Vec::new();
    let mut i: usize = 0;
    while i < v.len()
        invariant
            i <= v@.len(),
            vista(r@) == vista_textos(v@).take(i as int),
        decreases v@.len() - i,
    {
        let ghost previo = vista(r@);
        let t = caracteres(v[i].as_str());
        r.push(t);
        proof {
            assert(vista(r@) =~= previo.push(v@[i as int]@));
            assert(vista_textos(v@).take(i + 1) =~= vista_textos(v@).take(i as int).push(v@[i as int]@));
        }
        i = i + 1;
    }
    proof {
        assert(vista_textos(v@).take(v@.len() as int) =~= vista_textos(v@));
    }
    r
}

/// A copy of an optional string.
pub fn copia_opcional(o: &Option<String>) -> (r: Option<String>)
    ensures
        vista_opcional(r) == vista_opcional(*o),
{
    match o {
        Some(s) => Some(s.clone()),
        None => None,
    }
}

/// The pieces, trimmed, without the ones left empty.
pub open spec fn recortadas_no_vacias(ps: Seq<Seq<char>>) -> Seq<Seq<char>>
    decreases ps.len(),
{
    if ps.len() == 0 {
        seq![]
    } else if recorte(ps.last()).len() > 0 {
        recortadas_no_vacias(ps.drop_last()).push(recorte(ps.last()))
    } else {
        recortadas_no_vacias(ps.drop_last())
    }
}

/// The pieces of `v` between the occurrences of `c`, trimmed, without the
/// empty ones.
pub fn piezas_recortadas(v: &[char], c: char) -> (r: Vec<String>)
    ensures
        vista_textos(r@) == recortadas_no_vacias(partes(v@, c)),
{
    let ps = partir(v, c);
    let ghost pv = vista(ps@);
    let mut r: Vec<String> = Vec::new();
    let mut i: usize = 0;
    while i < ps.len()
        invariant
            i <= ps@.len(),
            pv == vista(ps@),
            vista_textos(r@) == recortadas_no_vacias(pv.take(i as int)),
        decreases ps@.len() - i,
    {
        proof {
            assert(pv.take(i + 1).drop_last() =~= pv.take(i as int));
            assert(pv.take(i + 1).last() == ps@[i as int]@);
        }
        let t = recortado(ps[i].as_slice());
        if t.len() > 0 {
            let ghost previo = vista_textos(r@);
            r.push(a_string(t.as_slice()));
            proof {
                assert(vista_textos(r@) =~= previo.push(t@));
            }
        }
        i = i + 1;
    }
    proof {
        assert(pv.take(ps@.len() as int) =~= pv);
    }
    r
}

/// The first of the lines with something on it, trimmed.
pub open spec fn primera_con_algo(ls: Seq<Seq<char>>) -> Option<Seq<char>>
    decreases ls.len(),
{
    if ls.len() == 0 {
        None
    } else if recorte(ls[0]).len() > 0 {
        Some(recorte(ls[0]))
    } else {
        primera_con_algo(ls.drop_first())
    }
}

/// The first line with something on it, without white space around.
pub fn primera_linea_en(t: &[char]) -> (r: Option<Vec<char>>)
    ensures
        match r {
            Some(v) => primera_con_algo(lineas(t@)) == Some(v@),
            None => primera_con_algo(lineas(t@)) is None,
        },
{
    let ls = lineas_de(t);
    let ghost v = vista(ls@);
    let mut i: usize = 0;
    assert(v.skip(0) =~= v);
    while i < ls.len()
        invariant
            i <= ls@.len(),
            v == vista(ls@),
            v == lineas(t@),
            primera_con_algo(v) == primera_con_algo(v.skip(i as int)),
        decreases ls@.len() - i,
    {
        let r = recortado(ls[i].as_slice());
        assert(v.skip(i as int).len() > 0);
        assert(v.skip(i as int)[0] == ls@[i as int]@);
        if r.len() > 0 {
            return Some(r);
        }
        assert(v.skip(i as int).drop_first() =~= v.skip(i + 1));
        i = i + 1;
    }
    None
}

proof fn lema_partes_desde_alguna(s: Seq<char>, c: char, i: int, actual: Seq<char>)
    ensures
        partes_desde(s, c, i, actual).len() >= 1,
    decreases s.len() - i,
{
    if i < s.len() && i >= 0 {
        if s[i] == c {
            lema_partes_desde_alguna(s, c, i + 1, seq![]);
        } else {
            lema_partes_desde_alguna(s, c, i + 1, actual.push(s[i]));
        }
    }
}

/// Splitting always gives at least one piece.
pub proof fn lema_partes_alguna(s: Seq<char>, c: char)
    ensures
        partes(s, c).len() >= 1,
{
    lema_partes_desde_alguna(s, c, 0, seq![]);
}

/// The pieces of two texts joined by `c` are those of each, in order.
pub proof fn lema_partes_unidas(a: Seq<char>, b: Seq<char>, c: char)
    ensures
        partes(a + seq![c] + b, c) == partes(a, c) + partes(b, c),
    decreases a.len(),
{
    lema_indice_es_el_primero(a, c);
    let q = indice(a, c);
    if q >= a.len() {
        assert(sin_caracter(a, c));
        lema_partes_corte(a, b, c);
        lema_partes_sin(a, c);
    } else {
        let x = a.take(q);
        let y = a.skip(q + 1);
        assert(sin_caracter(x, c));
        assert(a =~= x + seq![c] + y);
        assert(a + seq![c] + b =~= x + seq![c] + (y + seq![c] + b));
        lema_partes_corte(x, y + seq![c] + b, c);
        lema_partes_corte(x, y, c);
        lema_partes_unidas(y, b, c);
        assert(seq![x] + (partes(y, c) + partes(b, c)) =~= (seq![x] + partes(y, c)) + partes(b, c));
    }
}

/// Joining two non-empty runs of lines is joining each, with the separator
/// between them.
pub proof fn lema_unir_concatenadas(a: Seq<Seq<char>>, b: Seq<Seq<char>>, sep: Seq<char>)
    requires
        a.len() > 0,
        b.len() > 0,
    ensures
        unir(a + b, sep) == unir(a, sep) + sep + unir(b, sep),
    decreases b.len(),
{
    let ab = a + b;
    assert(ab.drop_last() =~= a + b.drop_last());
    assert(ab.last() == b.last());
    if b.len() == 1 {
        assert(ab.drop_last() =~= a);
        assert(unir(b, sep) == b[0]);
    } else {
        lema_unir_concatenadas(a, b.drop_last(), sep);
        assert(unir(b, sep) == unir(b.drop_last(), sep) + sep + b.last());
        assert(unir(ab, sep) == unir(ab.drop_last(), sep) + sep + ab.last());
        assert(unir(a, sep) + sep + unir(b.drop_last(), sep) + sep + b.last() =~= unir(a, sep) + sep + (
        unir(b.drop_last(), sep) + sep + b.last()));
    }
}

} // verus!
