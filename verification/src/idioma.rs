//! The language the screens start in.
//!
//! The greeter runs before anyone has logged in, so there is no user locale
//! yet: greetd's own environment is all there is. Spanish is the fallback, as
//! in the rest of VasakOS.

use vstd::prelude::*;
use crate::texto::{caracteres, iguales};

verus! {

/// Whether `c` ends the language part of a locale name (`es_AR.UTF-8@euro`).
pub open spec fn corta_idioma(c: char) -> bool {
    c == '_' || c == '.' || c == '@'
}

/// The language part of a locale name: what comes before the first `_`, `.`
/// or `@`.
pub open spec fn parte_de_idioma(s: Seq<char>) -> Seq<char>
    decreases s.len(),
{
    if s.len() == 0 || corta_idioma(s[0]) {
        seq![]
    } else {
        seq![s[0]] + parte_de_idioma(s.drop_first())
    }
}

/// The language of the screens: English when the locale's language is `en`,
/// Spanish otherwise.
pub open spec fn idioma(locale: Seq<char>) -> Seq<char> {
    if parte_de_idioma(locale) == "en"@ {
        "en"@
    } else {
        "es"@
    }
}

/// The language for the locale in `$LC_ALL`, `$LC_MESSAGES` or `$LANG` (the
/// first one set), empty when none is.
pub fn language_of(locale: &str) -> (r: &'static str)
    ensures
        r@ == idioma(locale@),
{
    let c = caracteres(locale);
    let mut i: usize = 0;
    while i < c.len() && !(c[i] == '_' || c[i] == '.' || c[i] == '@')
        invariant
            i <= c@.len(),
            forall|k: int| 0 <= k < i ==> !corta_idioma(#[trigger] c@[k]),
        decreases c@.len() - i,
    {
        i = i + 1;
    }
    let en = caracteres("en");
    let mut p: Vec<char> = Vec::new();
    let mut j: usize = 0;
    while j < i
        invariant
            j <= i <= c@.len(),
            forall|k: int| 0 <= k < i ==> !corta_idioma(#[trigger] c@[k]),
            i < c@.len() ==> corta_idioma(c@[i as int]),
            p@ == c@.take(j as int),
        decreases i - j,
    {
        p.push(c[j]);
        j = j + 1;
        assert(p@ =~= c@.take(j as int));
    }
    proof {
        lema_parte(c@, i as int);
    }
    if iguales(p.as_slice(), en.as_slice()) {
        "en"
    } else {
        "es"
    }
}

proof fn lema_parte(s: Seq<char>, i: int)
    requires
        0 <= i <= s.len(),
        forall|k: int| 0 <= k < i ==> !corta_idioma(#[trigger] s[k]),
        i < s.len() ==> corta_idioma(s[i]),
    ensures
        parte_de_idioma(s) == s.take(i),
    decreases i,
{
    if i == 0 {
        assert(s.take(0) =~= Seq::<char>::empty());
    } else {
        let t = s.drop_first();
        assert forall|k: int| 0 <= k < i - 1 implies !corta_idioma(#[trigger] t[k]) by {
            assert(t[k] == s[k + 1]);
        }
        if i - 1 < t.len() {
            assert(t[i - 1] == s[i]);
        }
        lema_parte(t, i - 1);
        assert(!corta_idioma(s[0]));
        assert(seq![s[0]] + t.take(i - 1) =~= s.take(i));
    }
}

} // verus!
