//! The people who can log in: which accounts are offered, under which name,
//! and with which picture.

use vstd::prelude::*;
use crate::migracion::estado::{unir_ruta, unir_rutas};
use crate::orden::{orden_estable, ordenar_por_clave, vista_claves, Clave};
use crate::texto::{
    minusculas_de, minusculas_en,
    a_string, caracteres, empieza, empieza_con, es_blanco, blanco, copia, iguales, lema_partes_alguna,
    lineas, lineas_de, palabras, palabras_de, partes, partir, recortado, recorte, termina,
    termina_con, vista,
};

verus! {

/// The range of human accounts when `/etc/login.defs` says nothing.
pub const DEFAULT_UID_MIN: u32 = 1000;
pub const DEFAULT_UID_MAX: u32 = 60000;

/// Avatars go into the page as data URLs, so anything large enough to bloat
/// the greeter's memory or stall its first paint is refused.
pub const MAX_AVATAR_BYTES: u64 = 2 * 1024 * 1024;

/// An account the login screen offers.
pub struct SystemUser {
    pub name: String,
    /// The person's own name, from the GECOS field. Empty when unset: the page
    /// falls back to the user name rather than showing a placeholder.
    pub real_name: String,
    pub uid: u32,
    pub gid: u32,
    pub home: String,
    pub shell: String,
    /// `data:` URL for the avatar, or none when the user has none.
    pub avatar: Option<String>,
}

/// The GECOS field is comma-separated (`full name,room,work phone,...`); only
/// the first part is the person's name, trimmed.
pub fn real_name_from_gecos(gecos: &str) -> (r: String)
    ensures
        r@ == recorte(partes(gecos@, ',')[0]),
{
    let g = caracteres(gecos);
    let ps = partir(g.as_slice(), ',');
    proof {
        lema_partes_alguna(g@, ',');
    }
    assert(vista(ps@)[0] == ps@[0]@);
    let t = recortado(ps[0].as_slice());
    a_string(t.as_slice())
}

/// A shell one can log in with: not empty, not a `nologin`, not `/false`, and
/// not `/bin/sync`.
pub open spec fn es_shell_de_ingreso(shell: Seq<char>) -> bool {
    &&& shell.len() > 0
    &&& !termina(shell, "nologin"@)
    &&& !termina(shell, "/false"@)
    &&& shell != "/bin/sync"@
}

/// Whether the account's shell lets it log in.
pub fn is_login_shell(shell: &str) -> (r: bool)
    ensures
        r == es_shell_de_ingreso(shell@),
{
    let s = caracteres(shell);
    let nologin = caracteres("nologin");
    let falso = caracteres("/false");
    let sync = caracteres("/bin/sync");
    s.len() > 0 && !termina_con(s.as_slice(), nologin.as_slice()) && !termina_con(
        s.as_slice(),
        falso.as_slice(),
    ) && !iguales(s.as_slice(), sync.as_slice())
}

/// Whether an account is offered: its uid is in the range of human accounts
/// and its shell lets it log in.
pub fn is_offered(uid: u32, uid_min: u32, uid_max: u32, shell: &str) -> (r: bool)
    ensures
        r == (uid_min <= uid && uid <= uid_max && es_shell_de_ingreso(shell@)),
{
    uid_min <= uid && uid <= uid_max && is_login_shell(shell)
}

/// Whether `c` is a decimal digit.
pub open spec fn es_digito(c: char) -> bool {
    '0' <= c && c <= '9'
}

/// The number the decimal digits of `d` write.
pub open spec fn valor_decimal(d: Seq<char>) -> nat
    decreases d.len(),
{
    if d.len() == 0 {
        0
    } else {
        valor_decimal(d.drop_last()) * 10 + ((d.last() as u32) - ('0' as u32)) as nat
    }
}

/// A number's text without its leading `+`, if it has one.
pub open spec fn digitos_de(s: Seq<char>) -> Seq<char> {
    if s.len() > 0 && s[0] == '+' {
        s.skip(1)
    } else {
        s
    }
}

/// Whether every character of `d` is a decimal digit.
pub open spec fn solo_digitos(d: Seq<char>) -> bool {
    forall|i: int| 0 <= i < d.len() ==> es_digito(#[trigger] d[i])
}

/// What `str::parse::<u32>` reads: an optional `+`, then one or more decimal
/// digits and nothing else, whose value fits in a `u32`.
pub open spec fn numero_u32(s: Seq<char>) -> Option<u32> {
    let d = digitos_de(s);
    if d.len() == 0 || !solo_digitos(d) {
        None
    } else if valor_decimal(d) > u32::MAX {
        None
    } else {
        Some(valor_decimal(d) as u32)
    }
}

proof fn lema_valor_crece(d: Seq<char>, i: int, j: int)
    requires
        0 <= i <= j <= d.len(),
        forall|k: int| 0 <= k < d.len() ==> es_digito(#[trigger] d[k]),
    ensures
        valor_decimal(d.take(i)) <= valor_decimal(d.take(j)),
    decreases j - i,
{
    if i < j {
        lema_valor_crece(d, i, j - 1);
        assert(d.take(j).drop_last() =~= d.take(j - 1));
    }
}

/// Reads a `u32` as `str::parse` does.
pub fn numero(s: &[char]) -> (r: Option<u32>)
    ensures
        r == numero_u32(s@),
{
    let inicio: usize = if s.len() > 0 && s[0] == '+' {
        1
    } else {
        0
    };
    let d = copia(s, inicio, s.len());
    assert(d@ =~= digitos_de(s@));
    if d.len() == 0 {
        return None;
    }
    let mut i: usize = 0;
    while i < d.len()
        invariant
            i <= d@.len(),
            d@ == digitos_de(s@),
            forall|k: int| 0 <= k < i ==> es_digito(#[trigger] d@[k]),
        decreases d@.len() - i,
    {
        if !('0' <= d[i] && d[i] <= '9') {
            assert(!es_digito(d@[i as int]));
            assert(!solo_digitos(digitos_de(s@)));
            return None;
        }
        i = i + 1;
    }
    assert(solo_digitos(d@));
    let mut v: u64 = 0;
    let mut j: usize = 0;
    assert(d@.take(0) =~= Seq::<char>::empty());
    while j < d.len()
        invariant
            j <= d@.len(),
            d@ == digitos_de(s@),
            d@.len() > 0,
            solo_digitos(d@),
            forall|k: int| 0 <= k < d@.len() ==> es_digito(#[trigger] d@[k]),
            v == valor_decimal(d@.take(j as int)),
            v <= u32::MAX,
        decreases d@.len() - j,
    {
        assert(d@.take(j + 1).drop_last() =~= d@.take(j as int));
        assert(es_digito(d@[j as int]));
        let digito = (d[j] as u32) - ('0' as u32);
        v = v * 10 + digito as u64;
        j = j + 1;
        if v > 0xffff_ffffu64 {
            proof {
                lema_valor_crece(d@, j as int, d@.len() as int);
                assert(d@.take(d@.len() as int) =~= d@);
            }
            return None;
        }
    }
    assert(d@.take(d@.len() as int) =~= d@);
    Some(v as u32)
}

/// The value a line of `login.defs` gives to `clave`: the trimmed line starts
/// with the key and white space, and the first word after it is a number.
pub open spec fn valor_en_linea(l: Seq<char>, clave: Seq<char>) -> Option<u32> {
    let t = recorte(l);
    if !empieza(t, clave) {
        None
    } else {
        let resto = t.skip(clave.len() as int);
        if resto.len() == 0 || !es_blanco(resto[0]) || palabras(resto).len() == 0 {
            None
        } else {
            numero_u32(palabras(resto)[0])
        }
    }
}

/// The value of `clave` in the first line that gives it one.
pub open spec fn valor_en(ls: Seq<Seq<char>>, clave: Seq<char>) -> Option<u32>
    decreases ls.len(),
{
    if ls.len() == 0 {
        None
    } else {
        match valor_en_linea(ls[0], clave) {
            Some(v) => Some(v),
            None => valor_en(ls.drop_first(), clave),
        }
    }
}

fn valor_de_linea(l: &[char], clave: &[char]) -> (r: Option<u32>)
    ensures
        r == valor_en_linea(l@, clave@),
{
    let t = recortado(l);
    if !empieza_con(t.as_slice(), clave) {
        return None;
    }
    let resto = copia(t.as_slice(), clave.len(), t.len());
    assert(resto@ =~= t@.skip(clave@.len() as int));
    if resto.len() == 0 || !blanco(resto[0]) {
        return None;
    }
    let ws = palabras_de(resto.as_slice());
    if ws.len() == 0 {
        return None;
    }
    assert(vista(ws@)[0] == ws@[0]@);
    numero(ws[0].as_slice())
}

/// Reads a numeric setting from the content of `/etc/login.defs`.
///
/// Distributions move these boundaries: hard-coding 1000 hides accounts on a
/// system configured otherwise, and on the greeter an invisible account means
/// someone who cannot log in at all.
pub fn login_defs_value(content: &str, key: &str) -> (r: Option<u32>)
    ensures
        r == valor_en(lineas(content@), key@),
{
    let c = caracteres(content);
    let k = caracteres(key);
    let ls = lineas_de(c.as_slice());
    let ghost v = vista(ls@);
    let mut i: usize = 0;
    assert(v.skip(0) =~= v);
    while i < ls.len()
        invariant
            i <= ls@.len(),
            v == vista(ls@),
            v == lineas(content@),
            k@ == key@,
            valor_en(v, key@) == valor_en(v.skip(i as int), key@),
        decreases ls@.len() - i,
    {
        assert(v.skip(i as int).len() > 0);
        assert(v.skip(i as int)[0] == ls@[i as int]@);
        match valor_de_linea(ls[i].as_slice(), k.as_slice()) {
            Some(x) => {
                return Some(x);
            },
            None => {},
        }
        assert(v.skip(i as int).drop_first() =~= v.skip(i + 1));
        i = i + 1;
    }
    None
}

/// Where an avatar may be, best first: the one AccountsService manages (it is
/// readable by design), then `~/.face` and `~/.face.icon`.
pub fn avatar_candidates(user: &str, home: &str) -> (r: [String; 3])
    ensures
        r[0]@ == unir_ruta("/var/lib/AccountsService/icons"@, user@),
        r[1]@ == unir_ruta(home@, ".face"@),
        r[2]@ == unir_ruta(home@, ".face.icon"@),
{
    [
        unir_rutas("/var/lib/AccountsService/icons", user),
        unir_rutas(home, ".face"),
        unir_rutas(home, ".face.icon"),
    ]
}

/// Whether `b` starts with `p`.
pub open spec fn empieza_bytes(b: Seq<u8>, p: Seq<u8>) -> bool {
    p.len() <= b.len() && b.take(p.len() as int) == p
}

fn empieza_con_bytes(b: &[u8], p: &[u8]) -> (r: bool)
    ensures
        r == empieza_bytes(b@, p@),
{
    if p.len() > b.len() {
        return false;
    }
    let mut i: usize = 0;
    while i < p.len()
        invariant
            i <= p@.len() <= b@.len(),
            forall|k: int| 0 <= k < i ==> b@[k] == p@[k],
        decreases p@.len() - i,
    {
        if b[i] != p[i] {
            assert(b@.take(p@.len() as int)[i as int] != p@[i as int]);
            return false;
        }
        i = i + 1;
    }
    assert(b@.take(p@.len() as int) =~= p@);
    true
}

/// The kind of image the bytes hold, by their first bytes rather than by an
/// extension (AccountsService icons have none): PNG, JPEG, GIF, SVG or WebP.
pub open spec fn tipo_de_imagen(b: Seq<u8>) -> Option<Seq<char>> {
    if empieza_bytes(b, seq![0x89u8, 0x50u8, 0x4eu8, 0x47u8]) {
        Some("image/png"@)
    } else if empieza_bytes(b, seq![0xffu8, 0xd8u8, 0xffu8]) {
        Some("image/jpeg"@)
    } else if empieza_bytes(b, seq![0x47u8, 0x49u8, 0x46u8, 0x38u8]) {
        Some("image/gif"@)
    } else if empieza_bytes(b, seq![0x3cu8, 0x73u8, 0x76u8, 0x67u8]) || empieza_bytes(
        b,
        seq![0x3cu8, 0x3fu8, 0x78u8, 0x6du8, 0x6cu8],
    ) {
        Some("image/svg+xml"@)
    } else if empieza_bytes(b, seq![0x52u8, 0x49u8, 0x46u8, 0x46u8]) && b.len() >= 12 && b.subrange(
        8,
        12,
    ) == seq![0x57u8, 0x45u8, 0x42u8, 0x50u8] {
        Some("image/webp"@)
    } else {
        None
    }
}

/// The MIME type of an image, by its first bytes, or none when it is not an
/// image the page can draw.
pub fn image_mime(bytes: &[u8]) -> (r: Option<&'static str>)
    ensures
        match r {
            Some(m) => tipo_de_imagen(bytes@) == Some(m@),
            None => tipo_de_imagen(bytes@) is None,
        },
{
    let png: [u8; 4] = [0x89, 0x50, 0x4e, 0x47];
    let jpeg: [u8; 3] = [0xff, 0xd8, 0xff];
    let gif: [u8; 4] = [0x47, 0x49, 0x46, 0x38];
    let svg: [u8; 4] = [0x3c, 0x73, 0x76, 0x67];
    let xml: [u8; 5] = [0x3c, 0x3f, 0x78, 0x6d, 0x6c];
    let riff: [u8; 4] = [0x52, 0x49, 0x46, 0x46];
    assert(png@ =~= seq![0x89u8, 0x50u8, 0x4eu8, 0x47u8]);
    assert(jpeg@ =~= seq![0xffu8, 0xd8u8, 0xffu8]);
    assert(gif@ =~= seq![0x47u8, 0x49u8, 0x46u8, 0x38u8]);
    assert(svg@ =~= seq![0x3cu8, 0x73u8, 0x76u8, 0x67u8]);
    assert(xml@ =~= seq![0x3cu8, 0x3fu8, 0x78u8, 0x6du8, 0x6cu8]);
    assert(riff@ =~= seq![0x52u8, 0x49u8, 0x46u8, 0x46u8]);
    if empieza_con_bytes(bytes, png.as_slice()) {
        Some("image/png")
    } else if empieza_con_bytes(bytes, jpeg.as_slice()) {
        Some("image/jpeg")
    } else if empieza_con_bytes(bytes, gif.as_slice()) {
        Some("image/gif")
    } else if empieza_con_bytes(bytes, svg.as_slice()) || empieza_con_bytes(bytes, xml.as_slice()) {
        Some("image/svg+xml")
    } else if empieza_con_bytes(bytes, riff.as_slice()) && bytes.len() >= 12 && bytes[8] == 0x57
        && bytes[9] == 0x45 && bytes[10] == 0x42 && bytes[11] == 0x50 {
        assert(bytes@.subrange(8, 12) =~= seq![0x57u8, 0x45u8, 0x42u8, 0x50u8]);
        Some("image/webp")
    } else {
        proof {
            if bytes@.len() >= 12 && bytes@.subrange(8, 12) == seq![0x57u8, 0x45u8, 0x42u8, 0x50u8] {
                assert(bytes@[8] == bytes@.subrange(8, 12)[0]);
                assert(bytes@[9] == bytes@.subrange(8, 12)[1]);
                assert(bytes@[10] == bytes@.subrange(8, 12)[2]);
                assert(bytes@[11] == bytes@.subrange(8, 12)[3]);
            }
        }
        None
    }
}

/// The character of the standard base64 alphabet for a six-bit value:
/// `A`-`Z`, `a`-`z`, `0`-`9`, then `+` and `/`.
pub open spec fn letra_base64(i: int) -> char {
    if i < 26 {
        (65 + i) as char
    } else if i < 52 {
        (97 + i - 26) as char
    } else if i < 62 {
        (48 + i - 52) as char
    } else if i == 62 {
        '+'
    } else {
        '/'
    }
}

/// Standard base64 with padding: every three bytes become four characters of
/// six bits each, first bits first; one or two bytes left at the end become
/// two or three characters, and `=` fills the group up to four.
pub open spec fn base64_estandar(b: Seq<u8>) -> Seq<char>
    decreases b.len(),
{
    if b.len() == 0 {
        seq![]
    } else if b.len() == 1 {
        let x = b[0] as int;
        seq![letra_base64(x / 4), letra_base64((x % 4) * 16), '=', '=']
    } else if b.len() == 2 {
        let x = b[0] as int;
        let y = b[1] as int;
        seq![letra_base64(x / 4), letra_base64((x % 4) * 16 + y / 16), letra_base64((y % 16) * 4), '=']
    } else {
        let x = b[0] as int;
        let y = b[1] as int;
        let z = b[2] as int;
        seq![
            letra_base64(x / 4),
            letra_base64((x % 4) * 16 + y / 16),
            letra_base64((y % 16) * 4 + z / 64),
            letra_base64(z % 64),
        ] + base64_estandar(b.skip(3))
    }
}

/// `base64::engine::general_purpose::STANDARD.encode`: the bytes in standard
/// base64 with padding, as `base64_estandar` spells it out. It panics when the
/// length of the result does not fit in a `usize`, so the input is kept below
/// that.
#[verifier::external_body]
fn en_base64(bytes: &[u8]) -> (r: String)
    requires
        bytes@.len() / 3 * 4 + 4 <= usize::MAX,
    ensures
        r@ == base64_estandar(bytes@),
{
    base64::Engine::encode(&base64::engine::general_purpose::STANDARD, bytes)
}

/// The `data:` URL of an image: its type and its bytes in base64.
pub open spec fn url_de_datos(b: Seq<u8>) -> Option<Seq<char>> {
    match tipo_de_imagen(b) {
        Some(m) => Some("data:"@ + m + ";base64,"@ + base64_estandar(b)),
        None => None,
    }
}

/// The image as a `data:` URL, or none when it is not an image the page can
/// draw. The page cannot read `file://` from its own origin, and opening the
/// filesystem to it for a picture is a poor trade on a screen that handles
/// passwords.
pub fn image_data_url(bytes: &[u8]) -> (r: Option<String>)
    requires
        bytes@.len() / 3 * 4 + 4 <= usize::MAX,
    ensures
        match r {
            Some(u) => url_de_datos(bytes@) == Some(u@),
            None => url_de_datos(bytes@) is None,
        },
{
    let mime = match image_mime(bytes) {
        Some(m) => m,
        None => {
            return None;
        },
    };
    let mut url = String::from_str("data:");
    url.append(mime);
    url.append(";base64,");
    let codificado = en_base64(bytes);
    url.append(codificado.as_str());
    Some(url)
}

/// The name the list shows for an account: the person's own name, or the user
/// name when it has none.
pub open spec fn nombre_mostrado(nombre: Seq<char>, propio: Seq<char>) -> Seq<char> {
    if propio.len() == 0 {
        nombre
    } else {
        propio
    }
}

/// The key accounts are listed by: the name shown, ignoring case, so the list
/// does not reshuffle between boots the way NSS order can.
pub open spec fn clave_de_usuario(u: SystemUser) -> Clave {
    (false, minusculas_de(nombre_mostrado(u.name@, u.real_name@)))
}

/// The keys of the list, in order.
pub open spec fn claves_de_usuarios(v: Seq<SystemUser>) -> Seq<Clave> {
    v.map_values(|u: SystemUser| clave_de_usuario(u))
}

/// The accounts in the order they are listed: alphabetically by the name
/// shown, those with the same name in the order they were found.
pub fn sort_users(users: Vec<SystemUser>) -> (r: Vec<SystemUser>)
    ensures
        exists|p: Seq<int>|
            #![trigger orden_estable(p, claves_de_usuarios(users@))]
            orden_estable(p, claves_de_usuarios(users@)) && r@.len()
                == users@.len() && forall|k: int| 0 <= k < r@.len() ==> r@[k] == users@[p[k]],
{
    let ghost objetivo = claves_de_usuarios(users@);
    let mut claves: Vec<(bool, Vec<char>)> = Vec::new();
    let mut i: usize = 0;
    while i < users.len()
        invariant
            i <= users@.len(),
            objetivo == claves_de_usuarios(users@),
            vista_claves(claves@) == objetivo.take(i as int),
        decreases users@.len() - i,
    {
        let u = &users[i];
        let propio = caracteres(u.real_name.as_str());
        let mostrado = if propio.len() == 0 {
            caracteres(u.name.as_str())
        } else {
            propio
        };
        assert(mostrado@ == nombre_mostrado(u.name@, u.real_name@));
        let k = (false, minusculas_en(mostrado.as_slice()));
        let ghost previo = vista_claves(claves@);
        let ghost kv = (k.0, k.1@);
        assert(kv == clave_de_usuario(*u));
        claves.push(k);
        proof {
            assert(vista_claves(claves@) =~= previo.push(kv));
            assert(objetivo[i as int] == clave_de_usuario(users@[i as int]));
            assert(vista_claves(claves@) =~= objetivo.take(i + 1));
        }
        i = i + 1;
    }
    proof {
        assert(objetivo.take(users@.len() as int) =~= objetivo);
    }
    ordenar_por_clave(users, claves)
}

/// The kind of an image is told by its first bytes, whatever follows them:
/// `\x89PNG` is PNG, `\xff\xd8\xff` JPEG, `GIF8` GIF, and a text that opens
/// with `<svg` or with an XML declaration `<?xml` (as editors write SVG) is
/// SVG; `RIFF` with `WEBP` at the eighth byte is WebP.
pub proof fn lema_tipo_por_los_primeros_bytes(b: Seq<u8>)
    ensures
        b.len() >= 4 && b[0] == 0x89u8 && b[1] == 0x50u8 && b[2] == 0x4eu8 && b[3] == 0x47u8
            ==> tipo_de_imagen(b) == Some("image/png"@),
        b.len() >= 3 && b[0] == 0xffu8 && b[1] == 0xd8u8 && b[2] == 0xffu8 ==> tipo_de_imagen(b) == Some(
            "image/jpeg"@,
        ),
        b.len() >= 4 && b[0] == 0x47u8 && b[1] == 0x49u8 && b[2] == 0x46u8 && b[3] == 0x38u8
            ==> tipo_de_imagen(b) == Some("image/gif"@),
        b.len() >= 4 && b[0] == 0x3cu8 && b[1] == 0x73u8 && b[2] == 0x76u8 && b[3] == 0x67u8
            ==> tipo_de_imagen(b) == Some("image/svg+xml"@),
        b.len() >= 5 && b[0] == 0x3cu8 && b[1] == 0x3fu8 && b[2] == 0x78u8 && b[3] == 0x6du8 && b[4]
            == 0x6cu8 ==> tipo_de_imagen(b) == Some("image/svg+xml"@),
        b.len() >= 12 && b[0] == 0x52u8 && b[1] == 0x49u8 && b[2] == 0x46u8 && b[3] == 0x46u8 && b[8]
            == 0x57u8 && b[9] == 0x45u8 && b[10] == 0x42u8 && b[11] == 0x50u8 ==> tipo_de_imagen(b)
            == Some("image/webp"@),
{
    if b.len() >= 3 {
        assert(b.take(3) =~= seq![b[0], b[1], b[2]]);
    }
    if b.len() >= 4 {
        assert(b.take(4) =~= seq![b[0], b[1], b[2], b[3]]);
    }
    if b.len() >= 5 {
        assert(b.take(5) =~= seq![b[0], b[1], b[2], b[3], b[4]]);
    }
    if b.len() >= 12 {
        assert(b.subrange(8, 12) =~= seq![b[8], b[9], b[10], b[11]]);
    }
}

/// An SVG avatar, written with or without an XML declaration before it, is
/// given as a `data:image/svg+xml` URL of its bytes.
pub proof fn lema_svg_con_declaracion(b: Seq<u8>)
    requires
        (b.len() >= 5 && b[0] == 0x3cu8 && b[1] == 0x3fu8 && b[2] == 0x78u8 && b[3] == 0x6du8 && b[4]
            == 0x6cu8) || (b.len() >= 4 && b[0] == 0x3cu8 && b[1] == 0x73u8 && b[2] == 0x76u8 && b[3]
            == 0x67u8),
    ensures
        url_de_datos(b) == Some("data:"@ + "image/svg+xml"@ + ";base64,"@ + base64_estandar(b)),
{
    lema_tipo_por_los_primeros_bytes(b);
}

} // verus!
