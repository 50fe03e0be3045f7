//! The background of the login screen: an image, or a video.
//!
//! There is always an image, even when what is configured is a video: it is
//! the fallback for everything that can go wrong on the other side (no
//! decoder, a file too large, a broken container), and the alternative to that
//! image is not a video, it is a black screen.

use vstd::prelude::*;
use crate::ruta::{extension, extension_en};
use crate::texto::{
    a_string, caracteres, iguales, lineas, lineas_de, minusculas_de, minusculas_en, recortado,
    recorte, vista, vista_opcional, vista_textos,
};

verus! {

/// Large for a photo, small enough that a stray file does not delay the first
/// paint: the whole image crosses to the page encoded in base64.
pub const MAX_BYTES: u64 = 8 * 1024 * 1024;

/// The video plays from memory, so its size is memory taken while the screen
/// is up. A looping background is a few tens of megabytes; more is a film
/// pointed at by mistake.
pub const MAX_VIDEO_BYTES: u64 = 64 * 1024 * 1024;

/// The images tried when nothing is configured, best first.
pub fn image_defaults() -> (r: [&'static str; 3])
    ensures
        r[0]@ == "/usr/share/backgrounds/vasakos/default.jpg"@,
        r[1]@ == "/usr/share/backgrounds/vasakos/default.png"@,
        r[2]@ == "/usr/share/backgrounds/vasakos/default.webp"@,
{
    [
        "/usr/share/backgrounds/vasakos/default.jpg",
        "/usr/share/backgrounds/vasakos/default.png",
        "/usr/share/backgrounds/vasakos/default.webp",
    ]
}

/// The moving backgrounds tried when nothing is configured: leaving the file
/// there is enough.
pub fn video_defaults() -> (r: [&'static str; 2])
    ensures
        r[0]@ == "/usr/share/backgrounds/vasakos/default.mp4"@,
        r[1]@ == "/usr/share/backgrounds/vasakos/default.webm"@,
{
    ["/usr/share/backgrounds/vasakos/default.mp4", "/usr/share/backgrounds/vasakos/default.webm"]
}

/// What the page needs to draw the background: the image always, the video
/// when there is one worth trying.
pub struct Background {
    /// A `data:` URL, or none when no usable image was found: the page then
    /// keeps its own colour rather than an empty screen.
    pub image: Option<String>,
    pub video: Option<BackgroundVideo>,
}

/// A background video, described but not read yet: the bytes are asked for
/// apart, so the login box is drawn without waiting for them.
pub struct BackgroundVideo {
    /// For the page's messages when something fails; it never comes back.
    pub path: String,
    /// What to ask WebKit whether it has the decoder for.
    pub extension: String,
    /// The type of the `Blob`, so the page does not have to guess it.
    pub mime: String,
    pub bytes: u64,
}

/// The first line with content that is not a comment, trimmed.
pub open spec fn primera_sin_comentario(ls: Seq<Seq<char>>) -> Option<Seq<char>>
    decreases ls.len(),
{
    if ls.len() == 0 {
        None
    } else if recorte(ls[0]).len() > 0 && recorte(ls[0])[0] != '#' {
        Some(recorte(ls[0]))
    } else {
        primera_sin_comentario(ls.drop_first())
    }
}

/// The path an administrator configured in the override file: its first line
/// with content that is not a comment.
pub fn configured_path(content: &str) -> (r: Option<String>)
    ensures
        vista_opcional(r) == primera_sin_comentario(lineas(content@)),
{
    let c = caracteres(content);
    let ls = lineas_de(c.as_slice());
    let ghost v = vista(ls@);
    let mut i: usize = 0;
    assert(v.skip(0) =~= v);
    while i < ls.len()
        invariant
            i <= ls@.len(),
            v == vista(ls@),
            v == lineas(content@),
            primera_sin_comentario(v) == primera_sin_comentario(v.skip(i as int)),
        decreases ls@.len() - i,
    {
        assert(v.skip(i as int).len() > 0);
        assert(v.skip(i as int)[0] == ls@[i as int]@);
        let t = recortado(ls[i].as_slice());
        if t.len() > 0 && t[0] != '#' {
            return Some(a_string(t.as_slice()));
        }
        assert(v.skip(i as int).drop_first() =~= v.skip(i + 1));
        i = i + 1;
    }
    None
}

/// The extension (in lower case) and the container's MIME type of a video the
/// `<video>` element of WebKit may play, by the path's extension in any case.
/// The MIME type is the container's: `.ogv` is `video/ogg`.
pub open spec fn mime_de_video(path: Seq<char>) -> Option<(Seq<char>, Seq<char>)> {
    match extension(path) {
        Some(e) => {
            let l = minusculas_de(e);
            if l == "mp4"@ {
                Some((l, "video/mp4"@))
            } else if l == "webm"@ {
                Some((l, "video/webm"@))
            } else if l == "ogv"@ {
                Some((l, "video/ogg"@))
            } else {
                None
            }
        },
        None => None,
    }
}

/// The extension and MIME type of a video path, or `None` when it is not one.
pub fn video_mime(path: &str) -> (r: Option<(String, String)>)
    ensures
        match r {
            Some((e, m)) => mime_de_video(path@) == Some((e@, m@)),
            None => mime_de_video(path@) is None,
        },
{
    let c = caracteres(path);
    let e = match extension_en(c.as_slice()) {
        Some(e) => e,
        None => {
            return None;
        },
    };
    let l = minusculas_en(e.as_slice());
    let mp4 = caracteres("mp4");
    let webm = caracteres("webm");
    let ogv = caracteres("ogv");
    if iguales(l.as_slice(), mp4.as_slice()) {
        Some((a_string(l.as_slice()), String::from_str("video/mp4")))
    } else if iguales(l.as_slice(), webm.as_slice()) {
        Some((a_string(l.as_slice()), String::from_str("video/webm")))
    } else if iguales(l.as_slice(), ogv.as_slice()) {
        Some((a_string(l.as_slice()), String::from_str("video/ogg")))
    } else {
        None
    }
}

/// Whether the path is a video, by its extension.
pub fn is_video(path: &str) -> (r: bool)
    ensures
        r == (mime_de_video(path@) is Some),
{
    video_mime(path).is_some()
}

/// The size of a file when it can be used: it is a file, not empty, and not
/// over `max` bytes.
pub fn usable_size(is_file: bool, len: u64, max: u64) -> (r: Option<u64>)
    ensures
        r == (if is_file && len > 0 && len <= max {
            Some(len)
        } else {
            None::<u64>
        }),
{
    if is_file && len > 0 && len <= max {
        Some(len)
    } else {
        None
    }
}

/// The video to try: a configured path is an explicit choice, so it is the
/// video when it is one and there is none when it is an image; with nothing
/// configured, the first of the default videos that exists.
pub open spec fn video_elegido(configurada: Option<Seq<char>>, existen: Seq<bool>) -> Option<Seq<char>> {
    match configurada {
        Some(p) => if mime_de_video(p) is Some {
            Some(p)
        } else {
            None
        },
        None => if existen[0] {
            Some("/usr/share/backgrounds/vasakos/default.mp4"@)
        } else if existen[1] {
            Some("/usr/share/backgrounds/vasakos/default.webm"@)
        } else {
            None
        },
    }
}

/// Which video to try, given the configured path, if any, and whether each of
/// the default videos is a file.
///
/// A configured video that turns out unusable falls back to the image and not
/// to another video, which would show something nobody asked for.
pub fn configured_video(configured: Option<&str>, defaults_exist: &[bool; 2]) -> (r: Option<String>)
    ensures
        vista_opcional(r) == video_elegido(
            match configured {
                Some(p) => Some(p@),
                None => None,
            },
            defaults_exist@,
        ),
{
    match configured {
        Some(p) => if is_video(p) {
            Some(String::from_str(p))
        } else {
            None
        },
        None => {
            let d = video_defaults();
            if defaults_exist[0] {
                Some(String::from_str(d[0]))
            } else if defaults_exist[1] {
                Some(String::from_str(d[1]))
            } else {
                None
            }
        },
    }
}

/// The images to try, in order: the configured path, then the defaults; none
/// that is a video. A configured video, or a path that leads to no image, does
/// not leave the screen without a background: the search goes on to the
/// system's.
pub open spec fn candidatas(configurada: Option<Seq<char>>) -> Seq<Seq<char>> {
    let primera: Seq<Seq<char>> = match configurada {
        Some(p) => if mime_de_video(p) is Some {
            seq![]
        } else {
            seq![p]
        },
        None => seq![],
    };
    primera + seq![
        "/usr/share/backgrounds/vasakos/default.jpg"@,
        "/usr/share/backgrounds/vasakos/default.png"@,
        "/usr/share/backgrounds/vasakos/default.webp"@,
    ]
}

/// The paths to try for the image, best first.
pub fn image_candidates(configured: Option<&str>) -> (r: Vec<String>)
    ensures
        vista_textos(r@) == candidatas(
            match configured {
                Some(p) => Some(p@),
                None => None,
            },
        ),
{
    let mut r: Vec<String> = Vec::new();
    match configured {
        Some(p) => if !is_video(p) {
            r.push(String::from_str(p));
        },
        None => {},
    }
    let ghost previo = vista_textos(r@);
    let d = image_defaults();
    r.push(String::from_str(d[0]));
    r.push(String::from_str(d[1]));
    r.push(String::from_str(d[2]));
    proof {
        assert(vista_textos(r@) =~= candidatas(
            match configured {
                Some(p) => Some(p@),
                None => None,
            },
        ));
    }
    r
}

/// Describes the video at `path`, whose file is `is_file` and `len` bytes long:
/// none when it is not a video or its size cannot be used.
pub fn describe_video(path: &str, is_file: bool, len: u64) -> (r: Option<BackgroundVideo>)
    ensures
        match r {
            Some(v) => mime_de_video(path@) == Some((v.extension@, v.mime@)) && v.path@ == path@
                && v.bytes == len && is_file && len > 0 && len <= MAX_VIDEO_BYTES,
            None => mime_de_video(path@) is None || !(is_file && len > 0 && len
                <= MAX_VIDEO_BYTES),
        },
{
    let (extension, mime) = match video_mime(path) {
        Some(x) => x,
        None => {
            return None;
        },
    };
    let bytes = match usable_size(is_file, len, MAX_VIDEO_BYTES) {
        Some(b) => b,
        None => {
            return None;
        },
    };
    Some(BackgroundVideo { path: String::from_str(path), extension, mime, bytes })
}

} // verus!
