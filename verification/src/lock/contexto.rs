//! What the lock screen can tell without unlocking anything: that there is
//! something, not what. The screen is locked precisely because whoever is in
//! front of it may not be the session's owner.
//!
//! - Of the notifications, only the application's icon and how many it has
//!   unread: neither the summary nor the body comes this far.
//! - Of the player, what can already be heard in the room, and the two buttons
//!   that are needed.

use vstd::prelude::*;
use crate::texto::{caracteres, empieza, empieza_con, iguales, vista_opcional};

verus! {

/// An application with unread notifications.
#[derive(Debug, PartialEq)]
pub struct AplicacionConAvisos {
    /// The icon's name in the theme, as the application sent it.
    pub icono: String,
    /// For the alternative text. It is not the notification's content.
    pub aplicacion: String,
    pub cuantas: u32,
}

/// What is playing, if something is.
#[derive(Debug, PartialEq)]
pub struct Reproduccion {
    /// The player's bus name, to send the commands to the same one.
    pub reproductor: String,
    pub titulo: String,
    pub artista: String,
    pub sonando: bool,
}

/// A group, as values: icon, application and count.
pub type GrupoV = (Seq<char>, Seq<char>, u32);

/// The groups, as values.
pub open spec fn vista_grupos(g: Seq<AplicacionConAvisos>) -> Seq<GrupoV> {
    g.map_values(|a: AplicacionConAvisos| (a.icono@, a.aplicacion@, a.cuantas))
}

/// What `serde_json` reads in a text that should be the daemon's list of
/// unread notifications: `None` when it is not a JSON list, and otherwise, for
/// each item, its `app_name` and its `app_icon` when they are strings. It
/// depends on the text alone.
pub uninterp spec fn avisos_de(json: Seq<char>) -> Option<Seq<(Option<Seq<char>>, Option<Seq<char>>)>>;

/// The items, as values.
pub open spec fn vista_avisos(v: Seq<(Option<String>, Option<String>)>) -> Seq<(Option<Seq<char>>, Option<Seq<char>>)> {
    v.map_values(|p: (Option<String>, Option<String>)| (vista_opcional(p.0), vista_opcional(p.1)))
}

/// `serde_json::from_str` into a list of values, and of each one `get` and
/// `as_str` for the two fields: the application's name and icon of each
/// notification, or `None` when the text is not a JSON list.
#[verifier::external_body]
fn leer_avisos(json: &str) -> (r: Option<Vec<(Option<String>, Option<String>)>>)
    ensures
        match r {
            Some(v) => avisos_de(json@) == Some(vista_avisos(v@)),
            None => avisos_de(json@) is None,
        },
{
    let texto = |v: &serde_json::Value, campo: &str| {
        v.get(campo).and_then(|x| x.as_str()).map(|x| x.to_string())
    };
    let items: Vec<serde_json::Value> = serde_json::from_str(json).ok()?;
    Some(items.iter().map(|i| (texto(i, "app_name"), texto(i, "app_icon"))).collect())
}

/// The icon shown for an application: its own, or a generic one when it sent
/// none.
pub open spec fn icono_de(icono: Option<Seq<char>>) -> Seq<char> {
    match icono {
        Some(i) => if i.len() > 0 {
            i
        } else {
            "dialog-information"@
        },
        None => "dialog-information"@,
    }
}

/// Where the group of application `app` is, if there is one.
pub open spec fn posicion(gs: Seq<GrupoV>, app: Seq<char>) -> Option<int>
    decreases gs.len(),
{
    if gs.len() == 0 {
        None
    } else {
        match posicion(gs.drop_last(), app) {
            Some(j) => Some(j),
            None => if gs.last().1 == app {
                Some(gs.len() - 1)
            } else {
                None
            },
        }
    }
}

/// One more notification counted: in its application's group, or in a new
/// group at the end. One without an application's name is not shown. The
/// count stops at the largest `u32`.
pub open spec fn contar(gs: Seq<GrupoV>, item: (Option<Seq<char>>, Option<Seq<char>>)) -> Seq<GrupoV> {
    let app = match item.0 {
        Some(a) => a,
        None => seq![],
    };
    if app.len() == 0 {
        gs
    } else {
        match posicion(gs, app) {
            Some(j) => gs.update(
                j,
                (gs[j].0, gs[j].1, if gs[j].2 < u32::MAX {
                    (gs[j].2 + 1) as u32
                } else {
                    gs[j].2
                }),
            ),
            None => gs.push((icono_de(item.1), app, 1u32)),
        }
    }
}

/// The notifications grouped by application, in the order each first
/// appears.
pub open spec fn grupos(items: Seq<(Option<Seq<char>>, Option<Seq<char>>)>) -> Seq<GrupoV>
    decreases items.len(),
{
    if items.len() == 0 {
        seq![]
    } else {
        contar(grupos(items.drop_last()), items.last())
    }
}

proof fn lema_posicion(gs: Seq<GrupoV>, app: Seq<char>)
    ensures
        match posicion(gs, app) {
            Some(j) => 0 <= j < gs.len() && gs[j].1 == app && forall|k: int| 0 <= k < j ==> gs[k].1 != app,
            None => forall|k: int| 0 <= k < gs.len() ==> gs[k].1 != app,
        },
    decreases gs.len(),
{
    if gs.len() > 0 {
        let dl = gs.drop_last();
        lema_posicion(dl, app);
        assert forall|k: int| 0 <= k < dl.len() implies dl[k] == gs[k] by {}
        assert(gs[gs.len() - 1] == gs.last());
    }
}

/// Groups the notifications by application.
pub fn agrupar(items: &Vec<(Option<String>, Option<String>)>) -> (r: Vec<AplicacionConAvisos>)
    ensures
        vista_grupos(r@) == grupos(vista_avisos(items@)),
{
    let ghost v = vista_avisos(items@);
    let mut gs: Vec<AplicacionConAvisos> = Vec::new();
    let mut i: usize = 0;
    assert(v.take(0) =~= Seq::<(Option<Seq<char>>, Option<Seq<char>>)>::empty());
    assert(vista_grupos(gs@) =~= Seq::<GrupoV>::empty());
    while i < items.len()
        invariant
            i <= items@.len(),
            v == vista_avisos(items@),
            vista_grupos(gs@) == grupos(v.take(i as int)),
        decreases items@.len() - i,
    {
        proof {
            assert(v.take(i + 1).drop_last() =~= v.take(i as int));
            assert(v.take(i + 1).last() == v[i as int]);
        }
        let (nombre, icono) = &items[i];
        let ghost antes = vista_grupos(gs@);
        let ghost item = v[i as int];
        assert(item == (vista_opcional(*nombre), vista_opcional(*icono)));
        let aplicacion = match nombre {
            Some(a) => a.clone(),
            None => String::new(),
        };
        if aplicacion.as_str().is_empty() {
            i = i + 1;
            continue;
        }
        proof {
            lema_posicion(antes, aplicacion@);
        }
        let mut j: usize = 0;
        while j < gs.len()
            invariant
                j <= gs@.len(),
                antes == vista_grupos(gs@),
                forall|k: int| 0 <= k < j ==> antes[k].1 != aplicacion@,
            ensures
                j <= gs@.len(),
                antes == vista_grupos(gs@),
                forall|k: int| 0 <= k < j ==> antes[k].1 != aplicacion@,
                j < gs@.len() ==> antes[j as int].1 == aplicacion@,
            decreases gs@.len() - j,
        {
            if gs[j].aplicacion == aplicacion {
                break;
            }
            j = j + 1;
        }
        if j < gs.len() {
            let c = gs[j].cuantas;
            let nueva = if c < u32::MAX {
                c + 1
            } else {
                c
            };
            let g = AplicacionConAvisos {
                icono: gs[j].icono.clone(),
                aplicacion: gs[j].aplicacion.clone(),
                cuantas: nueva,
            };
            gs.set(j, g);
            proof {
                assert(vista_grupos(gs@) =~= contar(antes, item));
            }
        } else {
            let icono_elegido = match icono {
                Some(ic) => if ic.as_str().is_empty() {
                    String::from_str("dialog-information")
                } else {
                    ic.clone()
                },
                None => String::from_str("dialog-information"),
            };
            gs.push(AplicacionConAvisos { icono: icono_elegido, aplicacion, cuantas: 1 });
            proof {
                assert(vista_grupos(gs@) =~= contar(antes, item));
            }
        }
        i = i + 1;
    }
    proof {
        assert(v.take(items@.len() as int) =~= v);
    }
    gs
}

/// Groups by application the unread notifications the daemon returns, as the
/// JSON of `org.vasak.Notifications.GetUnread`. What is not a list, or not
/// JSON at all, is no notifications: the lock screen has to be drawn anyway.
pub fn agrupar_avisos(json: &str) -> (r: Vec<AplicacionConAvisos>)
    ensures
        vista_grupos(r@) == grupos(
            match avisos_de(json@) {
                Some(v) => v,
                None => seq![],
            },
        ),
{
    match leer_avisos(json) {
        Some(items) => agrupar(&items),
        None => Vec::new(),
    }
}

/// Whether a bus name is a media player's.
pub open spec fn es_reproductor(bus: Seq<char>) -> bool {
    empieza(bus, "org.mpris.MediaPlayer2."@)
}

/// Whether a bus name is a media player's: the only ones the lock screen talks
/// to.
pub fn is_player(bus: &str) -> (r: bool)
    ensures
        r == es_reproductor(bus@),
{
    let b = caracteres(bus);
    let p = caracteres("org.mpris.MediaPlayer2.");
    empieza_con(b.as_slice(), p.as_slice())
}

/// The player method an action of the page calls: `playpause` and `next`, and
/// only on a media player. The bus name comes from the page, and without this
/// fence the lock screen would be a bridge to call any service of the session.
pub open spec fn metodo_de(bus: Seq<char>, accion: Seq<char>) -> Option<Seq<char>> {
    if !es_reproductor(bus) {
        None
    } else if accion == "playpause"@ {
        Some("PlayPause"@)
    } else if accion == "next"@ {
        Some("Next"@)
    } else {
        None
    }
}

/// The method to call for an action of the page, or `None` when it must not
/// be sent.
pub fn media_method(player: &str, action: &str) -> (r: Option<&'static str>)
    ensures
        match r {
            Some(m) => metodo_de(player@, action@) == Some(m@),
            None => metodo_de(player@, action@) is None,
        },
{
    if !is_player(player) {
        return None;
    }
    let a = caracteres(action);
    let pp = caracteres("playpause");
    let nx = caracteres("next");
    if iguales(a.as_slice(), pp.as_slice()) {
        Some("PlayPause")
    } else if iguales(a.as_slice(), nx.as_slice()) {
        Some("Next")
    } else {
        None
    }
}

/// What a player reports, as the lock screen shows it: playing only when its
/// status is `Playing`.
pub fn reproduccion(bus: &str, estado: &str, titulo: String, artista: String) -> (r: Reproduccion)
    ensures
        r.reproductor@ == bus@,
        r.titulo@ == titulo@,
        r.artista@ == artista@,
        r.sonando == (estado@ == "Playing"@),
{
    let e = caracteres(estado);
    let playing = caracteres("Playing");
    Reproduccion {
        reproductor: String::from_str(bus),
        titulo,
        artista,
        sonando: iguales(e.as_slice(), playing.as_slice()),
    }
}

} // verus!
