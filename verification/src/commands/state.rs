//! Who logged in last, and which session each account uses.
//!
//! The session is remembered per account, not once for the machine: on a
//! shared computer one person's desktop would otherwise become everybody's,
//! and the next person would silently log into the wrong one. Only user names
//! and session file names are kept, never a password.

use vstd::prelude::*;
use crate::migracion::estado::{unir_ruta, unir_rutas};
use crate::texto::{copia_opcional, vista_opcional, vista_textos};

verus! {

/// What the login screen remembers.
pub struct LastLogin {
    /// The account that signed in last, preselected on the next boot.
    pub username: Option<String>,
    /// The session chosen by each account: user name and session file name,
    /// each account once.
    pub sessions: Vec<(String, String)>,
    /// The machine-wide session of the previous format. Read so that an
    /// existing file still means something after an upgrade; never written
    /// again.
    pub session_id: Option<String>,
}

/// The sessions by account: a later pair for the same account wins.
pub open spec fn mapa(s: Seq<(String, String)>) -> Map<Seq<char>, Seq<char>>
    decreases s.len(),
{
    if s.len() == 0 {
        Map::empty()
    } else {
        mapa(s.drop_last()).insert(s.last().0@, s.last().1@)
    }
}

/// Each account at most once.
pub open spec fn sin_repetidas(s: Seq<(String, String)>) -> bool {
    forall|i: int, j: int| 0 <= i < j < s.len() ==> #[trigger] s[i].0@ != #[trigger] s[j].0@
}

/// What is remembered, as values.
pub struct LastLoginV {
    pub username: Option<Seq<char>>,
    pub sessions: Map<Seq<char>, Seq<char>>,
    pub session_id: Option<Seq<char>>,
}

impl View for LastLogin {
    type V = LastLoginV;

    open spec fn view(&self) -> LastLoginV {
        LastLoginV {
            username: vista_opcional(self.username),
            sessions: mapa(self.sessions@),
            session_id: vista_opcional(self.session_id),
        }
    }
}

proof fn lema_mapa_vacio(s: Seq<(String, String)>)
    ensures
        mapa(s).dom().len() == 0 <==> s.len() == 0,
        mapa(s).dom().finite(),
    decreases s.len(),
{
    if s.len() > 0 {
        lema_mapa_vacio(s.drop_last());
        assert(mapa(s).dom().contains(s.last().0@));
    }
}

proof fn lema_mapa_tiene(s: Seq<(String, String)>, k: Seq<char>)
    ensures
        mapa(s).dom().contains(k) <==> exists|i: int| 0 <= i < s.len() && #[trigger] s[i].0@ == k,
    decreases s.len(),
{
    if s.len() > 0 {
        lema_mapa_tiene(s.drop_last(), k);
        if exists|i: int| 0 <= i < s.len() && #[trigger] s[i].0@ == k {
            let i = choose|i: int| 0 <= i < s.len() && #[trigger] s[i].0@ == k;
            if i < s.len() - 1 {
                assert(s.drop_last()[i].0@ == k);
            }
        }
        if exists|i: int| 0 <= i < s.drop_last().len() && #[trigger] s.drop_last()[i].0@ == k {
            let i = choose|i: int| 0 <= i < s.drop_last().len() && #[trigger] s.drop_last()[i].0@ == k;
            assert(s[i].0@ == k);
        }
    }
}

proof fn lema_mapa_actualizar(s: Seq<(String, String)>, j: int, x: (String, String))
    requires
        sin_repetidas(s),
        0 <= j < s.len(),
        s[j].0@ == x.0@,
    ensures
        mapa(s.update(j, x)) == mapa(s).insert(x.0@, x.1@),
        sin_repetidas(s.update(j, x)),
    decreases s.len(),
{
    let t = s.update(j, x);
    assert(sin_repetidas(t)) by {
        assert forall|a: int, b: int| 0 <= a < b < t.len() implies #[trigger] t[a].0@ != #[trigger] t[b].0@ by {
            assert(s[a].0@ != s[b].0@);
        }
    }
    if j == s.len() - 1 {
        assert(t.drop_last() =~= s.drop_last());
        assert(mapa(t) =~= mapa(s).insert(x.0@, x.1@));
    } else {
        let dl = s.drop_last();
        assert(t.drop_last() =~= dl.update(j, x));
        assert(sin_repetidas(dl)) by {
            assert forall|a: int, b: int| 0 <= a < b < dl.len() implies #[trigger] dl[a].0@ != #[trigger] dl[b].0@ by {
                assert(s[a].0@ != s[b].0@);
            }
        }
        lema_mapa_actualizar(dl, j, x);
        assert(s[j].0@ != s[s.len() - 1].0@);
        assert(t.last() == s.last());
        assert(mapa(t) =~= mapa(s).insert(x.0@, x.1@));
    }
}

/// Nothing remembered: a missing or unreadable file.
pub open spec fn nada_recordado() -> LastLoginV {
    LastLoginV { username: None, sessions: Map::empty(), session_id: None }
}

impl Default for LastLogin {
    fn default() -> (r: Self)
        ensures
            r@ == nada_recordado(),
            sin_repetidas(r.sessions@),
            r.sessions@.len() == 0,
    {
        let r = LastLogin { username: None, sessions: Vec::new(), session_id: None };
        assert(mapa(r.sessions@) =~= Map::<Seq<char>, Seq<char>>::empty());
        r
    }
}

/// An older file carried over: its machine-wide session goes to the account
/// that logged in last, when no account has one yet. The old field is dropped
/// either way.
pub open spec fn migrado(v: LastLoginV) -> LastLoginV {
    match (v.username, v.session_id) {
        (Some(u), Some(s)) => if v.sessions.dom().len() == 0 {
            LastLoginV { sessions: v.sessions.insert(u, s), session_id: None, ..v }
        } else {
            LastLoginV { session_id: None, ..v }
        },
        _ => LastLoginV { session_id: None, ..v },
    }
}

/// The selection recorded: the account is the last one, and this is its
/// session.
pub open spec fn recordado(v: LastLoginV, usuario: Seq<char>, sesion: Seq<char>) -> LastLoginV {
    LastLoginV { username: Some(usuario), sessions: v.sessions.insert(usuario, sesion), ..v }
}

/// Two people on one machine do not overwrite each other's desktop: recording
/// one account's session keeps the session of every other account.
pub proof fn lema_cada_cuenta_su_sesion(
    v: LastLoginV,
    u1: Seq<char>,
    s1: Seq<char>,
    u2: Seq<char>,
    s2: Seq<char>,
)
    requires
        u1 != u2,
    ensures
        recordado(recordado(v, u1, s1), u2, s2).sessions.dom().contains(u1),
        recordado(recordado(v, u1, s1), u2, s2).sessions[u1] == s1,
        recordado(recordado(v, u1, s1), u2, s2).sessions[u2] == s2,
        recordado(recordado(v, u1, s1), u2, s2).username == Some(u2),
{
}

/// The machine-wide session of the old format is carried over once: after a
/// migration none is left, so migrating again, even after a new selection,
/// changes nothing and does not bring the old session back.
pub proof fn lema_migrar_una_vez(v: LastLoginV, u: Seq<char>, s: Seq<char>)
    ensures
        migrado(v).session_id is None,
        migrado(migrado(v)) == migrado(v),
        migrado(recordado(migrado(v), u, s)) == recordado(migrado(v), u, s),
{
}

impl LastLogin {
    /// Each account at most once.
    pub open spec fn bien_formado(&self) -> bool {
        sin_repetidas(self.sessions@)
    }

    /// Carries the machine-wide session of the previous format over to the
    /// account it belonged to, so the first login after an upgrade still
    /// remembers what it should.
    pub fn migrate(&mut self)
        requires
            old(self).bien_formado(),
        ensures
            final(self).bien_formado(),
            final(self)@ == migrado(old(self)@),
    {
        proof {
            lema_mapa_vacio(self.sessions@);
        }
        let vacias = self.sessions.len() == 0;
        let usuario = copia_opcional(&self.username);
        let sesion = self.session_id.take();
        match (usuario, sesion) {
            (Some(u), Some(s)) => {
                if vacias {
                    let ghost antes = self.sessions@;
                    self.sessions.push((u, s));
                    proof {
                        assert(self.sessions@.drop_last() =~= antes);
                        assert(sin_repetidas(self.sessions@));
                    }
                }
            },
            _ => {},
        }
    }

    /// Records the selection: this account logged in last, with this session.
    pub fn remember(&mut self, username: String, session_id: String)
        requires
            old(self).bien_formado(),
        ensures
            final(self).bien_formado(),
            final(self)@ == recordado(old(self)@, username@, session_id@),
    {
        let ghost antes = self.sessions@;
        let mut j: usize = 0;
        while j < self.sessions.len()
            invariant
                j <= self.sessions@.len(),
                self.sessions@ == antes,
                forall|k: int| 0 <= k < j ==> (#[trigger] antes[k]).0@ != username@,
            ensures
                j <= self.sessions@.len(),
                self.sessions@ == antes,
                forall|k: int| 0 <= k < j ==> (#[trigger] antes[k]).0@ != username@,
                j < self.sessions@.len() ==> antes[j as int].0@ == username@,
            decreases self.sessions@.len() - j,
        {
            if self.sessions[j].0 == username {
                break;
            }
            j = j + 1;
        }
        if j < self.sessions.len() {
            let x = (username.clone(), session_id);
            proof {
                lema_mapa_actualizar(antes, j as int, x);
            }
            self.sessions.set(j, x);
            assert(self.sessions@ =~= antes.update(j as int, x));
        } else {
            let x = (username.clone(), session_id);
            self.sessions.push(x);
            proof {
                assert(self.sessions@.drop_last() =~= antes);
                assert(sin_repetidas(self.sessions@)) by {
                    assert forall|a: int, b: int| 0 <= a < b < self.sessions@.len() implies #[trigger] self.sessions@[a].0@ != #[trigger] self.sessions@[b].0@ by {
                        if b == self.sessions@.len() - 1 {
                            assert(antes[a].0@ != username@);
                        }
                    }
                }
            }
        }
        self.username = Some(username);
    }
}

/// Where the state file may live, best first: the directory made for the
/// greeter, which survives reboots (its home is temporary), then the
/// fallbacks for running it by hand.
pub open spec fn rutas_de_estado(xdg_state_home: Option<Seq<char>>, home: Option<Seq<char>>) -> Seq<
    Seq<char>,
> {
    let primera = seq![unir_ruta("/var/lib/vasak-session-manager"@, "last-login.json"@)];
    let segunda: Seq<Seq<char>> = match xdg_state_home {
        Some(x) => seq![
            unir_ruta(unir_ruta(x, "vasak-session-manager"@), "last-login.json"@),
        ],
        None => seq![],
    };
    let tercera: Seq<Seq<char>> = match home {
        Some(h) => seq![
            unir_ruta(
                unir_ruta(unir_ruta(h, ".local/state"@), "vasak-session-manager"@),
                "last-login.json"@,
            ),
        ],
        None => seq![],
    };
    primera + segunda + tercera
}

/// Where the state file may live, given `$XDG_STATE_HOME` and `$HOME` when
/// they are set.
pub fn state_paths(xdg_state_home: Option<&str>, home: Option<&str>) -> (r: Vec<String>)
    ensures
        vista_textos(r@) == rutas_de_estado(
            match xdg_state_home {
                Some(x) => Some(x@),
                None => None,
            },
            match home {
                Some(h) => Some(h@),
                None => None,
            },
        ),
{
    let mut r: Vec<String> = Vec::new();
    r.push(unir_rutas("/var/lib/vasak-session-manager", "last-login.json"));
    match xdg_state_home {
        Some(x) => {
            let d = unir_rutas(x, "vasak-session-manager");
            r.push(unir_rutas(d.as_str(), "last-login.json"));
        },
        None => {},
    }
    match home {
        Some(h) => {
            let a = unir_rutas(h, ".local/state");
            let b = unir_rutas(a.as_str(), "vasak-session-manager");
            r.push(unir_rutas(b.as_str(), "last-login.json"));
        },
        None => {},
    }
    proof {
        assert(vista_textos(r@) =~= rutas_de_estado(
            match xdg_state_home {
                Some(x) => Some(x@),
                None => None,
            },
            match home {
                Some(h) => Some(h@),
                None => None,
            },
        ));
    }
    r
}

} // verus!
