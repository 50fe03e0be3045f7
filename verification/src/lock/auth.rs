//! Whether the lock screen can check the session owner's password.
//!
//! The greeter never does this: it hands the password to greetd. A lock
//! screen has no such helper (the session already exists and is ours), so it
//! authenticates against PAM directly, through one service and no fallback:
//! the `login` stack decides whether somebody may *enter* the system and has
//! every reason to refuse a person who only wants their own session back.

use vstd::prelude::*;

verus! {

/// The PAM service the lock screen authenticates against, and the only one.
pub const SERVICE: &'static str = "vasak-lock-screen";

/// Where that service's file is.
pub fn service_path() -> (r: String)
    ensures
        r@ == "/etc/pam.d/"@ + SERVICE@,
{
    let mut r = String::from_str("/etc/pam.d/");
    r.append(SERVICE);
    r
}

/// What is said when the service is not installed.
pub open spec fn sin_servicio() -> Seq<char> {
    "falta "@ + "/etc/pam.d/"@ + SERVICE@
        + ": sin ese archivo PAM rechaza cualquier contraseña y la sesión quedaría inaccesible. Se instala con el paquete vasak-session-manager."@
}

/// Whether there is any chance of authenticating at all, given whether the
/// service file is installed.
///
/// Checked before the session is locked, and the lock is refused when it
/// fails: a lock screen that cannot verify a password is a machine nobody can
/// get back into, and the only way out is the power button.
pub fn can_authenticate(service_installed: bool) -> (r: Result<(), String>)
    ensures
        r is Ok <==> service_installed,
        r matches Err(m) ==> m@ == sin_servicio(),
{
    if service_installed {
        return Ok(());
    }
    let mut m = String::from_str("falta ");
    let ruta = service_path();
    m.append(ruta.as_str());
    m.append(
        ": sin ese archivo PAM rechaza cualquier contraseña y la sesión quedaría inaccesible. Se instala con el paquete vasak-session-manager.",
    );
    Err(m)
}

} // verus!
