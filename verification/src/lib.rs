pub mod texto;
pub mod ruta;
pub mod orden;
pub mod idioma;
pub mod migracion;
pub mod commands;
pub mod lock;
