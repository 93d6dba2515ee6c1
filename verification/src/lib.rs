pub mod bitmap;
pub mod font;
pub mod graphics;
pub mod qemu;
pub mod serial;
pub mod text;
pub mod x86;
