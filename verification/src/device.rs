pub mod d1s;
pub mod fdt;
