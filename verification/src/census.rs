//! Reading an image or a listing for the candidates a register is drafted from.
pub mod elf;
pub mod listing;
