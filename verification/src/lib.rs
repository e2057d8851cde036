pub mod blob;
pub mod characters;
pub mod conversion;
pub mod enumerations;
pub mod error;
pub mod fonts;
pub mod keypadstrs;
pub mod language;
pub mod menus;
pub mod mnemonics;
pub mod modes;
pub mod parameters;
pub mod products;
pub mod shared;
pub mod table;
pub mod units;
