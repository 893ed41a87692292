pub mod address;
pub mod double;
pub mod fraction;
pub mod menu;
pub mod netinfo;
pub mod numeral;
pub mod ping;
pub mod preferences;
pub mod settings;
pub mod sparkline;
pub mod text;
pub mod titles;
