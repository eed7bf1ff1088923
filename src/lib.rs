use vstd::prelude::*;

pub mod grammar;
pub mod ini;
pub mod loader;
pub mod macros;
pub mod manager;
pub mod parser;
pub mod plugin;
pub mod plugins;
pub mod reader;
pub mod runner;
pub mod string_map;
pub mod text;
pub mod token;
pub mod validator;

pub use ini::IniParserEx;
pub use loader::build_library_name;
pub use macros::{replace_macros, FastReplacer};
pub use manager::PluginManager;
pub use parser::{ParseError, ScriptParser};
pub use plugin::{compare_versions, string_to_bool, PluginInterface};
pub use plugins::{MathPlugin, UtilsPlugin};
pub use reader::ScriptReader;
pub use runner::{RunError, ScriptRunner};
pub use string_map::StringMap;
pub use token::{Item, TokenType};
pub use validator::{ScriptValidator, ValidateError};

verus! {

} // verus!
