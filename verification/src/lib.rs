//! A parser for survey module markup: free text holding question blocks,
//! optionally grouped into `<loop>` and `<grid>` blocks.
//!
//! [`parse_module`] turns the text of a module into a [`Module`]: the
//! preamble and the items in document order. The grammar is laid down in
//! [`grammar`] as functions on `Seq<char>`; the parsers in [`parser`] are
//! proved to compute them.

pub mod error;
pub mod grammar;
pub mod model;
pub mod parser;
pub mod reader;
pub mod resp;
pub mod scanner;
pub mod text;

pub use error::{ErrorKind, ParseError};
pub use model::{Grid, Loop, Module, ModuleItem, Question, Tag};
pub use parser::{
    comment, parse_grid, parse_loop, parse_loop_grid, parse_module, parse_question,
    parse_question_loop_grid, parse_tag, parse_whitespace_or_comment,
    take_until_next_module_item,
};
