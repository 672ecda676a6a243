//! The interactive line editor's logic: the edited line, key decoding, layout arithmetic,
//! history expansion and the small parsers around them.

pub mod text;
pub mod edit;
pub mod dropdown;
pub mod history_expand;
pub mod scanner;
pub mod paint;
pub mod term;
pub mod readline;
pub mod marks;
pub mod query;
pub mod editor;
pub mod keys;
pub mod matching;
pub mod completion;
pub mod highlight;
pub mod prompt;
pub mod recall;
pub mod ask;
pub mod abbr;
pub mod block;
pub mod frecency;
pub mod finder;
pub mod settings;
pub mod command_spec;
