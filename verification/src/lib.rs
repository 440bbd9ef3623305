//! Syntax highlighting of the code blocks of an HTML document.
//!
//! A document goes through four stages. The scanner reads its text as
//! events: tags and the text between them. The state machine reads the events
//! and finds the code blocks, written `<pre><code ...>text</code></pre>`. The
//! highlighter turns the text of each block into lines of styled tokens. The
//! re-serializer writes the document again, with the markup of the tokens in
//! place of the text of each block and everything else as it was read.
//!
//! `syntax_highlight` runs a document through all four.

pub mod document_laws;
pub mod event;
pub mod highlight;
pub mod laws;
pub mod machine;
pub mod markup;
pub mod pipeline;
pub mod render;
pub mod scanner;
pub mod text;
pub mod tokenizer;

pub use crate::pipeline::syntax_highlight;
