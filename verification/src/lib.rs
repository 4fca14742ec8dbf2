//! The front end of a small language of diagrams.
//!
//! A text is a list of lines. Each line spells a fact, a name with a body
//! of further facts, or a directive. The text is read in two steps: the
//! [`lexer`] cuts it into tokens and the [`parser`] takes the tokens one by
//! one ([`syntax`] runs the two together, [`print`] writes a program down
//! again). A parsed program is then used in two ways.
//!
//! * As a flat store of facts ([`flat`]): a name is looked up in the whole
//!   store, and nothing shadows anything.
//! * As a tree of terms ([`eval`], [`val`]) with lexical scopes ([`scope`]):
//!   the scopes are indexed in one pass and references are resolved in a
//!   second one, the innermost declaration winning. [`highlight`] resolves
//!   a highlight query in this way, and [`shell`] says what a resolved
//!   query asks to emphasise.
//!
//! What the functions compute is stated over mathematical values: every
//! data type has a view, and every contract speaks of views. The laws that
//! tie several functions together are proved in [`laws`], [`roundtrip`]
//! and [`wellformed`].

pub mod eval;
pub mod fact;
pub mod flat;
pub mod highlight;
pub mod ident;
pub mod laws;
pub mod lexer;
pub mod model;
pub mod parser;
pub mod print;
pub mod roundtrip;
pub mod scope;
pub mod shell;
pub mod syntax;
pub mod token;
pub mod val;
pub mod wellformed;
