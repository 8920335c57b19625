pub mod parser;
pub mod tc;

pub use parser::{ByteReader, FromToken, Parser, ParserError};
pub use tc::{audit_target, classify, gen_data, render_case_line, HarnessError, Outcome, RunOptions, Tally, Verdict};
