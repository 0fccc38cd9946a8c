//! Myers' O(ND) difference algorithm: a search of the edit graph that finds the
//! edit distance of two sequences, and a backward walk over the search's history
//! that rebuilds an edit script. Beside it, a small tape-language interpreter:
//! its tape (`memory`), its program cursor (`program`) and the machine that runs
//! commands on both (`interpreter`).

pub mod interpreter;
pub mod memory;
pub mod myers;
pub mod program;
