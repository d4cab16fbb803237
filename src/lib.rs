//! Regular expressions over letters and digits, compiled to nondeterministic
//! finite automata and matched by subset simulation.
pub mod regex;
pub mod nfa;
pub mod matcher;
pub mod compiler;
pub mod parser;
