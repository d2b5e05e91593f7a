//! Evaluation pipeline for a single arithmetic expression given as text:
//! the scanner splits the characters into numeric and operator tokens, the
//! converter reorders them into postfix with an operator stack (inserting
//! implicit multiplication before a parenthesis), and the tree builder turns
//! the postfix sequence into a binary expression tree.  The numeric fold over
//! the finished tree is floating point and therefore lives outside this
//! library; everything up to and including the tree, and the laws relating
//! the tree to its postfix form, are verified here.

pub mod converter;
pub mod eval;
pub mod grammar;
pub mod tree;
pub mod scanner;
pub mod token;
