//! A small bottom-up inference engine: terms, unification, a knowledge base of
//! facts, and the saturation loop that derives new facts from rule-shaped ones.

pub mod atom;
pub mod rule;
pub mod order;
pub mod parse;
pub mod show;
pub mod unify;
pub mod classes;
pub mod equate;
pub mod kb;
pub mod combo;
pub mod fresh;
pub mod saturate;
pub mod sound;
