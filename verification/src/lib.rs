use vstd::prelude::*;

pub mod base94;
pub mod beam;
pub mod beamsearch;
pub mod bignum;
pub mod box_search;
pub mod boxes;
pub mod compiler;
pub mod cps;
pub mod eval;
pub mod expr;
pub mod lambdaman;
pub mod lasolver;
pub mod lifegame;
pub mod lookahead;
pub mod nearest;
pub mod notation;
pub mod order;
pub mod packing;
pub mod plan;
pub mod planar;
pub mod printer;
pub mod randomman;
pub mod resolve;
pub mod scheme;
pub mod scmcomp;
pub mod solver;
pub mod spaceship;
pub mod text;
pub mod trivial;

verus! {
}
