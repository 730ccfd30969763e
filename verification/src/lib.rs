use vstd::prelude::*;

pub mod fst_export;
pub mod fst_merge;
pub mod graphics;
pub mod item_list;
pub mod keyboard_shortcuts;
pub mod keys;
pub mod konata;
pub mod logs;
pub mod session;

verus! {

} // verus!
