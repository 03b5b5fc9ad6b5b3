//! The verified core of the Jade runtime.

pub mod arena;
pub mod bytesf;
pub mod coercef;
pub mod coll;
pub mod cstr;
pub mod cycle;
pub mod dynop;
pub mod envf;
pub mod ffi;
pub mod ffi_coll;
pub mod floatbits;
pub mod fsf;
pub mod gc;
pub mod grammarf;
pub mod handle;
pub mod heap;
pub mod httpf;
pub mod infer;
pub mod jsonf;
pub mod mathf;
pub mod methods;
pub mod num;
pub mod obj;
pub mod ops;
pub mod pathf;
pub mod pool;
pub mod project;
pub mod promptf;
pub mod provider;
pub mod providers;
pub mod random;
pub mod randomf;
pub mod render;
pub mod shf;
pub mod sort;
pub mod store;
pub mod strf;
pub mod string;
pub mod strval;
pub mod task;
pub mod text;
pub mod timef;
pub mod trust;
pub mod value;
pub mod yields;
