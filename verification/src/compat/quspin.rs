//! The library under the names of its compatibility interface. It is an adapter: nothing
//! is implemented twice.

pub use crate::archive;
pub use crate::basis;
pub use crate::block;
pub use crate::dynamics;
pub use crate::error::QuSpinError;
pub use crate::measure;
pub use crate::operator;
pub use crate::solve;
pub use crate::terms::parse_operator_product;
pub use crate::workflow;
pub use crate::{Result, VERSION};
