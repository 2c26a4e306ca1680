//! An indexable binary min-heap for timer deadlines: besides taking out the
//! least value, it removes any element that was pushed, through the handle
//! that `push` returned, in logarithmic time.

pub mod key;
pub mod heap;
