//! The editing and view core of a code editor: documents, and per view a session
//! with soft wrapping, animated folding, multiple selections, inlays and cached
//! row heights that are repaired incrementally after every change.
//!
//! Heights and positions on screen are integers: a row is a million units high and a
//! column a million units wide, and a line's fold scale is given in millionths.

pub mod block;
pub mod columns;
pub mod diff;
pub mod edit;
pub mod fold;
pub mod heights;
pub mod inlay;
pub mod layout;
pub mod line;
pub mod position;
pub mod selections;
pub mod state;
pub mod text;
pub mod wrap;
