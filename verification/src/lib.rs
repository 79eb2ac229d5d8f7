//! Verified core of a colour-grading lookup-table engine: the layout of the
//! 3D table, the pixel bookkeeping around it, the byte payload it is shipped
//! in, and the decryption of the bundled front end.
pub mod layout;
pub mod pixels;
pub mod payload;
pub mod frontend;
