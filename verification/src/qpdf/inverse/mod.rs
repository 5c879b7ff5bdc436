//! Reading is the inverse of writing: what is written is read back as it
//! was.

pub mod file;
pub mod heading;
pub mod lexical;
pub mod members;
pub mod numbering;
pub mod objects;
pub mod packing;
pub mod recovery;
pub mod sound;
pub mod standing;
pub mod table;
pub mod trailer;
pub mod unpacking;
pub mod values;
