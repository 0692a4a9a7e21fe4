//! The EUI client's own logic, verified: the wire between a window and its
//! worker, the mesh container, the small text formats the client keeps on
//! disk, and the decisions around them.

pub mod access;
pub mod consent;
pub mod drawlist;
pub mod edit;
pub mod field;
pub mod icon;
pub mod driver;
pub mod install;
pub mod instance;
pub mod ios;
pub mod link;
pub mod manifest;
pub mod mesh;
pub mod nfc;
pub mod pipe;
pub mod place;
pub mod quad;
pub mod recent;
pub mod reply;
pub mod save;
pub mod scancode;
pub mod serving;
pub mod session;
pub mod text;
pub mod track;
pub mod transport;
pub mod upload;
pub mod wire;
pub mod worker;
