//! A verified core for an RFB (remote framebuffer) screen-sharing server:
//! damage detection between consecutive frames, Tight-encoding compression
//! framing, rectangle encoders, and the session message logic.
pub mod frame;
pub mod comparator;
pub mod tight;
pub mod gradient;
pub mod encoder;
pub mod session;
