//! Bridge from the N9M live-video protocol of mobile DVRs to RTSP.
//!
//! A device speaks JSON and H.264 over TCP in packages behind 12-byte headers
//! (`n9m`). The bridge logs in and asks for live channels (`bridge`), cuts the
//! frames that come into NAL units (`annexb`), packs these into RTP (`rtp`) and
//! hands them to the clients of each channel (`hub`), who talk RTSP (`rtsp`). A
//! web page shows what goes on and changes the settings (`web`, `state`,
//! `config`). Sockets, threads and clocks are the business of the application.
pub mod annexb;
pub mod bridge;
pub mod bytes;
pub mod config;
pub mod crypto;
pub mod hub;
pub mod json;
pub mod n9m;
pub mod number;
pub mod rtp;
pub mod rtsp;
pub mod state;
pub mod text;
pub mod web;
