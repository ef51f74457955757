//! Verified core of a long-video index: acquisition, decoding, perception and
//! pipeline logic, with every rule stated as a contract.

pub mod acquire;
pub mod acquired;
pub mod asr;
pub mod batch;
pub mod big;
pub mod callback;
pub mod chapters;
pub mod charsmap;
pub mod dag;
pub mod decode;
pub mod describe;
pub mod entities;
pub mod error;
pub mod frame;
pub mod gate;
pub mod grid;
pub mod hashing;
pub mod info;
pub mod items;
pub mod jobs;
pub mod json;
pub mod model;
pub mod ocr;
pub mod operator;
pub mod order;
pub mod parts;
pub mod path;
pub mod pattern;
pub mod perceive;
pub mod phash;
pub mod probe;
pub mod protocol;
pub mod raster;
pub mod reading;
pub mod registry;
pub mod remote;
pub mod sandbox;
pub mod scenes;
pub mod scheduler;
pub mod session;
pub mod shm;
pub mod shots;
pub mod sidecar;
pub mod spacing;
pub mod stages;
pub mod text;
pub mod thumbnail;
pub mod timestamp;
pub mod vad;
