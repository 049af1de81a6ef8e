//! Verified core of a live recording, clipping and cloud sync application.

pub mod text;
pub mod flv;
pub mod timestamps;
pub mod pipeline;
pub mod settings;
pub mod session;
pub mod json;
pub mod outside;
pub mod stream;
pub mod cookie;
pub mod bilibili;
pub mod danmaku;
pub mod runtime;
pub mod recording;
pub mod season;
pub mod restore;
pub mod requests;
pub mod archive;
pub mod baidu_path;
pub mod baidu_cookie;
pub mod baidu_output;
pub mod baidu_remote;
pub mod baidu_sync;
pub mod baidu_config;
pub mod clips;
pub mod segments;
pub mod anchors;
pub mod project;
pub mod package;
pub mod unpack;
pub mod toolbox;
pub mod login;
