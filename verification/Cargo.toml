[package]
name = "crdocs"
version = "0.1.0"
edition = "2021"
publish = false

[dependencies]
rand = "0.7"
serde = { version = "1", features = ["derive"] }
serde_json = "1"
futures = "0.3"
log = "0.4"
wasm-bindgen = "0.2"
wasm-bindgen-futures = "0.4"
js-sys = "0.3"
web-sys = { version = "0.3", features = ["console", "Window", "Storage", "Event", "MessageEvent", "RtcPeerConnection", "RtcSessionDescription", "RtcSessionDescriptionInit", "RtcSdpType", "RtcIceCandidate", "RtcIceCandidateInit", "RtcPeerConnectionIceEvent", "RtcDataChannel", "RtcDataChannelInit", "RtcIceConnectionState", "RtcIceGatheringState"] }
ws_stream_wasm = "0.7"
gloo-events = "0.1"
wasm-timer = "0.2"
console_log = "0.2"
console_error_panic_hook = "0.1"
warp = "0.3"
tokio = { version = "1", features = ["macros", "rt-multi-thread"] }
structopt = "0.3"
env_logger = "0.10"

[dev-dependencies]
quickcheck = "0.9"
