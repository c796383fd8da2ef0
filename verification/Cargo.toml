[package]
name = "bevy_runeweave"
version = "0.1.0"
edition = "2021"
publish = false

[dependencies]
bevy_app = "=0.20.1"
bevy_asset = "=0.20.1"
bevy_ecs = "=0.20.1"
bevy_mod_scripting_bindings = "=0.23.0"
bevy_mod_scripting_script = "=0.23.0"
mlua = { version = "=0.12.2", features = ["lua54", "vendored"] }
rquickjs = "=0.14.0"
serde = { version = "=1.0.229", features = ["derive"] }
serde_json = "=1.0.154"
