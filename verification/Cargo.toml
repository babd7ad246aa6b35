[package]
name = "bevy_mod_debugdump"
version = "0.1.0"
edition = "2021"
publish = false

[dependencies]
bevy_app = { version = "=0.16.1", default-features = false, features = ["std"] }
bevy_color = { version = "=0.16.2", default-features = false, features = ["std"] }
bevy_ecs = { version = "=0.16.1", default-features = false, features = ["std"] }
bevy_log = { version = "=0.16.1", default-features = false }
bevy_platform = { version = "=0.16.1", default-features = false, features = ["std"] }
bevy_render = { version = "=0.16.1", default-features = false }
disqualified = "=1.1.0"
lexopt = "=0.3.2"
pretty-type-name = "=1.0.1"
