[package]
name = "pr_title_issues"
version = "0.1.0"
edition = "2021"
publish = false

[dependencies]
octocrab = "=0.41.2"
tokio = { version = "=1.54.1", features = ["macros", "rt-multi-thread"] }

[dev-dependencies]
regex = "=1.13.1"
