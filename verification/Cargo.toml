[package]
name = "chunk_translate"
version = "0.1.0"
edition = "2021"
publish = false

[dependencies]
llm = { version = "*", default-features = false, features = ["ollama", "google"] }
google-genai = "*"
loggit = "*"
