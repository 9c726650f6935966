[package]
name = "jira_clone"
version = "0.1.0"
edition = "2021"
publish = false

[dependencies]
clearscreen = "*"
ellipse = "*"
itertools = "*"
