[package]
name = "dropbox_backup_to_external_disk"
version = "0.1.0"
edition = "2021"
publish = false

[dependencies]
uncased = "0.9"
rayon = "1"
chrono = "0.4"
humantime = "2"
filetime = "0.2"
walkdir = "2"
termion = "1"
dropbox-sdk = "*"
dropbox-content-hasher = "*"
scoped_threadpool = "0.1"
lazy_static = "1"
num-format = "0.4"
ansi_term = "0.12"
term_cursor = "*"
ctrlc = "3"
exitcode = "1"
log = "0.4"
pretty_env_logger = "0.4"
env_logger = "*"
unwrap = "1"
