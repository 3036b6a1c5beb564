pub mod blob;
pub mod blob_laws;
pub mod bytes;
pub mod custom_laws;
pub mod digest;
pub mod diaglog;
pub mod dtb_laws;
pub mod dtb_to_overlay;
pub mod dtbo_builder;
pub mod fat;
pub mod fat_laws;
pub mod flash;
pub mod flash_job;
pub mod flash_laws;
pub mod flash_linux;
pub mod flash_macos;
pub mod flash_windows;
pub mod flashwrite;
pub mod github;
pub mod github_laws;
pub mod job_laws;
pub mod overlay;
pub mod panel_config;
pub mod panel_laws;
pub mod panels;
pub mod rawwrite_unix;
pub mod system_laws;
pub mod text;
pub mod text_laws;
pub mod tree;
pub mod writer_laws;
