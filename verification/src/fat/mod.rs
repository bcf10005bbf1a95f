pub mod boot_sector;
pub mod dentry;

pub mod table_index;
pub mod time;
pub mod fs;
pub mod dir;
