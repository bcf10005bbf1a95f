use vstd::prelude::*;
use crate::error::ConvertError;
use crate::fat::dentry::FatDentry;
use crate::fat::time::spec_fat_time_to_unix_time;

verus! {

/// Seconds since the Unix epoch.
pub type Timestamp = u32;

/// The parts of a FAT dentry that the conversion keeps. The file name and the data ranges are not part of it: they
/// have variable length and are serialized separately.
#[derive(Debug, Clone, Copy, PartialEq, Eq, Structural)]
pub struct DentryRepresentation {
    pub access_time: Timestamp,
    pub create_time: Timestamp,
    pub mod_time: Timestamp,
    pub file_size: u32,
    pub is_dir: bool,
}

/// The Unix time of a FAT date and time, if it is a valid date that a `Timestamp` can hold.
pub open spec fn fat_timestamp(date: u16, time: Option<u16>) -> Option<Timestamp> {
    match spec_fat_time_to_unix_time(date, time) {
        Some(t) => if 0 <= t <= u32::MAX {
            Some(t as Timestamp)
        } else {
            None
        },
        None => None,
    }
}

impl DentryRepresentation {
    /// `self` represents the FAT entry `dentry`: its last access time is the Unix time of the entry's access date,
    /// its creation time that of the creation date and time, its modification time that of the modification date
    /// and time, and it has the entry's size and kind.
    pub open spec fn represents(self, dentry: FatDentry) -> bool {
        &&& fat_timestamp(dentry.access_date, None) == Some(self.access_time)
        &&& fat_timestamp(dentry.create_date, Some(dentry.create_time)) == Some(self.create_time)
        &&& fat_timestamp(dentry.mod_date, Some(dentry.mod_time)) == Some(self.mod_time)
        &&& self.file_size == dentry.file_size
        &&& self.is_dir == dentry.spec_is_dir()
    }

    /// A FAT entry has at most one representation: two that represent the same entry are equal, so each time of
    /// the representation is the time of the entry that it stands for, never another one.
    pub proof fn law_representation_is_determined(a: Self, b: Self, dentry: FatDentry)
        requires
            a.represents(dentry),
            b.represents(dentry),
        ensures
            a == b,
    {
    }

    /// The representation of `dentry`; fails with `InvalidTimestamp` if one of its times is not a valid date.
    pub fn from(dentry: FatDentry) -> (r: Result<Self, ConvertError>)
        ensures
            match r {
                Ok(d) => {
                    &&& fat_timestamp(dentry.access_date, None) == Some(d.access_time)
                    &&& fat_timestamp(dentry.create_date, Some(dentry.create_time)) == Some(d.create_time)
                    &&& fat_timestamp(dentry.mod_date, Some(dentry.mod_time)) == Some(d.mod_time)
                    &&& d.file_size == dentry.file_size
                    &&& d.is_dir == dentry.spec_is_dir()
                    &&& d.represents(dentry)
                },
                Err(e) => {
                    &&& e == ConvertError::InvalidTimestamp
                    &&& (fat_timestamp(dentry.access_date, None) is None || fat_timestamp(
                        dentry.create_date,
                        Some(dentry.create_time),
                    ) is None || fat_timestamp(dentry.mod_date, Some(dentry.mod_time)) is None)
                },
            },
    {
        let access_time = dentry.access_time_as_unix()?;
        let create_time = dentry.create_time_as_unix()?;
        let mod_time = dentry.modify_time_as_unix()?;
        Ok(DentryRepresentation {
            access_time,
            create_time,
            mod_time,
            file_size: dentry.file_size,
            is_dir: dentry.is_dir(),
        })
    }
}

} // verus!
