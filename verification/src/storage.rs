//! Configuration of where the application state lives on disk.
//!
//! The path is set once at startup and read everywhere else; the reading
//! and writing of the file itself is the surrounding application's job.

use vstd::prelude::*;

verus! {

/// The data-file configuration: a path, set at most once.
pub struct Storage {
    pub file: Option<String>,
}

impl Default for Storage {
    /// A configuration with no path set yet.
    fn default() -> (r: Storage)
        ensures
            r.file matches None::<String>,
    {
        Storage { file: None }
    }
}

impl Storage {
    /// Set the data-file path; later calls leave the first one in place.
    pub fn init(&mut self, path: &str)
        ensures
            match old(self).file {
                None => final(self).file matches Some(p) && p@ == path@,
                Some(_) => *final(self) == *old(self),
            },
    {
        if self.file.is_none() {
            self.file = Some(String::from_str(path));
        }
    }

    /// The configured data-file path, or the default one.
    pub fn get_data_file(&self) -> (r: &str)
        ensures
            r@ == match self.file {
                Some(p) => p@,
                None => "app_data.json"@,
            },
    {
        match &self.file {
            Some(p) => p.as_str(),
            None => "app_data.json",
        }
    }
}

} // verus!
