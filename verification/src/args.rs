//! Program arguments: the data directory, the listening port, and the
//! storage-backend selection, with the path computation verified. Parsing
//! from the command line happens outside the library.

use vstd::prelude::*;
use vstd::string::StringExecFns;

verus! {

/// The program's arguments.
pub struct Args {
    /// The base data directory.
    pub data: String,
    /// The port the service listens on.
    pub port: u16,
    /// Select the default embedded storage backend.
    pub mdbx: bool,
    /// Select the alternative backend, which is not implemented.
    pub leveldb: bool,
}

impl Args {
    /// The name of the per-backend directory under the data directory.
    pub open spec fn spec_dir_name(self) -> Seq<char> {
        if !self.mdbx && self.leveldb {
            "leveldb"@
        } else {
            "mdbx"@
        }
    }

    /// The per-backend directory name the flags select.
    pub fn data_dir_name(&self) -> (r: &'static str)
        ensures
            r@ == self.spec_dir_name(),
    {
        match (self.mdbx, self.leveldb) {
            (false, true) => "leveldb",
            _ => "mdbx",
        }
    }

    /// The full data path: the base directory joined with the backend's
    /// directory name; the unimplemented backend is rejected.
    pub fn data_path(&self) -> (r: Result<String, String>)
        ensures
            (!self.mdbx && self.leveldb) ==> (r matches Err(m) && m@ == "leveldb not implemented"@),
            !(!self.mdbx && self.leveldb) ==> (r matches Ok(p) && p@ == self.data@ + "/"@
                + self.spec_dir_name()),
    {
        if !self.mdbx && self.leveldb {
            Err(String::from_str("leveldb not implemented"))
        } else {
            let mut p = self.data.clone();
            p.append("/");
            p.append(self.data_dir_name());
            Ok(p)
        }
    }
}

} // verus!
