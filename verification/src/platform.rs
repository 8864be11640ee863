use vstd::prelude::*;

use crate::path::{spec_join, FilePath};

verus! {

/// The database file's name inside the data directory.
pub const DB_NAME: &'static str = "db.sqlite3";

/// The byte sequence of the database file's name.
pub open spec fn db_name_bytes() -> Seq<u8> {
    seq![
        100u8, 98u8, 46u8, 115u8, 113u8, 108u8, 105u8, 116u8, 101u8, 51u8,
    ]
}

/// The path of the database file inside the given data directory: the
/// directory joined with the database file's name.  The directory itself
/// comes from the platform's conventions, which the surrounding
/// application resolves.
pub fn get_db_path(data_dir: &FilePath) -> (r: FilePath)
    requires
        data_dir@.len() + 11 <= usize::MAX,
    ensures
        r@ == spec_join(data_dir@, db_name_bytes()),
{
    let mut name: Vec<u8> = Vec::new();
    name.push(100u8);
    name.push(98u8);
    name.push(46u8);
    name.push(115u8);
    name.push(113u8);
    name.push(108u8);
    name.push(105u8);
    name.push(116u8);
    name.push(101u8);
    name.push(51u8);
    proof {
        assert(name@ =~= db_name_bytes());
    }
    data_dir.join(name.as_slice())
}

} // verus!
