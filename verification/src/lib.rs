use vstd::prelude::*;

pub mod codec;
pub mod platform;
pub mod session;
pub mod stats;
pub mod store;
pub mod text;
pub mod timer;

verus! {

/// Name of the store's database file inside the host's data directory.
pub open spec fn spec_db_file_name() -> Seq<char> {
    "focusflow.db"@
}

/// Path of the database file under the given data directory: the directory,
/// a separator, and the fixed file name.
pub fn get_db_path(app_data_dir: &str) -> (r: String)
    ensures
        r@ == app_data_dir@ + "/"@ + spec_db_file_name(),
{
    let mut r = app_data_dir.to_owned();
    r.append("/");
    r.append("focusflow.db");
    r
}

/// Path of a bundled sound resource with the given file name.
pub fn get_resource_sound_path(sound_name: &str) -> (r: String)
    ensures
        r@ == "../src-tauri/resources/sounds/"@ + sound_name@,
{
    let mut r = String::new();
    r.append("../src-tauri/resources/sounds/");
    r.append(sound_name);
    r
}

} // verus!
