//! Path helpers for the engine's configuration file.

use vstd::prelude::*;
use vstd::string::StringExecFns;

verus! {

/// The path of the mapping file, beside the loaded plugin binary: the
/// plugin's directory with `/midi_hotkey.json` appended.
pub fn get_json_path(vst_dir: &str) -> (r: String)
    ensures
        r@ == vst_dir@ + "/midi_hotkey.json"@,
{
    let mut path = vst_dir.to_owned();
    path.append("/midi_hotkey.json");
    path
}

} // verus!
