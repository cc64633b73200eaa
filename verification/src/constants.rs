//! Constants shared by the tool.

use vstd::prelude::*;

verus! {

/// Name of the `.git` directory.
pub const GIT_DIR: &'static str = ".git";

/// Name of the global config file.
pub const ST_CFG_FILE_NAME: &'static str = ".st.toml";

/// Name of the store file, within `.git`.
pub const ST_CTX_FILE_NAME: &'static str = ".st_store.toml";

pub const QUOTE_CHAR: char = '▌';

pub const FILLED_CIRCLE: char = '●';

pub const EMPTY_CIRCLE: char = '○';

pub const BOTTOM_LEFT_BOX: char = '└';

pub const LEFT_FORK_BOX: char = '├';

pub const VERTICAL_BOX: char = '│';

pub const HORIZONTAL_BOX: char = '─';

} // verus!
