//! ANSI escape sequences used by the split-screen viewport.
use vstd::prelude::*;

verus! {

/// Warning line shown when stored state fails validation.
pub const CRC_MISMATCH_WARNING: &'static str = "\x1b[33m[WARNING] CRC mismatch: factory reset applied\x1b[0m\r\n";

/// Clears the whole screen.
pub const CLEAR_SCREEN: &'static str = "\x1b[2J";

/// Moves the cursor to the top-left corner.
pub const CURSOR_HOME: &'static str = "\x1b[H";

/// Restricts scrolling to lines 1 to 22 (DECSTBM).
pub const SCROLL_REGION_22: &'static str = "\x1b[1;22r";

/// Moves the cursor to the input line (24).
pub const CURSOR_INPUT_LINE: &'static str = "\x1b[24;1H";

/// Moves the cursor to the divider line (23).
pub const CURSOR_DIVIDER_LINE: &'static str = "\x1b[23;1H";

/// Erases the current line.
pub const ERASE_LINE: &'static str = "\x1b[2K";

/// Resets colors and attributes.
pub const COLOR_RESET: &'static str = "\x1b[0m";

/// Green, for the prompt.
pub const COLOR_PROMPT: &'static str = "\x1b[32m";

/// Blue, for the divider.
pub const COLOR_DIVIDER: &'static str = "\x1b[34m";

/// Yellow, for system messages.
pub const COLOR_SYSTEM: &'static str = "\x1b[33m";

/// Cyan, for information lines.
pub const COLOR_INFO: &'static str = "\x1b[36m";

/// Saves the cursor position (DECSC).
pub const SAVE_CURSOR: &'static str = "\x1b7";

/// Restores the saved cursor position (DECRC).
pub const RESTORE_CURSOR: &'static str = "\x1b8";

/// Moves the cursor to the bottom line of the scroll region (22).
pub const CURSOR_SCROLL_BOTTOM: &'static str = "\x1b[22;1H";

} // verus!
