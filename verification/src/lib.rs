//! Work-area resolution for a desktop application backend.
//!
//! A display's *work area* is the part of its pixel area left for ordinary
//! application windows once space reserved for system chrome (a taskbar, dock
//! or panel) is excluded.  The host windowing layer reports a display's full
//! raw size; platform-specific refinement shrinks that to the usable work
//! area.  On one platform the refinement shells out to two display-information
//! tools in turn and parses their textual output; that parsing and the
//! fallback chain around it are the logic verified here.  Running the tools
//! and talking to the windowing layer is left to the surrounding program,
//! which hands their results in as plain values.

pub mod parse;
pub mod resolver;
pub mod scan;
