//! The best-effort "mark unmountable" primitive for platforms without kernel
//! unmount support.

use vstd::prelude::*;

verus! {

/// Best-effort unmount marker: on a platform without kernel unmount support
/// this is an unconditional no-op that succeeds for any target path, existing
/// or not. Callers must not rely on it for guaranteed cleanup.
pub fn send_unmountable(_target: &str) {
}

} // verus!
