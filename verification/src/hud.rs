//! Decisions of the on-screen chat overlay that involve no drawing: the
//! color of each kind of message and the blink of the input cursor.

use crate::chat::MessageKind;
use crate::clock::{duration_as_millis, since_unix_epoch, system_time_now};
use vstd::prelude::*;

verus! {

/// Text color (RGB) of a message of kind `kind`.
pub fn kind_color(kind: MessageKind) -> (r: [u8; 3])
    ensures
        r@ == match kind {
            MessageKind::Chat => seq![255u8, 255u8, 255u8],
            MessageKind::CommandEcho => seq![170u8, 170u8, 170u8],
            MessageKind::CommandOk => seq![255u8, 255u8, 85u8],
            MessageKind::CommandError => seq![255u8, 85u8, 85u8],
        },
{
    let r = match kind {
        MessageKind::Chat => [255, 255, 255],
        MessageKind::CommandEcho => [170, 170, 170],
        MessageKind::CommandOk => [255, 255, 85],
        MessageKind::CommandError => [255, 85, 85],
    };
    assert(r@ =~= match kind {
        MessageKind::Chat => seq![255u8, 255u8, 255u8],
        MessageKind::CommandEcho => seq![170u8, 170u8, 170u8],
        MessageKind::CommandOk => seq![255u8, 255u8, 85u8],
        MessageKind::CommandError => seq![255u8, 85u8, 85u8],
    });
    r
}

/// Whether the cursor shows at `since_epoch` milliseconds after the Unix
/// epoch: on for the first half-second of each second. A clock before the
/// epoch (`None`) counts as the epoch itself.
pub fn blink_on(since_epoch: Option<u128>) -> (r: bool)
    ensures
        r == match since_epoch {
            Some(millis) => (millis / 500) % 2 == 0,
            None => true,
        },
{
    let millis = match since_epoch {
        Some(m) => m,
        None => 0,
    };
    (millis / 500) % 2 == 0
}

/// Whether the input cursor shows now, by the wall clock (see `blink_on`).
pub fn cursor_blink_on() -> bool {
    let since_epoch = match since_unix_epoch(&system_time_now()) {
        Some(d) => Some(duration_as_millis(&d)),
        None => None,
    };
    blink_on(since_epoch)
}

} // verus!
