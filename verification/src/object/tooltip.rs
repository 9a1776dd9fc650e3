//! The identities tooltips are filed under. A target named by text is
//! keyed by its text; a table's cell is keyed by its PLACE — which view
//! drew it, which column, and the row's key — because the words in it
//! are exactly what changes when the model is rewritten.

use vstd::prelude::*;
use vstd::std_specs::hash::DefaultHasherAdditionalSpecFns;
use std::hash::{Hash, Hasher};
use std::collections::hash_map::DefaultHasher;

verus! {

/// What hashing a `str` into a `DefaultHasher` leaves it holding: a
/// function of what it held and of the string's characters.
pub uninterp spec fn str_hashed(before: Seq<Seq<u8>>, s: Seq<char>) -> Seq<Seq<u8>>;

/// Feeds `s` to `h` as `str`'s `Hash` does.
///
/// Trusted: calls `<str as Hash>::hash`. The contract claims that what
/// the hasher then holds depends only on what it held and on the
/// characters of `s`.
#[verifier::external_body]
fn hash_str(s: &str, h: &mut DefaultHasher)
    ensures
        final(h)@ == str_hashed(old(h)@, s@),
{
    s.hash(h);
}

/// Feeds `n` to `h` as `u32`'s `Hash` does.
///
/// Trusted: calls `<u32 as Hash>::hash`. Nothing is stated of what the
/// hasher then holds: the bytes are the machine's own order.
#[verifier::external_body]
fn hash_u32(n: u32, h: &mut DefaultHasher) {
    n.hash(h);
}

/// Feeds `n` to `h` as `usize`'s `Hash` does.
///
/// Trusted: calls `<usize as Hash>::hash`. Nothing is stated of what the
/// hasher then holds: the bytes are the machine's own width and order.
#[verifier::external_body]
fn hash_usize(n: usize, h: &mut DefaultHasher) {
    n.hash(h);
}

/// An id for a target named by a string — a table heading, a tab label:
/// the string hashed into a fresh `DefaultHasher`.
pub fn key(name: &str) -> (r: u64)
    ensures
        r == DefaultHasher::spec_finish(str_hashed(Seq::empty(), name@)),
{
    let mut h = DefaultHasher::new();
    hash_str(name, &mut h);
    h.finish()
}

/// An id for one cell of a view: which view drew it, which column it is,
/// and the row it belongs to (empty for a heading), hashed in that order
/// into a fresh `DefaultHasher`. The view and the column are written in
/// the machine's own byte order and width, so what the hasher holds
/// before the row is not stated; the row is hashed last, over it.
pub fn cell_key(view: u32, col: usize, row: &str) -> (r: u64)
    ensures
        exists|s: Seq<Seq<u8>>| r == DefaultHasher::spec_finish(#[trigger] str_hashed(s, row@)),
{
    let mut h = DefaultHasher::new();
    hash_u32(view, &mut h);
    hash_usize(col, &mut h);
    let ghost before = h@;
    hash_str(row, &mut h);
    let r = h.finish();
    assert(r == DefaultHasher::spec_finish(str_hashed(before, row@)));
    r
}

/// The target the pointer is resting on.
#[derive(Clone, Copy, PartialEq, Eq, Debug, Structural)]
pub struct Armed {
    pub id: u64,
    /// Whether the delay is skipped because the pointer stepped here
    /// straight off a target whose tooltip was showing.
    pub instant: bool,
}

/// One frame's decision.
#[derive(Clone, Copy, PartialEq, Eq, Debug, Structural)]
pub struct Decision {
    /// The target armed after this frame.
    pub armed: Option<Armed>,
    /// Whether the target was armed anew this frame, its clock starting
    /// at the moment its request was filed.
    pub fresh: bool,
    /// Whether the request is shown this frame — and so whether this
    /// frame is the new last moment a tooltip was on screen.
    pub show: bool,
}

/// What a frame decides, given the target armed before it, the id of the
/// request filed during it (None when the pointer rests on nothing), and
/// three readings of the clock: whether a tooltip was on screen within
/// the grace window, whether the delay has passed since the request was
/// filed, and whether it has passed since the armed target was reached.
///
/// Nothing requested disarms. A request for another target than the
/// armed one arms it anew — at once due when reached within the grace
/// window, else its delay counted from its request. A request for the
/// armed target is due when that target was reached within the grace
/// window or has waited out the delay.
pub open spec fn decided(
    armed: Option<Armed>,
    pending: Option<u64>,
    recent: bool,
    waited_since_request: bool,
    waited_since_armed: bool,
) -> Decision {
    match pending {
        None => Decision { armed: None, fresh: false, show: false },
        Some(id) => {
            let fresh = match armed {
                Some(a) => a.id != id,
                None => true,
            };
            if fresh {
                Decision {
                    armed: Some(Armed { id, instant: recent }),
                    fresh: true,
                    show: recent || waited_since_request,
                }
            } else {
                Decision { armed, fresh: false, show: armed->0.instant || waited_since_armed }
            }
        },
    }
}

/// The frame's decision; see [`decided`].
pub fn decide(
    armed: Option<Armed>,
    pending: Option<u64>,
    recent: bool,
    waited_since_request: bool,
    waited_since_armed: bool,
) -> (d: Decision)
    ensures
        d == decided(armed, pending, recent, waited_since_request, waited_since_armed),
{
    match pending {
        None => Decision { armed: None, fresh: false, show: false },
        Some(id) => {
            let fresh = match armed {
                Some(a) => a.id != id,
                None => true,
            };
            if fresh {
                Decision {
                    armed: Some(Armed { id, instant: recent }),
                    fresh: true,
                    show: recent || waited_since_request,
                }
            } else {
                let instant = match armed {
                    Some(a) => a.instant,
                    None => false,
                };
                Decision { armed, fresh: false, show: instant || waited_since_armed }
            }
        },
    }
}

/// A target keeps its clock while the pointer rests on it: once armed, a
/// request for the same target neither re-arms it nor changes whether it
/// was reached within the grace window.
pub proof fn law_resting_keeps_the_clock(a: Armed, recent: bool, w1: bool, w2: bool)
    ensures
        decided(Some(a), Some(a.id), recent, w1, w2).armed == Some(a),
        !decided(Some(a), Some(a.id), recent, w1, w2).fresh,
{
}

/// Leaving every anchor disarms, so the next target pays the delay again
/// unless a tooltip was on screen within the grace window.
pub proof fn law_leaving_disarms(armed: Option<Armed>, recent: bool, w1: bool, w2: bool, id: u64, w3: bool)
    ensures
        decided(armed, None, recent, w1, w2).armed is None,
        !decided(armed, None, recent, w1, w2).show,
        decided(decided(armed, None, recent, w1, w2).armed, Some(id), false, w3, w2).show == w3,
{
}


/// A target reached within the grace window shows on every frame it
/// stays requested, whatever the clock says since.
pub proof fn law_an_instant_target_stays_shown(a: Armed, recent: bool, w1: bool, w2: bool)
    requires
        a.instant,
    ensures
        decided(Some(a), Some(a.id), recent, w1, w2).show,
{
}

/// Stepping onto a new target while a tooltip was on screen within the
/// grace window shows it at once, and keeps it shown on the frames after
/// while the pointer rests on it.
pub proof fn law_stepping_across_keeps_showing(
    armed: Option<Armed>,
    id: u64,
    w1: bool,
    w2: bool,
    recent: bool,
    w3: bool,
    w4: bool,
)
    requires
        armed is None || armed->0.id != id,
    ensures
        decided(armed, Some(id), true, w1, w2).show,
        decided(decided(armed, Some(id), true, w1, w2).armed, Some(id), recent, w3, w4).show,
{
}

} // verus!
