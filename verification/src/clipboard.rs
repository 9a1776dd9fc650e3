//! The clipboard seam.
//!
//! The toolkit owns the SEAM, never a platform. [`ClipboardBackend`] is
//! implemented by the application and handed in through [`install`]; the
//! toolkit calls [`store`]/[`load`] and never knows which backend
//! answered. Until something is installed the process-local
//! [`LocalClipboard`] answers, so copy/paste keeps working within the
//! program whatever the host offers.
//!
//! The trait speaks seats: the desktop has exactly one
//! ([`Seat::default_seat`]) and every backend may ignore the argument; a
//! multi-seat host has real ones. The MIME entries are growth points with
//! default bodies, so a backend written today keeps compiling tomorrow.

use vstd::prelude::*;
use crate::runtime::Link;
use crate::text::{chars_of, string_of};

verus! {

/// Which selection a text goes to. `Clipboard` is the explicit-gesture
/// board; `Primary` is the select/middle-click one. A host with no
/// primary selection fails those calls silently.
#[derive(Clone, Copy, PartialEq, Eq, Debug, Structural)]
pub enum Board {
    Clipboard,
    Primary,
}

/// Whose selection it is. The desktop has one seat and passes
/// [`Seat::default_seat`] everywhere.
#[derive(Clone, Copy, PartialEq, Eq, Debug, Default, Structural)]
pub struct Seat(pub u32);

impl Seat {
    /// The one seat of a single-seat host.
    pub fn default_seat() -> (s: Seat)
        ensures
            s == Seat(0),
    {
        Seat(0)
    }
}

/// One call a backend was handed.
pub enum Handed {
    /// `store(seat, board, text)`.
    Store(Seat, Board, Seq<char>),
    /// `load(seat, board)`.
    Load(Seat, Board),
}

/// What the application installs: the actual clipboard, wherever it
/// lives.
pub trait ClipboardBackend: Send {
    fn store(&mut self, seat: Seat, board: Board, text: &str);

    fn load(&mut self, seat: Seat, board: Board) -> Option<String>;

    /// MIME growth point. Default: dropped.
    fn store_mime(&mut self, seat: Seat, board: Board, mime: &str, data: &[u8]) {
    }

    /// MIME growth point. Default: nothing.
    fn load_mime(&mut self, seat: Seat, board: Board, mime: &str) -> (r: Option<Vec<u8>>)
        default_ensures
            r is None,
    {
        None
    }
}

/// The view of an optional text.
pub open spec fn text_of(t: Option<String>) -> Option<Seq<char>> {
    match t {
        Some(s) => Some(s@),
        None => None,
    }
}

/// The process-local fallback: always present, used until [`install`]
/// replaces it. Single-seat by construction, so the seat is ignored.
pub struct LocalClipboard {
    clipboard: Option<String>,
    primary: Option<String>,
}

impl LocalClipboard {
    /// What stands on `board`.
    pub closed spec fn held(&self, board: Board) -> Option<Seq<char>> {
        match board {
            Board::Clipboard => text_of(self.clipboard),
            Board::Primary => text_of(self.primary),
        }
    }

    pub fn new() -> (c: LocalClipboard)
        ensures
            c.held(Board::Clipboard) is None,
            c.held(Board::Primary) is None,
    {
        LocalClipboard { clipboard: None, primary: None }
    }
}

/// A copy of `t` with the same characters.
fn copy_text(t: &str) -> (s: String)
    ensures
        s@ == t@,
{
    let v = chars_of(t);
    let s = string_of(&v, 0, v.len());
    assert(v@.subrange(0, v@.len() as int) == v@);
    s
}

/// A copy of an optional string.
fn copy_opt(t: &Option<String>) -> (s: Option<String>)
    ensures
        text_of(s) == text_of(*t),
{
    match t {
        Some(x) => Some(copy_text(x.as_str())),
        None => None,
    }
}

impl ClipboardBackend for LocalClipboard {
    fn store(&mut self, seat: Seat, board: Board, text: &str)
        ensures
            final(self).held(board) == Some(text@),
            forall|b: Board| b != board ==> final(self).held(b) == old(self).held(b),
    {
        match board {
            Board::Clipboard => self.clipboard = Some(copy_text(text)),
            Board::Primary => self.primary = Some(copy_text(text)),
        }
    }

    fn load(&mut self, seat: Seat, board: Board) -> (r: Option<String>)
        ensures
            text_of(r) == old(self).held(board),
            forall|b: Board| final(self).held(b) == old(self).held(b),
    {
        match board {
            Board::Clipboard => copy_opt(&self.clipboard),
            Board::Primary => copy_opt(&self.primary),
        }
    }
}

/// What answers the seam: the local fallback, or what the application
/// installed, with the calls the seam has handed it.
enum Installed {
    Local(LocalClipboard),
    Backend(Box<dyn ClipboardBackend>, Ghost<Seq<Handed>>),
}

/// The clipboard seam one process holds.
pub struct Seam {
    installed: Installed,
}

impl Seam {
    /// Whether the local fallback still answers.
    pub closed spec fn is_local(&self) -> bool {
        self.installed is Local
    }

    /// The calls handed to the installed backend, oldest first; nothing
    /// while the local fallback answers.
    pub closed spec fn handed(&self) -> Seq<Handed> {
        match self.installed {
            Installed::Local(_) => Seq::empty(),
            Installed::Backend(_, log) => log@,
        }
    }

    /// What stands on `board` while the local fallback answers.
    pub closed spec fn held(&self, board: Board) -> Option<Seq<char>> {
        match self.installed {
            Installed::Local(l) => l.held(board),
            Installed::Backend(..) => None,
        }
    }

    /// A seam answered by an empty [`LocalClipboard`].
    pub fn new() -> (s: Seam)
        ensures
            s.is_local(),
            s.held(Board::Clipboard) is None,
            s.held(Board::Primary) is None,
    {
        Seam { installed: Installed::Local(LocalClipboard::new()) }
    }
}

/// What storing `text` on `board` of `seat` does to the seam: with the
/// local fallback answering, `board` holds `text` and the other board is
/// untouched; an installed backend stays installed and is handed exactly
/// that call.
pub open spec fn store_post(before: Seam, after: Seam, seat: Seat, board: Board, text: Seq<char>) -> bool {
    &&& before.is_local() ==> after.is_local() && after.held(board) == Some(text) && forall|
        b: Board,
    | b != board ==> after.held(b) == before.held(b)
    &&& !before.is_local() ==> !after.is_local() && after.handed() == before.handed().push(
        Handed::Store(seat, board, text),
    )
}

/// What loading `board` of `seat` answers: with the local fallback,
/// exactly what stands there, leaving everything as it was; an installed
/// backend stays installed and is handed exactly that call; what it
/// answers is its own business.
pub open spec fn load_post(before: Seam, after: Seam, seat: Seat, board: Board, r: Option<Seq<char>>) -> bool {
    &&& before.is_local() ==> after.is_local() && r == before.held(board) && forall|b: Board|
        after.held(b) == before.held(b)
    &&& !before.is_local() ==> !after.is_local() && after.handed() == before.handed().push(
        Handed::Load(seat, board),
    )
}

/// Installs the application's backend, replacing [`LocalClipboard`]. A
/// copy of the toolkit attached to a host does not own the clipboard:
/// there the call changes nothing.
pub fn install(link: &Link, seam: &mut Seam, b: Box<dyn ClipboardBackend>)
    ensures
        link.is_attached() ==> *final(seam) == *old(seam),
        !link.is_attached() ==> !final(seam).is_local() && final(seam).handed() == Seq::<Handed>::empty(),
{
    if link.is_host() {
        seam.installed = Installed::Backend(b, Ghost(Seq::empty()));
    }
}

/// Stores for the default seat: the desktop's whole world.
pub fn store(link: &Link, seam: &mut Seam, board: Board, text: &str)
    ensures
        link.is_attached() ==> *final(seam) == *old(seam),
        !link.is_attached() ==> store_post(*old(seam), *final(seam), Seat(0), board, text@),
{
    store_for(link, seam, Seat::default_seat(), board, text)
}

/// Loads for the default seat. A failed load is a no-op for the caller,
/// not an error.
pub fn load(link: &Link, seam: &mut Seam, board: Board) -> (r: Option<String>)
    ensures
        link.is_attached() ==> *final(seam) == *old(seam) && r is None,
        !link.is_attached() ==> load_post(*old(seam), *final(seam), Seat(0), board, text_of(r)),
{
    load_for(link, seam, Seat::default_seat(), board)
}

/// Stores `text` on `board` of `seat`, through whatever is installed. An
/// attached copy's call is dropped: the clipboard is the host's, asked
/// for through an action.
pub fn store_for(link: &Link, seam: &mut Seam, seat: Seat, board: Board, text: &str)
    ensures
        link.is_attached() ==> *final(seam) == *old(seam),
        !link.is_attached() ==> store_post(*old(seam), *final(seam), seat, board, text@),
{
    if !link.is_host() {
        return;
    }
    match &mut seam.installed {
        Installed::Local(l) => l.store(seat, board, text),
        Installed::Backend(b, log) => {
            b.store(seat, board, text);
            proof {
                log@ = log@.push(Handed::Store(seat, board, text@));
            }
        },
    }
}

/// Loads `board` of `seat`, through whatever is installed. An attached
/// copy never reads the host's clipboard directly: it answers None.
pub fn load_for(link: &Link, seam: &mut Seam, seat: Seat, board: Board) -> (r: Option<String>)
    ensures
        link.is_attached() ==> *final(seam) == *old(seam) && r is None,
        !link.is_attached() ==> load_post(*old(seam), *final(seam), seat, board, text_of(r)),
{
    if !link.is_host() {
        return None;
    }
    match &mut seam.installed {
        Installed::Local(l) => l.load(seat, board),
        Installed::Backend(b, log) => {
            let r = b.load(seat, board);
            proof {
                log@ = log@.push(Handed::Load(seat, board));
            }
            r
        },
    }
}

/// What was stored is what a later load on the same board answers, while
/// the local fallback answers.
pub proof fn law_a_load_answers_the_last_store(
    s0: Seam,
    s1: Seam,
    s2: Seam,
    seat: Seat,
    seat2: Seat,
    board: Board,
    text: Seq<char>,
    r: Option<Seq<char>>,
)
    requires
        s0.is_local(),
        store_post(s0, s1, seat, board, text),
        load_post(s1, s2, seat2, board, r),
    ensures
        r == Some(text),
{
}

/// The two boards are separate slots: storing on one leaves what the
/// other holds.
pub proof fn law_the_boards_are_separate(
    s0: Seam,
    s1: Seam,
    s2: Seam,
    s3: Seam,
    seat: Seat,
    board: Board,
    text: Seq<char>,
    other: Board,
    other_text: Seq<char>,
    r: Option<Seq<char>>,
)
    requires
        s0.is_local(),
        other != board,
        store_post(s0, s1, seat, board, text),
        store_post(s1, s2, seat, other, other_text),
        load_post(s2, s3, seat, board, r),
    ensures
        r == Some(text),
{
}

} // verus!
