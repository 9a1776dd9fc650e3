use nacelle::clipboard::{
    install, load, load_for, store, store_for, Board, ClipboardBackend, LocalClipboard, Seam,
    Seat,
};
use nacelle::runtime::{Link, ABI_VERSION};
use std::sync::mpsc::Sender;

/// A backend that reports what reached it, for the install test.
struct Recorder(Sender<(u32, bool, String)>);

impl ClipboardBackend for Recorder {
    fn store(&mut self, seat: Seat, board: Board, text: &str) {
        let _ = self.0.send((seat.0, board == Board::Primary, text.to_string()));
    }
    fn load(&mut self, _seat: Seat, _board: Board) -> Option<String> {
        Some("from the recorder".to_string())
    }
}

#[test]
fn the_seam_answers_locally_then_through_the_installed_backend() {
    let link = Link::new();
    let mut seam = Seam::new();
    // Phase 1: nothing installed — the Local fallback answers, and the
    // two boards are separate slots.
    store(&link, &mut seam, Board::Clipboard, "kept");
    store(&link, &mut seam, Board::Primary, "selected");
    assert_eq!(load(&link, &mut seam, Board::Clipboard).as_deref(), Some("kept"));
    assert_eq!(load(&link, &mut seam, Board::Primary).as_deref(), Some("selected"));

    // Phase 2: an installed backend replaces it, and the seat and board
    // survive the crossing.
    let (tx, rx) = std::sync::mpsc::channel();
    install(&link, &mut seam, Box::new(Recorder(tx)));
    store_for(&link, &mut seam, Seat(3), Board::Primary, "routed");
    assert_eq!(rx.recv().unwrap(), (3, true, "routed".to_string()));
    assert_eq!(load(&link, &mut seam, Board::Clipboard).as_deref(), Some("from the recorder"));
}

#[test]
fn mime_stubs_degrade_to_nothing() {
    let mut local = LocalClipboard::new();
    local.store_mime(Seat::default_seat(), Board::Clipboard, "text/uri-list", b"file:///x");
    assert!(local.load_mime(Seat::default_seat(), Board::Clipboard, "text/uri-list").is_none());
}

#[test]
fn a_fresh_clipboard_holds_nothing_and_keeps_the_last_store() {
    let link = Link::new();
    let mut seam = Seam::new();
    assert_eq!(load(&link, &mut seam, Board::Clipboard), None);
    store_for(&link, &mut seam, Seat(7), Board::Clipboard, "one");
    store_for(&link, &mut seam, Seat(7), Board::Clipboard, "two");
    assert_eq!(load_for(&link, &mut seam, Seat(0), Board::Clipboard).as_deref(), Some("two"));
    assert_eq!(load(&link, &mut seam, Board::Primary), None);
}

#[test]
fn an_attached_copy_never_reaches_the_clipboard() {
    let host = Link::new();
    let mut attached = Link::new();
    assert!(attached.attach(Some(ABI_VERSION)));
    let mut seam = Seam::new();
    store(&host, &mut seam, Board::Clipboard, "kept");
    store(&attached, &mut seam, Board::Clipboard, "dropped");
    assert_eq!(load(&attached, &mut seam, Board::Clipboard), None);
    assert_eq!(load(&host, &mut seam, Board::Clipboard).as_deref(), Some("kept"));
    let (tx, _rx) = std::sync::mpsc::channel();
    install(&attached, &mut seam, Box::new(Recorder(tx)));
    assert_eq!(load(&host, &mut seam, Board::Clipboard).as_deref(), Some("kept"));
}
