use nacelle::object::tooltip::{cell_key, decide, Armed};

const DELAY: f32 = 600.0;
const LINGER: f32 = 120.0;

type Rect = (f32, f32, f32, f32);

fn anchor() -> Rect {
    (10.0, 10.0, 100.0, 20.0)
}

/// The frame clock around the library's decision, as a program keeps it.
struct Tips {
    armed: Option<(Armed, f64)>,
    pending: Option<(u64, Rect, String, f64)>,
    last_shown: Option<f64>,
}

impl Tips {
    fn new() -> Tips {
        Tips { armed: None, pending: None, last_shown: None }
    }

    fn request(&mut self, id: u64, a: Rect, text: &str, t: f64) {
        if !text.is_empty() {
            self.pending = Some((id, a, text.to_string(), t));
        }
    }

    fn clear(&mut self) {
        self.armed = None;
        self.pending = None;
        self.last_shown = None;
    }

    fn step(&mut self, now: f64, delay_ms: f32, linger_ms: f32) -> Option<(Rect, String)> {
        let p = self.pending.take();
        let recent = self.last_shown.is_some_and(|t0| (now - t0) * 1000.0 <= linger_ms as f64);
        let waited = |since: f64| (now - since) * 1000.0 >= delay_ms as f64;
        let d = decide(
            self.armed.map(|(a, _)| a),
            p.as_ref().map(|p| p.0),
            recent,
            p.as_ref().is_some_and(|p| waited(p.3)),
            self.armed.is_some_and(|(_, since)| waited(since)),
        );
        self.armed = match d.armed {
            Some(a) if d.fresh => p.as_ref().map(|p| (a, p.3)),
            Some(a) => self.armed.map(|(_, since)| (a, since)),
            None => None,
        };
        if !d.show {
            return None;
        }
        self.last_shown = Some(now);
        p.map(|p| (p.1, p.2))
    }
}

/// One frame: file a request (or not) and take the decision.
fn frame(tips: &mut Tips, now: f64, req: Option<(u64, &str)>) -> Option<(Rect, String)> {
    if let Some((id, text)) = req {
        tips.request(id, anchor(), text, now);
    }
    tips.step(now, DELAY, LINGER)
}

#[test]
fn nothing_shows_before_the_delay_has_elapsed() {
    let mut tips = Tips::new();
    assert!(frame(&mut tips, 0.0, Some((1, "CPU"))).is_none());
    assert!(frame(&mut tips, 0.3, Some((1, "CPU"))).is_none());
    let out = frame(&mut tips, 0.6, Some((1, "CPU"))).expect("due at the delay");
    assert_eq!(out.1, "CPU");
    assert_eq!(out.0, (10.0, 10.0, 100.0, 20.0));
}

#[test]
fn leaving_the_anchor_disarms_and_the_next_rest_pays_again() {
    let mut tips = Tips::new();
    frame(&mut tips, 0.0, Some((1, "CPU")));
    assert!(frame(&mut tips, 0.4, None).is_none());
    assert!(frame(&mut tips, 2.0, None).is_none());
    assert!(frame(&mut tips, 2.1, Some((1, "CPU"))).is_none());
    assert!(frame(&mut tips, 2.6, Some((1, "CPU"))).is_none());
    assert!(frame(&mut tips, 2.71, Some((1, "CPU"))).is_some());
}

#[test]
fn a_new_target_restarts_the_delay_when_nothing_was_shown() {
    let mut tips = Tips::new();
    frame(&mut tips, 0.0, Some((1, "CPU")));
    frame(&mut tips, 0.5, Some((1, "CPU")));
    assert!(frame(&mut tips, 0.5, Some((2, "RAM"))).is_none());
    assert!(frame(&mut tips, 1.0, Some((2, "RAM"))).is_none());
    assert!(frame(&mut tips, 1.11, Some((2, "RAM"))).is_some());
}

#[test]
fn a_neighbour_reached_within_the_grace_window_shows_at_once() {
    let mut tips = Tips::new();
    frame(&mut tips, 0.0, Some((1, "CPU")));
    assert!(frame(&mut tips, 0.6, Some((1, "CPU"))).is_some());
    let out = frame(&mut tips, 0.7, Some((2, "RAM"))).expect("within linger");
    assert_eq!(out.1, "RAM");
}

#[test]
fn past_the_grace_window_the_neighbour_waits_like_the_first() {
    let mut tips = Tips::new();
    frame(&mut tips, 0.0, Some((1, "CPU")));
    assert!(frame(&mut tips, 0.6, Some((1, "CPU"))).is_some());
    assert!(frame(&mut tips, 0.8, None).is_none());
    assert!(frame(&mut tips, 0.9, Some((2, "RAM"))).is_none());
    assert!(frame(&mut tips, 1.51, Some((2, "RAM"))).is_some());
}

#[test]
fn clear_forgets_the_grace_window_too() {
    let mut tips = Tips::new();
    frame(&mut tips, 0.0, Some((1, "CPU")));
    assert!(frame(&mut tips, 0.6, Some((1, "CPU"))).is_some());
    tips.clear();
    assert!(frame(&mut tips, 0.65, Some((2, "RAM"))).is_none());
}

#[test]
fn empty_text_is_not_a_request() {
    let mut tips = Tips::new();
    assert!(frame(&mut tips, 0.0, Some((1, ""))).is_none());
    assert!(tips.armed.is_none());
}

#[test]
fn the_last_request_of_a_frame_wins() {
    let mut tips = Tips::new();
    tips.request(1, anchor(), "UNDER", 0.0);
    tips.request(2, (0.0, 0.0, 5.0, 5.0), "OVER", 0.0);
    assert!(tips.step(0.0, DELAY, LINGER).is_none());
    tips.request(2, (0.0, 0.0, 5.0, 5.0), "OVER", 0.0);
    let out = tips.step(0.6, DELAY, LINGER).expect("due");
    assert_eq!(out.1, "OVER");
}

#[test]
fn a_target_that_keeps_its_identity_says_its_new_words_without_waiting_again() {
    let mut tips = Tips::new();
    let cell = cell_key(1, 2, "1471");
    assert!(frame(&mut tips, 0.0, Some((cell, "12.4 MB"))).is_none());
    let out = frame(&mut tips, 0.6, Some((cell, "12.9 MB"))).expect("due at the delay");
    assert_eq!(out.1, "12.9 MB");
    let next = cell_key(1, 2, "1472");
    let out = frame(&mut tips, 0.65, Some((next, "907 kB"))).expect("within linger");
    assert_eq!(out.1, "907 kB");
}

#[test]
fn the_decision_disarms_when_nothing_is_requested() {
    let a = Armed { id: 7, instant: false };
    let d = decide(Some(a), None, true, true, true);
    assert_eq!(d.armed, None);
    assert!(!d.show);
    let d = decide(Some(a), Some(7), true, false, false);
    assert_eq!(d.armed, Some(a));
    assert!(!d.fresh && !d.show);
}
