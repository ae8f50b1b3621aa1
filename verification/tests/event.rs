use cantucci::event::{KeySwitcher, SwitchStep};
use cantucci::event::{handle_with, EventResponse, InputEvent, QuitHandler, ResponseCombiner};
use cantucci::event::EventResponse::{Break, Continue, NotHandled, Quit};

#[test]
fn quit_handler_answers() {
    let mut q = QuitHandler;
    assert_eq!(q.handle_event(&InputEvent::CloseRequested), Quit);
    assert_eq!(q.handle_event(&InputEvent::Destroyed), Quit);
    assert_eq!(q.handle_event(&InputEvent::KeyboardInput { escape: true }), Quit);
    assert_eq!(q.handle_event(&InputEvent::KeyboardInput { escape: false }), NotHandled);
    assert_eq!(q.handle_event(&InputEvent::Other), NotHandled);
}

#[test]
fn combining_responses() {
    assert_eq!(handle_with(&[]), (NotHandled, 0));
    assert_eq!(handle_with(&[NotHandled, NotHandled]), (NotHandled, 2));
    assert_eq!(handle_with(&[NotHandled, Continue, NotHandled]), (Continue, 3));
    assert_eq!(handle_with(&[Break, Quit]), (Continue, 1));
    assert_eq!(handle_with(&[Continue, Quit, Break]), (Quit, 2));
    assert_eq!(handle_with(&[NotHandled, Break]), (Continue, 2));
}

#[test]
fn combiner_step_by_step() {
    let mut c = ResponseCombiner::new();
    assert_eq!(c.feed(NotHandled), None);
    assert_eq!(c.finish(), NotHandled);
    assert_eq!(c.feed(Continue), None);
    assert_eq!(c.finish(), Continue);
    assert_eq!(c.feed(Quit), Some(Quit));
    let mut c = ResponseCombiner::new();
    assert_eq!(c.feed(Break), Some(Continue));
}

#[test]
fn key_switcher_switches_on_key() {
    let mut k = KeySwitcher::new("orbit", "fly");
    assert!(k.first_active);
    assert_eq!(k.handle_event(false), SwitchStep::ForwardToFirst);
    assert_eq!(k.handle_event(true), SwitchStep::Switched { to_first: false });
    assert!(!k.first_active);
    assert_eq!(k.handle_event(false), SwitchStep::ForwardToSecond);
    assert_eq!(k.handle_event(true), SwitchStep::Switched { to_first: true });
    assert!(k.first_active);
    assert_eq!((k.first, k.second), ("orbit", "fly"));
}
