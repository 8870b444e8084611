use finder::rank::select_top_k;
use finder::session::check_root_chosen;
use finder::session::check_selection;
use finder::session::Action;
use finder::session::InputEvent;
use finder::session::Session;
use finder::session::SessionWarning;

fn strings(v: &[&str]) -> Vec<String> {
    v.iter().map(|s| s.to_string()).collect()
}

#[test]
fn events_edit_the_query() {
    let mut s = Session::new(strings(&["a", "b"]));
    assert!(!s.done);
    assert_eq!(s.query_string(), "");
    assert_eq!(s.handle_event(InputEvent::Character('a')), Action::Rerank);
    assert_eq!(s.handle_event(InputEvent::Character('b')), Action::Rerank);
    assert_eq!(s.query_string(), "ab");
    assert_eq!(s.handle_event(InputEvent::Backspace), Action::Rerank);
    assert_eq!(s.query_string(), "a");
    assert_eq!(s.handle_event(InputEvent::Other), Action::Ignore);
    assert_eq!(s.query_string(), "a");
    assert_eq!(s.handle_event(InputEvent::Backspace), Action::Rerank);
    assert_eq!(s.handle_event(InputEvent::Backspace), Action::Ignore);
    assert_eq!(s.query_string(), "");
    assert!(!s.done);
}

#[test]
fn confirm_terminates_the_session() {
    let mut s = Session::new(strings(&["a"]));
    assert_eq!(s.handle_event(InputEvent::Confirm), Action::Terminate);
    assert!(s.done);
}

#[test]
fn cancel_terminates_the_session() {
    let mut s = Session::new(strings(&["a"]));
    assert_eq!(s.handle_event(InputEvent::Character('x')), Action::Rerank);
    assert_eq!(s.handle_event(InputEvent::Cancel), Action::Terminate);
    assert!(s.done);
    assert_eq!(s.query_string(), "x");
}

#[test]
fn progressive_edits_rank_from_the_full_set() {
    // The query grows one character at a time; each ranking is recomputed
    // from the full candidate sequence, never from the previous result.
    let all = strings(&["ra", "re", "rep", "xx"]);
    let mut s = Session::new(all.clone());
    for (ch, want_len) in [('r', 3usize), ('e', 2), ('p', 1)] {
        assert_eq!(s.handle_event(InputEvent::Character(ch)), Action::Rerank);
        let got = s.results(10);
        let fresh = select_top_k(&all, &s.query_string(), 10);
        assert_eq!(got, fresh);
        assert_eq!(got.len(), want_len);
    }
}

#[test]
fn root_must_be_chosen_before_searching() {
    assert_eq!(check_root_chosen(""), Err(SessionWarning::NoRootChosen));
    assert!(check_root_chosen("/some/root").is_ok());
}

#[test]
fn selection_must_lie_within_the_results() {
    assert_eq!(check_selection(-1, 3), Err(SessionWarning::SelectionOutOfBounds));
    assert_eq!(check_selection(3, 3), Err(SessionWarning::SelectionOutOfBounds));
    assert_eq!(check_selection(0, 3), Ok(0));
    assert_eq!(check_selection(2, 3), Ok(2));
    assert_eq!(check_selection(0, 0), Err(SessionWarning::SelectionOutOfBounds));
}
