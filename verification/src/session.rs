//! Interactive session driver: owns the candidate sequence and the query
//! buffer, classifies decoded input events, and recomputes the ranked
//! result from the full candidate sequence whenever the query changes.

use vstd::prelude::*;

use crate::rank::cand_views;
use crate::rank::min_int;
use crate::rank::num_matched;
use crate::rank::select_top_k;
use crate::rank::top_k_post;
use crate::score::query_matches;

verus! {

/// A decoded input event, as the session understands it: a printable
/// character, backspace, confirm, cancel, or anything else.
#[derive(Clone, Copy, Debug)]
pub enum InputEvent {
    Character(char),
    Backspace,
    Confirm,
    Cancel,
    Other,
}

/// What the driver should do after one event: recompute the ranked result,
/// do nothing, or end the session.
#[derive(Clone, Copy, Debug, PartialEq, Eq, Structural)]
pub enum Action {
    Rerank,
    Ignore,
    Terminate,
}

/// A condition a front end must surface to the user as a warning, leaving
/// all state unchanged.
#[derive(Clone, Copy, Debug, PartialEq, Eq, Structural)]
pub enum SessionWarning {
    /// A search was attempted before any root directory was chosen.
    NoRootChosen,
    /// A selection was confirmed outside the current result list.
    SelectionOutOfBounds,
}

/// Guard for starting a search: a root directory must have been chosen
/// first. An empty root choice is rejected, and no ranking is attempted.
pub fn check_root_chosen(root: &str) -> (r: Result<(), SessionWarning>)
    ensures
        r is Ok <==> root@.len() > 0,
        r is Err ==> r->Err_0 == SessionWarning::NoRootChosen,
{
    if root.is_empty() {
        Err(SessionWarning::NoRootChosen)
    } else {
        Ok(())
    }
}

/// Guard for confirming a selection: the chosen row must lie within the
/// current result list. An index outside it is rejected, and no side effect
/// (such as a clipboard write) may be performed.
pub fn check_selection(index: i64, len: usize) -> (r: Result<usize, SessionWarning>)
    ensures
        r is Ok <==> 0 <= index && (index as int) < (len as int),
        r is Ok ==> r->Ok_0 as int == index as int && r->Ok_0 < len,
        r is Err ==> r->Err_0 == SessionWarning::SelectionOutOfBounds,
{
    if 0 <= index && (index as u64) < (len as u64) {
        Ok(index as usize)
    } else {
        Err(SessionWarning::SelectionOutOfBounds)
    }
}

/// One interactive search session: the candidate sequence, fixed once
/// enumeration completed; the query typed so far; and whether an exit event
/// has arrived.
pub struct Session {
    pub candidates: Vec<String>,
    pub query: Vec<char>,
    pub done: bool,
}

/// Relies on `String::from_iter` (through `collect`): builds the string
/// holding exactly these characters, in order.
#[verifier::external_body]
fn string_from_chars(chars: &Vec<char>) -> (r: String)
    ensures
        r@ == chars@,
{
    chars.iter().collect()
}

impl Session {
    /// Start a session over a fixed candidate sequence, with an empty query.
    pub fn new(candidates: Vec<String>) -> (s: Session)
        ensures
            s.candidates@ == candidates@,
            s.query@.len() == 0,
            !s.done,
    {
        Session { candidates, query: Vec::new(), done: false }
    }

    /// Handle one decoded input event. A printable character is appended to
    /// the query and a backspace removes its last character, both asking for
    /// a new ranking; a backspace on an empty query changes nothing. Confirm
    /// and cancel end the session. Any other event is ignored. The candidate
    /// sequence never changes, and the query is only ever edited here.
    pub fn handle_event(&mut self, ev: InputEvent) -> (a: Action)
        requires
            !old(self).done,
        ensures
            final(self).candidates@ == old(self).candidates@,
            match ev {
                InputEvent::Character(c) => final(self).query@ == old(self).query@.push(c)
                    && !final(self).done && a == Action::Rerank,
                InputEvent::Backspace => !final(self).done && if old(self).query@.len() == 0 {
                    final(self).query@ == old(self).query@ && a == Action::Ignore
                } else {
                    final(self).query@ == old(self).query@.drop_last() && a == Action::Rerank
                },
                InputEvent::Confirm => final(self).done && final(self).query@ == old(
                    self,
                ).query@ && a == Action::Terminate,
                InputEvent::Cancel => final(self).done && final(self).query@ == old(self).query@
                    && a == Action::Terminate,
                InputEvent::Other => !final(self).done && final(self).query@ == old(self).query@
                    && a == Action::Ignore,
            },
    {
        match ev {
            InputEvent::Character(c) => {
                self.query.push(c);
                Action::Rerank
            },
            InputEvent::Backspace => {
                match self.query.pop() {
                    Some(_) => Action::Rerank,
                    None => Action::Ignore,
                }
            },
            InputEvent::Confirm => {
                self.done = true;
                Action::Terminate
            },
            InputEvent::Cancel => {
                self.done = true;
                Action::Terminate
            },
            InputEvent::Other => Action::Ignore,
        }
    }

    /// The query as a string, as the scorer reads it.
    pub fn query_string(&self) -> (r: String)
        ensures
            r@ == self.query@,
    {
        string_from_chars(&self.query)
    }

    /// Recompute the ranked result for the current query, from the full
    /// candidate sequence — never from a previous result.
    pub fn results(&self, k: usize) -> (r: Vec<String>)
        ensures
            top_k_post(self.candidates@, self.query@, k as int, r@),
            r@.len() == min_int(
                k as int,
                num_matched(cand_views(self.candidates@), self.query@, self.candidates@.len() as int),
            ),
            r@.len() <= k,
            forall|a: int| 0 <= a < r@.len() ==> query_matches((#[trigger] r@[a])@, self.query@),
            self.query@.len() == 0 ==> r@.len() == min_int(
                k as int,
                self.candidates@.len() as int,
            ),
    {
        let qs = self.query_string();
        select_top_k(&self.candidates, qs.as_str(), k)
    }
}

} // verus!
