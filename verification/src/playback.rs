//! A playback session over one testimony.
//!
//! A session shows the statements one after the other. While a statement is
//! shown, evidence may be presented against it: a valid objection ends the
//! session at that statement, any other leaves it where it is. The session
//! also ends behind the last statement. The caller shows the statement and
//! asks for the next event; the steps here decide where the session goes.

use crate::dialogue::{objects_to, TestimonyData, TestimonyModel};
use crate::evidence::{Evidence, EvidenceModel};
use vstd::prelude::*;

verus! {

/// Where a playback session stands.
#[derive(Debug, PartialEq, Eq)]
pub enum PlaybackState {
    /// The statement at this position is being shown.
    Presenting(usize),
    /// Every statement has been shown.
    Concluded,
    /// The evidence with this alias was accepted as an objection to the
    /// statement at this position.
    ObjectionAccepted(usize, String),
}

/// The mathematical value of a [`PlaybackState`].
pub enum PlaybackModel {
    Presenting(int),
    Concluded,
    ObjectionAccepted(int, Seq<char>),
}

impl View for PlaybackState {
    type V = PlaybackModel;

    open spec fn view(&self) -> PlaybackModel {
        match *self {
            PlaybackState::Presenting(index) => PlaybackModel::Presenting(index as int),
            PlaybackState::Concluded => PlaybackModel::Concluded,
            PlaybackState::ObjectionAccepted(index, alias) => PlaybackModel::ObjectionAccepted(
                index as int,
                alias@,
            ),
        }
    }
}

/// Whether a session in `state` has ended.
pub open spec fn is_terminal(state: PlaybackModel) -> bool {
    !(state is Presenting)
}

/// The state in which a session over `testimony` begins: at the first
/// statement, or at its end where the testimony has none.
pub open spec fn initial_state(testimony: TestimonyModel) -> PlaybackModel {
    if testimony.statements.len() > 0 {
        PlaybackModel::Presenting(0)
    } else {
        PlaybackModel::Concluded
    }
}

/// The state behind `state` when the session moves on: the next statement,
/// or the end behind the last one. A session that has ended stays as it is.
pub open spec fn advanced(testimony: TestimonyModel, state: PlaybackModel) -> PlaybackModel {
    match state {
        PlaybackModel::Presenting(index) => if index + 1 < testimony.statements.len() {
            PlaybackModel::Presenting(index + 1)
        } else {
            PlaybackModel::Concluded
        },
        _ => state,
    }
}

/// The state behind `state` when `evidence` is presented: accepted where it
/// is a valid objection to the statement being shown, unchanged where it is
/// not or where the session has ended.
pub open spec fn objected(
    testimony: TestimonyModel,
    state: PlaybackModel,
    evidence: EvidenceModel,
) -> PlaybackModel {
    match state {
        PlaybackModel::Presenting(index) => if 0 <= index < testimony.statements.len()
            && objects_to(evidence, testimony.statements[index]) {
            PlaybackModel::ObjectionAccepted(index, evidence.alias)
        } else {
            state
        },
        _ => state,
    }
}

/// The state of a session over `testimony` after `steps` moves from its
/// beginning, with no objection made.
pub open spec fn advanced_by(testimony: TestimonyModel, steps: nat) -> PlaybackModel
    decreases steps,
{
    if steps == 0 {
        initial_state(testimony)
    } else {
        advanced(testimony, advanced_by(testimony, (steps - 1) as nat))
    }
}

/// Playback shows every statement once, in order: after `steps` moves the
/// session shows the statement at position `steps`, and from the length of
/// the testimony on it has concluded.
pub proof fn lemma_playback_visits_in_order(testimony: TestimonyModel, steps: nat)
    ensures
        advanced_by(testimony, steps) == if steps < testimony.statements.len() {
            PlaybackModel::Presenting(steps as int)
        } else {
            PlaybackModel::Concluded
        },
    decreases steps,
{
    if steps > 0 {
        lemma_playback_visits_in_order(testimony, (steps - 1) as nat);
    }
}

/// A session that has ended stays as it is, whatever happens.
pub proof fn lemma_terminal_states_stay(
    testimony: TestimonyModel,
    state: PlaybackModel,
    evidence: EvidenceModel,
)
    requires
        is_terminal(state),
    ensures
        advanced(testimony, state) == state,
        objected(testimony, state, evidence) == state,
{
}

/// Begins a session over `testimony`.
pub fn begin(testimony: &TestimonyData) -> (state: PlaybackState)
    ensures
        state@ == initial_state(testimony@),
{
    if testimony.length() > 0 {
        PlaybackState::Presenting(0)
    } else {
        PlaybackState::Concluded
    }
}

/// Moves the session on to the next statement, or to its end.
pub fn advance(testimony: &TestimonyData, state: PlaybackState) -> (next: PlaybackState)
    ensures
        next@ == advanced(testimony@, state@),
{
    match state {
        PlaybackState::Presenting(index) => {
            let length = testimony.length();
            if length > 0 && index < length - 1 {
                PlaybackState::Presenting(index + 1)
            } else {
                PlaybackState::Concluded
            }
        },
        other => other,
    }
}

/// Presents `evidence` against the statement being shown.
pub fn object(testimony: &TestimonyData, state: PlaybackState, evidence: &Evidence) -> (next:
    PlaybackState)
    ensures
        next@ == objected(testimony@, state@, evidence@),
{
    match state {
        PlaybackState::Presenting(index) => {
            if testimony.check_objection(index, evidence) {
                PlaybackState::ObjectionAccepted(index, evidence.get_alias().to_owned())
            } else {
                PlaybackState::Presenting(index)
            }
        },
        other => other,
    }
}

} // verus!
