use courtroom::dialogue::{Statement, TestimonyData};
use courtroom::evidence::Evidence;
use courtroom::playback::{advance, begin, object, PlaybackState};

fn piece(fullname: &str, alias: &str) -> Evidence {
    Evidence::new(fullname.to_string(), alias.to_string(), String::new(), 0)
}

fn testimony() -> TestimonyData {
    TestimonyData::new(
        "The Night of the Crime".to_string(),
        "Joe Doe".to_string(),
        "night".to_string(),
        vec![
            Statement::new("I was at home all night.".to_string(), None),
            Statement::new("The culprit used the ![Revolver].".to_string(), Some("rev".to_string())),
            Statement::new("That is all.".to_string(), None),
        ],
    )
}

#[test]
fn playback_begins_at_the_first_statement() {
    assert_eq!(begin(&testimony()), PlaybackState::Presenting(0));
}

#[test]
fn playback_of_empty_testimony_concludes_at_once() {
    let empty = TestimonyData::new(String::new(), String::new(), String::new(), Vec::new());
    assert_eq!(begin(&empty), PlaybackState::Concluded);
}

#[test]
fn playback_visits_every_statement_in_order() {
    let testimony = testimony();
    let mut state = begin(&testimony);
    let mut visited = Vec::new();
    while let PlaybackState::Presenting(index) = state {
        visited.push(index);
        state = advance(&testimony, PlaybackState::Presenting(index));
    }
    assert_eq!(visited, vec![0, 1, 2]);
    assert_eq!(state, PlaybackState::Concluded);
}

#[test]
fn advance_behind_the_last_statement_concludes() {
    let testimony = testimony();
    assert_eq!(advance(&testimony, PlaybackState::Presenting(1)), PlaybackState::Presenting(2));
    assert_eq!(advance(&testimony, PlaybackState::Presenting(2)), PlaybackState::Concluded);
    assert_eq!(advance(&testimony, PlaybackState::Presenting(usize::MAX)), PlaybackState::Concluded);
}

#[test]
fn valid_objection_is_accepted() {
    let testimony = testimony();
    let state = object(&testimony, PlaybackState::Presenting(1), &piece("Revolver", "rev"));
    assert_eq!(state, PlaybackState::ObjectionAccepted(1, "rev".to_string()));
}

#[test]
fn mismatched_objection_leaves_the_state() {
    let testimony = testimony();
    let knife = piece("Knife", "knife");
    assert_eq!(object(&testimony, PlaybackState::Presenting(1), &knife), PlaybackState::Presenting(1));
    let revolver = piece("Revolver", "rev");
    assert_eq!(object(&testimony, PlaybackState::Presenting(0), &revolver), PlaybackState::Presenting(0));
    assert_eq!(object(&testimony, PlaybackState::Presenting(7), &revolver), PlaybackState::Presenting(7));
}

#[test]
fn ended_playback_stays_ended() {
    let testimony = testimony();
    let revolver = piece("Revolver", "rev");
    assert_eq!(advance(&testimony, PlaybackState::Concluded), PlaybackState::Concluded);
    assert_eq!(object(&testimony, PlaybackState::Concluded, &revolver), PlaybackState::Concluded);
    assert_eq!(
        advance(&testimony, PlaybackState::ObjectionAccepted(1, "rev".to_string())),
        PlaybackState::ObjectionAccepted(1, "rev".to_string())
    );
    assert_eq!(
        object(&testimony, PlaybackState::ObjectionAccepted(1, "rev".to_string()), &piece("Knife", "knife")),
        PlaybackState::ObjectionAccepted(1, "rev".to_string())
    );
}
