//! Testimony: the statements a character makes, shown one after the other
//! and open to objection.

use crate::evidence::{Evidence, EvidenceModel};
use crate::markup::{markup_spans, parse_markup, plain_text, segments_of};
use crate::render::{
    escape_free, is_rendering, lemma_round_trip, lemma_strip_statement, render_segments,
    strip_styling,
};
use vstd::prelude::*;

verus! {

/// The mathematical value of a [`Statement`].
pub struct StatementModel {
    pub text: Seq<char>,
    pub objection: Option<Seq<char>>,
}

/// One line of testimony. Its text may hold emphasis markup; its objection,
/// where it has one, names the piece of evidence that contradicts it, by
/// alias or by full name.
#[derive(Debug)]
pub struct Statement {
    text: String,
    objection: Option<String>,
}

impl View for Statement {
    type V = StatementModel;

    closed spec fn view(&self) -> StatementModel {
        StatementModel {
            text: self.text@,
            objection: match self.objection {
                Some(name) => Some(name@),
                None => None,
            },
        }
    }
}

/// Whether presenting `evidence` is a valid objection to `statement`: the
/// statement names a piece of evidence, and the name is the alias or the
/// full name of `evidence`. Nothing objects to a statement that names none.
pub open spec fn objects_to(evidence: EvidenceModel, statement: StatementModel) -> bool {
    match statement.objection {
        Some(name) => name == evidence.alias || name == evidence.fullname,
        None => false,
    }
}

impl Statement {
    /// Builds a statement from its text and the name of the evidence that
    /// contradicts it, if any.
    pub fn new(text: String, objection: Option<String>) -> (statement: Statement)
        ensures
            statement@ == (StatementModel {
                text: text@,
                objection: match objection {
                    Some(name) => Some(name@),
                    None => None,
                },
            }),
    {
        Statement { text, objection }
    }

    /// The text of the statement, markup included.
    pub fn get_text(&self) -> (text: &str)
        ensures
            text@ == self@.text,
    {
        self.text.as_str()
    }

    /// The name of the evidence that contradicts the statement, if any.
    pub fn get_objection(&self) -> (objection: Option<&str>)
        ensures
            match objection {
                Some(name) => self@.objection == Some(name@),
                None => self@.objection is None,
            },
    {
        match &self.objection {
            Some(name) => Some(name.as_str()),
            None => None,
        }
    }

    /// The statement as it is shown: its text split at the emphasis markup,
    /// every segment styled by itself, the pieces joined in order.
    ///
    /// Stripping the styling from the result gives the text without its
    /// markup characters, where the text holds no escape character; and the
    /// text itself, where it holds no markup and no styling of its own.
    pub fn format_text(&self) -> (out: String)
        ensures
            is_rendering(out@, segments_of(self@.text)),
            escape_free(self@.text) ==> strip_styling(out@) == plain_text(segments_of(self@.text)),
            markup_spans(self@.text).len() == 0 && strip_styling(self@.text) == self@.text
                ==> strip_styling(out@) == self@.text,
    {
        let segments = parse_markup(self.text.as_str());
        let out = render_segments(&segments);
        proof {
            if escape_free(self@.text) {
                lemma_strip_statement(self@.text, out@);
            }
            if markup_spans(self@.text).len() == 0 && strip_styling(self@.text) == self@.text {
                lemma_round_trip(self@.text, out@);
            }
        }
        out
    }

    /// Whether presenting `evidence` is a valid objection to the statement.
    pub fn accepts_objection(&self, evidence: &Evidence) -> (accepted: bool)
        ensures
            accepted == objects_to(evidence@, self@),
    {
        match &self.objection {
            Some(name) => evidence.is_named(name.as_str()),
            None => false,
        }
    }
}

/// The statements that a vector of [`Statement`] stands for.
pub open spec fn statement_models(statements: Seq<Statement>) -> Seq<StatementModel> {
    statements.map_values(|s: Statement| s@)
}

/// The mathematical value of a [`TestimonyData`].
pub struct TestimonyModel {
    pub title: Seq<char>,
    pub character: Seq<char>,
    pub alias: Seq<char>,
    pub statements: Seq<StatementModel>,
}

/// A testimony: its title, the character who gives it, its alias, and the
/// statements in the order in which they are made.
#[derive(Debug)]
pub struct TestimonyData {
    title: String,
    character: String,
    alias: String,
    statements: Vec<Statement>,
}

impl View for TestimonyData {
    type V = TestimonyModel;

    closed spec fn view(&self) -> TestimonyModel {
        TestimonyModel {
            title: self.title@,
            character: self.character@,
            alias: self.alias@,
            statements: statement_models(self.statements@),
        }
    }
}

impl TestimonyData {
    /// Builds a testimony from its attributes and statements.
    pub fn new(title: String, character: String, alias: String, statements: Vec<Statement>) -> (
        testimony: TestimonyData
    )
        ensures
            testimony@ == (TestimonyModel {
                title: title@,
                character: character@,
                alias: alias@,
                statements: statement_models(statements@),
            }),
    {
        TestimonyData { title, character, alias, statements }
    }

    /// The title of the testimony.
    pub fn get_title(&self) -> (title: &str)
        ensures
            title@ == self@.title,
    {
        self.title.as_str()
    }

    /// The display name of the character who gives the testimony.
    pub fn get_character(&self) -> (character: &str)
        ensures
            character@ == self@.character,
    {
        self.character.as_str()
    }

    /// The short name of the testimony.
    pub fn get_alias(&self) -> (alias: &str)
        ensures
            alias@ == self@.alias,
    {
        self.alias.as_str()
    }

    /// The statements, in the order in which they are made.
    pub fn get_statements(&self) -> (statements: &Vec<Statement>)
        ensures
            statement_models(statements@) == self@.statements,
    {
        &self.statements
    }

    /// The statement at `index`, or `None` where the testimony has no such
    /// statement.
    pub fn get_statement(&self, index: usize) -> (statement: Option<&Statement>)
        ensures
            match statement {
                Some(s) => index < self@.statements.len() && s@ == self@.statements[index as int],
                None => index >= self@.statements.len(),
            },
    {
        if index < self.statements.len() {
            Some(&self.statements[index])
        } else {
            None
        }
    }

    /// Number of statements.
    pub fn length(&self) -> (length: usize)
        ensures
            length == self@.statements.len(),
    {
        self.statements.len()
    }

    /// Whether presenting `evidence` at the statement at `statement_index` is
    /// a valid objection. It is not where the testimony has no such
    /// statement.
    pub fn check_objection(&self, statement_index: usize, evidence: &Evidence) -> (accepted: bool)
        ensures
            accepted == (statement_index < self@.statements.len() && objects_to(
                evidence@,
                self@.statements[statement_index as int],
            )),
    {
        match self.get_statement(statement_index) {
            Some(statement) => statement.accepts_objection(evidence),
            None => false,
        }
    }

    /// The statements as they are shown, one string each, in the order in
    /// which they are made. None is left out and none moved.
    pub fn play(&self) -> (lines: Vec<String>)
        ensures
            lines@.len() == self@.statements.len(),
            forall|i: int|
                0 <= i < lines@.len() ==> is_rendering(
                    (#[trigger] lines@[i])@,
                    segments_of(self@.statements[i].text),
                ),
    {
        let mut lines: Vec<String> = Vec::new();
        let mut i: usize = 0;
        while i < self.statements.len()
            invariant
                i <= self.statements.len(),
                lines@.len() == i,
                forall|j: int|
                    0 <= j < i ==> is_rendering(
                        (#[trigger] lines@[j])@,
                        segments_of(self@.statements[j].text),
                    ),
            decreases self.statements.len() - i,
        {
            let line = self.statements[i].format_text();
            lines.push(line);
            i += 1;
        }
        lines
    }
}

} // verus!
