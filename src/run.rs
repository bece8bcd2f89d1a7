//! The decisions of a run: fetch the records, then write the Markdown section and the JSON
//! file independently of each other, then finish with the outcome of both.
//!
//! The caller performs each action and reports what came of it as the next event.
use vstd::prelude::*;

use crate::error::AppError;
use crate::format::{join_newline, list_lines, markdown_list};
use crate::marker::{trim_spec, CommentBlock};
use crate::model::{list_items, projects, Config, GitRepo, DB};

verus! {

/// Where a run stands.
#[derive(Debug, Clone, Copy, PartialEq, Eq, Structural)]
pub enum RunState {
    /// Waiting for the repository records.
    Fetching,
    /// Both outputs are being written.
    Dispatching,
    /// Both outputs were written.
    Done,
    /// The run stopped on an error.
    Failed,
}

/// What the caller reports to a run.
#[derive(Debug)]
pub enum RunEvent {
    /// The repository records were fetched.
    Fetched(Vec<GitRepo>),
    /// Fetching the records failed.
    FetchFailed(AppError),
    /// Both writes finished: the outcome of the Markdown update, then of the JSON write.
    Joined(Result<(), AppError>, Result<(), AppError>),
}

/// What the caller is to do next.
#[derive(Debug)]
pub enum RunAction {
    /// Write both outputs, neither waiting for the other: replace the body of `section` in
    /// the Markdown file with `markdown_body`, and write the fetched records as JSON.
    Dispatch { markdown_body: String, section: CommentBlock },
    /// Stop with this outcome.
    Finish(Result<(), AppError>),
}

/// A run: its configuration, its records, and where it stands.
#[derive(Debug)]
pub struct App {
    pub config: Config,
    pub db: DB,
    pub state: RunState,
}

impl App {
    /// A run that is about to fetch the records.
    pub fn new(config: Config) -> (r: Self)
        ensures
            r.config == config,
            r.db.data is None,
            r.db.repo_list is None,
            r.state == RunState::Fetching,
    {
        App { config, db: DB::new(), state: RunState::Fetching }
    }

    /// The fetched records, or [`AppError::UnwrapError`] before any were fetched.
    pub fn records(&self) -> (r: Result<&Vec<GitRepo>, AppError>)
        ensures
            self.db.data matches Some(d) ==> r == Ok::<&Vec<GitRepo>, AppError>(&d),
            self.db.data is None ==> r matches Err(AppError::UnwrapError(_)),
    {
        match &self.db.data {
            Some(d) => Ok(d),
            None => Err(AppError::UnwrapError(String::from_str("no records were fetched"))),
        }
    }

    /// Takes the run one step further on `event`.
    ///
    /// Fetched records are stored with their list items, and both writes are dispatched
    /// together; a failed fetch ends the run before anything is written. Once both writes are
    /// joined the run is done, or failed with the Markdown error if that write failed, else
    /// with the JSON error. Nothing undoes a write that succeeded. An event that does not fit
    /// the state fails the run with [`AppError::LogicBug`].
    pub fn step(&mut self, event: RunEvent) -> (r: RunAction)
        ensures
            final(self).config == old(self).config,
            match (old(self).state, event) {
                (RunState::Fetching, RunEvent::Fetched(records)) => {
                    &&& final(self).state == RunState::Dispatching
                    &&& final(self).db.data == Some(records)
                    &&& match (final(self).db.repo_list, r) {
                        (Some(items), RunAction::Dispatch { markdown_body, section }) => {
                            &&& projects(items@, records@)
                            &&& markdown_body@ == join_newline(list_lines(items@))
                            &&& section@ == trim_spec(old(self).config.section_tag@)
                        },
                        _ => false,
                    }
                },
                (RunState::Fetching, RunEvent::FetchFailed(e)) => {
                    &&& final(self).state == RunState::Failed
                    &&& final(self).db == old(self).db
                    &&& r == RunAction::Finish(Err(e))
                },
                (RunState::Dispatching, RunEvent::Joined(md, json)) => {
                    &&& final(self).db == old(self).db
                    &&& match (md, json) {
                        (Ok(_), Ok(_)) => final(self).state == RunState::Done && r
                            == RunAction::Finish(Ok(())),
                        (Err(e), _) => final(self).state == RunState::Failed && r
                            == RunAction::Finish(Err(e)),
                        (Ok(_), Err(e)) => final(self).state == RunState::Failed && r
                            == RunAction::Finish(Err(e)),
                    }
                },
                _ => {
                    &&& final(self).state == RunState::Failed
                    &&& final(self).db == old(self).db
                    &&& r matches RunAction::Finish(Err(AppError::LogicBug(_)))
                },
            },
    {
        match (self.state, event) {
            (RunState::Fetching, RunEvent::Fetched(records)) => {
                let items = list_items(&records);
                let markdown_body = markdown_list(&items);
                let section = CommentBlock::new(self.config.section_tag.clone());
                self.db = DB { data: Some(records), repo_list: Some(items) };
                self.state = RunState::Dispatching;
                RunAction::Dispatch { markdown_body, section }
            },
            (RunState::Fetching, RunEvent::FetchFailed(e)) => {
                self.state = RunState::Failed;
                RunAction::Finish(Err(e))
            },
            (RunState::Dispatching, RunEvent::Joined(md, json)) => {
                match (md, json) {
                    (Ok(_), Ok(_)) => {
                        self.state = RunState::Done;
                        RunAction::Finish(Ok(()))
                    },
                    (Err(e), _) => {
                        self.state = RunState::Failed;
                        RunAction::Finish(Err(e))
                    },
                    (Ok(_), Err(e)) => {
                        self.state = RunState::Failed;
                        RunAction::Finish(Err(e))
                    },
                }
            },
            _ => {
                self.state = RunState::Failed;
                RunAction::Finish(
                    Err(AppError::LogicBug(String::from_str("the event does not fit the run's state"))),
                )
            },
        }
    }
}

} // verus!
