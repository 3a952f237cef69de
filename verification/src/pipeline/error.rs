use vstd::prelude::*;

use crate::pipeline::stage::{Stage, stage_name};

verus! {

#[verifier::external_type_specification]
#[verifier::external_body]
pub struct ExAnyhowError(anyhow::Error);

/// The cause's own message through anyhow's `Display` for `anyhow::Error`;
/// what it says is the cause's business and is not stated.
#[verifier::external_body]
fn cause_text(cause: &anyhow::Error) -> (text: String) {
    format!("{cause}")
}

/// The cause with its whole chain of causes, through anyhow's alternate
/// `Display` for `anyhow::Error` (`{:#}`); what it says is the causes'
/// business and is not stated.
#[verifier::external_body]
fn cause_chain_text(cause: &anyhow::Error) -> (text: String) {
    format!("{cause:#}")
}

/// What went wrong in a pipeline run.
#[derive(Clone, Copy, Debug, PartialEq, Eq, Structural)]
pub enum ErrorKind {
    InvalidInput,
    ModelLoad,
    Processing,
    Commit,
    InvalidOutput,
}

/// A failed pipeline run: the kind of failure, the stage it happened in (if
/// any), and the underlying cause.
#[derive(Debug)]
pub struct PipelineError {
    pub stage: Option<Stage>,
    pub kind: ErrorKind,
    source: anyhow::Error,
}

impl PipelineError {
    /// The kind of failure.
    pub closed spec fn kind_of(&self) -> ErrorKind {
        self.kind
    }

    /// The stage the failure happened in, if any.
    pub closed spec fn stage_of(&self) -> Option<Stage> {
        self.stage
    }

    /// The underlying cause.
    pub closed spec fn cause(&self) -> anyhow::Error {
        self.source
    }

    /// An error of `kind` in `stage` caused by `source`.
    pub fn new(kind: ErrorKind, stage: Option<Stage>, source: anyhow::Error) -> (error: Self)
        ensures
            error.kind_of() == kind,
            error.stage_of() == stage,
            error.cause() == source,
    {
        PipelineError { stage, kind, source }
    }

    /// The opening of the error's message: which stage failed, if known.
    pub open spec fn message_head(stage: Option<Stage>) -> Seq<char> {
        match stage {
            Some(stage) => "pipeline "@ + stage_name(stage) + " failed: "@,
            None => "pipeline failed: "@,
        }
    }

    /// The error's message: `pipeline <stage> failed: <cause>`, or
    /// `pipeline failed: <cause>` without a stage, where the cause's text is
    /// whatever its `Display` writes.
    pub fn message(&self) -> (text: String)
        ensures
            text@.len() >= Self::message_head(self.stage_of()).len(),
            text@.take(Self::message_head(self.stage_of()).len() as int) == Self::message_head(self.stage_of()),
    {
        let cause = cause_text(&self.source);
        let text = Self::compose_message(self.stage, cause.as_str());
        proof {
            assert(text@.take(Self::message_head(self.stage_of()).len() as int) =~= Self::message_head(
                self.stage_of(),
            ));
        }
        text
    }

    /// The error's message with the cause's whole chain, as the alternate
    /// form `{:#}` writes it: `pipeline <stage> failed: <causes>`, or
    /// `pipeline failed: <causes>` without a stage.
    pub fn chain_message(&self) -> (text: String)
        ensures
            text@.len() >= Self::message_head(self.stage_of()).len(),
            text@.take(Self::message_head(self.stage_of()).len() as int) == Self::message_head(self.stage_of()),
    {
        let causes = cause_chain_text(&self.source);
        let text = Self::compose_message(self.stage, causes.as_str());
        proof {
            assert(text@.take(Self::message_head(self.stage_of()).len() as int) =~= Self::message_head(
                self.stage_of(),
            ));
        }
        text
    }

    /// The message of an error in `stage` whose cause reads `cause`: the
    /// opening for the stage followed by the cause's text.
    pub fn compose_message(stage: Option<Stage>, cause: &str) -> (text: String)
        ensures
            text@ == Self::message_head(stage) + cause@,
    {
        let mut text = match stage {
            Some(stage) => {
                let mut head = String::from_str("pipeline ");
                head.append(stage.name());
                head.append(" failed: ");
                head
            },
            None => String::from_str("pipeline failed: "),
        };
        proof {
            assert(text@ =~= Self::message_head(stage));
        }
        text.append(cause);
        text
    }

    /// The underlying cause.
    pub fn source(&self) -> (source: &anyhow::Error)
        ensures
            *source == self.cause(),
    {
        &self.source
    }
}

} // verus!
