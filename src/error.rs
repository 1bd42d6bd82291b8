//! Errors shared across the library.
use vstd::prelude::*;

verus! {

/// Error raised when an operation that is not supported is requested:
/// either one that is being worked on, or one that is not planned at all.
#[derive(Debug)]
pub struct UnsupportedFeatureError {
    issue: Option<usize>,
    feature: &'static str,
}

impl UnsupportedFeatureError {
    /// An unsupported feature that is tracked under the given issue number.
    pub fn tracked_at(issue: usize, feature: &'static str) -> (r: Self)
        ensures
            r.issue_spec() == Some(issue),
            r.feature_spec() == feature@,
    {
        Self { issue: Some(issue), feature }
    }

    /// An unsupported feature that is not planned to be supported.
    pub fn untracked(feature: &'static str) -> (r: Self)
        ensures
            r.issue_spec() == None::<usize>,
            r.feature_spec() == feature@,
    {
        Self { issue: None, feature }
    }

    pub closed spec fn issue_spec(&self) -> Option<usize> {
        self.issue
    }

    pub closed spec fn feature_spec(&self) -> Seq<char> {
        self.feature@
    }

    /// Documents nesting deeper than 255 levels. Not planned.
    pub fn large_json_depths() -> (r: Self)
        ensures
            r.issue_spec() == None::<usize>,
            r.feature_spec() == "Large JSON Depths"@,
    {
        Self::untracked("Large JSON Depths")
    }

    /// Queries whose automata exceed 256 states. Not planned.
    pub fn large_automaton_queries() -> (r: Self)
        ensures
            r.issue_spec() == None::<usize>,
            r.feature_spec() == "Large Automaton Queries"@,
    {
        Self::untracked("Large Automaton Queries")
    }

    /// The issue number tracking the feature; `None` when it is not planned.
    pub fn issue(&self) -> (r: Option<usize>)
        ensures
            r == self.issue_spec(),
    {
        self.issue
    }

    /// The descriptive name of the feature.
    pub fn feature(&self) -> (r: &str)
        ensures
            r@ == self.feature_spec(),
    {
        self.feature
    }

    /// Whether the feature is planned to be supported.
    pub fn is_planned(&self) -> (r: bool)
        ensures
            r == self.issue_spec().is_some(),
    {
        self.issue.is_some()
    }
}

/// Error raised when a depth counter leaves its range.
#[derive(Clone, Copy, Debug, PartialEq, Eq, Structural)]
pub enum DepthError {
    /// The depth would exceed the given limit.
    AboveLimit(usize),
    /// The depth would go below zero.
    BelowZero,
}

/// Errors raised while executing a query on a document.
#[derive(Clone, Copy, Debug, PartialEq, Eq, Structural)]
pub enum EngineError {
    /// An opening character at the given offset would make the depth exceed the limit.
    DepthAboveLimit(usize, DepthError),
    /// A closing character at the given offset has no matching opening.
    DepthBelowZero(usize, DepthError),
    /// No quote precedes the member name ending at the colon at the given offset.
    MalformedLabelQuotes(usize),
    /// The input ended before all opened containers were closed.
    MissingClosingCharacter(),
}

} // verus!
