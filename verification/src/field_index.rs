//! What the index hands to the query planner: conditions on a payload field,
//! estimates of how many points a condition matches, and blocks of points
//! that share a token.

use vstd::prelude::*;

verus! {

/// The name of a payload field.
pub type PayloadKeyType = String;

/// Full-text match: the text that a field must contain.
#[derive(Debug)]
pub struct MatchText {
    pub text: String,
}

/// The kind of match that a condition asks for.
#[derive(Debug)]
pub enum Match {
    Text(MatchText),
}

/// A condition on one payload field.
#[derive(Debug)]
pub struct FieldCondition {
    pub key: PayloadKeyType,
    pub matching: Option<Match>,
}

/// The condition that an estimate was made for.
#[derive(Debug)]
pub enum PrimaryCondition {
    Condition(FieldCondition),
}

/// How many points a condition matches: at least `min`, at most `max`, and
/// `exp` as the expected number.
#[derive(Debug)]
pub struct CardinalityEstimation {
    pub primary_clauses: Vec<PrimaryCondition>,
    pub min: usize,
    pub exp: usize,
    pub max: usize,
}

/// A condition together with the number of points that meet it.
#[derive(Debug)]
pub struct PayloadBlockCondition {
    pub condition: FieldCondition,
    pub cardinality: usize,
}

/// Why an operation on the index failed.
#[derive(Debug)]
pub enum OperationError {
    ServiceError { description: String },
}

impl Clone for MatchText {
    fn clone(&self) -> (r: Self)
        ensures
            r == *self,
    {
        MatchText { text: self.text.clone() }
    }
}

impl Clone for Match {
    fn clone(&self) -> (r: Self)
        ensures
            r == *self,
    {
        match self {
            Match::Text(text) => Match::Text(text.clone()),
        }
    }
}

impl Clone for FieldCondition {
    fn clone(&self) -> (r: Self)
        ensures
            r == *self,
    {
        let matching = match &self.matching {
            Some(m) => Some(m.clone()),
            None => None,
        };
        FieldCondition { key: self.key.clone(), matching }
    }
}

impl Clone for OperationError {
    fn clone(&self) -> (r: Self)
        ensures
            r == *self,
    {
        match self {
            OperationError::ServiceError { description } => OperationError::ServiceError {
                description: description.clone(),
            },
        }
    }
}

impl FieldCondition {
    /// The condition that field `key` contains `text`.
    pub fn text_match(key: PayloadKeyType, text: String) -> (r: Self)
        ensures
            r == (FieldCondition { key, matching: Some(Match::Text(MatchText { text })) }),
    {
        FieldCondition { key, matching: Some(Match::Text(MatchText { text })) }
    }
}

impl CardinalityEstimation {
    /// The estimate for `condition` with the given bounds.
    pub fn of(condition: &FieldCondition, min: usize, exp: usize, max: usize) -> (r: Self)
        ensures
            r.primary_clauses@ == seq![PrimaryCondition::Condition(*condition)],
            r.min == min,
            r.exp == exp,
            r.max == max,
    {
        let mut primary_clauses: Vec<PrimaryCondition> = Vec::new();
        primary_clauses.push(PrimaryCondition::Condition(condition.clone()));
        assert(primary_clauses@ =~= seq![PrimaryCondition::Condition(*condition)]);
        CardinalityEstimation { primary_clauses, min, exp, max }
    }
}

impl OperationError {
    /// A service error with the given description.
    pub fn service_error(description: &str) -> (r: Self)
        ensures
            r matches OperationError::ServiceError { description: d } && d@ == description@,
    {
        OperationError::ServiceError { description: description.to_owned() }
    }

    /// The description of the error.
    pub fn description(&self) -> (d: &String)
        ensures
            self matches OperationError::ServiceError { description } && d == description,
    {
        match self {
            OperationError::ServiceError { description } => description,
        }
    }
}

} // verus!
