//! The typed failures of the node graph engine and registry.

use vstd::prelude::*;
use crate::ids::NodeId;
use crate::textfmt::{dec_digits, u64_to_dec};

verus! {

/// A failure of graph editing, node construction or evaluation.
#[derive(Debug)]
pub enum NodeError {
    InvalidInputType { expected: String, actual: String },
    MissingInput(String),
    NodeNotFound(NodeId),
    CycleDetected { from: String, to: String },
    InvalidParameter { name: String, reason: String },
    ComputationError { context: String, message: String },
    ValidationError(String),
    Debug { message: String, context: String },
}

/// The model of a `NodeError`.
pub enum NodeErrorView {
    InvalidInputType { expected: Seq<char>, actual: Seq<char> },
    MissingInput(Seq<char>),
    NodeNotFound(NodeId),
    CycleDetected { from: Seq<char>, to: Seq<char> },
    InvalidParameter { name: Seq<char>, reason: Seq<char> },
    ComputationError { context: Seq<char>, message: Seq<char> },
    ValidationError(Seq<char>),
    Debug { message: Seq<char>, context: Seq<char> },
}

impl View for NodeError {
    type V = NodeErrorView;

    open spec fn view(&self) -> NodeErrorView {
        match self {
            NodeError::InvalidInputType { expected, actual } => NodeErrorView::InvalidInputType {
                expected: expected@,
                actual: actual@,
            },
            NodeError::MissingInput(name) => NodeErrorView::MissingInput(name@),
            NodeError::NodeNotFound(id) => NodeErrorView::NodeNotFound(*id),
            NodeError::CycleDetected { from, to } => NodeErrorView::CycleDetected {
                from: from@,
                to: to@,
            },
            NodeError::InvalidParameter { name, reason } => NodeErrorView::InvalidParameter {
                name: name@,
                reason: reason@,
            },
            NodeError::ComputationError { context, message } => NodeErrorView::ComputationError {
                context: context@,
                message: message@,
            },
            NodeError::ValidationError(message) => NodeErrorView::ValidationError(message@),
            NodeError::Debug { message, context } => NodeErrorView::Debug {
                message: message@,
                context: context@,
            },
        }
    }
}

/// The description of an error, as `message` renders it.
pub open spec fn spec_error_message(e: NodeErrorView) -> Seq<char> {
    match e {
        NodeErrorView::InvalidInputType { expected, actual } => "Invalid input type: expected "@
            + expected + ", got "@ + actual,
        NodeErrorView::MissingInput(name) => "Missing required input: "@ + name,
        NodeErrorView::NodeNotFound(id) => "Node not found: "@ + dec_digits(id.0 as int),
        NodeErrorView::CycleDetected { from, to } => "Cycle detected in graph between nodes: "@
            + from + " -> "@ + to,
        NodeErrorView::InvalidParameter { name, reason } => "Invalid parameter: "@ + name + " - "@
            + reason,
        NodeErrorView::ComputationError { context, message } => "Computation error: "@ + context
            + " - "@ + message,
        NodeErrorView::ValidationError(message) => "Node validation error: "@ + message,
        NodeErrorView::Debug { message, context } => "Debug info: "@ + message + "; context: "@
            + context,
    }
}

impl NodeError {
    /// Renders the error as text.
    pub fn message(&self) -> (s: String)
        ensures
            s@ == spec_error_message(self@),
    {
        let mut s = String::new();
        match self {
            NodeError::InvalidInputType { expected, actual } => {
                s.append("Invalid input type: expected ");
                s.append(expected.as_str());
                s.append(", got ");
                s.append(actual.as_str());
            },
            NodeError::MissingInput(name) => {
                s.append("Missing required input: ");
                s.append(name.as_str());
            },
            NodeError::NodeNotFound(id) => {
                s.append("Node not found: ");
                let digits = u64_to_dec(id.0);
                s.append(digits.as_str());
            },
            NodeError::CycleDetected { from, to } => {
                s.append("Cycle detected in graph between nodes: ");
                s.append(from.as_str());
                s.append(" -> ");
                s.append(to.as_str());
            },
            NodeError::InvalidParameter { name, reason } => {
                s.append("Invalid parameter: ");
                s.append(name.as_str());
                s.append(" - ");
                s.append(reason.as_str());
            },
            NodeError::ComputationError { context, message } => {
                s.append("Computation error: ");
                s.append(context.as_str());
                s.append(" - ");
                s.append(message.as_str());
            },
            NodeError::ValidationError(message) => {
                s.append("Node validation error: ");
                s.append(message.as_str());
            },
            NodeError::Debug { message, context } => {
                s.append("Debug info: ");
                s.append(message.as_str());
                s.append("; context: ");
                s.append(context.as_str());
            },
        }
        s
    }
}

} // verus!
