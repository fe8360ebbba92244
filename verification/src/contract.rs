//! What the contract does when it is called.

use vstd::prelude::*;
use cosmwasm_std::{CosmosMsg, Empty};
use crate::envelope::{carries_hydrated, hydrate_message, hydrated_message};
use crate::error::HydrateError;
use crate::msg::ExecuteMsg;
use crate::vars::{bindings_table, parse_bindings};

verus! {

/// The layers of documents that a call opens at most, the payload of the
/// message counted as the first.
pub const MAX_DEPTH: usize = 32;

/// What a request for hydration gives: the bindings are read first, and a
/// template is looked at only where they stand.
pub open spec fn hydration(template: Seq<char>, bindings: Seq<char>) -> Result<
    CosmosMsg<Empty>,
    HydrateError,
> {
    match bindings_table(bindings) {
        Some(table) => hydrated_message(template, table, MAX_DEPTH as nat),
        None => Err(HydrateError::VariableParse),
    }
}

/// What the contract answers to a message.
pub open spec fn answer(msg: ExecuteMsg) -> Result<CosmosMsg<Empty>, HydrateError> {
    match msg {
        ExecuteMsg::HydrateMsg { msg, vars } => hydration(msg@, vars@),
    }
}

/// `done` has the kind and the hydrated payloads of the message that the
/// template of `msg` reads as under the bindings of `msg`.
pub open spec fn answer_carries(msg: ExecuteMsg, done: CosmosMsg<Empty>) -> bool {
    match msg {
        ExecuteMsg::HydrateMsg { msg, vars } => hydration_carries(msg@, vars@, done),
    }
}

/// `done` has the kind and the hydrated payloads of the message that
/// `template` reads as under the table that `bindings` stand for.
pub open spec fn hydration_carries(
    template: Seq<char>,
    bindings: Seq<char>,
    done: CosmosMsg<Empty>,
) -> bool {
    bindings_table(bindings) matches Some(table) && carries_hydrated(
        template,
        table,
        MAX_DEPTH as nat,
        done,
    )
}

/// Does what `msg` asks for and hands back the message to send on.
pub fn execute(msg: ExecuteMsg) -> (res: Result<CosmosMsg<Empty>, HydrateError>)
    ensures
        res == answer(msg),
        res matches Ok(done) ==> answer_carries(msg, done),
{
    match msg {
        ExecuteMsg::HydrateMsg { msg, vars } => execute_hydrate_msg(msg, vars),
    }
}

/// Hydrates the message `msg` with the variables that `vars` binds, such as
/// `["name1": "value1", "name2": "value2"]`. The message handed back has the
/// kind of the one that `msg` reads as, and its payloads are the hydrated
/// ones.
pub fn execute_hydrate_msg(msg: String, vars: String) -> (res: Result<
    CosmosMsg<Empty>,
    HydrateError,
>)
    ensures
        res == hydration(msg@, vars@),
        res matches Ok(done) ==> hydration_carries(msg@, vars@, done),
{
    match parse_bindings(vars.as_str()) {
        Ok(table) => hydrate_message(msg, &table, MAX_DEPTH),
        Err(e) => Err(e),
    }
}

} // verus!
