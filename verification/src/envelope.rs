//! The outbound message: which of its fields are binary payloads, and the
//! hydration of a whole template.

use vstd::prelude::*;
use cosmwasm_std::{Binary, CosmosMsg, Empty, IbcMsg, WasmMsg};
use crate::error::HydrateError;
use crate::hydrate::{hydrated_bytes, recursively_hydrate};
use crate::substitute::{replace_vars, substituted};
use crate::vars::VariableTable;

verus! {

/// `cosmwasm_std::CosmosMsg`: an outbound message. Of what is inside one
/// only its envelope is known.
#[verifier::external_type_specification]
#[verifier::external_body]
#[verifier::reject_recursive_types(T)]
pub struct ExCosmosMsg<T>(CosmosMsg<T>);

/// `cosmwasm_std::Empty`: the custom message of a chain that has none.
#[verifier::external_type_specification]
#[verifier::external_body]
pub struct ExEmpty(Empty);

/// The shape of an outbound message as far as hydration goes: the kind of
/// the message and the bytes of each field that is a binary payload. Every
/// kind without such a field is `Other`.
#[derive(Clone, Debug, PartialEq, Eq)]
pub enum Envelope {
    WasmExecute { msg: Vec<u8> },
    WasmInstantiate { msg: Vec<u8> },
    WasmInstantiate2 { msg: Vec<u8>, salt: Vec<u8> },
    WasmMigrate { msg: Vec<u8> },
    IbcSendPacket { data: Vec<u8> },
    Stargate { value: Vec<u8> },
    Other,
}

/// What an [`Envelope`] stands for.
pub enum EnvelopeModel {
    WasmExecute { msg: Seq<u8> },
    WasmInstantiate { msg: Seq<u8> },
    WasmInstantiate2 { msg: Seq<u8>, salt: Seq<u8> },
    WasmMigrate { msg: Seq<u8> },
    IbcSendPacket { data: Seq<u8> },
    Stargate { value: Seq<u8> },
    Other,
}

impl View for Envelope {
    type V = EnvelopeModel;

    open spec fn view(&self) -> EnvelopeModel {
        match self {
            Envelope::WasmExecute { msg } => EnvelopeModel::WasmExecute { msg: msg@ },
            Envelope::WasmInstantiate { msg } => EnvelopeModel::WasmInstantiate { msg: msg@ },
            Envelope::WasmInstantiate2 { msg, salt } => EnvelopeModel::WasmInstantiate2 {
                msg: msg@,
                salt: salt@,
            },
            Envelope::WasmMigrate { msg } => EnvelopeModel::WasmMigrate { msg: msg@ },
            Envelope::IbcSendPacket { data } => EnvelopeModel::IbcSendPacket { data: data@ },
            Envelope::Stargate { value } => EnvelopeModel::Stargate { value: value@ },
            Envelope::Other => EnvelopeModel::Other,
        }
    }
}

/// The envelope with each of its payloads hydrated, or the first failure. A
/// payload of an envelope has to be a document: any failure of it is one of
/// the whole.
pub open spec fn hydrated_envelope(
    envelope: EnvelopeModel,
    table: Seq<(Seq<char>, Seq<char>)>,
    depth: nat,
) -> Result<EnvelopeModel, HydrateError> {
    match envelope {
        EnvelopeModel::WasmExecute { msg } => match hydrated_bytes(msg, table, depth) {
            Ok(msg) => Ok(EnvelopeModel::WasmExecute { msg }),
            Err(e) => Err(e),
        },
        EnvelopeModel::WasmInstantiate { msg } => match hydrated_bytes(msg, table, depth) {
            Ok(msg) => Ok(EnvelopeModel::WasmInstantiate { msg }),
            Err(e) => Err(e),
        },
        EnvelopeModel::WasmInstantiate2 { msg, salt } => match hydrated_bytes(msg, table, depth) {
            Ok(msg) => match hydrated_bytes(salt, table, depth) {
                Ok(salt) => Ok(EnvelopeModel::WasmInstantiate2 { msg, salt }),
                Err(e) => Err(e),
            },
            Err(e) => Err(e),
        },
        EnvelopeModel::WasmMigrate { msg } => match hydrated_bytes(msg, table, depth) {
            Ok(msg) => Ok(EnvelopeModel::WasmMigrate { msg }),
            Err(e) => Err(e),
        },
        EnvelopeModel::IbcSendPacket { data } => match hydrated_bytes(data, table, depth) {
            Ok(data) => Ok(EnvelopeModel::IbcSendPacket { data }),
            Err(e) => Err(e),
        },
        EnvelopeModel::Stargate { value } => match hydrated_bytes(value, table, depth) {
            Ok(value) => Ok(EnvelopeModel::Stargate { value }),
            Err(e) => Err(e),
        },
        EnvelopeModel::Other => Ok(EnvelopeModel::Other),
    }
}

/// Hydrates each payload of an envelope. The kind of the envelope stays.
pub fn hydrate_envelope(envelope: Envelope, var_pairs: &VariableTable, depth: usize) -> (res:
    Result<Envelope, HydrateError>)
    ensures
        match res {
            Ok(done) => hydrated_envelope(envelope@, var_pairs@, depth as nat) == Ok::<
                EnvelopeModel,
                HydrateError,
            >(done@),
            Err(e) => hydrated_envelope(envelope@, var_pairs@, depth as nat) == Err::<
                EnvelopeModel,
                HydrateError,
            >(e),
        },
{
    match envelope {
        Envelope::WasmExecute { msg } => match recursively_hydrate(msg, var_pairs, depth) {
            Ok(msg) => Ok(Envelope::WasmExecute { msg }),
            Err(e) => Err(e),
        },
        Envelope::WasmInstantiate { msg } => match recursively_hydrate(msg, var_pairs, depth) {
            Ok(msg) => Ok(Envelope::WasmInstantiate { msg }),
            Err(e) => Err(e),
        },
        Envelope::WasmInstantiate2 { msg, salt } => match recursively_hydrate(
            msg,
            var_pairs,
            depth,
        ) {
            Ok(msg) => match recursively_hydrate(salt, var_pairs, depth) {
                Ok(salt) => Ok(Envelope::WasmInstantiate2 { msg, salt }),
                Err(e) => Err(e),
            },
            Err(e) => Err(e),
        },
        Envelope::WasmMigrate { msg } => match recursively_hydrate(msg, var_pairs, depth) {
            Ok(msg) => Ok(Envelope::WasmMigrate { msg }),
            Err(e) => Err(e),
        },
        Envelope::IbcSendPacket { data } => match recursively_hydrate(data, var_pairs, depth) {
            Ok(data) => Ok(Envelope::IbcSendPacket { data }),
            Err(e) => Err(e),
        },
        Envelope::Stargate { value } => match recursively_hydrate(value, var_pairs, depth) {
            Ok(value) => Ok(Envelope::Stargate { value }),
            Err(e) => Err(e),
        },
        Envelope::Other => Ok(Envelope::Other),
    }
}

impl EnvelopeModel {
    /// The envelope with `payload` as its payload. One without a payload
    /// stays as it is.
    pub open spec fn with_payload(self, payload: Seq<u8>) -> EnvelopeModel {
        match self {
            EnvelopeModel::WasmExecute { .. } => EnvelopeModel::WasmExecute { msg: payload },
            EnvelopeModel::WasmInstantiate { .. } => EnvelopeModel::WasmInstantiate {
                msg: payload,
            },
            EnvelopeModel::WasmInstantiate2 { salt, .. } => EnvelopeModel::WasmInstantiate2 {
                msg: payload,
                salt,
            },
            EnvelopeModel::WasmMigrate { .. } => EnvelopeModel::WasmMigrate { msg: payload },
            EnvelopeModel::IbcSendPacket { .. } => EnvelopeModel::IbcSendPacket { data: payload },
            EnvelopeModel::Stargate { .. } => EnvelopeModel::Stargate { value: payload },
            EnvelopeModel::Other => EnvelopeModel::Other,
        }
    }

    /// The envelope with `salt` as its salt. One without a salt stays as it
    /// is.
    pub open spec fn with_salt(self, salt: Seq<u8>) -> EnvelopeModel {
        match self {
            EnvelopeModel::WasmInstantiate2 { msg, .. } => EnvelopeModel::WasmInstantiate2 {
                msg,
                salt,
            },
            _ => self,
        }
    }
}

/// The message that `serde_json_wasm::from_str` reads from `text`, or nothing
/// where `text` has none of the shapes of a `cosmwasm_std::CosmosMsg`.
pub uninterp spec fn message_parsed(text: Seq<char>) -> Option<CosmosMsg<Empty>>;

/// The kind of a `cosmwasm_std::CosmosMsg` and the bytes of its binary
/// payloads: `msg` of the four wasm calls that carry one, `salt` of the
/// salted instantiation, `data` of a packet sent, `value` of a stargate
/// message.
pub uninterp spec fn message_envelope(message: CosmosMsg<Empty>) -> EnvelopeModel;

/// `message` with `payload` written into the field that is its payload, all
/// else as it was. A message without a payload is the result as it is.
pub uninterp spec fn message_with_payload(message: CosmosMsg<Empty>, payload: Seq<u8>) -> CosmosMsg<
    Empty,
>;

/// `message` with `salt` written into its salt, all else as it was. A
/// message without a salt is the result as it is.
pub uninterp spec fn message_with_salt(message: CosmosMsg<Empty>, salt: Seq<u8>) -> CosmosMsg<
    Empty,
>;

/// `serde_json_wasm::de::Error`: why a text was not read.
#[verifier::external_type_specification]
#[verifier::external_body]
pub struct ExStrictJsonError(serde_json_wasm::de::Error);

/// `serde_json_wasm::from_str` at the type `cosmwasm_std::CosmosMsg`.
#[verifier::external_body]
fn message_from_str(text: &str) -> (res: Result<CosmosMsg<Empty>, serde_json_wasm::de::Error>)
    ensures
        match res {
            Ok(message) => message_parsed(text@) == Some(message),
            Err(_) => message_parsed(text@) is None,
        },
{
    serde_json_wasm::from_str(text)
}

/// Reads the kind and the payloads of a `cosmwasm_std::CosmosMsg`, one
/// variant for one.
#[verifier::external_body]
fn envelope_of(message: &CosmosMsg<Empty>) -> (envelope: Envelope)
    ensures
        envelope@ == message_envelope(*message),
{
    match message {
        CosmosMsg::Wasm(WasmMsg::Execute { msg, .. }) => Envelope::WasmExecute { msg: msg.to_vec() },
        CosmosMsg::Wasm(WasmMsg::Instantiate { msg, .. }) => Envelope::WasmInstantiate { msg: msg.to_vec() },
        CosmosMsg::Wasm(WasmMsg::Instantiate2 { msg, salt, .. }) => {
            Envelope::WasmInstantiate2 { msg: msg.to_vec(), salt: salt.to_vec() }
        },
        CosmosMsg::Wasm(WasmMsg::Migrate { msg, .. }) => Envelope::WasmMigrate { msg: msg.to_vec() },
        CosmosMsg::Ibc(IbcMsg::SendPacket { data, .. }) => Envelope::IbcSendPacket { data: data.to_vec() },
        CosmosMsg::Stargate { value, .. } => Envelope::Stargate { value: value.to_vec() },
        _ => Envelope::Other,
    }
}

/// Writes `payload` into the payload field of a `cosmwasm_std::CosmosMsg`.
/// The kind of the message and its salt stay.
#[verifier::external_body]
fn set_payload(message: &mut CosmosMsg<Empty>, payload: Vec<u8>)
    ensures
        *final(message) == message_with_payload(*old(message), payload@),
        message_envelope(*final(message)) == message_envelope(*old(message)).with_payload(payload@),
{
    match message {
        CosmosMsg::Wasm(WasmMsg::Execute { msg, .. }) => *msg = Binary(payload),
        CosmosMsg::Wasm(WasmMsg::Instantiate { msg, .. }) => *msg = Binary(payload),
        CosmosMsg::Wasm(WasmMsg::Instantiate2 { msg, .. }) => *msg = Binary(payload),
        CosmosMsg::Wasm(WasmMsg::Migrate { msg, .. }) => *msg = Binary(payload),
        CosmosMsg::Ibc(IbcMsg::SendPacket { data, .. }) => *data = Binary(payload),
        CosmosMsg::Stargate { value, .. } => *value = Binary(payload),
        _ => {},
    }
}

/// Writes `salt` into the salt of a salted instantiation. The kind of the
/// message and its payload stay.
#[verifier::external_body]
fn set_salt(message: &mut CosmosMsg<Empty>, salt: Vec<u8>)
    ensures
        *final(message) == message_with_salt(*old(message), salt@),
        message_envelope(*final(message)) == message_envelope(*old(message)).with_salt(salt@),
{
    match message {
        CosmosMsg::Wasm(WasmMsg::Instantiate2 { salt: field, .. }) => *field = Binary(salt),
        _ => {},
    }
}

/// `message` with the payloads of `envelope` written into it.
pub open spec fn rebuilt(message: CosmosMsg<Empty>, envelope: EnvelopeModel) -> CosmosMsg<Empty> {
    match envelope {
        EnvelopeModel::WasmExecute { msg } => message_with_payload(message, msg),
        EnvelopeModel::WasmInstantiate { msg } => message_with_payload(message, msg),
        EnvelopeModel::WasmInstantiate2 { msg, salt } => message_with_salt(
            message_with_payload(message, msg),
            salt,
        ),
        EnvelopeModel::WasmMigrate { msg } => message_with_payload(message, msg),
        EnvelopeModel::IbcSendPacket { data } => message_with_payload(message, data),
        EnvelopeModel::Stargate { value } => message_with_payload(message, value),
        EnvelopeModel::Other => message,
    }
}

/// The hydrated message of a parsed one, or the failure of its payloads.
pub open spec fn hydrated_parsed(
    message: CosmosMsg<Empty>,
    table: Seq<(Seq<char>, Seq<char>)>,
    depth: nat,
) -> Result<CosmosMsg<Empty>, HydrateError> {
    match hydrated_envelope(message_envelope(message), table, depth) {
        Ok(done) => Ok(rebuilt(message, done)),
        Err(e) => Err(e),
    }
}

/// The hydrated message of a template: the variables are substituted in the
/// template's text, the text is read as a message, and each payload of the
/// message is hydrated.
pub open spec fn hydrated_message(
    template: Seq<char>,
    table: Seq<(Seq<char>, Seq<char>)>,
    depth: nat,
) -> Result<CosmosMsg<Empty>, HydrateError> {
    match message_parsed(substituted(template, table)) {
        Some(message) => hydrated_parsed(message, table, depth),
        None => Err(HydrateError::EnvelopeParse),
    }
}

/// `done` has the kind and the hydrated payloads of the message that
/// `template` reads as once the variables are substituted in it.
pub open spec fn carries_hydrated(
    template: Seq<char>,
    table: Seq<(Seq<char>, Seq<char>)>,
    depth: nat,
    done: CosmosMsg<Empty>,
) -> bool {
    message_parsed(substituted(template, table)) matches Some(message) && hydrated_envelope(
        message_envelope(message),
        table,
        depth,
    ) == Ok::<EnvelopeModel, HydrateError>(message_envelope(done))
}

/// Hydrates the payloads of a message that was read already. The fields of
/// the message that are no payloads stay untouched, and so does its kind.
pub fn hydrate_parsed(message: CosmosMsg<Empty>, var_pairs: &VariableTable, depth: usize) -> (res:
    Result<CosmosMsg<Empty>, HydrateError>)
    ensures
        res == hydrated_parsed(message, var_pairs@, depth as nat),
        res matches Ok(done) ==> hydrated_envelope(
            message_envelope(message),
            var_pairs@,
            depth as nat,
        ) == Ok::<EnvelopeModel, HydrateError>(message_envelope(done)),
{
    let mut message = message;
    let envelope = envelope_of(&message);
    match hydrate_envelope(envelope, var_pairs, depth) {
        Ok(done) => {
            match done {
                Envelope::WasmExecute { msg } => set_payload(&mut message, msg),
                Envelope::WasmInstantiate { msg } => set_payload(&mut message, msg),
                Envelope::WasmInstantiate2 { msg, salt } => {
                    set_payload(&mut message, msg);
                    set_salt(&mut message, salt);
                },
                Envelope::WasmMigrate { msg } => set_payload(&mut message, msg),
                Envelope::IbcSendPacket { data } => set_payload(&mut message, data),
                Envelope::Stargate { value } => set_payload(&mut message, value),
                Envelope::Other => {},
            }
            Ok(message)
        },
        Err(e) => Err(e),
    }
}

/// Hydrates a template: substitutes the variables in its text, reads the
/// text as a message, and hydrates each payload of the message, opening at
/// most `depth` layers of documents. The message handed back is the one that
/// was read, of the same kind, and its payloads are the hydrated ones.
pub fn hydrate_message(template: String, var_pairs: &VariableTable, depth: usize) -> (res: Result<
    CosmosMsg<Empty>,
    HydrateError,
>)
    ensures
        res == hydrated_message(template@, var_pairs@, depth as nat),
        res matches Ok(done) ==> carries_hydrated(template@, var_pairs@, depth as nat, done),
{
    let text = replace_vars(template, var_pairs);
    match message_from_str(text.as_str()) {
        Ok(message) => hydrate_parsed(message, var_pairs, depth),
        Err(_) => Err(HydrateError::EnvelopeParse),
    }
}

} // verus!
