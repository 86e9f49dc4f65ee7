//! The server side of the wire protocol: command execution against the
//! engine and the response text. The TCP listener and the per-
//! connection framing around it are outside collaborators.

use vstd::prelude::*;
use vstd::string::StringExecFns;

use crate::client::Command;
use crate::common::WiscError;
use crate::engines::lsm_log_engine::lsm_engine::{got, set_contract, LsmLogEngine};
use crate::engines::KvsEngine;

verus! {

/// A server instance: the engine it answers from.
pub struct Server<E: KvsEngine> {
    /// The storage engine behind the server.
    pub engine: E,
}

impl<E: KvsEngine> Server<E> {
    /// A server over the given engine.
    pub fn new(engine: E) -> (r: Self)
        ensures
            r.engine == engine,
    {
        Server { engine }
    }
}

/// The response text for a looked-up value: `Some("v")` or `None`.
pub open spec fn spec_render_opt(o: Option<Seq<char>>) -> Seq<char> {
    match o {
        Some(v) => "Some(\""@ + v + "\")"@,
        Option::None => "None"@,
    }
}

/// Renders a looked-up value as the response text.
fn render_opt(o: &Option<String>) -> (r: String)
    ensures
        r@ == spec_render_opt(
            match o {
                Some(v) => Some(v@),
                Option::None => Option::None,
            },
        ),
{
    proof {
        reveal_strlit("Some(\"");
        reveal_strlit("\")");
        reveal_strlit("None");
    }
    match o {
        Some(v) => {
            let mut r = "Some(\"".to_owned();
            r.append(v.as_str());
            r.append("\")");
            proof {
                assert(r@ =~= "Some(\""@ + v@ + "\")"@);
            }
            r
        },
        Option::None => "None".to_owned(),
    }
}

/// What executing one command leaves behind: the engine transition and
/// the response text, by command.
///
/// - `Get` leaves the engine alone and answers with the looked-up
///   value, rendered.
/// - `Delete` first looks the key up, then writes the tombstone
///   either way (the engine-level policy); the response is `OK` when
///   the key was present, the key-not-exists text when it was absent,
///   and the refusal's description when the engine refused the write.
/// - `Insert` first looks the key up: when present it refuses with the
///   key-exists text and changes nothing; otherwise it stores the pair
///   and answers `OK`, or describes the refusal.
/// - `Update` is the mirror image: a missing key is refused with the
///   key-not-exists text.
pub open spec fn process_contract(
    e0: LsmLogEngine,
    e1: LsmLogEngine,
    command: Command,
    response: Seq<char>,
) -> bool {
    match command {
        Command::Get(k) => e1 == e0 && exists|o: Option<Seq<char>>|
            #[trigger] got(e0, k@, o) && response == spec_render_opt(o),
        Command::Delete(k) => exists|o: Option<Seq<char>>|
            #[trigger] got(e0, k@, o) && exists|rr: Result<(), WiscError>|
                #[trigger] set_contract(e0, e1, rr, k@, Seq::empty(), 0) && match rr {
                    Ok(_) => response == (match o {
                        Some(_) => "OK"@,
                        Option::None => WiscError::KeyNotExist(k).describe_spec(),
                    }),
                    Err(err) => e1 == e0 && response == err.describe_spec(),
                },
        Command::Insert(k, v) => exists|o: Option<Seq<char>>|
            #[trigger] got(e0, k@, o) && match o {
                Some(_) => e1 == e0 && response == WiscError::KeyExist(k).describe_spec(),
                Option::None => exists|rr: Result<(), WiscError>|
                    #[trigger] set_contract(e0, e1, rr, k@, v@, 1) && match rr {
                        Ok(_) => response == "OK"@,
                        Err(err) => e1 == e0 && response == err.describe_spec(),
                    },
            },
        Command::Update(k, v) => exists|o: Option<Seq<char>>|
            #[trigger] got(e0, k@, o) && match o {
                Some(_) => exists|rr: Result<(), WiscError>|
                    #[trigger] set_contract(e0, e1, rr, k@, v@, 1) && match rr {
                        Ok(_) => response == "OK"@,
                        Err(err) => e1 == e0 && response == err.describe_spec(),
                    },
                Option::None => e1 == e0 && response == WiscError::KeyNotExist(k).describe_spec(),
            },
    }
}

/// Executes one parsed command against the engine and produces the
/// response text sent back to the client.
pub fn client_command_process(command: &Command, engine: &mut LsmLogEngine) -> (r: String)
    requires
        old(engine).wf(),
    ensures
        final(engine).wf(),
        process_contract(*old(engine), *final(engine), *command, r@),
{
    proof {
        reveal_strlit("OK");
    }
    match command {
        Command::Get(key) => {
            let looked = engine.get(key.as_str());
            match looked {
                Ok(opt) => render_opt(&opt),
                Err(err) => err.describe(),
            }
        },
        Command::Delete(key) => {
            let looked = engine.get(key.as_str());
            match engine.remove(key.as_str()) {
                Ok(_) => {
                    match looked {
                        Ok(Some(_)) => "OK".to_owned(),
                        Ok(Option::None) => WiscError::KeyNotExist(key.clone()).describe(),
                        Err(err) => err.describe(),
                    }
                },
                Err(err) => err.describe(),
            }
        },
        Command::Insert(key, value) => {
            let looked = engine.get(key.as_str());
            match looked {
                Ok(Some(_)) => {
                    let desc = WiscError::KeyExist(key.clone()).describe();
                    desc
                },
                Ok(Option::None) => {
                    match engine.set(key.as_str(), value.as_str()) {
                        Ok(_) => "OK".to_owned(),
                        Err(err) => err.describe(),
                    }
                },
                Err(err) => err.describe(),
            }
        },
        Command::Update(key, value) => {
            let looked = engine.get(key.as_str());
            match looked {
                Ok(Some(_)) => {
                    match engine.set(key.as_str(), value.as_str()) {
                        Ok(_) => "OK".to_owned(),
                        Err(err) => err.describe(),
                    }
                },
                Ok(Option::None) => {
                    let desc = WiscError::KeyNotExist(key.clone()).describe();
                    desc
                },
                Err(err) => err.describe(),
            }
        },
    }
}

} // verus!
