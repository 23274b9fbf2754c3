//! The command parser: classifies a decoded request frame into one of a
//! closed set of commands with typed arguments.
//!
//! A request is an array of bulk strings whose first element names the
//! command, `GET` or `SET`, case-sensitively. Anything else — wrong shape,
//! wrong argument count, unknown name — is `Unsupported` and earns an error
//! reply, never a closed connection.

use vstd::prelude::*;

verus! {

use crate::frame::{Frame, FrameModel, frame_model, models_of, lemma_models_of_index,
    lemma_models_of_len};

/// A parsed request.
#[derive(Debug, PartialEq, Eq)]
pub enum Command {
    Get { key: Vec<u8> },
    /// The SET command: bind `key` to `value`.
    Put { key: Vec<u8>, value: Vec<u8> },
    Unsupported { original: Frame },
}

/// The mathematical shape of a command.
pub enum CommandModel {
    Get { key: Seq<u8> },
    Put { key: Seq<u8>, value: Seq<u8> },
    Unsupported { original: FrameModel },
}

pub open spec fn command_model(c: Command) -> CommandModel {
    match c {
        Command::Get { key } => CommandModel::Get { key: key@ },
        Command::Put { key, value } => CommandModel::Put { key: key@, value: value@ },
        Command::Unsupported { original } => CommandModel::Unsupported {
            original: frame_model(original),
        },
    }
}

impl View for Command {
    type V = CommandModel;

    open spec fn view(&self) -> CommandModel {
        command_model(*self)
    }
}

/// The bytes of the command name `GET`.
pub open spec fn get_name() -> Seq<u8> {
    seq![71u8, 69u8, 84u8]
}

/// The bytes of the command name `SET`.
pub open spec fn set_name() -> Seq<u8> {
    seq![83u8, 69u8, 84u8]
}

/// Whether a request frame is `["GET", key]`, both elements bulk strings.
pub open spec fn is_get_req(m: FrameModel) -> bool {
    &&& m matches FrameModel::Array(items)
    &&& items.len() == 2
    &&& items[0] matches FrameModel::Bulk(nm) && nm == get_name()
    &&& items[1] is Bulk
}

/// Whether a request frame is `["SET", key, value]`, all bulk strings.
pub open spec fn is_set_req(m: FrameModel) -> bool {
    &&& m matches FrameModel::Array(items)
    &&& items.len() == 3
    &&& items[0] matches FrameModel::Bulk(nm) && nm == set_name()
    &&& items[1] is Bulk
    &&& items[2] is Bulk
}

/// The command a request frame denotes.
pub open spec fn classify(m: FrameModel) -> CommandModel {
    if is_get_req(m) {
        CommandModel::Get { key: m->Array_0[1]->Bulk_0 }
    } else if is_set_req(m) {
        CommandModel::Put { key: m->Array_0[1]->Bulk_0, value: m->Array_0[2]->Bulk_0 }
    } else {
        CommandModel::Unsupported { original: m }
    }
}

/// Whether `name` holds exactly the three bytes of `GET` or of `SET`.
fn name_is(name: &Vec<u8>, b0: u8, b1: u8, b2: u8) -> (r: bool)
    ensures
        r == (name@ == seq![b0, b1, b2]),
{
    if name.len() == 3 && name[0] == b0 && name[1] == b1 && name[2] == b2 {
        assert(name@ =~= seq![b0, b1, b2]);
        true
    } else {
        assert(name@ != seq![b0, b1, b2]);
        false
    }
}

/// Whether a frame is a bulk string.
fn is_bulk(f: &Frame) -> (r: bool)
    ensures
        r == (f@ is Bulk),
{
    match f {
        Frame::Bulk(_) => true,
        _ => false,
    }
}

/// Request shape of an array frame: 1 for GET, 2 for SET, 0 for neither.
fn array_shape(items: &Vec<Frame>) -> (r: u8)
    ensures
        (r == 1) == is_get_req(FrameModel::Array(models_of(items@))),
        (r == 2) == is_set_req(FrameModel::Array(models_of(items@))),
        r == 0 || r == 1 || r == 2,
{
    proof {
        lemma_models_of_len(items@);
    }
    let n = items.len();
    if n != 2 && n != 3 {
        return 0;
    }
    proof {
        lemma_models_of_index(items@, 0);
    }
    let name = match &items[0] {
        Frame::Bulk(nm) => nm,
        _ => {
            return 0;
        },
    };
    if n == 2 {
        proof {
            lemma_models_of_index(items@, 1);
        }
        if name_is(name, 71, 69, 84) && is_bulk(&items[1]) {
            1
        } else {
            0
        }
    } else {
        proof {
            lemma_models_of_index(items@, 1);
            lemma_models_of_index(items@, 2);
        }
        if name_is(name, 83, 69, 84) && is_bulk(&items[1]) && is_bulk(&items[2]) {
            2
        } else {
            0
        }
    }
}

/// Maps a decoded frame to the command it denotes.
pub fn parse_command(f: Frame) -> (c: Command)
    ensures
        c@ == classify(f@),
{
    match f {
        Frame::Array(items) => {
            let shape = array_shape(&items);
            if shape == 1 {
                let mut items = items;
                proof {
                    lemma_models_of_len(items@);
                    lemma_models_of_index(items@, 1);
                }
                let arg = items.remove(1);
                match arg {
                    Frame::Bulk(key) => Command::Get { key },
                    _ => vstd::pervasive::unreached(),
                }
            } else if shape == 2 {
                let mut items = items;
                proof {
                    lemma_models_of_len(items@);
                    lemma_models_of_index(items@, 1);
                    lemma_models_of_index(items@, 2);
                }
                let value_frame = items.remove(2);
                let key_frame = items.remove(1);
                match (key_frame, value_frame) {
                    (Frame::Bulk(key), Frame::Bulk(value)) => Command::Put { key, value },
                    _ => vstd::pervasive::unreached(),
                }
            } else {
                Command::Unsupported { original: Frame::Array(items) }
            }
        },
        other => Command::Unsupported { original: other },
    }
}

} // verus!
