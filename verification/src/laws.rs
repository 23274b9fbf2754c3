//! The service's stated guarantees, proved once and for all over the models
//! that the executable functions' contracts speak of.

use vstd::prelude::*;

verus! {

use crate::command::CommandModel;
use crate::conn::{reply_model, store_after};
use crate::frame::{FrameModel, frame_wf};
use crate::wire::{encoding, parse_frame, ParseOut, TAG_SIMPLE, TAG_ERROR, TAG_INTEGER, TAG_BULK,
    TAG_ARRAY, lemma_parse_of_encoding};

/// Write-then-read consistency: for every store, key and value, a SET of the
/// key followed by a GET of the same key returns that value.
pub proof fn law_write_then_read(m: Map<Seq<u8>, Seq<u8>>, k: Seq<u8>, v: Seq<u8>)
    ensures
        reply_model(
            store_after(m, CommandModel::Put { key: k, value: v }),
            CommandModel::Get { key: k },
        ) == FrameModel::Bulk(v),
{
}

/// A key never written reads as the null bulk string, not as an error.
pub proof fn law_absent_key_is_null(m: Map<Seq<u8>, Seq<u8>>, k: Seq<u8>)
    requires
        !m.contains_key(k),
    ensures
        reply_model(m, CommandModel::Get { key: k }) == FrameModel::Null,
{
}

/// Last write wins: two SETs of one key in order leave the later value, and a
/// GET of the key returns it.
pub proof fn law_last_write_wins(m: Map<Seq<u8>, Seq<u8>>, k: Seq<u8>, v1: Seq<u8>, v2: Seq<u8>)
    ensures
        reply_model(
            store_after(
                store_after(m, CommandModel::Put { key: k, value: v1 }),
                CommandModel::Put { key: k, value: v2 },
            ),
            CommandModel::Get { key: k },
        ) == FrameModel::Bulk(v2),
{
}

/// Writes to distinct keys are independent: they commute, and each value is
/// visible to a later GET of its own key whichever order the writes took.
pub proof fn law_distinct_keys_independent(
    m: Map<Seq<u8>, Seq<u8>>,
    k1: Seq<u8>,
    v1: Seq<u8>,
    k2: Seq<u8>,
    v2: Seq<u8>,
)
    requires
        k1 != k2,
    ensures
        store_after(
            store_after(m, CommandModel::Put { key: k1, value: v1 }),
            CommandModel::Put { key: k2, value: v2 },
        ) == store_after(
            store_after(m, CommandModel::Put { key: k2, value: v2 }),
            CommandModel::Put { key: k1, value: v1 },
        ),
        reply_model(
            store_after(
                store_after(m, CommandModel::Put { key: k1, value: v1 }),
                CommandModel::Put { key: k2, value: v2 },
            ),
            CommandModel::Get { key: k1 },
        ) == FrameModel::Bulk(v1),
        reply_model(
            store_after(
                store_after(m, CommandModel::Put { key: k1, value: v1 }),
                CommandModel::Put { key: k2, value: v2 },
            ),
            CommandModel::Get { key: k2 },
        ) == FrameModel::Bulk(v2),
{
    assert(m.insert(k1, v1).insert(k2, v2) =~= m.insert(k2, v2).insert(k1, v1));
}

/// Requests on one connection are answered in order: with two whole requests
/// in the buffer, parsing yields the first and consumes exactly its own
/// bytes, leaving the second intact for the next step — which the handler
/// takes only after the first reply is written.
pub proof fn law_first_request_first(m1: FrameModel, m2: FrameModel)
    requires
        frame_wf(m1),
        frame_wf(m2),
    ensures
        parse_frame(encoding(m1) + encoding(m2)) == ParseOut::Got(m1, encoding(m1).len() as nat),
        (encoding(m1) + encoding(m2)).skip(encoding(m1).len() as int) == encoding(m2),
{
    lemma_parse_of_encoding(m1, encoding(m2));
    assert((encoding(m1) + encoding(m2)).skip(encoding(m1).len() as int) =~= encoding(m2));
}

/// A frame whose tag byte is not one of the five defined tags corrupts the
/// stream: no amount of further bytes can make it parse, so the handler
/// closes the connection — with no reply, and, by `advance`'s contract, with
/// the store untouched.
pub proof fn law_invalid_tag_is_fatal(s: Seq<u8>)
    requires
        s.len() > 0,
        s[0] != TAG_SIMPLE,
        s[0] != TAG_ERROR,
        s[0] != TAG_INTEGER,
        s[0] != TAG_BULK,
        s[0] != TAG_ARRAY,
    ensures
        parse_frame(s) == ParseOut::Corrupt,
{
}

} // verus!
