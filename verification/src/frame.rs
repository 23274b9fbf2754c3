//! Frames: the wire-level unit of the protocol. A frame is a simple status
//! string, an error string, an integer, a bulk byte string, the null marker,
//! or an array of frames (requests arrive as arrays of bulk strings).

use vstd::prelude::*;

verus! {

use crate::bytes::copy_bytes;

/// A decoded wire frame.
#[derive(Debug, PartialEq, Eq)]
pub enum Frame {
    /// Simple status text, e.g. the `OK` reply to a successful SET.
    Simple(Vec<u8>),
    /// Error text, e.g. the reply to a malformed command.
    Error(Vec<u8>),
    /// A signed integer.
    Integer(i64),
    /// A binary-safe byte string.
    Bulk(Vec<u8>),
    /// The null bulk string, the reply to a GET of an absent key.
    Null,
    /// An array of frames; requests take this shape.
    Array(Vec<Frame>),
}

/// The mathematical shape of a frame, over `Seq` and `int`.
pub enum FrameModel {
    Simple(Seq<u8>),
    Error(Seq<u8>),
    Integer(int),
    Bulk(Seq<u8>),
    Null,
    Array(Seq<FrameModel>),
}

pub open spec fn frame_model(f: Frame) -> FrameModel
    decreases f,
{
    match f {
        Frame::Simple(t) => FrameModel::Simple(t@),
        Frame::Error(t) => FrameModel::Error(t@),
        Frame::Integer(i) => FrameModel::Integer(i as int),
        Frame::Bulk(p) => FrameModel::Bulk(p@),
        Frame::Null => FrameModel::Null,
        Frame::Array(items) => FrameModel::Array(models_of(items@)),
    }
}

pub open spec fn models_of(s: Seq<Frame>) -> Seq<FrameModel>
    decreases s,
{
    if s.len() == 0 {
        Seq::empty()
    } else {
        models_of(s.drop_last()).push(frame_model(s.last()))
    }
}

impl View for Frame {
    type V = FrameModel;

    open spec fn view(&self) -> FrameModel {
        frame_model(*self)
    }
}

/// Text of a simple or error string: free of carriage return and line feed,
/// so that the line it stands on is unambiguous.
pub open spec fn line_text_ok(t: Seq<u8>) -> bool {
    forall|i: int| 0 <= i < t.len() ==> #[trigger] t[i] != 13 && t[i] != 10
}

/// A well-formed frame: one that `encode` serializes to bytes that decode back
/// to the same frame.
pub open spec fn frame_wf(m: FrameModel) -> bool
    decreases m,
{
    match m {
        FrameModel::Simple(t) => line_text_ok(t),
        FrameModel::Error(t) => line_text_ok(t),
        FrameModel::Integer(i) => i64::MIN <= i <= i64::MAX,
        FrameModel::Bulk(p) => true,
        FrameModel::Null => true,
        FrameModel::Array(items) => frames_wf(items),
    }
}

pub open spec fn frames_wf(s: Seq<FrameModel>) -> bool
    decreases s,
{
    if s.len() == 0 {
        true
    } else {
        frame_wf(s[0]) && frames_wf(s.drop_first())
    }
}

pub proof fn lemma_models_of_len(s: Seq<Frame>)
    ensures
        models_of(s).len() == s.len(),
    decreases s,
{
    if s.len() > 0 {
        lemma_models_of_len(s.drop_last());
    }
}

pub proof fn lemma_models_of_index(s: Seq<Frame>, i: int)
    requires
        0 <= i < s.len(),
    ensures
        models_of(s).len() == s.len(),
        models_of(s)[i] == frame_model(s[i]),
    decreases s,
{
    lemma_models_of_len(s);
    if i < s.len() - 1 {
        lemma_models_of_index(s.drop_last(), i);
        lemma_models_of_len(s.drop_last());
        assert(s.drop_last()[i] == s[i]);
    }
}

pub proof fn lemma_models_of_push(s: Seq<Frame>, f: Frame)
    ensures
        models_of(s.push(f)) == models_of(s).push(frame_model(f)),
{
    assert(s.push(f).drop_last() =~= s);
    assert(s.push(f).last() == f);
}

impl Frame {
    /// A structural copy of the frame.
    pub fn duplicate(&self) -> (r: Frame)
        ensures
            r@ == self@,
        decreases *self,
    {
        match self {
            Frame::Simple(t) => Frame::Simple(copy_bytes(t)),
            Frame::Error(t) => Frame::Error(copy_bytes(t)),
            Frame::Integer(i) => Frame::Integer(*i),
            Frame::Bulk(p) => Frame::Bulk(copy_bytes(p)),
            Frame::Null => Frame::Null,
            Frame::Array(items) => {
                let n = items.len();
                let mut out: Vec<Frame> = Vec::new();
                let mut i: usize = 0;
                while i < n
                    invariant
                        i <= n,
                        n == items@.len(),
                        *self == Frame::Array(*items),
                        models_of(out@) == models_of(items@.take(i as int)),
                    decreases n - i,
                {
                    proof {
                        assert(decreases_to!(*self => self->Array_0));
                        assert(decreases_to!(self->Array_0 => self->Array_0[i as int]));
                        assert(items@[i as int] == self->Array_0[i as int]);
                        assert(decreases_to!(*self => items@[i as int]));
                    }
                    let c = items[i].duplicate();
                    proof {
                        lemma_models_of_push(out@, c);
                        lemma_models_of_push(items@.take(i as int), items@[i as int]);
                        assert(items@.take(i as int).push(items@[i as int]) =~= items@.take(
                            i as int + 1));
                    }
                    out.push(c);
                    i = i + 1;
                }
                proof {
                    assert(items@.take(n as int) =~= items@);
                }
                Frame::Array(out)
            },
        }
    }
}

} // verus!
