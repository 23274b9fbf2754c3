//! The wire grammar: what bytes each frame serializes to, and how a byte
//! stream read so far parses into at most one leading frame.
//!
//! Parsing is restartable: on `NeedMore` the caller reads further bytes and
//! retries with the longer buffer; on `Corrupt` the bytes can never again be
//! framed and the connection must close.

use vstd::prelude::*;

verus! {

use crate::digits::{dec_digits, digits_val, int_rep, is_dec, dec_value, lemma_int_rep_ok,
    lemma_dec_digits_shape};
use crate::frame::{FrameModel, frame_wf, frames_wf, line_text_ok};

pub const CR: u8 = 13;

pub const LF: u8 = 10;

pub const TAG_SIMPLE: u8 = 43;

pub const TAG_ERROR: u8 = 45;

pub const TAG_INTEGER: u8 = 58;

pub const TAG_BULK: u8 = 36;

pub const TAG_ARRAY: u8 = 42;

/// Canonical bytes of one frame.
pub open spec fn encoding(m: FrameModel) -> Seq<u8>
    decreases m,
{
    match m {
        FrameModel::Simple(t) => seq![TAG_SIMPLE] + t + seq![CR, LF],
        FrameModel::Error(t) => seq![TAG_ERROR] + t + seq![CR, LF],
        FrameModel::Integer(i) => seq![TAG_INTEGER] + int_rep(i) + seq![CR, LF],
        FrameModel::Bulk(p) => seq![TAG_BULK] + int_rep(p.len() as int) + seq![CR, LF] + p
            + seq![CR, LF],
        FrameModel::Null => seq![TAG_BULK, 45u8, 49u8, CR, LF],
        FrameModel::Array(items) => seq![TAG_ARRAY] + int_rep(items.len() as int) + seq![CR, LF]
            + encs(items),
    }
}

/// Canonical bytes of a run of frames, in order.
pub open spec fn encs(s: Seq<FrameModel>) -> Seq<u8>
    decreases s,
{
    if s.len() == 0 {
        Seq::empty()
    } else {
        encoding(s[0]) + encs(s.drop_first())
    }
}

/// Outcome of scanning for one CRLF-terminated line.
pub enum LineOut {
    /// The text before the terminator, and the bytes consumed including it.
    Line(Seq<u8>, nat),
    MoreNeeded,
    BadLine,
}

/// Scans the front of `s` for text terminated by CRLF. The text may contain
/// neither carriage return nor line feed; a stray one is `BadLine`.
pub open spec fn scan_line(s: Seq<u8>) -> LineOut
    decreases s.len(),
{
    if s.len() == 0 {
        LineOut::MoreNeeded
    } else if s[0] == CR {
        if s.len() == 1 {
            LineOut::MoreNeeded
        } else if s[1] == LF {
            LineOut::Line(Seq::empty(), 2)
        } else {
            LineOut::BadLine
        }
    } else if s[0] == LF {
        LineOut::BadLine
    } else {
        match scan_line(s.drop_first()) {
            LineOut::Line(t, n) => LineOut::Line(seq![s[0]] + t, n + 1),
            LineOut::MoreNeeded => LineOut::MoreNeeded,
            LineOut::BadLine => LineOut::BadLine,
        }
    }
}

/// Outcome of parsing one frame from the front of the bytes read so far.
pub enum ParseOut {
    /// The frame, and the bytes it occupied.
    Got(FrameModel, nat),
    NeedMore,
    Corrupt,
}

/// Outcome of parsing a counted run of frames.
pub enum ItemsOut {
    Got(Seq<FrameModel>, nat),
    NeedMore,
    Corrupt,
}

/// Parses exactly one frame from the front of `s`.
pub open spec fn parse_frame(s: Seq<u8>) -> ParseOut
    decreases s.len(), 0nat,
{
    if s.len() == 0 {
        ParseOut::NeedMore
    } else {
        let tag = s[0];
        let rest = s.drop_first();
        if tag == TAG_SIMPLE {
            match scan_line(rest) {
                LineOut::Line(t, n) => ParseOut::Got(FrameModel::Simple(t), 1 + n),
                LineOut::MoreNeeded => ParseOut::NeedMore,
                LineOut::BadLine => ParseOut::Corrupt,
            }
        } else if tag == TAG_ERROR {
            match scan_line(rest) {
                LineOut::Line(t, n) => ParseOut::Got(FrameModel::Error(t), 1 + n),
                LineOut::MoreNeeded => ParseOut::NeedMore,
                LineOut::BadLine => ParseOut::Corrupt,
            }
        } else if tag == TAG_INTEGER {
            match scan_line(rest) {
                LineOut::Line(t, n) => if is_dec(t) && i64::MIN <= dec_value(t) <= i64::MAX {
                    ParseOut::Got(FrameModel::Integer(dec_value(t)), 1 + n)
                } else {
                    ParseOut::Corrupt
                },
                LineOut::MoreNeeded => ParseOut::NeedMore,
                LineOut::BadLine => ParseOut::Corrupt,
            }
        } else if tag == TAG_BULK {
            match scan_line(rest) {
                LineOut::Line(t, n) => if !is_dec(t) {
                    ParseOut::Corrupt
                } else {
                    let v = dec_value(t);
                    if v == -1 {
                        ParseOut::Got(FrameModel::Null, 1 + n)
                    } else if v < 0 {
                        ParseOut::Corrupt
                    } else {
                        let start = 1 + n as int;
                        if s.len() < start + v + 2 {
                            ParseOut::NeedMore
                        } else if s[start + v] == CR && s[start + v + 1] == LF {
                            ParseOut::Got(
                                FrameModel::Bulk(s.subrange(start, start + v)),
                                (start + v + 2) as nat,
                            )
                        } else {
                            ParseOut::Corrupt
                        }
                    }
                },
                LineOut::MoreNeeded => ParseOut::NeedMore,
                LineOut::BadLine => ParseOut::Corrupt,
            }
        } else if tag == TAG_ARRAY {
            match scan_line(rest) {
                LineOut::Line(t, n) => if !is_dec(t) {
                    ParseOut::Corrupt
                } else {
                    let c = dec_value(t);
                    if c < 0 {
                        ParseOut::Corrupt
                    } else if s.len() < 1 + n {
                        ParseOut::NeedMore
                    } else {
                        let body = s.skip(1 + n as int);
                        if c > body.len() {
                            ParseOut::NeedMore
                        } else {
                            match parse_items(body, c as nat) {
                                ItemsOut::Got(ms, k) => ParseOut::Got(
                                    FrameModel::Array(ms),
                                    1 + n + k,
                                ),
                                ItemsOut::NeedMore => ParseOut::NeedMore,
                                ItemsOut::Corrupt => ParseOut::Corrupt,
                            }
                        }
                    }
                },
                LineOut::MoreNeeded => ParseOut::NeedMore,
                LineOut::BadLine => ParseOut::Corrupt,
            }
        } else {
            ParseOut::Corrupt
        }
    }
}

/// Parses `count` frames, one after the other, from the front of `s`.
pub open spec fn parse_items(s: Seq<u8>, count: nat) -> ItemsOut
    decreases s.len(), count,
{
    if count == 0 {
        ItemsOut::Got(Seq::empty(), 0)
    } else {
        match parse_frame(s) {
            ParseOut::Got(m, k) => if k > s.len() {
                ItemsOut::Corrupt
            } else {
                match parse_items(s.skip(k as int), (count - 1) as nat) {
                    ItemsOut::Got(ms, k2) => ItemsOut::Got(seq![m] + ms, k + k2),
                    ItemsOut::NeedMore => ItemsOut::NeedMore,
                    ItemsOut::Corrupt => ItemsOut::Corrupt,
                }
            },
            ParseOut::NeedMore => ItemsOut::NeedMore,
            ParseOut::Corrupt => ItemsOut::Corrupt,
        }
    }
}

pub proof fn lemma_encs_cat(a: Seq<FrameModel>, b: Seq<FrameModel>)
    ensures
        encs(a + b) == encs(a) + encs(b),
    decreases a,
{
    if a.len() == 0 {
        assert(a + b =~= b);
        assert(encs(a) + encs(b) =~= encs(b));
    } else {
        assert((a + b)[0] == a[0]);
        assert((a + b).drop_first() =~= a.drop_first() + b);
        lemma_encs_cat(a.drop_first(), b);
        assert(encs(a + b) =~= encs(a) + encs(b));
    }
}

pub proof fn lemma_encoding_min(m: FrameModel)
    ensures
        encoding(m).len() >= 3,
{
    match m {
        FrameModel::Integer(i) => {
            lemma_dec_digits_shape(if i < 0 { (-i) as nat } else { i as nat });
        },
        FrameModel::Bulk(p) => {
            lemma_dec_digits_shape(p.len());
        },
        FrameModel::Array(items) => {
            lemma_dec_digits_shape(items.len());
        },
        _ => {},
    }
}

pub proof fn lemma_encs_min(s: Seq<FrameModel>)
    ensures
        encs(s).len() >= 3 * s.len(),
    decreases s,
{
    if s.len() > 0 {
        lemma_encoding_min(s[0]);
        lemma_encs_min(s.drop_first());
    }
}

/// A found CRLF-terminated line scans to exactly its text.
pub proof fn lemma_scan_of_line(t: Seq<u8>, tail: Seq<u8>)
    requires
        line_text_ok(t),
    ensures
        scan_line(t + seq![CR, LF] + tail) == LineOut::Line(t, (t.len() + 2) as nat),
    decreases t.len(),
{
    let s = t + seq![CR, LF] + tail;
    assert(s.len() == t.len() + 2 + tail.len());
    if t.len() == 0 {
        assert(s[0] == CR);
        assert(s[1] == LF);
        assert(t =~= Seq::<u8>::empty());
    } else {
        assert(s[0] == t[0]);
        assert(t[0] != CR && t[0] != LF);
        assert(s.drop_first() =~= t.drop_first() + seq![CR, LF] + tail);
        assert(line_text_ok(t.drop_first()));
        lemma_scan_of_line(t.drop_first(), tail);
        assert(seq![s[0]] + t.drop_first() =~= t);
    }
}

/// What `scan_line` returns, read off from the first carriage return or line
/// feed: `i` is the number of leading bytes known to be neither.
pub proof fn lemma_scan_line_at(s: Seq<u8>, i: int)
    requires
        0 <= i <= s.len(),
        forall|j: int| 0 <= j < i ==> #[trigger] s[j] != CR && s[j] != LF,
    ensures
        i == s.len() ==> scan_line(s) == LineOut::MoreNeeded,
        i < s.len() && s[i] == LF ==> scan_line(s) == LineOut::BadLine,
        i < s.len() && s[i] == CR && i + 1 == s.len() ==> scan_line(s) == LineOut::MoreNeeded,
        i < s.len() && s[i] == CR && i + 1 < s.len() && s[i + 1] == LF ==> scan_line(s)
            == LineOut::Line(s.subrange(0, i), (i + 2) as nat),
        i < s.len() && s[i] == CR && i + 1 < s.len() && s[i + 1] != LF ==> scan_line(s)
            == LineOut::BadLine,
    decreases i,
{
    if i == 0 {
        if 0 < s.len() && s[0] == CR && 1 < s.len() && s[1] == LF {
            assert(s.subrange(0, 0) =~= Seq::<u8>::empty());
        }
    } else {
        assert(s[0] != CR && s[0] != LF);
        let s2 = s.drop_first();
        assert(forall|j: int| 0 <= j < i - 1 ==> #[trigger] s2[j] != CR && s2[j] != LF);
        lemma_scan_line_at(s2, i - 1);
        if i < s.len() && s[i] == CR && i + 1 < s.len() && s[i + 1] == LF {
            assert(s2[i - 1] == CR && s2[i] == LF);
            assert(seq![s[0]] + s2.subrange(0, i - 1) =~= s.subrange(0, i));
        }
    }
}

/// A line consumes at least the terminator and no more than the buffer, and
/// its text is the consumed bytes less the terminator.
pub proof fn lemma_scan_line_bounds(s: Seq<u8>)
    ensures
        scan_line(s) matches LineOut::Line(t, n) ==> 2 <= n <= s.len() && t == s.subrange(
            0,
            n - 2,
        ) && line_text_ok(t),
    decreases s.len(),
{
    if s.len() == 0 {
    } else if s[0] == CR {
        if s.len() > 1 && s[1] == LF {
            assert(s.subrange(0, 0) =~= Seq::<u8>::empty());
        }
    } else if s[0] == LF {
    } else {
        lemma_scan_line_bounds(s.drop_first());
        match scan_line(s.drop_first()) {
            LineOut::Line(t, n) => {
                assert(seq![s[0]] + t =~= s.subrange(0, (n + 1) - 2));
            },
            _ => {},
        }
    }
}

/// A parsed frame occupies at least one byte and at most the buffer.
pub proof fn lemma_parse_consumed(s: Seq<u8>)
    ensures
        parse_frame(s) matches ParseOut::Got(m, k) ==> 1 <= k <= s.len(),
    decreases s.len(), 0nat,
{
    if s.len() > 0 {
        let rest = s.drop_first();
        lemma_scan_line_bounds(rest);
        if s[0] == TAG_ARRAY {
            match scan_line(rest) {
                LineOut::Line(t, n) => {
                    if is_dec(t) && dec_value(t) >= 0 && s.len() >= 1 + n {
                        let body = s.skip(1 + n as int);
                        if dec_value(t) <= body.len() {
                            lemma_items_consumed(body, dec_value(t) as nat);
                        }
                    }
                },
                _ => {},
            }
        }
    }
}

/// A parsed run of frames has one frame per count and occupies at most the buffer.
pub proof fn lemma_items_consumed(s: Seq<u8>, count: nat)
    ensures
        parse_items(s, count) matches ItemsOut::Got(ms, k) ==> k <= s.len() && ms.len() == count,
    decreases s.len(), count,
{
    if count > 0 {
        lemma_parse_consumed(s);
        match parse_frame(s) {
            ParseOut::Got(m, k) => {
                if k <= s.len() {
                    lemma_items_consumed(s.skip(k as int), (count - 1) as nat);
                }
            },
            _ => {},
        }
    }
}

/// Scanning is stable under arrival of further bytes: a found line stays the
/// same line, and a stray line break stays fatal.
pub proof fn lemma_scan_line_extends(s: Seq<u8>, ext: Seq<u8>)
    ensures
        scan_line(s) matches LineOut::Line(t, n) ==> scan_line(s + ext) == LineOut::Line(t, n),
        scan_line(s) is BadLine ==> scan_line(s + ext) is BadLine,
    decreases s.len(),
{
    if s.len() == 0 {
    } else if s[0] == CR {
        assert((s + ext)[0] == CR);
        if s.len() > 1 {
            assert((s + ext)[1] == s[1]);
        }
    } else if s[0] == LF {
        assert((s + ext)[0] == LF);
    } else {
        assert((s + ext)[0] == s[0]);
        assert((s + ext).drop_first() =~= s.drop_first() + ext);
        lemma_scan_line_extends(s.drop_first(), ext);
    }
}

/// Parsing is stable under arrival of further bytes: a parsed frame stays the
/// same frame with the same extent, and a corrupt buffer stays corrupt — no
/// later bytes can resynchronize the stream.
pub proof fn lemma_parse_extends(s: Seq<u8>, ext: Seq<u8>)
    ensures
        parse_frame(s) matches ParseOut::Got(m, k) ==> parse_frame(s + ext) == ParseOut::Got(m, k),
        parse_frame(s) is Corrupt ==> parse_frame(s + ext) is Corrupt,
    decreases s.len(), 0nat,
{
    if s.len() == 0 {
        return ;
    }
    let w = s + ext;
    assert(w[0] == s[0]);
    let rest = s.drop_first();
    assert(w.drop_first() =~= rest + ext);
    lemma_scan_line_extends(rest, ext);
    lemma_scan_line_bounds(rest);
    let tag = s[0];
    if tag == TAG_SIMPLE || tag == TAG_ERROR || tag == TAG_INTEGER {
    } else if tag == TAG_BULK {
        match scan_line(rest) {
            LineOut::Line(t, n) => {
                if is_dec(t) && dec_value(t) >= 0 {
                    let v = dec_value(t);
                    let start = 1 + n as int;
                    if s.len() >= start + v + 2 {
                        assert(w[start + v] == s[start + v]);
                        assert(w[start + v + 1] == s[start + v + 1]);
                        assert(w.subrange(start, start + v) =~= s.subrange(start, start + v));
                    }
                }
            },
            _ => {},
        }
    } else if tag == TAG_ARRAY {
        match scan_line(rest) {
            LineOut::Line(t, n) => {
                if is_dec(t) && dec_value(t) >= 0 && s.len() >= 1 + n {
                    let c = dec_value(t);
                    let body = s.skip(1 + n as int);
                    assert(w.skip(1 + n as int) =~= body + ext);
                    if c <= body.len() {
                        lemma_items_extends(body, ext, c as nat);
                        match parse_items(body, c as nat) {
                            ItemsOut::NeedMore => {
                                // nothing is claimed of an incomplete buffer
                            },
                            _ => {},
                        }
                    }
                }
            },
            _ => {},
        }
    }
}

/// The run-of-frames form of `lemma_parse_extends`.
pub proof fn lemma_items_extends(s: Seq<u8>, ext: Seq<u8>, count: nat)
    ensures
        parse_items(s, count) matches ItemsOut::Got(ms, k) ==> parse_items(s + ext, count)
            == ItemsOut::Got(ms, k),
        parse_items(s, count) is Corrupt ==> parse_items(s + ext, count) is Corrupt,
    decreases s.len(), count,
{
    if count == 0 {
        return ;
    }
    lemma_parse_extends(s, ext);
    lemma_parse_consumed(s);
    match parse_frame(s) {
        ParseOut::Got(m, k) => {
            assert(k <= s.len());
            assert(k <= (s + ext).len());
            assert((s + ext).skip(k as int) =~= s.skip(k as int) + ext);
            lemma_items_extends(s.skip(k as int), ext, (count - 1) as nat);
        },
        _ => {},
    }
}

/// `r`, shifted right by a run of `ms` frames occupying `k` bytes.
pub open spec fn items_prepend(ms: Seq<FrameModel>, k: nat, r: ItemsOut) -> ItemsOut {
    match r {
        ItemsOut::Got(ms2, k2) => ItemsOut::Got(ms + ms2, k + k2),
        ItemsOut::NeedMore => ItemsOut::NeedMore,
        ItemsOut::Corrupt => ItemsOut::Corrupt,
    }
}

pub proof fn lemma_prepend_empty(r: ItemsOut)
    ensures
        items_prepend(Seq::empty(), 0, r) == r,
{
    match r {
        ItemsOut::Got(ms2, k2) => {
            assert(Seq::empty() + ms2 =~= ms2);
        },
        _ => {},
    }
}

pub proof fn lemma_prepend_compose(
    a: Seq<FrameModel>,
    k1: nat,
    b: Seq<FrameModel>,
    k2: nat,
    r: ItemsOut,
)
    ensures
        items_prepend(a, k1, items_prepend(b, k2, r)) == items_prepend(a + b, k1 + k2, r),
{
    match r {
        ItemsOut::Got(ms, k) => {
            assert(a + (b + ms) =~= (a + b) + ms);
        },
        _ => {},
    }
}

/// One step of `parse_items`, written with `items_prepend`.
pub proof fn lemma_items_unfold(s: Seq<u8>, count: nat)
    requires
        count > 0,
    ensures
        parse_items(s, count) == (match parse_frame(s) {
            ParseOut::Got(m, k) => if k > s.len() {
                ItemsOut::Corrupt
            } else {
                items_prepend(seq![m], k, parse_items(s.skip(k as int), (count - 1) as nat))
            },
            ParseOut::NeedMore => ItemsOut::NeedMore,
            ParseOut::Corrupt => ItemsOut::Corrupt,
        }),
{
    match parse_frame(s) {
        ParseOut::Got(m, k) => {
            if k <= s.len() {
                match parse_items(s.skip(k as int), (count - 1) as nat) {
                    ItemsOut::Got(ms, k2) => {
                        assert(seq![m] + ms == seq![m] + ms);
                    },
                    _ => {},
                }
            }
        },
        _ => {},
    }
}

/// Round trip: the encoding of a well-formed frame, followed by anything,
/// parses back to exactly that frame, consuming exactly the encoding.
#[verifier::rlimit(50)]
pub proof fn lemma_parse_of_encoding(m: FrameModel, tail: Seq<u8>)
    requires
        frame_wf(m),
    ensures
        parse_frame(encoding(m) + tail) == ParseOut::Got(m, encoding(m).len() as nat),
    decreases m,
{
    let s = encoding(m) + tail;
    match m {
        FrameModel::Simple(t) => {
            assert(s[0] == TAG_SIMPLE);
            assert(s.drop_first() =~= t + seq![CR, LF] + tail);
            lemma_scan_of_line(t, tail);
        },
        FrameModel::Error(t) => {
            assert(s[0] == TAG_ERROR);
            assert(s.drop_first() =~= t + seq![CR, LF] + tail);
            lemma_scan_of_line(t, tail);
        },
        FrameModel::Integer(i) => {
            assert(s[0] == TAG_INTEGER);
            lemma_int_rep_ok(i);
            assert(line_text_ok(int_rep(i)));
            assert(s.drop_first() =~= int_rep(i) + seq![CR, LF] + tail);
            lemma_scan_of_line(int_rep(i), tail);
        },
        FrameModel::Bulk(p) => {
            let rep = int_rep(p.len() as int);
            lemma_int_rep_ok(p.len() as int);
            assert(line_text_ok(rep));
            assert(s[0] == TAG_BULK);
            let after = p + seq![CR, LF] + tail;
            assert(s.drop_first() =~= rep + seq![CR, LF] + after);
            lemma_scan_of_line(rep, after);
            let n = rep.len() + 2;
            let start = 1 + n as int;
            let v = p.len() as int;
            assert(s.len() == 1 + rep.len() + 2 + p.len() + 2 + tail.len());
            assert(s.subrange(start, start + v) =~= p);
            assert(s[start + v] == CR);
            assert(s[start + v + 1] == LF);
        },
        FrameModel::Null => {
            assert(s[0] == TAG_BULK);
            let t = seq![45u8, 49u8];
            assert(s.drop_first() =~= t + seq![CR, LF] + tail);
            assert(line_text_ok(t));
            lemma_scan_of_line(t, tail);
            let one = seq![49u8];
            assert(t.skip(1) =~= one);
            assert(is_dec(t));
            assert(one.drop_last() =~= Seq::<u8>::empty());
            assert(digits_val(Seq::<u8>::empty()) == 0);
            assert(digits_val(one) == 1);
            assert(dec_value(t) == -1);
        },
        FrameModel::Array(items) => {
            let c = items.len() as int;
            let rep = int_rep(c);
            lemma_int_rep_ok(c);
            assert(line_text_ok(rep));
            assert(s[0] == TAG_ARRAY);
            let after = encs(items) + tail;
            assert(s.drop_first() =~= rep + seq![CR, LF] + after);
            lemma_scan_of_line(rep, after);
            let n = rep.len() + 2;
            assert(s.len() >= 1 + n);
            let body = s.skip(1 + n as int);
            assert(body =~= encs(items) + tail);
            lemma_encs_min(items);
            assert(c <= body.len());
            lemma_items_of_encs(items, tail);
        },
    }
}

/// Round trip for a run of frames: the concatenated encodings, followed by
/// anything, parse back to exactly those frames.
pub proof fn lemma_items_of_encs(items: Seq<FrameModel>, tail: Seq<u8>)
    requires
        frames_wf(items),
    ensures
        parse_items(encs(items) + tail, items.len()) == ItemsOut::Got(
            items,
            encs(items).len() as nat,
        ),
    decreases items,
{
    if items.len() == 0 {
        assert(encs(items) + tail =~= tail);
        assert(Seq::<FrameModel>::empty() =~= items);
    } else {
        let m0 = items[0];
        let rest = items.drop_first();
        let s = encs(items) + tail;
        assert(s =~= encoding(m0) + (encs(rest) + tail));
        lemma_parse_of_encoding(m0, encs(rest) + tail);
        assert(encoding(m0).len() <= s.len());
        assert(s.skip(encoding(m0).len() as int) =~= encs(rest) + tail);
        lemma_items_of_encs(rest, tail);
        assert(seq![m0] + rest =~= items);
    }
}

} // verus!
