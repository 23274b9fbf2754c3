//! The frame codec: serializes frames to wire bytes, and decodes the bytes
//! read so far into at most one leading frame.
//!
//! Decoding is restartable: `Incomplete` asks the caller to read more bytes
//! and retry with the longer buffer; `Malformed` means the stream can never
//! again be framed, so the connection must close. Both meanings are theorems
//! of the grammar: `wire::lemma_parse_extends` shows that further bytes leave
//! a parsed frame and its extent unchanged and a corrupt stream corrupt.

use vstd::prelude::*;

verus! {

use crate::bytes::{copy_range, push_all};
use crate::digits::{digits_val, int_rep, is_dec, dec_value, push_dec, push_int, push_len,
    lemma_digits_val_snoc};
use crate::frame::{Frame, FrameModel, frame_model, models_of, lemma_models_of_push,
    lemma_models_of_len};
use crate::wire::{CR, LF, TAG_SIMPLE, TAG_ERROR, TAG_INTEGER, TAG_BULK, TAG_ARRAY, encoding, encs,
    scan_line, parse_frame, parse_items, LineOut, ParseOut, ItemsOut, items_prepend,
    lemma_scan_line_at, lemma_encs_cat, lemma_items_unfold, lemma_prepend_empty,
    lemma_prepend_compose};

/// Appends the canonical wire bytes of `f` to `out`.
pub fn encode_into(f: &Frame, out: &mut Vec<u8>)
    ensures
        final(out)@ == old(out)@ + encoding(f@),
    decreases *f,
{
    match f {
        Frame::Simple(t) => {
            out.push(TAG_SIMPLE);
            push_all(out, t);
            out.push(CR);
            out.push(LF);
            assert(out@ =~= old(out)@ + encoding(f@));
        },
        Frame::Error(t) => {
            out.push(TAG_ERROR);
            push_all(out, t);
            out.push(CR);
            out.push(LF);
            assert(out@ =~= old(out)@ + encoding(f@));
        },
        Frame::Integer(i) => {
            out.push(TAG_INTEGER);
            push_int(out, *i);
            out.push(CR);
            out.push(LF);
            assert(out@ =~= old(out)@ + encoding(f@));
        },
        Frame::Bulk(p) => {
            out.push(TAG_BULK);
            push_len(out, p.len());
            out.push(CR);
            out.push(LF);
            push_all(out, p);
            out.push(CR);
            out.push(LF);
            assert(out@ =~= old(out)@ + encoding(f@));
        },
        Frame::Null => {
            out.push(TAG_BULK);
            out.push(45);
            out.push(49);
            out.push(CR);
            out.push(LF);
            assert(out@ =~= old(out)@ + encoding(f@));
        },
        Frame::Array(items) => {
            out.push(TAG_ARRAY);
            push_len(out, items.len());
            out.push(CR);
            out.push(LF);
            let ghost base = out@;
            let n = items.len();
            let mut i: usize = 0;
            while i < n
                invariant
                    i <= n,
                    n == items@.len(),
                    *f == Frame::Array(*items),
                    out@ == base + encs(models_of(items@.take(i as int))),
                decreases n - i,
            {
                proof {
                    assert(decreases_to!(*f => f->Array_0));
                    assert(decreases_to!(f->Array_0 => f->Array_0[i as int]));
                    assert(items@[i as int] == f->Array_0[i as int]);
                    assert(decreases_to!(*f => items@[i as int]));
                }
                encode_into(&items[i], out);
                proof {
                    let ms = models_of(items@.take(i as int));
                    let m = frame_model(items@[i as int]);
                    assert(items@.take(i + 1) =~= items@.take(i as int).push(items@[i as int]));
                    lemma_models_of_push(items@.take(i as int), items@[i as int]);
                    lemma_encs_cat(ms, seq![m]);
                    assert(seq![m].drop_first() =~= Seq::<FrameModel>::empty());
                    assert(encs(Seq::<FrameModel>::empty()) == Seq::<u8>::empty());
                    assert(seq![m][0] == m);
                    assert(encs(seq![m]) =~= encoding(m));
                    assert(ms.push(m) =~= ms + seq![m]);
                    assert(out@ =~= base + encs(models_of(items@.take(i + 1))));
                }
                i = i + 1;
            }
            proof {
                assert(items@.take(n as int) =~= items@);
                lemma_models_of_len(items@);
                assert(out@ =~= old(out)@ + encoding(f@));
            }
        },
    }
}

/// The canonical wire bytes of a frame. Pure and total: it succeeds on every
/// frame value.
pub fn encode(f: &Frame) -> (r: Vec<u8>)
    ensures
        r@ == encoding(f@),
{
    let mut out: Vec<u8> = Vec::new();
    encode_into(f, &mut out);
    assert(out@ =~= encoding(f@));
    out
}

enum LineFind {
    /// Index of the carriage return that ends the line.
    At(usize),
    More,
    Bad,
}

/// Scans `buf[pos..]` for the CRLF that ends the current line.
fn find_line(buf: &Vec<u8>, pos: usize) -> (r: LineFind)
    requires
        pos <= buf@.len(),
    ensures
        match r {
            LineFind::At(i) => pos <= i && i + 2 <= buf@.len() && scan_line(buf@.skip(pos as int))
                == LineOut::Line(buf@.subrange(pos as int, i as int), (i + 2 - pos) as nat),
            LineFind::More => scan_line(buf@.skip(pos as int)) == LineOut::MoreNeeded,
            LineFind::Bad => scan_line(buf@.skip(pos as int)) == LineOut::BadLine,
        },
{
    let ghost s = buf@.skip(pos as int);
    let n = buf.len();
    let mut i: usize = pos;
    while i < n
        invariant
            pos <= i <= n,
            n == buf@.len(),
            s == buf@.skip(pos as int),
            forall|j: int| pos <= j < i ==> buf@[j] != CR && buf@[j] != LF,
        decreases n - i,
    {
        let b = buf[i];
        proof {
            assert(forall|j: int| 0 <= j < i - pos ==> #[trigger] s[j] != CR && s[j] != LF);
        }
        if b == CR {
            if i + 1 < n {
                if buf[i + 1] == LF {
                    proof {
                        lemma_scan_line_at(s, i - pos);
                        assert(s.subrange(0, i - pos) =~= buf@.subrange(pos as int, i as int));
                    }
                    return LineFind::At(i);
                } else {
                    proof {
                        lemma_scan_line_at(s, i - pos);
                    }
                    return LineFind::Bad;
                }
            } else {
                proof {
                    lemma_scan_line_at(s, i - pos);
                }
                return LineFind::More;
            }
        } else if b == LF {
            proof {
                lemma_scan_line_at(s, i - pos);
            }
            return LineFind::Bad;
        }
        i = i + 1;
    }
    proof {
        assert(forall|j: int| 0 <= j < n - pos ==> #[trigger] s[j] != CR && s[j] != LF);
        lemma_scan_line_at(s, n - pos);
    }
    LineFind::More
}

enum DecScan {
    /// Sign, magnitude, and whether the magnitude overflowed 64 bits.
    Num(bool, u64, bool),
    NotDec,
}

/// Reads `buf[start..end]` as decimal text with an optional leading minus.
fn scan_dec(buf: &Vec<u8>, start: usize, end: usize) -> (r: DecScan)
    requires
        start <= end <= buf@.len(),
    ensures
        ({
            let t = buf@.subrange(start as int, end as int);
            match r {
                DecScan::NotDec => !is_dec(t),
                DecScan::Num(neg, mag, big) => is_dec(t) && (!big ==> dec_value(t) == if neg {
                    -(mag as int)
                } else {
                    mag as int
                }) && (!big && mag == 0 ==> !neg) && (big && neg ==> dec_value(t) < -(u64::MAX
                    as int)) && (big && !neg ==> dec_value(t) > u64::MAX as int),
            }
        }),
{
    let ghost t = buf@.subrange(start as int, end as int);
    if start == end {
        assert(t.len() == 0);
        return DecScan::NotDec;
    }
    let neg = buf[start] == 45;
    let dstart = if neg {
        start + 1
    } else {
        start
    };
    if dstart == end {
        assert(t.len() == 1 && t[0] == 45);
        return DecScan::NotDec;
    }
    let ghost d = buf@.subrange(dstart as int, end as int);
    let mut mag: u64 = 0;
    let mut big = false;
    let mut i: usize = dstart;
    while i < end
        invariant
            start < end,
            start <= dstart <= i <= end <= buf@.len(),
            t == buf@.subrange(start as int, end as int),
            d == buf@.subrange(dstart as int, end as int),
            dstart == if neg { start + 1int } else { start as int },
            neg ==> buf@[start as int] == 45,
            !neg ==> buf@[start as int] != 45,
            forall|j: int| dstart <= j < i ==> 48 <= #[trigger] buf@[j] <= 57,
            !big ==> mag as int == digits_val(buf@.subrange(dstart as int, i as int)),
            big ==> digits_val(buf@.subrange(dstart as int, i as int)) > u64::MAX as int,
        decreases end - i,
    {
        let b = buf[i];
        if b < 48 || b > 57 {
            proof {
                if neg {
                    assert(t[0] == 45);
                    assert(t.skip(1) =~= d);
                    assert(d[i - dstart] == buf@[i as int]);
                    assert(!is_dec(t));
                } else {
                    assert(t == d);
                    assert(d[i - dstart] == buf@[i as int]);
                    assert(!is_dec(t));
                }
            }
            return DecScan::NotDec;
        }
        let ghost pre = buf@.subrange(dstart as int, i as int);
        proof {
            assert(buf@.subrange(dstart as int, i + 1) =~= pre.push(buf@[i as int]));
            lemma_digits_val_snoc(pre, buf@[i as int]);
        }
        if !big {
            let wide: u128 = (mag as u128) * 10 + ((b - 48) as u128);
            if wide > u64::MAX as u128 {
                big = true;
                proof {
                    assert(digits_val(buf@.subrange(dstart as int, i + 1)) == wide);
                }
            } else {
                mag = wide as u64;
            }
        } else {
            proof {
                let v = digits_val(pre);
                assert(v > u64::MAX as int);
                assert(digits_val(buf@.subrange(dstart as int, i + 1)) == v * 10 + (buf@[i as int]
                    - 48));
                assert(v * 10 >= v + v) by (nonlinear_arith)
                    requires
                        v >= 0,
                ;
            }
        }
        i = i + 1;
    }
    proof {
        assert(buf@.subrange(dstart as int, end as int) == d);
        assert(forall|j: int| 0 <= j < d.len() ==> 48 <= #[trigger] d[j] <= 57);
        if neg {
            assert(t[0] == 45);
            assert(t.skip(1) =~= d);
            assert(is_dec(t));
            assert(dec_value(t) == -digits_val(d));
        } else {
            assert(t == d);
            assert(t.len() > 0 && t[0] != 45);
            assert(is_dec(t));
            assert(dec_value(t) == digits_val(d));
        }
    }
    if !big && mag == 0 {
        return DecScan::Num(false, 0, false);
    }
    DecScan::Num(neg, mag, big)
}

/// How the outcome of an array's element run determines the array frame's own
/// parse outcome, `hdr` being the bytes of the tag and count line.
spec fn arr_result(hdr: nat, r: ItemsOut) -> ParseOut {
    match r {
        ItemsOut::Got(ms, k) => ParseOut::Got(FrameModel::Array(ms), hdr + k),
        ItemsOut::NeedMore => ParseOut::NeedMore,
        ItemsOut::Corrupt => ParseOut::Corrupt,
    }
}

/// Outcome of decoding the bytes read so far.
#[derive(Debug, PartialEq, Eq)]
pub enum Decoded {
    /// One frame, and the index just past its bytes.
    Complete(Frame, usize),
    /// Too few bytes have arrived to finish a frame: read more and retry.
    Incomplete,
    /// The bytes can never form a frame: the connection cannot recover.
    Malformed,
}

/// Decodes one frame starting at `pos`. On `Complete` the returned index is
/// the absolute position just past the frame.
#[verifier::rlimit(60)]
fn decode_at(buf: &Vec<u8>, pos: usize) -> (r: Decoded)
    requires
        pos <= buf@.len(),
    ensures
        match r {
            Decoded::Complete(f, p2) => pos < p2 <= buf@.len() && parse_frame(
                buf@.skip(pos as int),
            ) == ParseOut::Got(f@, (p2 - pos) as nat),
            Decoded::Incomplete => parse_frame(buf@.skip(pos as int)) == ParseOut::NeedMore,
            Decoded::Malformed => parse_frame(buf@.skip(pos as int)) == ParseOut::Corrupt,
        },
    decreases buf@.len() - pos,
{
    let ghost s = buf@.skip(pos as int);
    let n = buf.len();
    if pos == n {
        assert(s.len() == 0);
        return Decoded::Incomplete;
    }
    let tag = buf[pos];
    proof {
        assert(s[0] == buf@[pos as int]);
        assert(s.drop_first() =~= buf@.skip(pos as int + 1));
        assert(s.len() == n - pos);
    }
    if tag == TAG_SIMPLE || tag == TAG_ERROR {
        match find_line(buf, pos + 1) {
            LineFind::At(i) => {
                let text = copy_range(buf, pos + 1, i);
                let f = if tag == TAG_SIMPLE {
                    Frame::Simple(text)
                } else {
                    Frame::Error(text)
                };
                assert(parse_frame(s) == ParseOut::Got(f@, (i + 2 - pos) as nat));
                Decoded::Complete(f, i + 2)
            },
            LineFind::More => Decoded::Incomplete,
            LineFind::Bad => Decoded::Malformed,
        }
    } else if tag == TAG_INTEGER {
        match find_line(buf, pos + 1) {
            LineFind::At(i) => {
                let ghost t = buf@.subrange(pos as int + 1, i as int);
                match scan_dec(buf, pos + 1, i) {
                    DecScan::NotDec => Decoded::Malformed,
                    DecScan::Num(neg, mag, big) => {
                        if big {
                            assert(dec_value(t) < i64::MIN || dec_value(t) > i64::MAX);
                            Decoded::Malformed
                        } else if neg {
                            if mag <= 9223372036854775808u64 {
                                let v: i64 = if mag == 9223372036854775808u64 {
                                    i64::MIN
                                } else {
                                    -(mag as i64)
                                };
                                assert(v as int == dec_value(t));
                                assert(parse_frame(s) == ParseOut::Got(
                                    FrameModel::Integer(dec_value(t)),
                                    (i + 2 - pos) as nat,
                                ));
                                Decoded::Complete(Frame::Integer(v), i + 2)
                            } else {
                                assert(dec_value(t) < i64::MIN);
                                Decoded::Malformed
                            }
                        } else {
                            if mag <= i64::MAX as u64 {
                                let v: i64 = mag as i64;
                                assert(v as int == dec_value(t));
                                assert(parse_frame(s) == ParseOut::Got(
                                    FrameModel::Integer(dec_value(t)),
                                    (i + 2 - pos) as nat,
                                ));
                                Decoded::Complete(Frame::Integer(v), i + 2)
                            } else {
                                assert(dec_value(t) > i64::MAX);
                                Decoded::Malformed
                            }
                        }
                    },
                }
            },
            LineFind::More => Decoded::Incomplete,
            LineFind::Bad => Decoded::Malformed,
        }
    } else if tag == TAG_BULK {
        match find_line(buf, pos + 1) {
            LineFind::At(i) => {
                let ghost t = buf@.subrange(pos as int + 1, i as int);
                match scan_dec(buf, pos + 1, i) {
                    DecScan::NotDec => Decoded::Malformed,
                    DecScan::Num(neg, mag, big) => {
                        let body = i + 2;
                        let avail = n - body;
                        proof {
                            assert(1 + (i + 1 - pos) == body - pos);
                        }
                        if neg {
                            if !big && mag == 1 {
                                assert(dec_value(t) == -1);
                                assert(parse_frame(s) == ParseOut::Got(
                                    FrameModel::Null,
                                    (i + 2 - pos) as nat,
                                ));
                                Decoded::Complete(Frame::Null, i + 2)
                            } else {
                                assert(dec_value(t) < -1);
                                Decoded::Malformed
                            }
                        } else if big || avail < 2 || mag > (avail - 2) as u64 {
                            assert(dec_value(t) >= 0);
                            assert(s.len() < (body - pos) + dec_value(t) + 2);
                            Decoded::Incomplete
                        } else {
                            let v = mag as usize;
                            let pend = body + v;
                            proof {
                                assert(v as int == dec_value(t));
                                assert(pend + 2 <= n);
                                assert(s.len() >= (body - pos) + v + 2);
                                assert(s[(body - pos) + v] == buf@[pend as int]);
                                assert(s[(body - pos) + v + 1] == buf@[pend + 1]);
                            }
                            if buf[pend] == CR && buf[pend + 1] == LF {
                                let payload = copy_range(buf, body, pend);
                                proof {
                                    assert(s.subrange((body - pos) as int, (body - pos) + v)
                                        =~= buf@.subrange(body as int, pend as int));
                                }
                                assert(parse_frame(s) == ParseOut::Got(
                                    FrameModel::Bulk(payload@),
                                    (pend + 2 - pos) as nat,
                                ));
                                Decoded::Complete(Frame::Bulk(payload), pend + 2)
                            } else {
                                Decoded::Malformed
                            }
                        }
                    },
                }
            },
            LineFind::More => Decoded::Incomplete,
            LineFind::Bad => Decoded::Malformed,
        }
    } else if tag == TAG_ARRAY {
        match find_line(buf, pos + 1) {
            LineFind::At(i) => {
                let ghost t = buf@.subrange(pos as int + 1, i as int);
                match scan_dec(buf, pos + 1, i) {
                    DecScan::NotDec => Decoded::Malformed,
                    DecScan::Num(neg, mag, big) => {
                        if neg {
                            assert(dec_value(t) < 0);
                            Decoded::Malformed
                        } else {
                            let body = i + 2;
                            let avail = n - body;
                            proof {
                                assert(dec_value(t) >= 0);
                                assert(1 + (i + 1 - pos) == body - pos);
                                assert(s.len() >= body - pos);
                                assert(buf@.skip(body as int).len() == avail);
                                assert(s.skip((body - pos) as int) =~= buf@.skip(body as int));
                            }
                            if big || mag > avail as u64 {
                                assert(dec_value(t) > avail);
                                Decoded::Incomplete
                            } else {
                                let cnt = mag as usize;
                                let ghost s0 = buf@.skip(body as int);
                                let ghost total = cnt as nat;
                                proof {
                                    assert(cnt as int == dec_value(t));
                                }
                                let mut items: Vec<Frame> = Vec::new();
                                let mut p: usize = body;
                                let mut j: usize = 0;
                                proof {
                                    lemma_prepend_empty(parse_items(s0, total));
                                    assert(models_of(items@) =~= Seq::<FrameModel>::empty());
                                    assert(parse_frame(s) == arr_result(
                                        (body - pos) as nat,
                                        parse_items(s0, total),
                                    ));
                                }
                                while j < cnt
                                    invariant
                                        j <= cnt,
                                        pos < body <= p <= n,
                                        n == buf@.len(),
                                        s == buf@.skip(pos as int),
                                        s0 == buf@.skip(body as int),
                                        total == cnt as nat,
                                        items@.len() == j,
                                        parse_frame(s) == arr_result(
                                            (body - pos) as nat,
                                            parse_items(s0, total),
                                        ),
                                        parse_items(s0, total) == items_prepend(
                                            models_of(items@),
                                            (p - body) as nat,
                                            parse_items(
                                                buf@.skip(p as int),
                                                (total - j) as nat,
                                            ),
                                        ),
                                    decreases cnt - j,
                                {
                                    let ghost ms = models_of(items@);
                                    let ghost sp = buf@.skip(p as int);
                                    match decode_at(buf, p) {
                                        Decoded::Complete(f, p2) => {
                                            proof {
                                                lemma_items_unfold(sp, (total - j) as nat);
                                                assert(sp.len() == n - p);
                                                assert(sp.skip((p2 - p) as int) =~= buf@.skip(
                                                    p2 as int));
                                                lemma_prepend_compose(
                                                    ms,
                                                    (p - body) as nat,
                                                    seq![f@],
                                                    (p2 - p) as nat,
                                                    parse_items(
                                                        buf@.skip(p2 as int),
                                                        (total - j - 1) as nat,
                                                    ),
                                                );
                                                lemma_models_of_push(items@, f);
                                                assert(ms.push(f@) =~= ms + seq![f@]);
                                            }
                                            items.push(f);
                                            p = p2;
                                            j = j + 1;
                                        },
                                        Decoded::Incomplete => {
                                            proof {
                                                lemma_items_unfold(sp, (total - j) as nat);
                                            }
                                            return Decoded::Incomplete;
                                        },
                                        Decoded::Malformed => {
                                            proof {
                                                lemma_items_unfold(sp, (total - j) as nat);
                                            }
                                            return Decoded::Malformed;
                                        },
                                    }
                                }
                                proof {
                                    assert(parse_items(buf@.skip(p as int), 0) == ItemsOut::Got(
                                        Seq::empty(),
                                        0,
                                    ));
                                    assert(models_of(items@) + Seq::<FrameModel>::empty()
                                        =~= models_of(items@));
                                    assert(parse_items(s0, total) == ItemsOut::Got(
                                        models_of(items@),
                                        (p - body) as nat,
                                    ));
                                }
                                assert(parse_frame(s) == ParseOut::Got(
                                    FrameModel::Array(models_of(items@)),
                                    (p - pos) as nat,
                                ));
                                Decoded::Complete(Frame::Array(items), p)
                            }
                        }
                    },
                }
            },
            LineFind::More => Decoded::Incomplete,
            LineFind::Bad => Decoded::Malformed,
        }
    } else {
        assert(parse_frame(s) == ParseOut::Corrupt);
        Decoded::Malformed
    }
}

/// Decodes at most one frame from the front of the bytes read so far. On
/// `Complete` the second component is the exact count of bytes the frame
/// occupied; the caller advances its buffer past them.
pub fn decode(buf: &Vec<u8>) -> (r: Decoded)
    ensures
        match r {
            Decoded::Complete(f, used) => 0 < used <= buf@.len() && parse_frame(buf@)
                == ParseOut::Got(f@, used as nat),
            Decoded::Incomplete => parse_frame(buf@) == ParseOut::NeedMore,
            Decoded::Malformed => parse_frame(buf@) == ParseOut::Corrupt,
        },
{
    proof {
        assert(buf@.skip(0) =~= buf@);
    }
    decode_at(buf, 0)
}

} // verus!
