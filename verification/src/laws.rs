//! Properties of the machine that hold across calls: decoding inverts
//! the canonical encoder, a suspension is idempotent and survives the
//! arrival of further bytes, the limits on length and depth are enforced,
//! and the wire forms for absent and present-empty values stay distinct
//! through an encode-decode round trip.

use vstd::prelude::*;
use crate::numbers::{acc_digits, is_signed_digits, lemma_acc_dec_digits, lemma_acc_digits_lower,
    lemma_acc_digits_val, lemma_digits_val_bound,
    lemma_dec_digits_are_digits, lemma_dec_digits_len, lemma_dec_digits_val,
    lemma_scan_digits_value, pow10, digits_val, scan_i64, signed_val, DigitScan};
use crate::parser::{is_null_literal, spec_build_aggregate, spec_dispatch, spec_find_crlf,
    spec_handle_bulk, spec_handle_error_line, spec_handle_index, spec_handle_integer,
    spec_handle_length, spec_handle_simple, spec_integer_line, spec_run, ErrorModel, FrameModel,
    RunResult, StateModel};
use crate::resp::{crlf, dec_digits, dec_i64, encode_elems, encode_pairs, line_form,
    spec_encode, ValueModel};
use crate::text::{has_cr_or_lf, is_big_number_text, is_digit, is_double_text};
use vstd::utf8::valid_utf8;

verus! {

/// The recoverable outcomes: feed more bytes and retry.
pub open spec fn is_suspension(e: ErrorModel) -> bool {
    e is UnexpectedEof || e is NotEnoughData
}

/// Suspension is idempotent: when a run ends with a recoverable
/// suspension, running the machine again on the same bytes, from the
/// state and stack the first run left, returns the same suspension and
/// leaves state and stack unchanged — with any amount of fuel. Through
/// the contract of `Parser::try_parse`, a second `try_parse` with no
/// intervening `read_buf` repeats the suspension and changes nothing.
pub proof fn lemma_suspension_idempotent(
    buf: Seq<u8>,
    ml: int,
    md: int,
    ap: bool,
    st: StateModel,
    sk: Seq<FrameModel>,
    fuel: nat,
    fuel2: nat,
)
    requires
        fuel2 >= 1,
        spec_run(buf, ml, md, ap, st, sk, fuel).result matches Err(e) && is_suspension(e),
    ensures
        ({
            let r1 = spec_run(buf, ml, md, ap, st, sk, fuel);
            spec_run(buf, ml, md, ap, r1.state, r1.stack, fuel2) == (RunResult {
                result: r1.result,
                state: r1.state,
                stack: r1.stack,
            })
        }),
    decreases fuel,
{
    let r1 = spec_run(buf, ml, md, ap, st, sk, fuel);
    if fuel == 0 {
        assert(!is_suspension(ErrorModel::InvalidFormat(
            "Maximum parsing iterations exceeded"@,
        )));
    } else if sk.len() > md {
        assert(!is_suspension(ErrorModel::InvalidDepth));
    } else {
        let step = spec_dispatch(buf, ml, ap, st, sk);
        match step.0 {
            StateModel::Complete(Some((v, pos))) => {
                if step.1.len() > 0 {
                    let top = step.1.last();
                    let elems2 = top.elements.push(v);
                    if elems2.len() < top.total {
                        lemma_suspension_idempotent(
                            buf,
                            ml,
                            md,
                            ap,
                            StateModel::Index { pos },
                            step.1.update(
                                step.1.len() - 1,
                                FrameModel {
                                    type_char: top.type_char,
                                    total: top.total,
                                    elements: elems2,
                                },
                            ),
                            (fuel - 1) as nat,
                            fuel2,
                        );
                    } else {
                        let agg = crate::parser::spec_build_aggregate(top.type_char, elems2);
                        let stack2 = step.1.drop_last();
                        if stack2.len() == 0 {
                        } else {
                            lemma_suspension_idempotent(
                                buf,
                                ml,
                                md,
                                ap,
                                StateModel::Complete(Some((agg, pos))),
                                stack2,
                                (fuel - 1) as nat,
                                fuel2,
                            );
                        }
                    }
                }
            },
            StateModel::Complete(None) => {},
            StateModel::Failed(e) => {
                assert(step.1 == sk) by {
                    if st is ReadingArray {
                        assert(step.0 is Index);
                    }
                }
            },
            _ => {
                lemma_suspension_idempotent(buf, ml, md, ap, step.0, step.1, (fuel - 1) as nat, fuel2);
            },
        }
    }
}


/// A fresh machine over exactly these bytes: cursor at the start, no
/// open aggregates, the standard fuel.
pub open spec fn decode_once(bytes: Seq<u8>, ml: int, md: int) -> Result<
    Option<ValueModel>,
    ErrorModel,
> {
    spec_run(bytes, ml, md, false, StateModel::Index { pos: 0 }, Seq::empty(), 1024).result
}

/// Absent and present-empty stay distinct through the wire: for each
/// nullable aggregate form, and for the bulk string, the absent value and
/// the present-empty value encode to different byte strings, and decoding
/// each encoding gives back exactly the value that produced it.
#[verifier::rlimit(100)]
#[verifier::spinoff_prover]
pub proof fn lemma_null_empty_distinct(ml: int, md: int)
    requires
        ml >= 1,
        md >= 0,
    ensures
        spec_encode(ValueModel::BulkString(None)) != spec_encode(
            ValueModel::BulkString(Some(Seq::empty())),
        ),
        spec_encode(ValueModel::Array(None)) != spec_encode(
            ValueModel::Array(Some(Seq::empty())),
        ),
        spec_encode(ValueModel::MapVal(None)) != spec_encode(
            ValueModel::MapVal(Some(Seq::empty())),
        ),
        spec_encode(ValueModel::SetVal(None)) != spec_encode(
            ValueModel::SetVal(Some(Seq::empty())),
        ),
        spec_encode(ValueModel::Push(None)) != spec_encode(
            ValueModel::Push(Some(Seq::empty())),
        ),
        decode_once(spec_encode(ValueModel::BulkString(None)), ml, md) == Ok::<
            Option<ValueModel>,
            ErrorModel,
        >(Some(ValueModel::BulkString(None))),
        decode_once(spec_encode(ValueModel::BulkString(Some(Seq::empty()))), ml, md) == Ok::<
            Option<ValueModel>,
            ErrorModel,
        >(Some(ValueModel::BulkString(Some(Seq::empty())))),
        decode_once(spec_encode(ValueModel::Array(None)), ml, md) == Ok::<
            Option<ValueModel>,
            ErrorModel,
        >(Some(ValueModel::Array(None))),
        decode_once(spec_encode(ValueModel::Array(Some(Seq::empty()))), ml, md) == Ok::<
            Option<ValueModel>,
            ErrorModel,
        >(Some(ValueModel::Array(Some(Seq::empty())))),
        decode_once(spec_encode(ValueModel::MapVal(None)), ml, md) == Ok::<
            Option<ValueModel>,
            ErrorModel,
        >(Some(ValueModel::MapVal(None))),
        decode_once(spec_encode(ValueModel::MapVal(Some(Seq::empty()))), ml, md) == Ok::<
            Option<ValueModel>,
            ErrorModel,
        >(Some(ValueModel::MapVal(Some(Seq::empty())))),
        decode_once(spec_encode(ValueModel::SetVal(None)), ml, md) == Ok::<
            Option<ValueModel>,
            ErrorModel,
        >(Some(ValueModel::SetVal(None))),
        decode_once(spec_encode(ValueModel::SetVal(Some(Seq::empty()))), ml, md) == Ok::<
            Option<ValueModel>,
            ErrorModel,
        >(Some(ValueModel::SetVal(Some(Seq::empty())))),
        decode_once(spec_encode(ValueModel::Push(None)), ml, md) == Ok::<
            Option<ValueModel>,
            ErrorModel,
        >(Some(ValueModel::Push(None))),
        decode_once(spec_encode(ValueModel::Push(Some(Seq::empty()))), ml, md) == Ok::<
            Option<ValueModel>,
            ErrorModel,
        >(Some(ValueModel::Push(Some(Seq::empty())))),
{
    assert(spec_encode(ValueModel::BulkString(None)) =~= seq![36u8, 45u8, 49u8, 13u8, 10u8]);
    assert(spec_encode(ValueModel::Array(None)) =~= seq![42u8, 45u8, 49u8, 13u8, 10u8]);
    assert(spec_encode(ValueModel::MapVal(None)) =~= seq![37u8, 45u8, 49u8, 13u8, 10u8]);
    assert(spec_encode(ValueModel::SetVal(None)) =~= seq![126u8, 45u8, 49u8, 13u8, 10u8]);
    assert(spec_encode(ValueModel::Push(None)) =~= seq![62u8, 45u8, 49u8, 13u8, 10u8]);
    assert(spec_encode(ValueModel::BulkString(Some(Seq::empty()))) =~= seq![
        36u8,
        48u8,
        13u8,
        10u8,
        13u8,
        10u8,
    ]);
    assert(spec_encode(ValueModel::Array(Some(Seq::empty()))) =~= seq![42u8, 48u8, 13u8, 10u8]);
    assert(spec_encode(ValueModel::MapVal(Some(Seq::empty()))) =~= seq![
        37u8,
        48u8,
        13u8,
        10u8,
    ]);
    assert(spec_encode(ValueModel::SetVal(Some(Seq::empty()))) =~= seq![
        126u8,
        48u8,
        13u8,
        10u8,
    ]);
    assert(spec_encode(ValueModel::Push(Some(Seq::empty()))) =~= seq![62u8, 48u8, 13u8, 10u8]);
    let forms = seq![
        ValueModel::BulkString(None),
        ValueModel::BulkString(Some(Seq::empty())),
        ValueModel::Array(None),
        ValueModel::Array(Some(Seq::empty())),
        ValueModel::MapVal(None),
        ValueModel::MapVal(Some(Seq::empty())),
        ValueModel::SetVal(None),
        ValueModel::SetVal(Some(Seq::empty())),
        ValueModel::Push(None),
        ValueModel::Push(Some(Seq::empty())),
    ];
    assert forall|q: int| 0 <= q < forms.len() implies decode_once(
        spec_encode(#[trigger] forms[q]),
        ml,
        md,
    ) == Ok::<Option<ValueModel>, ErrorModel>(Some(forms[q])) by {
        let v = forms[q];
        lemma_round_trip(v, ml, md, false, Seq::empty());
        assert(spec_encode(v) + Seq::<u8>::empty() =~= spec_encode(v));
    }
}


/// Whether `s` holds a CR immediately followed by an LF.
pub open spec fn has_crlf_pair(s: Seq<u8>) -> bool {
    exists|i: int| 0 <= i && i + 1 < s.len() && #[trigger] s[i] == 13 && s[i + 1] == 10
}

/// A well-formed value: one whose canonical encoding decodes back to it.
/// Texts carry what their variant's grammar demands; payload and element
/// counts fit a signed 64-bit length; the `-1` literal, which the wire
/// reserves for absence, does not occur as a payload.
pub open spec fn wf_value(v: ValueModel, ml: int) -> bool
    decreases v, 0int, 0int,
{
    match v {
        ValueModel::SimpleString(s) => !has_cr_or_lf(s),
        ValueModel::Error(s) => !has_cr_or_lf(s),
        ValueModel::Integer(_) => true,
        ValueModel::BulkString(None) => true,
        ValueModel::BulkString(Some(s)) => s.len() < ml && s.len() <= i64::MAX && valid_utf8(s),
        ValueModel::Array(None) => true,
        ValueModel::Array(Some(es)) => es.len() <= i64::MAX && wf_elems(es, 0, ml),
        ValueModel::Null => true,
        ValueModel::Boolean(_) => true,
        ValueModel::Double(t) => is_double_text(t) && valid_utf8(t) && !has_cr_or_lf(t),
        ValueModel::BigNumber(t) => is_big_number_text(t),
        ValueModel::BulkError(None) => true,
        ValueModel::BulkError(Some(t)) => valid_utf8(t) && !has_crlf_pair(t) && !is_null_literal(
            t,
        ),
        ValueModel::VerbatimString(None) => true,
        ValueModel::VerbatimString(Some(t)) => valid_utf8(t) && !has_crlf_pair(t)
            && !is_null_literal(t),
        ValueModel::MapVal(None) => true,
        ValueModel::MapVal(Some(ps)) => ps.len() <= i64::MAX && wf_pairs(ps, 0, ml),
        ValueModel::SetVal(None) => true,
        ValueModel::SetVal(Some(es)) => es.len() <= i64::MAX && wf_elems(es, 0, ml),
        ValueModel::Push(None) => true,
        ValueModel::Push(Some(es)) => es.len() <= i64::MAX && wf_elems(es, 0, ml),
    }
}

/// All of `es[i..]` are well formed.
pub open spec fn wf_elems(es: Seq<ValueModel>, i: int, ml: int) -> bool
    decreases es, 1int, es.len() - i,
{
    i >= es.len() || i < 0 || (wf_value(es[i], ml) && wf_elems(es, i + 1, ml))
}

/// All keys and values of `ps[i..]` are well formed.
pub open spec fn wf_pairs(ps: Seq<(ValueModel, ValueModel)>, i: int, ml: int) -> bool
    decreases ps, 1int, ps.len() - i,
{
    i >= ps.len() || i < 0 || (wf_value(ps[i].0, ml) && wf_value(ps[i].1, ml) && wf_pairs(
        ps,
        i + 1,
        ml,
    ))
}

/// Whether the value's aggregate nesting fits in `b` additional stack
/// frames. Absent and empty aggregates open no frame.
pub open spec fn fits_depth(v: ValueModel, b: int) -> bool
    decreases v, 0int, 0int,
{
    match v {
        ValueModel::Array(Some(es)) => es.len() == 0 || (b >= 1 && elems_fit_depth(es, 0, b - 1)),
        ValueModel::MapVal(Some(ps)) => ps.len() == 0 || (b >= 1 && pairs_fit_depth(
            ps,
            0,
            b - 1,
        )),
        ValueModel::SetVal(Some(es)) => es.len() == 0 || (b >= 1 && elems_fit_depth(
            es,
            0,
            b - 1,
        )),
        ValueModel::Push(Some(es)) => es.len() == 0 || (b >= 1 && elems_fit_depth(es, 0, b - 1)),
        _ => true,
    }
}

pub open spec fn elems_fit_depth(es: Seq<ValueModel>, i: int, b: int) -> bool
    decreases es, 1int, es.len() - i,
{
    i >= es.len() || i < 0 || (fits_depth(es[i], b) && elems_fit_depth(es, i + 1, b))
}

pub open spec fn pairs_fit_depth(ps: Seq<(ValueModel, ValueModel)>, i: int, b: int) -> bool
    decreases ps, 1int, ps.len() - i,
{
    i >= ps.len() || i < 0 || (fits_depth(ps[i].0, b) && fits_depth(ps[i].1, b)
        && pairs_fit_depth(ps, i + 1, b))
}

/// The machine transitions spent between standing at a value's first byte
/// and the dispatch that completes the value.
pub open spec fn cost_of(v: ValueModel) -> int
    decreases v, 0int, 0int,
{
    match v {
        ValueModel::SimpleString(_) => 1,
        ValueModel::Error(_) => 1,
        ValueModel::Integer(_) => 1,
        ValueModel::BulkString(None) => 3,
        ValueModel::BulkString(Some(s)) => if s.len() == 0 {
            2
        } else {
            dec_digits(s.len()).len() as int + 2
        },
        ValueModel::Array(None) => 3,
        ValueModel::Array(Some(es)) => if es.len() == 0 {
            2
        } else {
            dec_digits(es.len()).len() as int + 3 + elems_cost(es, 0)
        },
        ValueModel::Null => 0,
        ValueModel::Boolean(_) => 0,
        ValueModel::Double(_) => 0,
        ValueModel::BigNumber(_) => 0,
        ValueModel::BulkError(_) => 0,
        ValueModel::VerbatimString(_) => 0,
        ValueModel::MapVal(None) => 3,
        ValueModel::MapVal(Some(ps)) => if ps.len() == 0 {
            2
        } else {
            dec_digits(ps.len()).len() as int + 3 + pairs_cost(ps, 0)
        },
        ValueModel::SetVal(None) => 3,
        ValueModel::SetVal(Some(es)) => if es.len() == 0 {
            2
        } else {
            dec_digits(es.len()).len() as int + 3 + elems_cost(es, 0)
        },
        ValueModel::Push(None) => 3,
        ValueModel::Push(Some(es)) => if es.len() == 0 {
            2
        } else {
            dec_digits(es.len()).len() as int + 3 + elems_cost(es, 0)
        },
    }
}

/// The transitions spent on the children `es[i..]`, one fold apiece.
pub open spec fn elems_cost(es: Seq<ValueModel>, i: int) -> int
    decreases es, 1int, es.len() - i,
{
    if i < 0 || i >= es.len() {
        0
    } else {
        cost_of(es[i]) + 1 + elems_cost(es, i + 1)
    }
}

/// The transitions spent on the pairs `ps[i..]`, key then value.
pub open spec fn pairs_cost(ps: Seq<(ValueModel, ValueModel)>, i: int) -> int
    decreases ps, 1int, ps.len() - i,
{
    if i < 0 || i >= ps.len() {
        0
    } else {
        cost_of(ps[i].0) + 1 + cost_of(ps[i].1) + 1 + pairs_cost(ps, i + 1)
    }
}

/// In a stretch with no CRLF pair, closed by one, the scan finds exactly
/// that closing pair.
proof fn lemma_crlf_at(buf: Seq<u8>, start: int, line_len: int)
    requires
        0 <= start,
        0 <= line_len,
        start + line_len + 2 <= buf.len(),
        forall|i: int|
            start <= i < start + line_len ==> !(#[trigger] buf[i] == 13 && buf[i + 1] == 10),
        buf[start + line_len] == 13,
        buf[start + line_len + 1] == 10,
    ensures
        spec_find_crlf(buf, start) == Some(start + line_len),
    decreases line_len,
{
    if line_len > 0 {
        lemma_crlf_at(buf, start + 1, line_len - 1);
    }
}

/// Running the machine through a block of digits accumulates their value
/// onto the length prefix.
proof fn lemma_run_digits(
    buf: Seq<u8>,
    ml: int,
    md: int,
    ap: bool,
    sk: Seq<FrameModel>,
    pos: int,
    end: int,
    acc: i64,
    tc: u8,
    fuel: nat,
)
    requires
        0 <= pos <= end <= buf.len(),
        forall|i: int| pos <= i < end ==> is_digit(#[trigger] buf[i]),
        0 <= acc,
        acc_digits(buf, pos, end, acc as int) <= i64::MAX,
        fuel >= end - pos,
        sk.len() <= md,
    ensures
        spec_run(
            buf,
            ml,
            md,
            ap,
            StateModel::ReadingLength { pos, value: acc, negative: false, type_char: tc },
            sk,
            fuel,
        ) == spec_run(
            buf,
            ml,
            md,
            ap,
            StateModel::ReadingLength {
                pos: end,
                value: acc_digits(buf, pos, end, acc as int) as i64,
                negative: false,
                type_char: tc,
            },
            sk,
            (fuel - (end - pos)) as nat,
        ),
    decreases end - pos,
{
    if pos < end {
        let d = (buf[pos] - 48) as int;
        assert(is_digit(buf[pos]));
        let next = (acc as int) * 10 + d;
        assert(acc_digits(buf, pos, end, acc as int) == acc_digits(buf, pos + 1, end, next));
        lemma_acc_digits_lower(buf, pos + 1, end, next);
        assert(0 <= next && next <= i64::MAX);
        assert(spec_handle_length(buf, ml, pos, acc, false, tc) == (StateModel::ReadingLength {
            pos: pos + 1,
            value: next as i64,
            negative: false,
            type_char: tc,
        }));
        lemma_run_digits(buf, ml, md, ap, sk, pos + 1, end, next as i64, tc, (fuel - 1) as nat);
    }
}


/// The bytes a line-framed encoding lays down at `pos`.
proof fn lemma_line_placement(buf: Seq<u8>, pos: int, marker: u8, payload: Seq<u8>)
    requires
        0 <= pos,
        pos + payload.len() + 3 <= buf.len(),
        buf.subrange(pos, pos + payload.len() + 3) == line_form(marker, payload),
    ensures
        buf[pos] == marker,
        forall|i: int| 0 <= i < payload.len() ==> #[trigger] buf[pos + 1 + i] == payload[i],
        buf[pos + 1 + payload.len()] == 13,
        buf[pos + 2 + payload.len()] == 10,
{
    let w = buf.subrange(pos, pos + payload.len() + 3);
    assert(w[0] == buf[pos]);
    assert(line_form(marker, payload)[0] == marker);
    assert forall|i: int| 0 <= i < payload.len() implies #[trigger] buf[pos + 1 + i]
        == payload[i] by {
        assert(w[1 + i] == buf[pos + 1 + i]);
        assert(line_form(marker, payload)[1 + i] == payload[i]);
    }
    assert(w[1 + payload.len() as int] == buf[pos + 1 + payload.len()]);
    assert(line_form(marker, payload)[1 + payload.len() as int] == 13);
    assert(w[2 + payload.len() as int] == buf[pos + 2 + payload.len()]);
    assert(line_form(marker, payload)[2 + payload.len() as int] == 10);
}

/// Reading the line of a line-framed encoding finds its own terminator
/// and yields its payload.
proof fn lemma_line_at(buf: Seq<u8>, pos: int, marker: u8, payload: Seq<u8>)
    requires
        0 <= pos,
        pos + payload.len() + 3 <= buf.len(),
        buf.subrange(pos, pos + payload.len() + 3) == line_form(marker, payload),
        !has_crlf_pair(payload),
    ensures
        buf[pos] == marker,
        spec_find_crlf(buf, pos + 1) == Some(pos + 1 + payload.len()),
        buf.subrange(pos + 1, pos + 1 + payload.len()) == payload,
{
    lemma_line_placement(buf, pos, marker, payload);
    assert forall|i: int|
        pos + 1 <= i < pos + 1 + payload.len() implies !(#[trigger] buf[i] == 13 && buf[i + 1]
        == 10) by {
        let j = i - (pos + 1);
        assert(buf[pos + 1 + j] == payload[j]);
        if j + 1 < payload.len() {
            assert(buf[pos + 1 + (j + 1)] == payload[j + 1]);
            if buf[i] == 13 && buf[i + 1] == 10 {
                assert(payload[j] == 13 && payload[j + 1] == 10);
                assert(has_crlf_pair(payload));
            }
        } else {
            assert(buf[pos + 1 + payload.len()] == 13);
        }
    }
    lemma_crlf_at(buf, pos + 1, payload.len() as int);
    let lw = buf.subrange(pos + 1, pos + 1 + payload.len());
    assert forall|j: int| 0 <= j < payload.len() implies lw[j] == payload[j] by {
        assert(lw[j] == buf[pos + 1 + j]);
        assert(buf[pos + 1 + j] == payload[j]);
    }
    assert(lw =~= payload);
}

/// Two states whose dispatch completes the same value run identically.
proof fn lemma_runs_join(
    buf: Seq<u8>,
    ml: int,
    md: int,
    ap: bool,
    st1: StateModel,
    st2: StateModel,
    sk: Seq<FrameModel>,
    fuel: nat,
)
    requires
        sk.len() <= md,
        fuel >= 1,
        spec_dispatch(buf, ml, ap, st1, sk) == spec_dispatch(buf, ml, ap, st2, sk),
        spec_dispatch(buf, ml, ap, st1, sk).0 matches StateModel::Complete(Some(_)),
    ensures
        spec_run(buf, ml, md, ap, st1, sk, fuel) == spec_run(buf, ml, md, ap, st2, sk, fuel),
{
}

/// One non-completing, non-failing transition costs one unit of fuel.
proof fn lemma_run_step(
    buf: Seq<u8>,
    ml: int,
    md: int,
    ap: bool,
    st: StateModel,
    sk: Seq<FrameModel>,
    fuel: nat,
)
    requires
        sk.len() <= md,
        fuel >= 1,
        !(spec_dispatch(buf, ml, ap, st, sk).0 is Complete),
        !(spec_dispatch(buf, ml, ap, st, sk).0 is Failed),
    ensures
        spec_run(buf, ml, md, ap, st, sk, fuel) == spec_run(
            buf,
            ml,
            md,
            ap,
            spec_dispatch(buf, ml, ap, st, sk).0,
            spec_dispatch(buf, ml, ap, st, sk).1,
            (fuel - 1) as nat,
        ),
{
}


/// Decoding `_\r\n` at `pos` completes `Null` there.
proof fn lemma_parse_null_value(
    buf: Seq<u8>,
    ml: int,
    md: int,
    ap: bool,
    sk: Seq<FrameModel>,
    pos: int,
    fuel: nat,
)
    requires
        sk.len() <= md,
        fuel >= 1,
        0 <= pos,
        pos + 3 <= buf.len(),
        buf.subrange(pos, pos + 3) == spec_encode(ValueModel::Null),
    ensures
        spec_run(buf, ml, md, ap, StateModel::Index { pos }, sk, fuel) == spec_run(
            buf,
            ml,
            md,
            ap,
            StateModel::Complete(Some((ValueModel::Null, pos + 3))),
            sk,
            fuel,
        ),
{
    let w = buf.subrange(pos, pos + 3);
    assert(spec_encode(ValueModel::Null) =~= seq![95u8, 13u8, 10u8]);
    assert(buf[pos] == w[0] && buf[pos + 1] == w[1] && buf[pos + 2] == w[2]);
    assert(spec_handle_index(buf, pos) == StateModel::Complete(
        Some((ValueModel::Null, pos + 3)),
    ));
    lemma_runs_join(
        buf,
        ml,
        md,
        ap,
        StateModel::Index { pos },
        StateModel::Complete(Some((ValueModel::Null, pos + 3))),
        sk,
        fuel,
    );
}

/// Decoding `#t\r\n` or `#f\r\n` at `pos` completes the boolean there.
proof fn lemma_parse_boolean(
    buf: Seq<u8>,
    ml: int,
    md: int,
    ap: bool,
    sk: Seq<FrameModel>,
    pos: int,
    b: bool,
    fuel: nat,
)
    requires
        sk.len() <= md,
        fuel >= 1,
        0 <= pos,
        pos + 4 <= buf.len(),
        buf.subrange(pos, pos + 4) == spec_encode(ValueModel::Boolean(b)),
    ensures
        spec_run(buf, ml, md, ap, StateModel::Index { pos }, sk, fuel) == spec_run(
            buf,
            ml,
            md,
            ap,
            StateModel::Complete(Some((ValueModel::Boolean(b), pos + 4))),
            sk,
            fuel,
        ),
{
    let w = buf.subrange(pos, pos + 4);
    assert(spec_encode(ValueModel::Boolean(b)) =~= seq![
        35u8,
        if b {
            116u8
        } else {
            102u8
        },
        13u8,
        10u8,
    ]);
    assert(buf[pos] == w[0] && buf[pos + 1] == w[1] && buf[pos + 2] == w[2] && buf[pos + 3]
        == w[3]);
    assert(spec_handle_index(buf, pos) == StateModel::Complete(
        Some((ValueModel::Boolean(b), pos + 4)),
    ));
    lemma_runs_join(
        buf,
        ml,
        md,
        ap,
        StateModel::Index { pos },
        StateModel::Complete(Some((ValueModel::Boolean(b), pos + 4))),
        sk,
        fuel,
    );
}

/// A payload free of CR and LF holds no CRLF pair.
proof fn lemma_no_cr_lf_no_pair(s: Seq<u8>)
    requires
        !has_cr_or_lf(s),
    ensures
        !has_crlf_pair(s),
{
    if has_crlf_pair(s) {
        let i = choose|i: int| 0 <= i && i + 1 < s.len() && #[trigger] s[i] == 13 && s[i + 1]
            == 10;
        assert(has_cr_or_lf(s));
    }
}

/// Decoding a line-framed variant at `pos` completes its value there: a
/// double, a big number, a bulk error or a verbatim string, absent when
/// the payload is the `-1` literal.
proof fn lemma_parse_line_variant(
    buf: Seq<u8>,
    ml: int,
    md: int,
    ap: bool,
    sk: Seq<FrameModel>,
    pos: int,
    v: ValueModel,
    fuel: nat,
)
    requires
        sk.len() <= md,
        fuel >= 1,
        0 <= pos,
        v is Double || v is BigNumber || v is BulkError || v is VerbatimString,
        wf_value(v, ml),
        pos + spec_encode(v).len() <= buf.len(),
        buf.subrange(pos, pos + spec_encode(v).len()) == spec_encode(v),
    ensures
        spec_run(buf, ml, md, ap, StateModel::Index { pos }, sk, fuel) == spec_run(
            buf,
            ml,
            md,
            ap,
            StateModel::Complete(Some((v, pos + spec_encode(v).len()))),
            sk,
            fuel,
        ),
{
    let marker: u8 = match v {
        ValueModel::Double(_) => 44,
        ValueModel::BigNumber(_) => 40,
        ValueModel::BulkError(_) => 33,
        _ => 61,
    };
    let payload: Seq<u8> = match v {
        ValueModel::Double(t) => t,
        ValueModel::BigNumber(t) => t,
        ValueModel::BulkError(p) => match p {
            Some(t) => t,
            None => seq![45u8, 49u8],
        },
        ValueModel::VerbatimString(p) => match p {
            Some(t) => t,
            None => seq![45u8, 49u8],
        },
        _ => Seq::empty(),
    };
    let le = pos + spec_encode(v).len();
    assert(spec_encode(v) =~= line_form(marker, payload));
    assert(spec_encode(v).len() == payload.len() + 3);
    match v {
        ValueModel::Double(t) => {
            lemma_no_cr_lf_no_pair(t);
        },
        ValueModel::BigNumber(t) => {
            assert(!has_crlf_pair(t)) by {
                if has_crlf_pair(t) {
                    let i = choose|i: int|
                        0 <= i && i + 1 < t.len() && #[trigger] t[i] == 13 && t[i + 1] == 10;
                    assert(is_digit(t[i]) || (i == 0 && t[i] == 45));
                }
            }
        },
        ValueModel::BulkError(p) => {
            if p is Some {
                let t = p->0;
                assert(!has_crlf_pair(t)) by {
                    if has_crlf_pair(t) {
                        let i = choose|i: int|
                            0 <= i && i + 1 < t.len() && #[trigger] t[i] == 13 && t[i + 1] == 10;
                    }
                }
            } else {
                assert(!has_crlf_pair(seq![45u8, 49u8]));
            }
        },
        ValueModel::VerbatimString(p) => {
            if p is None {
                assert(!has_crlf_pair(seq![45u8, 49u8]));
            }
        },
        _ => {},
    }
    assert(!has_crlf_pair(payload)) by {
        if has_crlf_pair(payload) {
            let i = choose|i: int|
                0 <= i && i + 1 < payload.len() && #[trigger] payload[i] == 13 && payload[i + 1]
                == 10;
            match v {
                ValueModel::Double(t) => {
                    assert(has_cr_or_lf(t));
                },
                ValueModel::BigNumber(t) => {
                    assert(is_digit(t[i]) || (i == 0 && t[i] == 45));
                },
                ValueModel::BulkError(p) => {
                    if p is Some {
                    } else {
                        assert(payload[0] == 45 && payload[1] == 49);
                    }
                },
                ValueModel::VerbatimString(p) => {
                    if p is Some {
                    } else {
                        assert(payload[0] == 45 && payload[1] == 49);
                    }
                },
                _ => {},
            }
        }
    }
    lemma_line_at(buf, pos, marker, payload);
    let end = pos + 1 + payload.len();
    assert(buf.subrange(pos + 1, end) == payload);
    assert(is_null_literal(seq![45u8, 49u8]));
    assert(spec_handle_index(buf, pos) == StateModel::Complete(Some((v, le))));
    lemma_runs_join(
        buf,
        ml,
        md,
        ap,
        StateModel::Index { pos },
        StateModel::Complete(Some((v, le))),
        sk,
        fuel,
    );
}

/// Decoding a simple string or an error at `pos` completes it there, one
/// transition in.
proof fn lemma_parse_simple_or_error(
    buf: Seq<u8>,
    ml: int,
    md: int,
    ap: bool,
    sk: Seq<FrameModel>,
    pos: int,
    v: ValueModel,
    fuel: nat,
)
    requires
        sk.len() <= md,
        fuel >= 2,
        0 <= pos,
        v is SimpleString || v is Error,
        wf_value(v, ml),
        pos + spec_encode(v).len() <= buf.len(),
        buf.subrange(pos, pos + spec_encode(v).len()) == spec_encode(v),
    ensures
        spec_run(buf, ml, md, ap, StateModel::Index { pos }, sk, fuel) == spec_run(
            buf,
            ml,
            md,
            ap,
            StateModel::Complete(Some((v, pos + spec_encode(v).len()))),
            sk,
            (fuel - 1) as nat,
        ),
{
    let marker: u8 = if v is SimpleString {
        43
    } else {
        45
    };
    let s: Seq<u8> = match v {
        ValueModel::SimpleString(t) => t,
        ValueModel::Error(t) => t,
        _ => Seq::empty(),
    };
    let le = pos + spec_encode(v).len();
    assert(spec_encode(v) =~= line_form(marker, s));
    assert(spec_encode(v).len() == s.len() + 3);
    lemma_no_cr_lf_no_pair(s);
    lemma_line_at(buf, pos, marker, s);
    assert(spec_handle_index(buf, pos) == if v is SimpleString {
        StateModel::ReadingSimpleString { pos: pos + 1 }
    } else {
        StateModel::ReadingError { pos: pos + 1 }
    });
    let mid = spec_handle_index(buf, pos);
    lemma_run_step(buf, ml, md, ap, StateModel::Index { pos }, sk, fuel);
    let end = pos + 1 + s.len();
    assert(buf.subrange(pos + 1, end) == s);
    if v is SimpleString {
        assert(spec_handle_simple(buf, pos + 1) == StateModel::Complete(Some((v, le))));
    } else {
        assert(spec_handle_error_line(buf, pos + 1) == StateModel::Complete(Some((v, le))));
    }
    lemma_runs_join(
        buf,
        ml,
        md,
        ap,
        mid,
        StateModel::Complete(Some((v, le))),
        sk,
        (fuel - 1) as nat,
    );
}


/// The bytes a count-prefixed encoding lays down at `pos`: marker, the
/// decimal digits of the count, CRLF, then the rest.
proof fn lemma_prefix_placement(buf: Seq<u8>, pos: int, marker: u8, n: nat, tail: Seq<u8>)
    requires
        0 <= pos,
        pos + 3 + dec_digits(n).len() + tail.len() <= buf.len(),
        buf.subrange(pos, pos + 3 + dec_digits(n).len() + tail.len()) == seq![marker]
            + dec_digits(n) + crlf() + tail,
    ensures
        buf[pos] == marker,
        forall|j: int|
            0 <= j < dec_digits(n).len() ==> #[trigger] buf[pos + 1 + j] == dec_digits(n)[j],
        buf[pos + 1 + dec_digits(n).len()] == 13,
        buf[pos + 2 + dec_digits(n).len()] == 10,
        forall|j: int|
            0 <= j < tail.len() ==> #[trigger] buf[pos + 3 + dec_digits(n).len() + j] == tail[j],
{
    let k = dec_digits(n).len() as int;
    let e = seq![marker] + dec_digits(n) + crlf() + tail;
    let w = buf.subrange(pos, pos + 3 + k + tail.len());
    assert(w[0] == buf[pos] && e[0] == marker);
    assert forall|j: int| 0 <= j < k implies #[trigger] buf[pos + 1 + j] == dec_digits(n)[j] by {
        assert(w[1 + j] == buf[pos + 1 + j]);
        assert(e[1 + j] == dec_digits(n)[j]);
    }
    assert(w[1 + k] == buf[pos + 1 + k] && e[1 + k] == 13);
    assert(w[2 + k] == buf[pos + 2 + k] && e[2 + k] == 10);
    assert forall|j: int| 0 <= j < tail.len() implies #[trigger] buf[pos + 3 + k + j]
        == tail[j] by {
        assert(w[3 + k + j] == buf[pos + 3 + k + j]);
        assert(e[3 + k + j] == tail[j]);
    }
}

/// Decoding the absent form `marker` `-1` CRLF at `pos` completes the
/// absent value, three transitions in.
proof fn lemma_parse_null_form(
    buf: Seq<u8>,
    ml: int,
    md: int,
    ap: bool,
    sk: Seq<FrameModel>,
    pos: int,
    v: ValueModel,
    fuel: nat,
)
    requires
        sk.len() <= md,
        fuel >= 4,
        0 <= pos,
        v == ValueModel::BulkString(None) || v == ValueModel::Array(None) || v
            == ValueModel::MapVal(None) || v == ValueModel::SetVal(None) || v
            == ValueModel::Push(None),
        pos + 5 <= buf.len(),
        buf.subrange(pos, pos + 5) == spec_encode(v),
    ensures
        spec_run(buf, ml, md, ap, StateModel::Index { pos }, sk, fuel) == spec_run(
            buf,
            ml,
            md,
            ap,
            StateModel::Complete(Some((v, pos + 5))),
            sk,
            (fuel - 3) as nat,
        ),
{
    let marker: u8 = match v {
        ValueModel::BulkString(_) => 36,
        ValueModel::Array(_) => 42,
        ValueModel::MapVal(_) => 37,
        ValueModel::SetVal(_) => 126,
        _ => 62,
    };
    let w = buf.subrange(pos, pos + 5);
    assert(spec_encode(v) =~= seq![marker, 45u8, 49u8, 13u8, 10u8]);
    assert(buf[pos] == w[0] && buf[pos + 1] == w[1] && buf[pos + 2] == w[2] && buf[pos + 3]
        == w[3] && buf[pos + 4] == w[4]);
    let s1 = StateModel::ReadingLength { pos: pos + 1, value: 0i64, negative: false, type_char: marker };
    let s2 = StateModel::ReadingLength { pos: pos + 2, value: 0i64, negative: true, type_char: marker };
    let s3 = StateModel::ReadingLength {
        pos: pos + 3,
        value: (-1) as i64,
        negative: true,
        type_char: marker,
    };
    assert(spec_handle_index(buf, pos) == s1);
    lemma_run_step(buf, ml, md, ap, StateModel::Index { pos }, sk, fuel);
    assert(spec_handle_length(buf, ml, pos + 1, 0i64, false, marker) == s2);
    lemma_run_step(buf, ml, md, ap, s1, sk, (fuel - 1) as nat);
    assert(spec_handle_length(buf, ml, pos + 2, 0i64, true, marker) == s3);
    lemma_run_step(buf, ml, md, ap, s2, sk, (fuel - 2) as nat);
    assert(spec_handle_length(buf, ml, pos + 3, (-1) as i64, true, marker)
        == StateModel::Complete(Some((v, pos + 5))));
    lemma_runs_join(
        buf,
        ml,
        md,
        ap,
        s3,
        StateModel::Complete(Some((v, pos + 5))),
        sk,
        (fuel - 3) as nat,
    );
}

/// Decoding `marker` `0` CRLF at `pos` — with a second CRLF for the bulk
/// string — completes the present-empty value, two transitions in.
#[verifier::rlimit(100)]
#[verifier::spinoff_prover]
proof fn lemma_parse_empty_form(
    buf: Seq<u8>,
    ml: int,
    md: int,
    ap: bool,
    sk: Seq<FrameModel>,
    pos: int,
    v: ValueModel,
    fuel: nat,
)
    requires
        sk.len() <= md,
        fuel >= 3,
        0 <= pos,
        v == ValueModel::BulkString(Some(Seq::empty())) || v == ValueModel::Array(
            Some(Seq::empty()),
        ) || v == ValueModel::MapVal(Some(Seq::empty())) || v == ValueModel::SetVal(
            Some(Seq::empty()),
        ) || v == ValueModel::Push(Some(Seq::empty())),
        pos + spec_encode(v).len() <= buf.len(),
        buf.subrange(pos, pos + spec_encode(v).len()) == spec_encode(v),
    ensures
        spec_run(buf, ml, md, ap, StateModel::Index { pos }, sk, fuel) == spec_run(
            buf,
            ml,
            md,
            ap,
            StateModel::Complete(Some((v, pos + spec_encode(v).len()))),
            sk,
            (fuel - 2) as nat,
        ),
{
    let marker: u8 = match v {
        ValueModel::BulkString(_) => 36,
        ValueModel::Array(_) => 42,
        ValueModel::MapVal(_) => 37,
        ValueModel::SetVal(_) => 126,
        _ => 62,
    };
    let le = pos + spec_encode(v).len();
    if v == ValueModel::BulkString(Some(Seq::<u8>::empty())) {
        assert(spec_encode(v) =~= seq![36u8, 48u8, 13u8, 10u8, 13u8, 10u8]);
        let w = buf.subrange(pos, pos + 6);
        assert(buf[pos] == w[0] && buf[pos + 1] == w[1] && buf[pos + 2] == w[2] && buf[pos + 3]
            == w[3] && buf[pos + 4] == w[4] && buf[pos + 5] == w[5]);
    } else {
        assert(spec_encode(v) =~= seq![marker, 48u8, 13u8, 10u8]);
        let w = buf.subrange(pos, pos + 4);
        assert(buf[pos] == w[0] && buf[pos + 1] == w[1] && buf[pos + 2] == w[2] && buf[pos + 3]
            == w[3]);
    }
    let s1 = StateModel::ReadingLength { pos: pos + 1, value: 0i64, negative: false, type_char: marker };
    let s2 = StateModel::ReadingLength { pos: pos + 2, value: 0i64, negative: false, type_char: marker };
    assert(spec_handle_index(buf, pos) == s1);
    lemma_run_step(buf, ml, md, ap, StateModel::Index { pos }, sk, fuel);
    assert(spec_handle_length(buf, ml, pos + 1, 0i64, false, marker) == s2);
    lemma_run_step(buf, ml, md, ap, s1, sk, (fuel - 1) as nat);
    assert(spec_handle_length(buf, ml, pos + 2, 0i64, false, marker) == StateModel::Complete(
        Some((v, le)),
    ));
    lemma_runs_join(buf, ml, md, ap, s2, StateModel::Complete(Some((v, le))), sk, (fuel
        - 2) as nat);
}


/// Decoding `:` digits CRLF at `pos` completes the integer there, one
/// transition in.
proof fn lemma_parse_integer_value(
    buf: Seq<u8>,
    ml: int,
    md: int,
    ap: bool,
    sk: Seq<FrameModel>,
    pos: int,
    i: i64,
    fuel: nat,
)
    requires
        sk.len() <= md,
        fuel >= 2,
        0 <= pos,
        pos + spec_encode(ValueModel::Integer(i)).len() <= buf.len(),
        buf.subrange(pos, pos + spec_encode(ValueModel::Integer(i)).len()) == spec_encode(
            ValueModel::Integer(i),
        ),
    ensures
        spec_run(buf, ml, md, ap, StateModel::Index { pos }, sk, fuel) == spec_run(
            buf,
            ml,
            md,
            ap,
            StateModel::Complete(
                Some((ValueModel::Integer(i), pos + spec_encode(ValueModel::Integer(i)).len())),
            ),
            sk,
            (fuel - 1) as nat,
        ),
{
    let v = ValueModel::Integer(i);
    let digits = dec_i64(i);
    let n = digits.len() as int;
    let le = pos + spec_encode(v).len();
    assert(spec_encode(v) =~= line_form(58u8, digits));
    assert(spec_encode(v).len() == n + 3);
    assert(pow10(19) == 10000000000000000000) by {
        reveal_with_fuel(pow10, 20);
    }
    assert(pow10(18) == 1000000000000000000) by {
        reveal_with_fuel(pow10, 19);
    }
    if i >= 0 {
        lemma_dec_digits_are_digits(i as nat);
        assert(forall|j: int| 0 <= j < n ==> is_digit(#[trigger] digits[j]));
    } else {
        let m = (-(i as int)) as nat;
        lemma_dec_digits_are_digits(m);
        assert(digits == seq![45u8] + dec_digits(m));
        assert(digits[0] == 45);
        assert(forall|j: int| 1 <= j < n ==> #[trigger] digits[j] == dec_digits(m)[j - 1]);
        assert(forall|j: int| 1 <= j < n ==> is_digit(#[trigger] digits[j]));
    }
    assert(!has_crlf_pair(digits)) by {
        if has_crlf_pair(digits) {
            let q = choose|q: int|
                0 <= q && q + 1 < digits.len() && #[trigger] digits[q] == 13 && digits[q + 1]
                == 10;
            assert(is_digit(digits[q]) || digits[q] == 45);
        }
    }
    lemma_line_at(buf, pos, 58u8, digits);
    assert(spec_handle_index(buf, pos) == (StateModel::ReadingInteger { pos: pos + 1 }));
    lemma_run_step(buf, ml, md, ap, StateModel::Index { pos }, sk, fuel);
    let end = pos + 1 + n;
    assert(buf.subrange(pos + 1, end) == digits);
    let next = end + 2;
    assert(next == le);
    // evaluate the integer line
    assert(n >= 1) by {
        if i >= 0 {
            lemma_dec_digits_len(i as nat, 19);
        } else {
            lemma_dec_digits_len((-(i as int)) as nat, 19);
        }
    }
    if i >= 0 {
        assert(digits[0] != 43 && digits[0] != 45);
        lemma_dec_digits_len(i as nat, 19);
        assert(n <= 19);
        lemma_acc_digits_val(digits, n);
        assert(digits.subrange(0, n) =~= digits);
        lemma_dec_digits_val(i as nat);
        assert(acc_digits(digits, 0, n, 0) == i);
        lemma_scan_digits_value(digits, 0, 0i64);
        assert(scan_i64(digits, 0, 0i64) == DigitScan::Num(i));
        assert(spec_integer_line(digits, next, ap) == StateModel::Complete(Some((v, next))));
    } else {
        let m = (-(i as int)) as nat;
        assert(1 <= m <= 9223372036854775808);
        lemma_dec_digits_len(m, 19);
        assert(digits[0] == 45 && digits[0] != 43);
        assert(n <= 20);
        assert(digits.subrange(1, n) =~= dec_digits(m));
        lemma_dec_digits_val(m);
        if n <= 19 {
            // at most eighteen digits: the magnitude is small
            lemma_digits_val_bound(dec_digits(m));
            assert(m < pow10(18)) by {
                assert(digits_val(dec_digits(m)) == m);
                assert(m < pow10(dec_digits(m).len()));
                lemma_pow10_mono(dec_digits(m).len(), 18);
            }
            lemma_acc_dec_digits(digits, 1, n, m);
            lemma_scan_digits_value(digits, 1, 0i64);
            assert(scan_i64(digits, 1, 0i64) == DigitScan::Num(m as i64));
            assert((-((m as i64) as int)) as i64 == i);
            assert(spec_integer_line(digits, next, ap) == StateModel::Complete(
                Some((v, next)),
            ));
        } else {
            assert(n == 20);
            let body = digits.subrange(0, n);
            assert(body =~= digits);
            assert(is_signed_digits(digits)) by {
                assert(digits[0] == 45);
                assert(forall|j: int| 1 <= j < n ==> is_digit(#[trigger] digits[j]));
            }
            assert(signed_val(digits) == -(digits_val(digits.subrange(1, n)) as int));
            assert(digits_val(dec_digits(m)) == m);
            assert(signed_val(digits) == i);
            assert(crate::numbers::spec_parse_signed(digits) == Some(i));
            assert(spec_integer_line(digits, next, ap) == StateModel::Complete(
                Some((v, next)),
            ));
        }
    }
    assert(spec_handle_integer(buf, pos + 1, ap) == StateModel::Complete(Some((v, le))));
    lemma_runs_join(
        buf,
        ml,
        md,
        ap,
        StateModel::ReadingInteger { pos: pos + 1 },
        StateModel::Complete(Some((v, le))),
        sk,
        (fuel - 1) as nat,
    );
}

/// Powers of ten grow with the exponent.
proof fn lemma_pow10_mono(a: nat, b: nat)
    requires
        a <= b,
    ensures
        pow10(a) <= pow10(b),
    decreases b,
{
    if a < b {
        lemma_pow10_mono(a, (b - 1) as nat);
        assert(pow10(b) == 10 * pow10((b - 1) as nat));
        assert(pow10(a) >= 1) by {
            lemma_pow10_pos(a);
        }
        lemma_pow10_pos((b - 1) as nat);
    }
}

proof fn lemma_pow10_pos(k: nat)
    ensures
        pow10(k) >= 1,
    decreases k,
{
    if k > 0 {
        lemma_pow10_pos((k - 1) as nat);
    }
}

/// Decoding `$` digits CRLF payload CRLF at `pos` completes the bulk
/// string there.
proof fn lemma_parse_bulk_some(
    buf: Seq<u8>,
    ml: int,
    md: int,
    ap: bool,
    sk: Seq<FrameModel>,
    pos: int,
    s: Seq<u8>,
    fuel: nat,
)
    requires
        sk.len() <= md,
        1 <= s.len() < ml,
        s.len() <= i64::MAX,
        valid_utf8(s),
        fuel > dec_digits(s.len()).len() + 2,
        0 <= pos,
        pos + spec_encode(ValueModel::BulkString(Some(s))).len() <= buf.len(),
        buf.subrange(pos, pos + spec_encode(ValueModel::BulkString(Some(s))).len())
            == spec_encode(ValueModel::BulkString(Some(s))),
    ensures
        spec_run(buf, ml, md, ap, StateModel::Index { pos }, sk, fuel) == spec_run(
            buf,
            ml,
            md,
            ap,
            StateModel::Complete(
                Some(
                    (
                        ValueModel::BulkString(Some(s)),
                        pos + spec_encode(ValueModel::BulkString(Some(s))).len(),
                    ),
                ),
            ),
            sk,
            (fuel - (dec_digits(s.len()).len() + 2)) as nat,
        ),
{
    let v = ValueModel::BulkString(Some(s));
    let n = s.len() as int;
    let k = dec_digits(s.len()).len() as int;
    let le = pos + spec_encode(v).len();
    let tail = s + crlf();
    assert(spec_encode(v) == seq![36u8] + dec_digits(s.len()) + crlf() + s + crlf());
    assert(spec_encode(v) =~= seq![36u8] + dec_digits(s.len()) + crlf() + tail);
    assert(spec_encode(v).len() == 3 + k + tail.len());
    lemma_prefix_placement(buf, pos, 36u8, s.len(), tail);
    lemma_dec_digits_are_digits(s.len());
    assert forall|q: int| pos + 1 <= q < pos + 1 + k implies is_digit(#[trigger] buf[q]) by {
        assert(buf[pos + 1 + (q - pos - 1)] == dec_digits(s.len())[q - pos - 1]);
    }
    assert(buf.subrange(pos + 1, pos + 1 + k) =~= dec_digits(s.len())) by {
        assert forall|j: int|
            0 <= j < k implies buf.subrange(pos + 1, pos + 1 + k)[j] == dec_digits(s.len())[j] by {
            assert(buf.subrange(pos + 1, pos + 1 + k)[j] == buf[pos + 1 + j]);
        }
    }
    lemma_acc_dec_digits(buf, pos + 1, pos + 1 + k, s.len());
    let s1 = StateModel::ReadingLength { pos: pos + 1, value: 0i64, negative: false, type_char: 36u8 };
    assert(spec_handle_index(buf, pos) == s1);
    lemma_run_step(buf, ml, md, ap, StateModel::Index { pos }, sk, fuel);
    lemma_run_digits(buf, ml, md, ap, sk, pos + 1, pos + 1 + k, 0i64, 36u8, (fuel - 1) as nat);
    let s2 = StateModel::ReadingLength {
        pos: pos + 1 + k,
        value: n as i64,
        negative: false,
        type_char: 36u8,
    };
    assert(buf[pos + 1 + k] == 13 && buf[pos + 2 + k] == 10);
    let s3 = StateModel::ReadingBulkString { start_pos: pos + 3 + k, remaining: n };
    assert(spec_handle_length(buf, ml, pos + 1 + k, n as i64, false, 36u8) == s3);
    lemma_run_step(buf, ml, md, ap, s2, sk, (fuel - 1 - k) as nat);
    let start = pos + 3 + k;
    assert(buf[start + n] == 13) by {
        assert(buf[pos + 3 + k + n] == tail[n]);
        assert(tail[n] == 13);
    }
    assert(buf[start + n + 1] == 10) by {
        assert(buf[pos + 3 + k + (n + 1)] == tail[n + 1]);
        assert(tail[n + 1] == 10);
    }
    assert(buf.subrange(start, start + n) =~= s) by {
        assert forall|j: int| 0 <= j < n implies buf.subrange(start, start + n)[j] == s[j] by {
            assert(buf.subrange(start, start + n)[j] == buf[pos + 3 + k + j]);
            assert(buf[pos + 3 + k + j] == tail[j]);
            assert(tail[j] == s[j]);
        }
    }
    assert(spec_handle_bulk(buf, ml, start, n) == StateModel::Complete(Some((v, le))));
    lemma_runs_join(
        buf,
        ml,
        md,
        ap,
        s3,
        StateModel::Complete(Some((v, le))),
        sk,
        (fuel - 2 - k) as nat,
    );
}


/// Declares the mutual induction between one value and a list of child
/// values: parsing the remaining children of an open aggregate folds each
/// in turn and completes the aggregate.
#[verifier::rlimit(100)]
proof fn lemma_parse_elems_run(
    buf: Seq<u8>,
    ml: int,
    md: int,
    ap: bool,
    sk: Seq<FrameModel>,
    tc: u8,
    cs: Seq<ValueModel>,
    j: int,
    pos: int,
    fuel: nat,
)
    requires
        tc == 42 || tc == 126 || tc == 62,
        1 <= cs.len(),
        0 <= j < cs.len(),
        wf_elems(cs, j, ml),
        elems_fit_depth(cs, j, md - sk.len() - 1),
        sk.len() + 1 <= md,
        0 <= pos,
        pos + encode_elems(cs, j).len() <= buf.len(),
        buf.subrange(pos, pos + encode_elems(cs, j).len()) == encode_elems(cs, j),
        fuel > elems_cost(cs, j),
    ensures
        spec_run(
            buf,
            ml,
            md,
            ap,
            StateModel::Index { pos },
            sk.push(
                FrameModel { type_char: tc, total: cs.len() as int, elements: cs.subrange(0, j) },
            ),
            fuel,
        ) == spec_run(
            buf,
            ml,
            md,
            ap,
            StateModel::Complete(
                Some((spec_build_aggregate(tc, cs), pos + encode_elems(cs, j).len())),
            ),
            sk,
            (fuel - elems_cost(cs, j)) as nat,
        ),
    decreases cs, 1int, cs.len() - j,
{
    let frame = FrameModel { type_char: tc, total: cs.len() as int, elements: cs.subrange(0, j) };
    let skf = sk.push(frame);
    let c = cs[j];
    let ce = spec_encode(c);
    let seg = encode_elems(cs, j);
    assert(seg == ce + encode_elems(cs, j + 1));
    assert(ce.len() <= seg.len());
    assert(buf.subrange(pos, pos + ce.len()) =~= ce) by {
        assert forall|q: int| 0 <= q < ce.len() implies buf.subrange(pos, pos + ce.len())[q]
            == ce[q] by {
            assert(buf.subrange(pos, pos + ce.len())[q] == buf[pos + q]);
            assert(buf[pos + q] == buf.subrange(pos, pos + seg.len())[q]);
            assert(seg[q] == ce[q]);
        }
    }
    assert(wf_value(c, ml) && wf_elems(cs, j + 1, ml));
    assert(fits_depth(c, md - skf.len()) && elems_fit_depth(cs, j + 1, md - sk.len() - 1));
    assert(elems_cost(cs, j) == cost_of(c) + 1 + elems_cost(cs, j + 1));
    lemma_elems_cost_nonneg(cs, j + 1);
    lemma_cost_nonneg(c);
    lemma_parse_value(buf, ml, md, ap, skf, pos, c, fuel);
    let p2 = pos + ce.len();
    let g: nat = (fuel - cost_of(c)) as nat;
    // one unfolding of the run from the completed child folds it into the
    // open frame
    let elems2 = frame.elements.push(c);
    assert(elems2 =~= cs.subrange(0, j + 1));
    assert(skf.last() == frame);
    assert(g >= 1);
    assert(skf.len() <= md);
    if j + 1 < cs.len() {
        let frame2 = FrameModel {
            type_char: tc,
            total: cs.len() as int,
            elements: cs.subrange(0, j + 1),
        };
        assert(skf.update(skf.len() - 1, frame2) =~= sk.push(frame2));
        assert(spec_run(buf, ml, md, ap, StateModel::Complete(Some((c, p2))), skf, g)
            == spec_run(buf, ml, md, ap, StateModel::Index { pos: p2 }, sk.push(frame2), (g
            - 1) as nat));
        assert(p2 + encode_elems(cs, j + 1).len() == pos + seg.len());
        assert(buf.subrange(p2, p2 + encode_elems(cs, j + 1).len()) =~= encode_elems(
            cs,
            j + 1,
        )) by {
            let tl = encode_elems(cs, j + 1);
            assert forall|q: int| 0 <= q < tl.len() implies buf.subrange(p2, p2 + tl.len())[q]
                == tl[q] by {
                assert(buf.subrange(p2, p2 + tl.len())[q] == buf[p2 + q]);
                assert(buf[pos + (ce.len() + q)] == buf.subrange(pos, pos + seg.len())[ce.len()
                    + q]);
                assert(seg[ce.len() + q] == tl[q]);
            }
        }
        lemma_parse_elems_run(buf, ml, md, ap, sk, tc, cs, j + 1, p2, (g - 1) as nat);
    } else {
        assert(elems2 =~= cs) by {
            assert(cs.subrange(0, cs.len() as int) =~= cs);
        }
        assert(elems2.len() == cs.len());
        assert(encode_elems(cs, j + 1) == Seq::<u8>::empty());
        assert(p2 == pos + seg.len());
        let agg = spec_build_aggregate(tc, elems2);
        assert(agg == spec_build_aggregate(tc, cs));
        assert(skf.drop_last() =~= sk);
        if sk.len() == 0 {
            assert(spec_run(buf, ml, md, ap, StateModel::Complete(Some((c, p2))), skf, g)
                == (RunResult {
                result: Ok(Some(agg)),
                state: StateModel::Index { pos: p2 },
                stack: sk,
            }));
            assert((fuel - elems_cost(cs, j)) as nat >= 1);
            assert(spec_run(
                buf,
                ml,
                md,
                ap,
                StateModel::Complete(Some((agg, p2))),
                sk,
                (fuel - elems_cost(cs, j)) as nat,
            ) == (RunResult {
                result: Ok(Some(agg)),
                state: StateModel::Index { pos: p2 },
                stack: sk,
            }));
        } else {
            assert(spec_run(buf, ml, md, ap, StateModel::Complete(Some((c, p2))), skf, g)
                == spec_run(buf, ml, md, ap, StateModel::Complete(Some((agg, p2))), sk, (g
                - 1) as nat));
            assert((g - 1) as nat == (fuel - elems_cost(cs, j)) as nat);
        }
    }
}

/// Transition costs are never negative.
proof fn lemma_cost_nonneg(v: ValueModel)
    ensures
        cost_of(v) >= 0,
    decreases v, 0int, 0int,
{
    match v {
        ValueModel::Array(Some(es)) => {
            lemma_elems_cost_nonneg(es, 0);
        },
        ValueModel::SetVal(Some(es)) => {
            lemma_elems_cost_nonneg(es, 0);
        },
        ValueModel::Push(Some(es)) => {
            lemma_elems_cost_nonneg(es, 0);
        },
        ValueModel::MapVal(Some(ps)) => {
            lemma_pairs_cost_nonneg(ps, 0);
        },
        _ => {},
    }
}

proof fn lemma_elems_cost_nonneg(cs: Seq<ValueModel>, j: int)
    ensures
        elems_cost(cs, j) >= 0,
    decreases cs, 1int, cs.len() - j,
{
    if 0 <= j < cs.len() {
        lemma_cost_nonneg(cs[j]);
        lemma_elems_cost_nonneg(cs, j + 1);
    }
}

proof fn lemma_pairs_cost_nonneg(ps: Seq<(ValueModel, ValueModel)>, i: int)
    ensures
        pairs_cost(ps, i) >= 0,
    decreases ps, 1int, ps.len() - i,
{
    if 0 <= i < ps.len() {
        lemma_cost_nonneg(ps[i].0);
        lemma_cost_nonneg(ps[i].1);
        lemma_pairs_cost_nonneg(ps, i + 1);
    }
}


/// The children of a map, keys and values alternating in pair order.
pub open spec fn interleave(ps: Seq<(ValueModel, ValueModel)>) -> Seq<ValueModel> {
    Seq::new(
        (2 * ps.len()) as nat,
        |j: int|
            if j % 2 == 0 {
                ps[j / 2].0
            } else {
                ps[j / 2].1
            },
    )
}

/// Pairing interleaved children back up restores the pairs.
proof fn lemma_interleave_build(ps: Seq<(ValueModel, ValueModel)>)
    ensures
        spec_build_aggregate(37, interleave(ps)) == ValueModel::MapVal(Some(ps)),
{
    let inter = interleave(ps);
    let paired = Seq::new(
        (inter.len() / 2) as nat,
        |i: int| (inter[2 * i], inter[2 * i + 1]),
    );
    assert forall|i: int| 0 <= i < ps.len() implies paired[i] == ps[i] by {
        assert((2 * i) % 2 == 0 && (2 * i) / 2 == i);
        assert((2 * i + 1) % 2 == 1 && (2 * i + 1) / 2 == i);
        assert(inter[2 * i] == ps[i].0);
        assert(inter[2 * i + 1] == ps[i].1);
    }
    assert(paired =~= ps);
}

/// Opening a nonempty aggregate: marker, count and CRLF take the machine
/// to the first child with a fresh frame on the stack.
#[verifier::rlimit(100)]
proof fn lemma_parse_agg_header(
    buf: Seq<u8>,
    ml: int,
    md: int,
    ap: bool,
    sk: Seq<FrameModel>,
    pos: int,
    tc: u8,
    count: nat,
    children: Seq<u8>,
    fuel: nat,
)
    requires
        tc == 42 || tc == 37 || tc == 126 || tc == 62,
        1 <= count <= i64::MAX,
        sk.len() + 1 <= md,
        fuel > dec_digits(count).len() + 2,
        0 <= pos,
        pos + 3 + dec_digits(count).len() + children.len() <= buf.len(),
        buf.subrange(pos, pos + 3 + dec_digits(count).len() + children.len()) == seq![tc]
            + dec_digits(count) + crlf() + children,
    ensures
        spec_run(buf, ml, md, ap, StateModel::Index { pos }, sk, fuel) == spec_run(
            buf,
            ml,
            md,
            ap,
            StateModel::Index { pos: pos + 3 + dec_digits(count).len() },
            sk.push(
                FrameModel {
                    type_char: tc,
                    total: if tc == 37 {
                        2 * (count as int)
                    } else {
                        count as int
                    },
                    elements: Seq::empty(),
                },
            ),
            (fuel - (dec_digits(count).len() + 3)) as nat,
        ),
{
    let k = dec_digits(count).len() as int;
    lemma_prefix_placement(buf, pos, tc, count, children);
    lemma_dec_digits_are_digits(count);
    assert forall|q: int| pos + 1 <= q < pos + 1 + k implies is_digit(#[trigger] buf[q]) by {
        assert(buf[pos + 1 + (q - pos - 1)] == dec_digits(count)[q - pos - 1]);
    }
    assert(buf.subrange(pos + 1, pos + 1 + k) =~= dec_digits(count)) by {
        assert forall|j: int|
            0 <= j < k implies buf.subrange(pos + 1, pos + 1 + k)[j] == dec_digits(count)[j] by {
            assert(buf.subrange(pos + 1, pos + 1 + k)[j] == buf[pos + 1 + j]);
        }
    }
    lemma_acc_dec_digits(buf, pos + 1, pos + 1 + k, count);
    let s1 = StateModel::ReadingLength { pos: pos + 1, value: 0i64, negative: false, type_char: tc };
    assert(spec_handle_index(buf, pos) == s1);
    lemma_run_step(buf, ml, md, ap, StateModel::Index { pos }, sk, fuel);
    lemma_run_digits(buf, ml, md, ap, sk, pos + 1, pos + 1 + k, 0i64, tc, (fuel - 1) as nat);
    let s2 = StateModel::ReadingLength {
        pos: pos + 1 + k,
        value: count as i64,
        negative: false,
        type_char: tc,
    };
    assert(buf[pos + 1 + k] == 13 && buf[pos + 2 + k] == 10);
    let total: int = if tc == 37 {
        2 * (count as int)
    } else {
        count as int
    };
    let s3 = StateModel::ReadingArray {
        pos: pos + 3 + k,
        total,
        current: 0,
        elements: Seq::empty(),
        type_char: tc,
    };
    assert(spec_handle_length(buf, ml, pos + 1 + k, count as i64, false, tc) == s3);
    lemma_run_step(buf, ml, md, ap, s2, sk, (fuel - 1 - k) as nat);
    let frame = FrameModel { type_char: tc, total, elements: Seq::empty() };
    assert(spec_dispatch(buf, ml, ap, s3, sk) == (
        StateModel::Index { pos: pos + 3 + k },
        sk.push(frame),
    ));
    lemma_run_step(buf, ml, md, ap, s3, sk, (fuel - 2 - k) as nat);
}

/// Parsing the pairs of an open map folds key and value of each in turn
/// and completes the map.
#[verifier::rlimit(100)]
proof fn lemma_parse_pairs_run(
    buf: Seq<u8>,
    ml: int,
    md: int,
    ap: bool,
    sk: Seq<FrameModel>,
    ps: Seq<(ValueModel, ValueModel)>,
    i: int,
    pos: int,
    fuel: nat,
)
    requires
        1 <= ps.len(),
        0 <= i < ps.len(),
        wf_pairs(ps, i, ml),
        pairs_fit_depth(ps, i, md - sk.len() - 1),
        sk.len() + 1 <= md,
        0 <= pos,
        pos + encode_pairs(ps, i).len() <= buf.len(),
        buf.subrange(pos, pos + encode_pairs(ps, i).len()) == encode_pairs(ps, i),
        fuel > pairs_cost(ps, i),
    ensures
        spec_run(
            buf,
            ml,
            md,
            ap,
            StateModel::Index { pos },
            sk.push(
                FrameModel {
                    type_char: 37,
                    total: 2 * ps.len() as int,
                    elements: interleave(ps).subrange(0, 2 * i),
                },
            ),
            fuel,
        ) == spec_run(
            buf,
            ml,
            md,
            ap,
            StateModel::Complete(
                Some((ValueModel::MapVal(Some(ps)), pos + encode_pairs(ps, i).len())),
            ),
            sk,
            (fuel - pairs_cost(ps, i)) as nat,
        ),
    decreases ps, 1int, ps.len() - i,
{
    let inter = interleave(ps);
    let total = 2 * ps.len() as int;
    let frame = FrameModel { type_char: 37, total, elements: inter.subrange(0, 2 * i) };
    let skf = sk.push(frame);
    let key = ps[i].0;
    let val = ps[i].1;
    let ke = spec_encode(key);
    let ve = spec_encode(val);
    let seg = encode_pairs(ps, i);
    assert(seg == ke + ve + encode_pairs(ps, i + 1));
    lemma_cost_nonneg(key);
    lemma_cost_nonneg(val);
    lemma_pairs_cost_nonneg(ps, i + 1);
    assert(pairs_cost(ps, i) == cost_of(key) + 1 + cost_of(val) + 1 + pairs_cost(ps, i + 1));
    assert((2 * i) % 2 == 0 && (2 * i) / 2 == i);
    assert((2 * i + 1) % 2 == 1 && (2 * i + 1) / 2 == i);
    assert(inter[2 * i] == key && inter[2 * i + 1] == val);
    // the key
    assert(buf.subrange(pos, pos + ke.len()) =~= ke) by {
        assert forall|q: int| 0 <= q < ke.len() implies buf.subrange(pos, pos + ke.len())[q]
            == ke[q] by {
            assert(buf.subrange(pos, pos + ke.len())[q] == buf[pos + q]);
            assert(buf[pos + q] == buf.subrange(pos, pos + seg.len())[q]);
            assert(seg[q] == ke[q]);
        }
    }
    lemma_parse_value(buf, ml, md, ap, skf, pos, key, fuel);
    let pk = pos + ke.len();
    let g1: nat = (fuel - cost_of(key)) as nat;
    let elems1 = frame.elements.push(key);
    assert(elems1 =~= inter.subrange(0, 2 * i + 1));
    assert(skf.last() == frame);
    assert(elems1.len() == 2 * i + 1 < total);
    let frame1 = FrameModel { type_char: 37, total, elements: inter.subrange(0, 2 * i + 1) };
    assert(skf.update(skf.len() - 1, frame1) =~= sk.push(frame1));
    assert(spec_run(buf, ml, md, ap, StateModel::Complete(Some((key, pk))), skf, g1)
        == spec_run(buf, ml, md, ap, StateModel::Index { pos: pk }, sk.push(frame1), (g1
        - 1) as nat));
    // the value
    assert(buf.subrange(pk, pk + ve.len()) =~= ve) by {
        assert forall|q: int| 0 <= q < ve.len() implies buf.subrange(pk, pk + ve.len())[q]
            == ve[q] by {
            assert(buf.subrange(pk, pk + ve.len())[q] == buf[pk + q]);
            assert(buf[pos + (ke.len() + q)] == buf.subrange(pos, pos + seg.len())[ke.len() + q]);
            assert(seg[ke.len() + q] == ve[q]);
        }
    }
    lemma_parse_value(buf, ml, md, ap, sk.push(frame1), pk, val, (g1 - 1) as nat);
    let pv = pk + ve.len();
    let g2: nat = (g1 - 1 - cost_of(val)) as nat;
    let elems2 = frame1.elements.push(val);
    assert(elems2 =~= inter.subrange(0, 2 * i + 2));
    assert(sk.push(frame1).last() == frame1);
    if i + 1 < ps.len() {
        assert(elems2.len() == 2 * i + 2 < total);
        let frame2 = FrameModel { type_char: 37, total, elements: inter.subrange(0, 2 * i + 2) };
        assert(sk.push(frame1).update(sk.push(frame1).len() - 1, frame2) =~= sk.push(frame2));
        assert(spec_run(buf, ml, md, ap, StateModel::Complete(Some((val, pv))), sk.push(frame1), g2)
            == spec_run(buf, ml, md, ap, StateModel::Index { pos: pv }, sk.push(frame2), (g2
            - 1) as nat));
        let tl = encode_pairs(ps, i + 1);
        assert(pv + tl.len() == pos + seg.len());
        assert(buf.subrange(pv, pv + tl.len()) =~= tl) by {
            assert forall|q: int| 0 <= q < tl.len() implies buf.subrange(pv, pv + tl.len())[q]
                == tl[q] by {
                assert(buf.subrange(pv, pv + tl.len())[q] == buf[pv + q]);
                assert(buf[pos + (ke.len() + ve.len() + q)] == buf.subrange(
                    pos,
                    pos + seg.len(),
                )[ke.len() + ve.len() + q]);
                assert(seg[ke.len() + ve.len() + q] == tl[q]);
            }
        }
        lemma_parse_pairs_run(buf, ml, md, ap, sk, ps, i + 1, pv, (g2 - 1) as nat);
    } else {
        assert(elems2.len() == total);
        assert(elems2 =~= inter) by {
            assert(inter.subrange(0, inter.len() as int) =~= inter);
        }
        let agg = spec_build_aggregate(37, elems2);
        lemma_interleave_build(ps);
        assert(agg == ValueModel::MapVal(Some(ps)));
        assert(encode_pairs(ps, i + 1) == Seq::<u8>::empty());
        assert(pv == pos + seg.len());
        assert(sk.push(frame1).drop_last() =~= sk);
        if sk.len() == 0 {
            assert(spec_run(buf, ml, md, ap, StateModel::Complete(Some((val, pv))), sk.push(frame1), g2)
                == (RunResult {
                result: Ok(Some(agg)),
                state: StateModel::Index { pos: pv },
                stack: sk,
            }));
            assert((fuel - pairs_cost(ps, i)) as nat >= 1);
            assert(spec_run(
                buf,
                ml,
                md,
                ap,
                StateModel::Complete(Some((agg, pv))),
                sk,
                (fuel - pairs_cost(ps, i)) as nat,
            ) == (RunResult {
                result: Ok(Some(agg)),
                state: StateModel::Index { pos: pv },
                stack: sk,
            }));
        } else {
            assert(spec_run(buf, ml, md, ap, StateModel::Complete(Some((val, pv))), sk.push(frame1), g2)
                == spec_run(buf, ml, md, ap, StateModel::Complete(Some((agg, pv))), sk, (g2
                - 1) as nat));
            assert((g2 - 1) as nat == (fuel - pairs_cost(ps, i)) as nat);
        }
    }
}

/// Parsing any well-formed value from its canonical encoding: from a
/// value boundary at its first byte, the machine completes exactly that
/// value, standing just past its bytes, after `cost_of` transitions,
/// whatever else the buffer holds and whatever aggregates are open.
#[verifier::rlimit(100)]
proof fn lemma_parse_value(
    buf: Seq<u8>,
    ml: int,
    md: int,
    ap: bool,
    sk: Seq<FrameModel>,
    pos: int,
    v: ValueModel,
    fuel: nat,
)
    requires
        wf_value(v, ml),
        fits_depth(v, md - sk.len()),
        sk.len() <= md,
        0 <= pos,
        pos + spec_encode(v).len() <= buf.len(),
        buf.subrange(pos, pos + spec_encode(v).len()) == spec_encode(v),
        fuel > cost_of(v),
    ensures
        spec_run(buf, ml, md, ap, StateModel::Index { pos }, sk, fuel) == spec_run(
            buf,
            ml,
            md,
            ap,
            StateModel::Complete(Some((v, pos + spec_encode(v).len()))),
            sk,
            (fuel - cost_of(v)) as nat,
        ),
    decreases v, 1int, 0int,
{
    let le = pos + spec_encode(v).len();
    match v {
        ValueModel::SimpleString(_) => {
            lemma_parse_simple_or_error(buf, ml, md, ap, sk, pos, v, fuel);
        },
        ValueModel::Error(_) => {
            lemma_parse_simple_or_error(buf, ml, md, ap, sk, pos, v, fuel);
        },
        ValueModel::Integer(i) => {
            lemma_parse_integer_value(buf, ml, md, ap, sk, pos, i, fuel);
        },
        ValueModel::BulkString(None) => {
            lemma_parse_null_form(buf, ml, md, ap, sk, pos, v, fuel);
        },
        ValueModel::BulkString(Some(s)) => {
            if s.len() == 0 {
                assert(v == ValueModel::BulkString(Some(Seq::<u8>::empty()))) by {
                    assert(s =~= Seq::<u8>::empty());
                }
                lemma_parse_empty_form(buf, ml, md, ap, sk, pos, v, fuel);
            } else {
                lemma_parse_bulk_some(buf, ml, md, ap, sk, pos, s, fuel);
            }
        },
        ValueModel::Null => {
            lemma_parse_null_value(buf, ml, md, ap, sk, pos, fuel);
        },
        ValueModel::Boolean(b) => {
            lemma_parse_boolean(buf, ml, md, ap, sk, pos, b, fuel);
        },
        ValueModel::Double(_) => {
            lemma_parse_line_variant(buf, ml, md, ap, sk, pos, v, fuel);
        },
        ValueModel::BigNumber(_) => {
            lemma_parse_line_variant(buf, ml, md, ap, sk, pos, v, fuel);
        },
        ValueModel::BulkError(_) => {
            lemma_parse_line_variant(buf, ml, md, ap, sk, pos, v, fuel);
        },
        ValueModel::VerbatimString(_) => {
            lemma_parse_line_variant(buf, ml, md, ap, sk, pos, v, fuel);
        },
        ValueModel::Array(None) => {
            lemma_parse_null_form(buf, ml, md, ap, sk, pos, v, fuel);
        },
        ValueModel::MapVal(None) => {
            lemma_parse_null_form(buf, ml, md, ap, sk, pos, v, fuel);
        },
        ValueModel::SetVal(None) => {
            lemma_parse_null_form(buf, ml, md, ap, sk, pos, v, fuel);
        },
        ValueModel::Push(None) => {
            lemma_parse_null_form(buf, ml, md, ap, sk, pos, v, fuel);
        },
        ValueModel::Array(Some(es)) => {
            lemma_parse_agg_list(buf, ml, md, ap, sk, pos, v, 42, es, fuel);
        },
        ValueModel::SetVal(Some(es)) => {
            lemma_parse_agg_list(buf, ml, md, ap, sk, pos, v, 126, es, fuel);
        },
        ValueModel::Push(Some(es)) => {
            lemma_parse_agg_list(buf, ml, md, ap, sk, pos, v, 62, es, fuel);
        },
        ValueModel::MapVal(Some(ps)) => {
            if ps.len() == 0 {
                assert(v == ValueModel::MapVal(Some(Seq::<(ValueModel, ValueModel)>::empty())))
                    by {
                    assert(ps =~= Seq::<(ValueModel, ValueModel)>::empty());
                }
                lemma_parse_empty_form(buf, ml, md, ap, sk, pos, v, fuel);
            } else {
                lemma_pairs_cost_nonneg(ps, 0);
                assert(spec_encode(v) == seq![37u8] + dec_digits(ps.len()) + crlf()
                    + encode_pairs(ps, 0));
                lemma_parse_agg_header(
                    buf,
                    ml,
                    md,
                    ap,
                    sk,
                    pos,
                    37,
                    ps.len(),
                    encode_pairs(ps, 0),
                    fuel,
                );
                let k = dec_digits(ps.len()).len() as int;
                let cpos = pos + 3 + k;
                let frame = FrameModel {
                    type_char: 37,
                    total: 2 * ps.len() as int,
                    elements: Seq::empty(),
                };
                assert(frame.elements =~= interleave(ps).subrange(0, 0));
                let ch = encode_pairs(ps, 0);
                assert(buf.subrange(cpos, cpos + ch.len()) =~= ch) by {
                    assert forall|q: int|
                        0 <= q < ch.len() implies buf.subrange(cpos, cpos + ch.len())[q]
                        == ch[q] by {
                        assert(buf.subrange(cpos, cpos + ch.len())[q] == buf[cpos + q]);
                        assert(buf[pos + 3 + k + q] == ch[q]) by {
                            lemma_prefix_placement(buf, pos, 37, ps.len(), ch);
                        }
                    }
                }
                lemma_parse_pairs_run(buf, ml, md, ap, sk, ps, 0, cpos, (fuel - (k + 3)) as nat);
            }
        },
    }
}

/// The list-shaped aggregates share one argument: header, then the child
/// folds.
#[verifier::rlimit(100)]
proof fn lemma_parse_agg_list(
    buf: Seq<u8>,
    ml: int,
    md: int,
    ap: bool,
    sk: Seq<FrameModel>,
    pos: int,
    v: ValueModel,
    tc: u8,
    es: Seq<ValueModel>,
    fuel: nat,
)
    requires
        tc == 42 || tc == 126 || tc == 62,
        v == ValueModel::Array(Some(es)) || v == ValueModel::SetVal(Some(es)) || v
            == ValueModel::Push(Some(es)),
        v is Array ==> tc == 42,
        v is SetVal ==> tc == 126,
        v is Push ==> tc == 62,
        wf_value(v, ml),
        fits_depth(v, md - sk.len()),
        sk.len() <= md,
        0 <= pos,
        pos + spec_encode(v).len() <= buf.len(),
        buf.subrange(pos, pos + spec_encode(v).len()) == spec_encode(v),
        fuel > cost_of(v),
    ensures
        spec_run(buf, ml, md, ap, StateModel::Index { pos }, sk, fuel) == spec_run(
            buf,
            ml,
            md,
            ap,
            StateModel::Complete(Some((v, pos + spec_encode(v).len()))),
            sk,
            (fuel - cost_of(v)) as nat,
        ),
    decreases v, 0int, 0int,
{
    if es.len() == 0 {
        assert(es =~= Seq::<ValueModel>::empty());
        lemma_parse_empty_form(buf, ml, md, ap, sk, pos, v, fuel);
    } else {
        lemma_elems_cost_nonneg(es, 0);
        assert(spec_encode(v) == seq![tc] + dec_digits(es.len()) + crlf() + encode_elems(es, 0));
        lemma_parse_agg_header(buf, ml, md, ap, sk, pos, tc, es.len(), encode_elems(es, 0), fuel);
        let k = dec_digits(es.len()).len() as int;
        let cpos = pos + 3 + k;
        let frame = FrameModel { type_char: tc, total: es.len() as int, elements: Seq::empty() };
        assert(frame.elements =~= es.subrange(0, 0));
        let ch = encode_elems(es, 0);
        assert(buf.subrange(cpos, cpos + ch.len()) =~= ch) by {
            assert forall|q: int| 0 <= q < ch.len() implies buf.subrange(cpos, cpos + ch.len())[q]
                == ch[q] by {
                assert(buf.subrange(cpos, cpos + ch.len())[q] == buf[cpos + q]);
                assert(buf[pos + 3 + k + q] == ch[q]) by {
                    lemma_prefix_placement(buf, pos, tc, es.len(), ch);
                }
            }
        }
        lemma_parse_elems_run(buf, ml, md, ap, sk, tc, es, 0, cpos, (fuel - (k + 3)) as nat);
        assert(spec_build_aggregate(tc, es) == v);
    }
}


/// Round trip: decoding the canonical encoding of any well-formed value
/// yields that value again, from a fresh machine, whatever bytes follow.
/// The machine consumes exactly the encoding's bytes: it is left standing
/// at the first byte after them, so the next value begins at the next
/// byte. Values whose decoding would take more transitions than one call
/// allows are excluded by the fuel bound, and values nested deeper than
/// the machine's depth limit by the depth bound.
pub proof fn lemma_round_trip(v: ValueModel, ml: int, md: int, ap: bool, rest: Seq<u8>)
    requires
        wf_value(v, ml),
        fits_depth(v, md),
        md >= 0,
        cost_of(v) < 1024,
    ensures
        ({
            let enc = spec_encode(v);
            spec_run(
                enc + rest,
                ml,
                md,
                ap,
                StateModel::Index { pos: 0 },
                Seq::empty(),
                1024nat,
            ) == (RunResult {
                result: Ok(Some(v)),
                state: StateModel::Index { pos: enc.len() as int },
                stack: Seq::empty(),
            })
        }),
{
    let enc = spec_encode(v);
    let buf = enc + rest;
    assert(buf.subrange(0, enc.len() as int) =~= enc);
    lemma_cost_nonneg(v);
    lemma_parse_value(buf, ml, md, ap, Seq::empty(), 0, v, 1024nat);
    let g: nat = (1024 - cost_of(v)) as nat;
    assert(g >= 1);
    assert(spec_run(
        buf,
        ml,
        md,
        ap,
        StateModel::Complete(Some((v, enc.len() as int))),
        Seq::empty(),
        g,
    ) == (RunResult {
        result: Ok(Some(v)),
        state: StateModel::Index { pos: enc.len() as int },
        stack: Seq::empty(),
    }));
}

/// Limit enforcement, length: a bulk-string length prefix at or above the
/// configured maximum fails with the length error before any payload is
/// read.
pub proof fn lemma_length_limit(ml: int, md: int, ap: bool, n: nat, rest: Seq<u8>)
    requires
        1 <= ml <= n <= i64::MAX,
        md >= 0,
    ensures
        spec_run(
            seq![36u8] + dec_digits(n) + crlf() + rest,
            ml,
            md,
            ap,
            StateModel::Index { pos: 0 },
            Seq::empty(),
            1024nat,
        ).result == Err::<Option<ValueModel>, ErrorModel>(ErrorModel::InvalidLength),
{
    let buf = seq![36u8] + dec_digits(n) + crlf() + rest;
    let k = dec_digits(n).len() as int;
    let sk = Seq::<FrameModel>::empty();
    assert(pow10(19) == 10000000000000000000) by {
        reveal_with_fuel(pow10, 20);
    }
    lemma_dec_digits_len(n, 19);
    assert(buf.subrange(0, 3 + k) =~= seq![36u8] + dec_digits(n) + crlf());
    lemma_prefix_placement(buf, 0, 36u8, n, Seq::empty());
    lemma_dec_digits_are_digits(n);
    assert forall|q: int| 1 <= q < 1 + k implies is_digit(#[trigger] buf[q]) by {
        assert(buf[1 + (q - 1)] == dec_digits(n)[q - 1]);
    }
    assert(buf.subrange(1, 1 + k) =~= dec_digits(n)) by {
        assert forall|j: int| 0 <= j < k implies buf.subrange(1, 1 + k)[j]
            == dec_digits(n)[j] by {
            assert(buf.subrange(1, 1 + k)[j] == buf[1 + j]);
        }
    }
    lemma_acc_dec_digits(buf, 1, 1 + k, n);
    let s1 = StateModel::ReadingLength { pos: 1, value: 0i64, negative: false, type_char: 36u8 };
    assert(spec_handle_index(buf, 0) == s1);
    lemma_run_step(buf, ml, md, ap, StateModel::Index { pos: 0 }, sk, 1024nat);
    lemma_run_digits(buf, ml, md, ap, sk, 1, 1 + k, 0i64, 36u8, 1023nat);
    let s2 = StateModel::ReadingLength {
        pos: 1 + k,
        value: n as i64,
        negative: false,
        type_char: 36u8,
    };
    assert(buf[1 + k] == 13 && buf[2 + k] == 10);
    assert(spec_handle_length(buf, ml, 1 + k, n as i64, false, 36u8) == StateModel::Failed(
        ErrorModel::InvalidLength,
    ));
    let g: nat = (1023 - k) as nat;
    assert(g >= 1);
    assert(spec_run(buf, ml, md, ap, s2, sk, g).result == Err::<
        Option<ValueModel>,
        ErrorModel,
    >(ErrorModel::InvalidLength));
}

/// Limit enforcement, depth: with more open aggregates than the depth
/// limit allows, a parse attempt fails with the depth error before doing
/// anything else.
pub proof fn lemma_depth_limit(
    buf: Seq<u8>,
    ml: int,
    md: int,
    ap: bool,
    st: StateModel,
    sk: Seq<FrameModel>,
    fuel: nat,
)
    requires
        fuel >= 1,
        sk.len() > md,
    ensures
        spec_run(buf, ml, md, ap, st, sk, fuel) == (RunResult {
            result: Err(ErrorModel::InvalidDepth),
            state: st,
            stack: sk,
        }),
{
}


/// A prefix keeps its bytes under extension.
proof fn lemma_subrange_prefix(buf: Seq<u8>, ext: Seq<u8>, a: int, b: int)
    requires
        0 <= a <= b <= buf.len(),
    ensures
        (buf + ext).subrange(a, b) == buf.subrange(a, b),
{
    assert((buf + ext).subrange(a, b) =~= buf.subrange(a, b));
}

/// A CRLF found within the bytes is still the first one after extension.
proof fn lemma_find_crlf_extends(buf: Seq<u8>, ext: Seq<u8>, i: int, j: int)
    requires
        0 <= i <= j,
        spec_find_crlf(buf, i) == Some(j),
    ensures
        spec_find_crlf(buf + ext, i) == Some(j),
    decreases j - i,
{
    lemma_find_crlf_bounds(buf, i);
    if buf[i] == 13 && buf[i + 1] == 10 {
        assert((buf + ext)[i] == buf[i] && (buf + ext)[i + 1] == buf[i + 1]);
    } else {
        assert(spec_find_crlf(buf, i + 1) == Some(j));
        lemma_find_crlf_extends(buf, ext, i + 1, j);
        assert((buf + ext)[i] == buf[i] && (buf + ext)[i + 1] == buf[i + 1]);
    }
}

/// A found CRLF lies at or after the start and within the bytes.
proof fn lemma_find_crlf_bounds(buf: Seq<u8>, i: int)
    requires
        spec_find_crlf(buf, i) is Some,
    ensures
        ({
            let j = spec_find_crlf(buf, i)->0;
            i <= j && j + 2 <= buf.len() && buf[j] == 13 && buf[j + 1] == 10
        }),
    decreases buf.len() - i,
{
    if !(i < 0 || i + 1 >= buf.len()) && !(buf[i] == 13 && buf[i + 1] == 10) {
        lemma_find_crlf_bounds(buf, i + 1);
    }
}

/// Whether a dispatch outcome is a suspension failure.
pub open spec fn dispatch_suspends(st: StateModel) -> bool {
    st matches StateModel::Failed(e) && is_suspension(e)
}

/// A boundary dispatch that does not suspend is unchanged by appended
/// bytes.
#[verifier::rlimit(100)]
#[verifier::spinoff_prover]
proof fn lemma_index_extends(buf: Seq<u8>, ext: Seq<u8>, pos: int)
    requires
        !dispatch_suspends(spec_handle_index(buf, pos)),
    ensures
        spec_handle_index(buf + ext, pos) == spec_handle_index(buf, pos),
{
    let buf2 = buf + ext;
    assert(forall|q: int| 0 <= q < buf.len() ==> #[trigger] buf2[q] == buf[q]);
    assert(0 <= pos < buf.len());
    let b = buf[pos];
    if b == 44 || b == 40 || b == 33 || b == 61 {
        let found = spec_find_crlf(buf, pos + 1);
        assert(found is Some);
        let end = found->0;
        lemma_find_crlf_bounds(buf, pos + 1);
        lemma_find_crlf_extends(buf, ext, pos + 1, end);
        lemma_subrange_prefix(buf, ext, pos + 1, end);
    }
}

/// A length-prefix dispatch that does not suspend is unchanged by
/// appended bytes.
#[verifier::rlimit(100)]
#[verifier::spinoff_prover]
proof fn lemma_length_extends(
    buf: Seq<u8>,
    ext: Seq<u8>,
    ml: int,
    pos: int,
    value: i64,
    negative: bool,
    type_char: u8,
)
    requires
        !dispatch_suspends(spec_handle_length(buf, ml, pos, value, negative, type_char)),
    ensures
        spec_handle_length(buf + ext, ml, pos, value, negative, type_char) == spec_handle_length(
            buf,
            ml,
            pos,
            value,
            negative,
            type_char,
        ),
{
    let buf2 = buf + ext;
    assert(forall|q: int| 0 <= q < buf.len() ==> #[trigger] buf2[q] == buf[q]);
    assert(0 <= pos < buf.len());
}

/// A line dispatch that does not suspend is unchanged by appended bytes.
#[verifier::rlimit(100)]
#[verifier::spinoff_prover]
proof fn lemma_line_dispatch_extends(buf: Seq<u8>, ext: Seq<u8>, pos: int, ap: bool)
    requires
        !dispatch_suspends(spec_handle_simple(buf, pos)) ==> spec_find_crlf(buf, pos) is Some,
        spec_find_crlf(buf, pos) is Some,
    ensures
        spec_handle_simple(buf + ext, pos) == spec_handle_simple(buf, pos),
        spec_handle_error_line(buf + ext, pos) == spec_handle_error_line(buf, pos),
        spec_handle_integer(buf + ext, pos, ap) == spec_handle_integer(buf, pos, ap),
{
    let found = spec_find_crlf(buf, pos);
    let end = found->0;
    lemma_find_crlf_bounds(buf, pos);
    lemma_find_crlf_extends(buf, ext, pos, end);
    lemma_subrange_prefix(buf, ext, pos, end);
}

/// Every transition that does not suspend reads only bytes the buffer
/// already holds: appending input does not change it.
#[verifier::rlimit(100)]
proof fn lemma_dispatch_extends(
    buf: Seq<u8>,
    ext: Seq<u8>,
    ml: int,
    ap: bool,
    st: StateModel,
    sk: Seq<FrameModel>,
)
    requires
        !dispatch_suspends(spec_dispatch(buf, ml, ap, st, sk).0),
    ensures
        spec_dispatch(buf + ext, ml, ap, st, sk) == spec_dispatch(buf, ml, ap, st, sk),
{
    let buf2 = buf + ext;
    match st {
        StateModel::Index { pos } => {
            lemma_index_extends(buf, ext, pos);
        },
        StateModel::ReadingLength { pos, value, negative, type_char } => {
            lemma_length_extends(buf, ext, ml, pos, value, negative, type_char);
        },
        StateModel::ReadingBulkString { start_pos, remaining } => {
            assert(forall|q: int| 0 <= q < buf.len() ==> #[trigger] buf2[q] == buf[q]);
            if !(remaining == 0) && !(remaining >= ml) {
                assert(0 <= start_pos && 0 <= remaining && buf.len() >= start_pos + remaining
                    + 2);
                lemma_subrange_prefix(buf, ext, start_pos, start_pos + remaining);
            }
        },
        StateModel::ReadingSimpleString { pos } => {
            assert(spec_find_crlf(buf, pos) is Some);
            lemma_line_dispatch_extends(buf, ext, pos, ap);
        },
        StateModel::ReadingError { pos } => {
            assert(spec_find_crlf(buf, pos) is Some);
            lemma_line_dispatch_extends(buf, ext, pos, ap);
        },
        StateModel::ReadingInteger { pos } => {
            assert(spec_find_crlf(buf, pos) is Some);
            lemma_line_dispatch_extends(buf, ext, pos, ap);
        },
        _ => {},
    }
}

/// Resumption is faithful: when a run suspends, running on the buffer
/// extended with more bytes — from the original state or from the state
/// the suspension left — reaches the same outcome; the retry merely
/// replays the transitions the first call already took. The remaining
/// fuel differs exactly by those replayed transitions.
pub proof fn lemma_suspension_extension(
    buf: Seq<u8>,
    ext: Seq<u8>,
    ml: int,
    md: int,
    ap: bool,
    st: StateModel,
    sk: Seq<FrameModel>,
    fuel: nat,
)
    requires
        spec_run(buf, ml, md, ap, st, sk, fuel).result matches Err(e) && is_suspension(e),
    ensures
        exists|f2: nat|
            f2 <= fuel && spec_run(buf + ext, ml, md, ap, st, sk, fuel) == spec_run(
                buf + ext,
                ml,
                md,
                ap,
                spec_run(buf, ml, md, ap, st, sk, fuel).state,
                spec_run(buf, ml, md, ap, st, sk, fuel).stack,
                f2,
            ),
    decreases fuel,
{
    let r1 = spec_run(buf, ml, md, ap, st, sk, fuel);
    if fuel == 0 {
        assert(!is_suspension(ErrorModel::InvalidFormat(
            "Maximum parsing iterations exceeded"@,
        )));
    } else if sk.len() > md {
        assert(!is_suspension(ErrorModel::InvalidDepth));
    } else {
        let step = spec_dispatch(buf, ml, ap, st, sk);
        match step.0 {
            StateModel::Complete(Some((v, pos))) => {
                lemma_dispatch_extends(buf, ext, ml, ap, st, sk);
                if step.1.len() > 0 {
                    let top = step.1.last();
                    let elems2 = top.elements.push(v);
                    if elems2.len() < top.total {
                        lemma_suspension_extension(
                            buf,
                            ext,
                            ml,
                            md,
                            ap,
                            StateModel::Index { pos },
                            step.1.update(
                                step.1.len() - 1,
                                FrameModel {
                                    type_char: top.type_char,
                                    total: top.total,
                                    elements: elems2,
                                },
                            ),
                            (fuel - 1) as nat,
                        );
                    } else {
                        let agg = spec_build_aggregate(top.type_char, elems2);
                        let stack2 = step.1.drop_last();
                        if stack2.len() == 0 {
                        } else {
                            lemma_suspension_extension(
                                buf,
                                ext,
                                ml,
                                md,
                                ap,
                                StateModel::Complete(Some((agg, pos))),
                                stack2,
                                (fuel - 1) as nat,
                            );
                        }
                    }
                }
            },
            StateModel::Complete(None) => {},
            StateModel::Failed(e) => {
                assert(is_suspension(e));
                assert(step.1 == sk) by {
                    if st is ReadingArray {
                        assert(step.0 is Index);
                    }
                }
                assert(r1.state == st && r1.stack == sk);
                let f2: nat = fuel;
                assert(f2 <= fuel && spec_run(buf + ext, ml, md, ap, st, sk, fuel) == spec_run(
                    buf + ext,
                    ml,
                    md,
                    ap,
                    r1.state,
                    r1.stack,
                    f2,
                ));
            },
            _ => {
                lemma_dispatch_extends(buf, ext, ml, ap, st, sk);
                lemma_suspension_extension(
                    buf,
                    ext,
                    ml,
                    md,
                    ap,
                    step.0,
                    step.1,
                    (fuel - 1) as nat,
                );
                let inner = spec_run(buf, ml, md, ap, step.0, step.1, (fuel - 1) as nat);
                let f2 = choose|f2: nat|
                    f2 <= (fuel - 1) as nat && spec_run(
                        buf + ext,
                        ml,
                        md,
                        ap,
                        step.0,
                        step.1,
                        (fuel - 1) as nat,
                    ) == #[trigger] spec_run(buf + ext, ml, md, ap, inner.state, inner.stack, f2);
                assert(f2 <= (fuel - 1) as nat && spec_run(
                    buf + ext,
                    ml,
                    md,
                    ap,
                    step.0,
                    step.1,
                    (fuel - 1) as nat,
                ) == spec_run(buf + ext, ml, md, ap, inner.state, inner.stack, f2));
                assert(r1.state == inner.state && r1.stack == inner.stack);
                assert(spec_run(buf + ext, ml, md, ap, st, sk, fuel) == spec_run(
                    buf + ext,
                    ml,
                    md,
                    ap,
                    step.0,
                    step.1,
                    (fuel - 1) as nat,
                ));
            },
        }
    }
}

} // verus!










