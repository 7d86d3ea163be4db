//! The RESP value model: a tagged sum covering every RESP2/RESP3 value,
//! its mathematical model, and the canonical encoder to wire bytes.
//!
//! Payloads are kept as raw bytes. Text-valued variants hold the bytes that
//! stood on the wire (the decoder validates them before building a value);
//! a `Double` holds the textual form of the number, so that decoding and
//! re-encoding a stream is byte-exact and the caller chooses how to read
//! the number.

use vstd::prelude::*;

verus! {

/// A single RESP value. Nullable variants distinguish absent (`None`),
/// present-empty and present-nonempty payloads.
#[derive(Debug, PartialEq)]
pub enum RespValue {
    /// `+text\r\n`; the text holds no CR and no LF.
    SimpleString(Vec<u8>),
    /// `-text\r\n`; the text holds no CR and no LF.
    Error(Vec<u8>),
    /// `:n\r\n`, a signed 64-bit integer.
    Integer(i64),
    /// `$len\r\npayload\r\n`; `$-1\r\n` when absent. Binary-safe.
    BulkString(Option<Vec<u8>>),
    /// `*count\r\n` then the elements; `*-1\r\n` when absent.
    Array(Option<Vec<RespValue>>),
    /// `_\r\n`.
    Null,
    /// `#t\r\n` or `#f\r\n`.
    Boolean(bool),
    /// `,text\r\n`; the payload is the textual form of the double.
    Double(Vec<u8>),
    /// `(digits\r\n`, an arbitrary-precision decimal, optionally signed.
    BigNumber(Vec<u8>),
    /// `!text\r\n`; `!-1\r\n` when absent.
    BulkError(Option<Vec<u8>>),
    /// `=text\r\n`; `=-1\r\n` when absent.
    VerbatimString(Option<Vec<u8>>),
    /// `%pairs\r\n` then key and value per pair; `%-1\r\n` when absent.
    /// Pair order is the order received; keys need not be unique.
    MapVal(Option<Vec<(RespValue, RespValue)>>),
    /// `~count\r\n` then the elements; `~-1\r\n` when absent.
    SetVal(Option<Vec<RespValue>>),
    /// `>count\r\n` then the elements; `>-1\r\n` when absent.
    Push(Option<Vec<RespValue>>),
}

/// The mathematical model of a `RespValue`: the same tree over `Seq<u8>`.
pub enum ValueModel {
    SimpleString(Seq<u8>),
    Error(Seq<u8>),
    Integer(i64),
    BulkString(Option<Seq<u8>>),
    Array(Option<Seq<ValueModel>>),
    Null,
    Boolean(bool),
    Double(Seq<u8>),
    BigNumber(Seq<u8>),
    BulkError(Option<Seq<u8>>),
    VerbatimString(Option<Seq<u8>>),
    MapVal(Option<Seq<(ValueModel, ValueModel)>>),
    SetVal(Option<Seq<ValueModel>>),
    Push(Option<Seq<ValueModel>>),
}

/// The model of a value: every payload replaced by its view.
pub open spec fn vmodel(v: RespValue) -> ValueModel
    decreases v, 0int, 0int,
{
    match v {
        RespValue::SimpleString(s) => ValueModel::SimpleString(s@),
        RespValue::Error(s) => ValueModel::Error(s@),
        RespValue::Integer(i) => ValueModel::Integer(i),
        RespValue::BulkString(s) => ValueModel::BulkString(match s {
            Some(b) => Some(b@),
            None => None,
        }),
        RespValue::Array(es) => ValueModel::Array(match es {
            Some(elems) => Some(vmodel_elems(elems@, 0)),
            None => None,
        }),
        RespValue::Null => ValueModel::Null,
        RespValue::Boolean(b) => ValueModel::Boolean(b),
        RespValue::Double(s) => ValueModel::Double(s@),
        RespValue::BigNumber(s) => ValueModel::BigNumber(s@),
        RespValue::BulkError(s) => ValueModel::BulkError(match s {
            Some(b) => Some(b@),
            None => None,
        }),
        RespValue::VerbatimString(s) => ValueModel::VerbatimString(match s {
            Some(b) => Some(b@),
            None => None,
        }),
        RespValue::MapVal(ps) => ValueModel::MapVal(match ps {
            Some(pairs) => Some(vmodel_pairs(pairs@, 0)),
            None => None,
        }),
        RespValue::SetVal(es) => ValueModel::SetVal(match es {
            Some(elems) => Some(vmodel_elems(elems@, 0)),
            None => None,
        }),
        RespValue::Push(es) => ValueModel::Push(match es {
            Some(elems) => Some(vmodel_elems(elems@, 0)),
            None => None,
        }),
    }
}

/// The models of the elements `es[i..]`, in order.
pub open spec fn vmodel_elems(es: Seq<RespValue>, i: int) -> Seq<ValueModel>
    decreases es, 1int, es.len() - i,
{
    if i < 0 || i >= es.len() {
        Seq::empty()
    } else {
        seq![vmodel(es[i])] + vmodel_elems(es, i + 1)
    }
}

/// The models of the pairs `ps[i..]`, in order.
pub open spec fn vmodel_pairs(ps: Seq<(RespValue, RespValue)>, i: int) -> Seq<
    (ValueModel, ValueModel),
>
    decreases ps, 1int, ps.len() - i,
{
    if i < 0 || i >= ps.len() {
        Seq::empty()
    } else {
        seq![(vmodel(ps[i].0), vmodel(ps[i].1))] + vmodel_pairs(ps, i + 1)
    }
}

/// Length and contents of `vmodel_elems`: one model per element.
pub proof fn lemma_vmodel_elems(es: Seq<RespValue>, i: int)
    requires
        0 <= i <= es.len(),
    ensures
        vmodel_elems(es, i).len() == es.len() - i,
        forall|k: int|
            i <= k < es.len() ==> #[trigger] vmodel_elems(es, i)[k - i] == vmodel(es[k]),
    decreases es.len() - i,
{
    if i < es.len() {
        lemma_vmodel_elems(es, i + 1);
        assert forall|k: int| i <= k < es.len() implies #[trigger] vmodel_elems(es, i)[k - i]
            == vmodel(es[k]) by {
            if k == i {
                assert(vmodel_elems(es, i)[0] == seq![vmodel(es[i])][0]);
            } else {
                assert(vmodel_elems(es, i)[k - i] == vmodel_elems(es, i + 1)[k - (i + 1)]);
            }
        }
    }
}

/// Length and contents of `vmodel_pairs`: one model pair per pair.
pub proof fn lemma_vmodel_pairs(ps: Seq<(RespValue, RespValue)>, i: int)
    requires
        0 <= i <= ps.len(),
    ensures
        vmodel_pairs(ps, i).len() == ps.len() - i,
        forall|k: int|
            i <= k < ps.len() ==> #[trigger] vmodel_pairs(ps, i)[k - i] == (
            vmodel(ps[k].0),
            vmodel(ps[k].1),
            ),
    decreases ps.len() - i,
{
    if i < ps.len() {
        lemma_vmodel_pairs(ps, i + 1);
        assert forall|k: int| i <= k < ps.len() implies #[trigger] vmodel_pairs(ps, i)[k - i]
            == (vmodel(ps[k].0), vmodel(ps[k].1)) by {
            if k == i {
                assert(vmodel_pairs(ps, i)[0] == seq![(vmodel(ps[i].0), vmodel(ps[i].1))][0]);
            } else {
                assert(vmodel_pairs(ps, i)[k - i] == vmodel_pairs(ps, i + 1)[k - (i + 1)]);
            }
        }
    }
}

/// Appending one element appends its model.
pub proof fn lemma_vmodel_elems_push(s: Seq<RespValue>, x: RespValue)
    ensures
        vmodel_elems(s.push(x), 0) == vmodel_elems(s, 0).push(vmodel(x)),
{
    lemma_vmodel_elems(s, 0);
    lemma_vmodel_elems(s.push(x), 0);
    assert forall|k: int| 0 <= k < s.len() + 1 implies vmodel_elems(s.push(x), 0)[k] == vmodel_elems(
        s,
        0,
    ).push(vmodel(x))[k] by {
        assert(vmodel_elems(s.push(x), 0)[k - 0] == vmodel(s.push(x)[k]));
        if k < s.len() {
            assert(s.push(x)[k] == s[k]);
            assert(vmodel_elems(s, 0)[k - 0] == vmodel(s[k]));
        } else {
            assert(s.push(x)[k] == x);
        }
    }
    assert(vmodel_elems(s.push(x), 0) =~= vmodel_elems(s, 0).push(vmodel(x)));
}

/// Decimal digits of `n`, most significant first, as ASCII bytes.
pub open spec fn dec_digits(n: nat) -> Seq<u8>
    decreases n,
{
    if n < 10 {
        seq![(48 + n) as u8]
    } else {
        dec_digits(n / 10) + seq![(48 + n % 10) as u8]
    }
}

/// Decimal form of a signed 64-bit integer, with `-` for negatives.
pub open spec fn dec_i64(i: i64) -> Seq<u8> {
    if i < 0 {
        seq![45u8] + dec_digits((-(i as int)) as nat)
    } else {
        dec_digits(i as nat)
    }
}

pub open spec fn crlf() -> Seq<u8> {
    seq![13u8, 10u8]
}

/// `marker` then `-1\r\n`: the wire form of an absent nullable value.
pub open spec fn null_form(marker: u8) -> Seq<u8> {
    seq![marker, 45u8, 49u8] + crlf()
}

/// A line-framed variant: marker, payload, terminator.
pub open spec fn line_form(marker: u8, payload: Seq<u8>) -> Seq<u8> {
    seq![marker] + payload + crlf()
}

/// The canonical wire encoding of a value.
pub open spec fn spec_encode(v: ValueModel) -> Seq<u8>
    decreases v, 0int, 0int,
{
    match v {
        ValueModel::SimpleString(s) => line_form(43u8, s),
        ValueModel::Error(s) => line_form(45u8, s),
        ValueModel::Integer(i) => line_form(58u8, dec_i64(i)),
        ValueModel::BulkString(None) => null_form(36u8),
        ValueModel::BulkString(Some(s)) => seq![36u8] + dec_digits(s.len()) + crlf() + s
            + crlf(),
        ValueModel::Array(None) => null_form(42u8),
        ValueModel::Array(Some(es)) => seq![42u8] + dec_digits(es.len()) + crlf()
            + encode_elems(es, 0),
        ValueModel::Null => seq![95u8] + crlf(),
        ValueModel::Boolean(b) => seq![35u8, if b { 116u8 } else { 102u8 }] + crlf(),
        ValueModel::Double(s) => line_form(44u8, s),
        ValueModel::BigNumber(s) => line_form(40u8, s),
        ValueModel::BulkError(None) => null_form(33u8),
        ValueModel::BulkError(Some(s)) => line_form(33u8, s),
        ValueModel::VerbatimString(None) => null_form(61u8),
        ValueModel::VerbatimString(Some(s)) => line_form(61u8, s),
        ValueModel::MapVal(None) => null_form(37u8),
        ValueModel::MapVal(Some(ps)) => seq![37u8] + dec_digits(ps.len()) + crlf()
            + encode_pairs(ps, 0),
        ValueModel::SetVal(None) => null_form(126u8),
        ValueModel::SetVal(Some(es)) => seq![126u8] + dec_digits(es.len()) + crlf()
            + encode_elems(es, 0),
        ValueModel::Push(None) => null_form(62u8),
        ValueModel::Push(Some(es)) => seq![62u8] + dec_digits(es.len()) + crlf()
            + encode_elems(es, 0),
    }
}

/// The concatenated encodings of `es[i..]`.
pub open spec fn encode_elems(es: Seq<ValueModel>, i: int) -> Seq<u8>
    decreases es, 1int, es.len() - i,
{
    if i < 0 || i >= es.len() {
        Seq::empty()
    } else {
        spec_encode(es[i]) + encode_elems(es, i + 1)
    }
}

/// The concatenated encodings of the pairs `ps[i..]`, key before value.
pub open spec fn encode_pairs(ps: Seq<(ValueModel, ValueModel)>, i: int) -> Seq<u8>
    decreases ps, 1int, ps.len() - i,
{
    if i < 0 || i >= ps.len() {
        Seq::empty()
    } else {
        spec_encode(ps[i].0) + spec_encode(ps[i].1) + encode_pairs(ps, i + 1)
    }
}

/// Appends a copy of `s` to `out`.
pub fn push_bytes(out: &mut Vec<u8>, s: &[u8])
    ensures
        final(out)@ == old(out)@ + s@,
{
    let mut i: usize = 0;
    while i < s.len()
        invariant
            i <= s@.len(),
            out@ == old(out)@ + s@.subrange(0, i as int),
        decreases s@.len() - i,
    {
        out.push(s[i]);
        i = i + 1;
        assert(s@.subrange(0, i as int) =~= s@.subrange(0, i - 1) + seq![s@[i - 1]]);
    }
    assert(s@.subrange(0, s@.len() as int) =~= s@);
}

/// Appends `\r\n`.
fn push_crlf(out: &mut Vec<u8>)
    ensures
        final(out)@ == old(out)@ + crlf(),
{
    out.push(13u8);
    out.push(10u8);
    assert(out@ =~= old(out)@ + crlf());
}

/// Appends the decimal digits of `n`.
pub fn push_decimal_u64(out: &mut Vec<u8>, n: u64)
    ensures
        final(out)@ == old(out)@ + dec_digits(n as nat),
    decreases n,
{
    if n < 10 {
        out.push((48 + n) as u8);
        assert(out@ =~= old(out)@ + dec_digits(n as nat));
    } else {
        push_decimal_u64(out, n / 10);
        out.push((48 + n % 10) as u8);
        assert(out@ =~= old(out)@ + dec_digits(n as nat));
    }
}

/// Appends the decimal form of `i`, with a leading `-` for negatives.
pub fn push_decimal_i64(out: &mut Vec<u8>, i: i64)
    ensures
        final(out)@ == old(out)@ + dec_i64(i),
{
    if i < 0 {
        out.push(45u8);
        let m: u64 = ((-(i + 1)) as u64) + 1;
        assert(m as nat == (-(i as int)) as nat);
        push_decimal_u64(out, m);
        assert(out@ =~= old(out)@ + dec_i64(i));
    } else {
        push_decimal_u64(out, i as u64);
    }
}

/// Appends `marker`, `-1`, `\r\n`.
fn push_null_form(out: &mut Vec<u8>, marker: u8)
    ensures
        final(out)@ == old(out)@ + null_form(marker),
{
    out.push(marker);
    out.push(45u8);
    out.push(49u8);
    push_crlf(out);
    assert(out@ =~= old(out)@ + null_form(marker));
}

impl RespValue {
    /// The canonical RESP wire form of this value.
    pub fn as_bytes(&self) -> (r: Vec<u8>)
        ensures
            r@ == spec_encode(vmodel(*self)),
    {
        let mut out: Vec<u8> = Vec::new();
        self.encode_into(&mut out);
        out
    }

    /// Appends the canonical wire form of this value to `out`.
    pub fn encode_into(&self, out: &mut Vec<u8>)
        ensures
            final(out)@ == old(out)@ + spec_encode(vmodel(*self)),
        decreases *self,
    {
        match self {
            RespValue::SimpleString(s) => {
                out.push(43u8);
                push_bytes(out, s.as_slice());
                push_crlf(out);
                assert(out@ =~= old(out)@ + spec_encode(vmodel(*self)));
            },
            RespValue::Error(s) => {
                out.push(45u8);
                push_bytes(out, s.as_slice());
                push_crlf(out);
                assert(out@ =~= old(out)@ + spec_encode(vmodel(*self)));
            },
            RespValue::Integer(i) => {
                out.push(58u8);
                push_decimal_i64(out, *i);
                push_crlf(out);
                assert(out@ =~= old(out)@ + spec_encode(vmodel(*self)));
            },
            RespValue::BulkString(None) => {
                push_null_form(out, 36u8);
            },
            RespValue::BulkString(Some(s)) => {
                out.push(36u8);
                push_decimal_u64(out, s.len() as u64);
                push_crlf(out);
                push_bytes(out, s.as_slice());
                push_crlf(out);
                assert(out@ =~= old(out)@ + spec_encode(vmodel(*self)));
            },
            RespValue::Array(None) => {
                push_null_form(out, 42u8);
            },
            RespValue::Array(Some(es)) => {
                out.push(42u8);
                push_decimal_u64(out, es.len() as u64);
                push_crlf(out);
                Self::encode_elems_into(es, out);
                proof {
                    lemma_vmodel_elems(es@, 0);
                    assert(out@ =~= old(out)@ + spec_encode(vmodel(*self)));
                }
            },
            RespValue::Null => {
                out.push(95u8);
                push_crlf(out);
                assert(out@ =~= old(out)@ + spec_encode(vmodel(*self)));
            },
            RespValue::Boolean(b) => {
                out.push(35u8);
                out.push(if *b { 116u8 } else { 102u8 });
                push_crlf(out);
                assert(out@ =~= old(out)@ + spec_encode(vmodel(*self)));
            },
            RespValue::Double(s) => {
                out.push(44u8);
                push_bytes(out, s.as_slice());
                push_crlf(out);
                assert(out@ =~= old(out)@ + spec_encode(vmodel(*self)));
            },
            RespValue::BigNumber(s) => {
                out.push(40u8);
                push_bytes(out, s.as_slice());
                push_crlf(out);
                assert(out@ =~= old(out)@ + spec_encode(vmodel(*self)));
            },
            RespValue::BulkError(None) => {
                push_null_form(out, 33u8);
            },
            RespValue::BulkError(Some(s)) => {
                out.push(33u8);
                push_bytes(out, s.as_slice());
                push_crlf(out);
                assert(out@ =~= old(out)@ + spec_encode(vmodel(*self)));
            },
            RespValue::VerbatimString(None) => {
                push_null_form(out, 61u8);
            },
            RespValue::VerbatimString(Some(s)) => {
                out.push(61u8);
                push_bytes(out, s.as_slice());
                push_crlf(out);
                assert(out@ =~= old(out)@ + spec_encode(vmodel(*self)));
            },
            RespValue::MapVal(None) => {
                push_null_form(out, 37u8);
            },
            RespValue::MapVal(Some(ps)) => {
                out.push(37u8);
                push_decimal_u64(out, ps.len() as u64);
                push_crlf(out);
                Self::encode_pairs_into(ps, out);
                proof {
                    lemma_vmodel_pairs(ps@, 0);
                    assert(out@ =~= old(out)@ + spec_encode(vmodel(*self)));
                }
            },
            RespValue::SetVal(None) => {
                push_null_form(out, 126u8);
            },
            RespValue::SetVal(Some(es)) => {
                out.push(126u8);
                push_decimal_u64(out, es.len() as u64);
                push_crlf(out);
                Self::encode_elems_into(es, out);
                proof {
                    lemma_vmodel_elems(es@, 0);
                    assert(out@ =~= old(out)@ + spec_encode(vmodel(*self)));
                }
            },
            RespValue::Push(None) => {
                push_null_form(out, 62u8);
            },
            RespValue::Push(Some(es)) => {
                out.push(62u8);
                push_decimal_u64(out, es.len() as u64);
                push_crlf(out);
                Self::encode_elems_into(es, out);
                proof {
                    lemma_vmodel_elems(es@, 0);
                    assert(out@ =~= old(out)@ + spec_encode(vmodel(*self)));
                }
            },
        }
    }

    /// Appends the encodings of all elements of `es`, in order.
    fn encode_elems_into(es: &Vec<RespValue>, out: &mut Vec<u8>)
        ensures
            final(out)@ == old(out)@ + encode_elems(vmodel_elems(es@, 0), 0),
        decreases *es,
    {
        let ghost ms = vmodel_elems(es@, 0);
        proof {
            lemma_vmodel_elems(es@, 0);
            assert forall|j: int| 0 <= j < es@.len() implies #[trigger] ms[j] == vmodel(
                es@[j],
            ) by {
                assert(vmodel_elems(es@, 0)[j - 0] == vmodel(es@[j]));
            }
        }
        let mut k: usize = 0;
        while k < es.len()
            invariant
                k <= es@.len(),
                ms == vmodel_elems(es@, 0),
                ms.len() == es@.len(),
                forall|j: int| 0 <= j < es@.len() ==> #[trigger] ms[j] == vmodel(es@[j]),
                old(out)@ + encode_elems(ms, 0) == out@ + encode_elems(ms, k as int),
            decreases es@.len() - k,
        {
            let ghost prev = out@;
            es[k].encode_into(out);
            proof {
                assert(ms[k as int] == vmodel(es@[k as int]));
                assert(encode_elems(ms, k as int) == spec_encode(ms[k as int]) + encode_elems(
                    ms,
                    k as int + 1,
                ));
                assert(prev + encode_elems(ms, k as int) =~= out@ + encode_elems(
                    ms,
                    k as int + 1,
                ));
            }
            k = k + 1;
        }
        proof {
            assert(encode_elems(ms, ms.len() as int) == Seq::<u8>::empty());
            assert(out@ + encode_elems(ms, ms.len() as int) =~= out@);
        }
    }

    /// Appends the encodings of all pairs of `ps`, key before value.
    fn encode_pairs_into(ps: &Vec<(RespValue, RespValue)>, out: &mut Vec<u8>)
        ensures
            final(out)@ == old(out)@ + encode_pairs(vmodel_pairs(ps@, 0), 0),
        decreases *ps,
    {
        let ghost ms = vmodel_pairs(ps@, 0);
        proof {
            lemma_vmodel_pairs(ps@, 0);
            assert forall|j: int| 0 <= j < ps@.len() implies #[trigger] ms[j] == (
                vmodel(ps@[j].0),
                vmodel(ps@[j].1),
            ) by {
                assert(vmodel_pairs(ps@, 0)[j - 0] == (vmodel(ps@[j].0), vmodel(ps@[j].1)));
            }
        }
        let mut k: usize = 0;
        while k < ps.len()
            invariant
                k <= ps@.len(),
                ms == vmodel_pairs(ps@, 0),
                ms.len() == ps@.len(),
                forall|j: int|
                    0 <= j < ps@.len() ==> #[trigger] ms[j] == (vmodel(ps@[j].0), vmodel(ps@[j].1)),
                old(out)@ + encode_pairs(ms, 0) == out@ + encode_pairs(ms, k as int),
            decreases ps@.len() - k,
        {
            let ghost prev = out@;
            ps[k].0.encode_into(out);
            ps[k].1.encode_into(out);
            proof {
                assert(ms[k as int] == (vmodel(ps@[k as int].0), vmodel(ps@[k as int].1)));
                assert(encode_pairs(ms, k as int) == spec_encode(ms[k as int].0) + spec_encode(
                    ms[k as int].1,
                ) + encode_pairs(ms, k as int + 1));
                assert(prev + encode_pairs(ms, k as int) =~= out@ + encode_pairs(
                    ms,
                    k as int + 1,
                ));
            }
            k = k + 1;
        }
        proof {
            assert(encode_pairs(ms, ms.len() as int) == Seq::<u8>::empty());
            assert(out@ + encode_pairs(ms, ms.len() as int) =~= out@);
        }
    }
}


/// True of `Null`, of every absent nullable variant, and of every
/// present-but-empty nullable payload.
pub open spec fn is_empty_or_null(m: ValueModel) -> bool {
    match m {
        ValueModel::Null => true,
        ValueModel::BulkString(p) => p matches Some(s) ==> s.len() == 0,
        ValueModel::Array(p) => p matches Some(es) ==> es.len() == 0,
        ValueModel::BulkError(p) => p matches Some(s) ==> s.len() == 0,
        ValueModel::VerbatimString(p) => p matches Some(s) ==> s.len() == 0,
        ValueModel::MapVal(p) => p matches Some(ps) ==> ps.len() == 0,
        ValueModel::SetVal(p) => p matches Some(es) ==> es.len() == 0,
        ValueModel::Push(p) => p matches Some(es) ==> es.len() == 0,
        _ => false,
    }
}

impl RespValue {
    /// True when this value is `Null`, an absent nullable variant, or a
    /// present-empty nullable payload.
    pub fn is_none(&self) -> (r: bool)
        ensures
            r == is_empty_or_null(vmodel(*self)),
    {
        match self {
            RespValue::Null => true,
            RespValue::BulkString(None) => true,
            RespValue::BulkString(Some(s)) => s.len() == 0,
            RespValue::Array(None) => true,
            RespValue::Array(Some(es)) => {
                let r = es.len() == 0;
                proof {
                    lemma_vmodel_elems(es@, 0);
                }
                r
            },
            RespValue::BulkError(None) => true,
            RespValue::BulkError(Some(s)) => s.len() == 0,
            RespValue::VerbatimString(None) => true,
            RespValue::VerbatimString(Some(s)) => s.len() == 0,
            RespValue::MapVal(None) => true,
            RespValue::MapVal(Some(ps)) => {
                let r = ps.len() == 0;
                proof {
                    lemma_vmodel_pairs(ps@, 0);
                }
                r
            },
            RespValue::SetVal(None) => true,
            RespValue::SetVal(Some(es)) => {
                let r = es.len() == 0;
                proof {
                    lemma_vmodel_elems(es@, 0);
                }
                r
            },
            RespValue::Push(None) => true,
            RespValue::Push(Some(es)) => {
                let r = es.len() == 0;
                proof {
                    lemma_vmodel_elems(es@, 0);
                }
                r
            },
            _ => false,
        }
    }

    /// All payloads of a value are already owned; the value is returned
    /// unchanged.
    pub fn into_owned(self) -> (r: RespValue)
        ensures
            r == self,
    {
        self
    }
}

impl Default for RespValue {
    /// The default value is `Null`.
    fn default() -> (r: Self)
        ensures
            r == RespValue::Null,
    {
        RespValue::Null
    }
}

impl From<i64> for RespValue {
    fn from(value: i64) -> (r: Self) {
        RespValue::Integer(value)
    }
}

impl vstd::std_specs::convert::FromSpecImpl<i64> for RespValue {
    open spec fn obeys_from_spec() -> bool {
        true
    }

    open spec fn from_spec(v: i64) -> RespValue {
        RespValue::Integer(v)
    }
}

impl From<bool> for RespValue {
    fn from(value: bool) -> (r: Self) {
        RespValue::Boolean(value)
    }
}

impl vstd::std_specs::convert::FromSpecImpl<bool> for RespValue {
    open spec fn obeys_from_spec() -> bool {
        true
    }

    open spec fn from_spec(v: bool) -> RespValue {
        RespValue::Boolean(v)
    }
}

impl From<Vec<RespValue>> for RespValue {
    fn from(value: Vec<RespValue>) -> (r: Self) {
        RespValue::Array(Some(value))
    }
}

impl vstd::std_specs::convert::FromSpecImpl<Vec<RespValue>> for RespValue {
    open spec fn obeys_from_spec() -> bool {
        true
    }

    open spec fn from_spec(v: Vec<RespValue>) -> RespValue {
        RespValue::Array(Some(v))
    }
}

impl From<Vec<(RespValue, RespValue)>> for RespValue {
    fn from(value: Vec<(RespValue, RespValue)>) -> (r: Self) {
        RespValue::MapVal(Some(value))
    }
}

impl vstd::std_specs::convert::FromSpecImpl<Vec<(RespValue, RespValue)>> for RespValue {
    open spec fn obeys_from_spec() -> bool {
        true
    }

    open spec fn from_spec(v: Vec<(RespValue, RespValue)>) -> RespValue {
        RespValue::MapVal(Some(v))
    }
}

impl From<(RespValue, RespValue)> for RespValue {
    /// A single pair becomes a one-pair map.
    fn from(value: (RespValue, RespValue)) -> (r: Self)
        ensures
            vmodel(r) == ValueModel::MapVal(
                Some(seq![(vmodel(value.0), vmodel(value.1))]),
            ),
    {
        let (k, v) = value;
        let mut pairs: Vec<(RespValue, RespValue)> = Vec::new();
        pairs.push((k, v));
        let r = RespValue::MapVal(Some(pairs));
        proof {
            lemma_vmodel_pairs(pairs@, 0);
            assert(vmodel_pairs(pairs@, 0) =~= seq![(vmodel(value.0), vmodel(value.1))]);
        }
        r
    }
}

impl vstd::std_specs::convert::FromSpecImpl<(RespValue, RespValue)> for RespValue {
    open spec fn obeys_from_spec() -> bool {
        false
    }

    open spec fn from_spec(v: (RespValue, RespValue)) -> RespValue {
        arbitrary()
    }
}

impl From<String> for RespValue {
    /// A `String` becomes a simple string holding its UTF-8 bytes.
    fn from(value: String) -> (r: Self)
        ensures
            vmodel(r) == ValueModel::SimpleString(vstd::utf8::encode_utf8(value@)),
    {
        RespValue::SimpleString(vstd::slice::slice_to_vec(value.as_str().as_bytes()))
    }
}

impl vstd::std_specs::convert::FromSpecImpl<String> for RespValue {
    open spec fn obeys_from_spec() -> bool {
        false
    }

    open spec fn from_spec(v: String) -> RespValue {
        arbitrary()
    }
}

impl From<&str> for RespValue {
    /// A string slice becomes a simple string holding its UTF-8 bytes.
    fn from(value: &str) -> (r: Self)
        ensures
            vmodel(r) == ValueModel::SimpleString(vstd::utf8::encode_utf8(value@)),
    {
        RespValue::SimpleString(vstd::slice::slice_to_vec(value.as_bytes()))
    }
}

impl vstd::std_specs::convert::FromSpecImpl<&str> for RespValue {
    open spec fn obeys_from_spec() -> bool {
        false
    }

    open spec fn from_spec(v: &str) -> RespValue {
        arbitrary()
    }
}

impl From<Option<String>> for RespValue {
    /// An optional `String` becomes a bulk string, absent for `None`.
    fn from(value: Option<String>) -> (r: Self)
        ensures
            vmodel(r) == match value {
                Some(s) => ValueModel::BulkString(Some(vstd::utf8::encode_utf8(s@))),
                None => ValueModel::BulkString(None),
            },
    {
        match value {
            Some(s) => RespValue::BulkString(
                Some(vstd::slice::slice_to_vec(s.as_str().as_bytes())),
            ),
            None => RespValue::BulkString(None),
        }
    }
}

impl vstd::std_specs::convert::FromSpecImpl<Option<String>> for RespValue {
    open spec fn obeys_from_spec() -> bool {
        false
    }

    open spec fn from_spec(v: Option<String>) -> RespValue {
        arbitrary()
    }
}

} // verus!

