//! A byte serialization of calculation lists, with a proved round trip:
//! decoding an encoded list yields exactly the original calculations.
//!
//! Each record is laid out as a little-endian length-prefixed block: the
//! byte length of the metric name, the metric's UTF-8 bytes, one byte for
//! the regression verdict, then seven 64-bit numbers (the capture time
//! and the six values of the comparison evidence).

use vstd::bytes::lemma_auto_spec_u64_to_from_le_bytes;
use vstd::bytes::spec_u64_from_le_bytes;
use vstd::bytes::spec_u64_to_le_bytes;
use vstd::bytes::u64_from_le_bytes;
use vstd::bytes::u64_to_le_bytes;
use vstd::prelude::*;
use vstd::slice::slice_index_get;
use vstd::slice::slice_subrange;
use vstd::slice::slice_to_vec;
use vstd::utf8::decode_utf8;
use vstd::utf8::encode_utf8;
use vstd::utf8::encode_utf8_decode_utf8;
use vstd::utf8::encode_utf8_valid_utf8;
use vstd::utf8::valid_utf8;

use crate::records::CalcV;
use crate::records::Calculation;
use crate::records::Data;
use crate::records::Ratio;
use crate::records::lemma_vec_deep_view_index;
use crate::records::lemma_vec_deep_view_len;

verus! {

/// The seven fixed-width numbers of one record: the capture time (as its
/// two's-complement bit pattern) and the six comparison values.
pub open spec fn fields_bytes(c: CalcV) -> Seq<u8> {
    spec_u64_to_le_bytes(c.ts as u64) + spec_u64_to_le_bytes(c.data.threshold.num)
        + spec_u64_to_le_bytes(c.data.threshold.den) + spec_u64_to_le_bytes(c.data.difference.num)
        + spec_u64_to_le_bytes(c.data.difference.den) + spec_u64_to_le_bytes(c.data.baseline)
        + spec_u64_to_le_bytes(c.data.dev)
}

/// The encoding of one calculation.
pub open spec fn calc_bytes(c: CalcV) -> Seq<u8> {
    let mb = encode_utf8(c.metric);
    spec_u64_to_le_bytes(mb.len() as u64) + mb + seq![
        if c.regression {
            1u8
        } else {
            0u8
        },
    ] + fields_bytes(c)
}

/// The encoding of a calculation list: the records in order.
pub open spec fn calcs_bytes(cs: Seq<CalcV>) -> Seq<u8>
    decreases cs.len(),
{
    if cs.len() == 0 {
        Seq::empty()
    } else {
        calc_bytes(cs[0]) + calcs_bytes(cs.drop_first())
    }
}

proof fn lemma_calcs_bytes_snoc(cs: Seq<CalcV>, c: CalcV)
    ensures
        calcs_bytes(cs.push(c)) =~= calcs_bytes(cs) + calc_bytes(c),
    decreases cs.len(),
{
    let pushed = cs.push(c);
    if cs.len() == 0 {
        assert(pushed[0] == c);
        assert(pushed.drop_first() =~= Seq::<CalcV>::empty());
        assert(calcs_bytes(pushed.drop_first()) == Seq::<u8>::empty());
    } else {
        assert(pushed.drop_first() =~= cs.drop_first().push(c));
        lemma_calcs_bytes_snoc(cs.drop_first(), c);
        assert(pushed[0] == cs[0]);
    }
}

/// Reads one record at index `i`: the decoded calculation and the index
/// just after the record, or nothing when the bytes there do not form a
/// record.
pub open spec fn parse_calc(s: Seq<u8>, i: int) -> Option<(CalcV, int)>
    recommends
        0 <= i <= s.len(),
{
    if i + 8 > s.len() {
        Option::None
    } else {
        let mlen = spec_u64_from_le_bytes(s.subrange(i, i + 8)) as int;
        if i + 8 + mlen + 57 > s.len() {
            Option::None
        } else {
            let ms = i + 8;
            let me = ms + mlen;
            let mb = s.subrange(ms, me);
            if !valid_utf8(mb) {
                Option::None
            } else {
                let rb = s[me];
                if rb != 0 && rb != 1 {
                    Option::None
                } else {
                    let o = me + 1;
                    Option::Some(
                        (
                            CalcV {
                                metric: decode_utf8(mb),
                                regression: rb == 1,
                                ts: spec_u64_from_le_bytes(s.subrange(o, o + 8)) as i64,
                                data: Data {
                                    threshold: Ratio {
                                        num: spec_u64_from_le_bytes(s.subrange(o + 8, o + 16)),
                                        den: spec_u64_from_le_bytes(s.subrange(o + 16, o + 24)),
                                    },
                                    difference: Ratio {
                                        num: spec_u64_from_le_bytes(s.subrange(o + 24, o + 32)),
                                        den: spec_u64_from_le_bytes(s.subrange(o + 32, o + 40)),
                                    },
                                    baseline: spec_u64_from_le_bytes(s.subrange(o + 40, o + 48)),
                                    dev: spec_u64_from_le_bytes(s.subrange(o + 48, o + 56)),
                                },
                            },
                            o + 56,
                        ),
                    )
                }
            }
        }
    }
}

/// Reads records from index `i` to the end of the bytes, or nothing when
/// the bytes are not a whole number of records.
pub open spec fn parse_calcs(s: Seq<u8>, i: int) -> Option<Seq<CalcV>>
    recommends
        0 <= i <= s.len(),
    decreases s.len() - i,
{
    if i == s.len() {
        Option::Some(Seq::empty())
    } else {
        match parse_calc(s, i) {
            Option::None => Option::None,
            Option::Some((c, e)) => {
                if !(i < e <= s.len()) {
                    Option::None
                } else {
                    match parse_calcs(s, e) {
                        Option::None => Option::None,
                        Option::Some(rest) => Option::Some(seq![c] + rest),
                    }
                }
            },
        }
    }
}

/// What decoding a whole byte string yields, given the records already
/// decoded from a processed prefix and the outcome of the remainder.
pub open spec fn parse_compose(done: Seq<CalcV>, o: Option<Seq<CalcV>>) -> Option<Seq<CalcV>> {
    match o {
        Option::Some(rest) => Option::Some(done + rest),
        Option::None => Option::None,
    }
}

proof fn lemma_parse_compose_empty(o: Option<Seq<CalcV>>)
    ensures
        parse_compose(Seq::empty(), o) == o,
{
    match o {
        Option::Some(rest) => {
            assert(Seq::<CalcV>::empty() + rest =~= rest);
        },
        Option::None => {},
    }
}

proof fn lemma_parse_compose_step(done: Seq<CalcV>, c: CalcV, o: Option<Seq<CalcV>>)
    ensures
        parse_compose(
            done,
            match o {
                Option::Some(rest) => Option::Some(seq![c] + rest),
                Option::None => Option::None::<Seq<CalcV>>,
            },
        ) == parse_compose(done.push(c), o),
{
    match o {
        Option::Some(rest) => {
            assert(done + (seq![c] + rest) =~= done.push(c) + rest);
        },
        Option::None => {},
    }
}

/// The length of one record's encoding.
pub open spec fn calc_bytes_len(c: CalcV) -> int {
    65 + encode_utf8(c.metric).len() as int
}

proof fn lemma_calc_bytes_len(c: CalcV)
    ensures
        calc_bytes(c).len() == calc_bytes_len(c),
        fields_bytes(c).len() == 56,
{
    lemma_auto_spec_u64_to_from_le_bytes();
    let mb = encode_utf8(c.metric);
    assert(spec_u64_to_le_bytes(mb.len() as u64).len() == 8);
    assert(spec_u64_to_le_bytes(c.ts as u64).len() == 8);
    assert(spec_u64_to_le_bytes(c.data.threshold.num).len() == 8);
    assert(spec_u64_to_le_bytes(c.data.threshold.den).len() == 8);
    assert(spec_u64_to_le_bytes(c.data.difference.num).len() == 8);
    assert(spec_u64_to_le_bytes(c.data.difference.den).len() == 8);
    assert(spec_u64_to_le_bytes(c.data.baseline).len() == 8);
    assert(spec_u64_to_le_bytes(c.data.dev).len() == 8);
}

/// Reading at the start of a record's encoding yields that record and
/// stops right after it.
proof fn lemma_parse_calc_of_encoding(s: Seq<u8>, i: int, c: CalcV)
    requires
        0 <= i,
        i + calc_bytes_len(c) <= s.len(),
        s.subrange(i, i + calc_bytes_len(c)) == calc_bytes(c),
        encode_utf8(c.metric).len() <= u64::MAX,
    ensures
        parse_calc(s, i) == Option::Some((c, i + calc_bytes_len(c))),
{
    lemma_auto_spec_u64_to_from_le_bytes();
    lemma_calc_bytes_len(c);
    let mb = encode_utf8(c.metric);
    let ml = mb.len() as int;
    let rb: u8 = if c.regression {
        1u8
    } else {
        0u8
    };
    let enc = calc_bytes(c);
    let f = fields_bytes(c);
    let p0 = spec_u64_to_le_bytes(mb.len() as u64);
    assert(enc =~= p0 + mb + seq![rb] + f);
    assert forall|k: int| 0 <= k < enc.len() implies s[i + k] == #[trigger] enc[k] by {
        assert(s.subrange(i, i + calc_bytes_len(c))[k] == enc[k]);
    }
    let ms = i + 8;
    let me = ms + ml;
    let o = me + 1;
    assert forall|k: int| 0 <= k < 8 implies s.subrange(i, i + 8)[k] == p0[k] by {
        assert(enc[k] == (p0 + mb + seq![rb] + f)[k]);
        assert((p0 + mb + seq![rb] + f)[k] == p0[k]);
        assert(s.subrange(i, i + 8)[k] == s[i + k]);
    }
    assert(s.subrange(i, i + 8) =~= p0);
    assert(spec_u64_from_le_bytes(s.subrange(i, i + 8)) == mb.len() as u64);
    assert((mb.len() as u64) as int == ml);
    assert forall|k: int| 0 <= k < ml implies s.subrange(ms, me)[k] == mb[k] by {
        assert(s[i + (8 + k)] == enc[8 + k]);
        assert(enc[8 + k] == (p0 + mb + seq![rb] + f)[8 + k]);
        assert((p0 + mb + seq![rb] + f)[8 + k] == mb[k]);
        assert(s.subrange(ms, me)[k] == s[ms + k]);
    }
    assert(s.subrange(ms, me) =~= mb);
    encode_utf8_valid_utf8(c.metric);
    encode_utf8_decode_utf8(c.metric);
    assert(s[me] == rb) by {
        assert(s[i + (8 + ml)] == enc[8 + ml]);
        assert(enc[8 + ml] == (p0 + mb + seq![rb] + f)[8 + ml]);
        assert((p0 + mb + seq![rb] + f)[8 + ml] == rb);
    }
    let f1 = spec_u64_to_le_bytes(c.ts as u64);
    let f2 = spec_u64_to_le_bytes(c.data.threshold.num);
    let f3 = spec_u64_to_le_bytes(c.data.threshold.den);
    let f4 = spec_u64_to_le_bytes(c.data.difference.num);
    let f5 = spec_u64_to_le_bytes(c.data.difference.den);
    let f6 = spec_u64_to_le_bytes(c.data.baseline);
    let f7 = spec_u64_to_le_bytes(c.data.dev);
    assert forall|k: int| 0 <= k < 56 implies s[o + k] == #[trigger] f[k] by {
        assert(s[i + (9 + ml + k)] == enc[9 + ml + k]);
        assert(enc[9 + ml + k] == (p0 + mb + seq![rb] + f)[9 + ml + k]);
        assert((p0 + mb + seq![rb] + f)[9 + ml + k] == f[k]);
    }
    assert forall|k: int| 0 <= k < 8 implies {
        &&& s.subrange(o, o + 8)[k] == f1[k]
        &&& s.subrange(o + 8, o + 16)[k] == f2[k]
        &&& s.subrange(o + 16, o + 24)[k] == f3[k]
        &&& s.subrange(o + 24, o + 32)[k] == f4[k]
        &&& s.subrange(o + 32, o + 40)[k] == f5[k]
        &&& s.subrange(o + 40, o + 48)[k] == f6[k]
        &&& s.subrange(o + 48, o + 56)[k] == f7[k]
    } by {
        assert(f[k] == (f1 + f2 + f3 + f4 + f5 + f6 + f7)[k]);
        assert((f1 + f2 + f3 + f4 + f5 + f6 + f7)[k] == f1[k]);
        assert(f[8 + k] == (f1 + f2 + f3 + f4 + f5 + f6 + f7)[8 + k]);
        assert((f1 + f2 + f3 + f4 + f5 + f6 + f7)[8 + k] == f2[k]);
        assert(f[16 + k] == (f1 + f2 + f3 + f4 + f5 + f6 + f7)[16 + k]);
        assert((f1 + f2 + f3 + f4 + f5 + f6 + f7)[16 + k] == f3[k]);
        assert(f[24 + k] == (f1 + f2 + f3 + f4 + f5 + f6 + f7)[24 + k]);
        assert((f1 + f2 + f3 + f4 + f5 + f6 + f7)[24 + k] == f4[k]);
        assert(f[32 + k] == (f1 + f2 + f3 + f4 + f5 + f6 + f7)[32 + k]);
        assert((f1 + f2 + f3 + f4 + f5 + f6 + f7)[32 + k] == f5[k]);
        assert(f[40 + k] == (f1 + f2 + f3 + f4 + f5 + f6 + f7)[40 + k]);
        assert((f1 + f2 + f3 + f4 + f5 + f6 + f7)[40 + k] == f6[k]);
        assert(f[48 + k] == (f1 + f2 + f3 + f4 + f5 + f6 + f7)[48 + k]);
        assert((f1 + f2 + f3 + f4 + f5 + f6 + f7)[48 + k] == f7[k]);
        assert(s.subrange(o, o + 8)[k] == s[o + k]);
        assert(s.subrange(o + 8, o + 16)[k] == s[o + (8 + k)]);
        assert(s.subrange(o + 16, o + 24)[k] == s[o + (16 + k)]);
        assert(s.subrange(o + 24, o + 32)[k] == s[o + (24 + k)]);
        assert(s.subrange(o + 32, o + 40)[k] == s[o + (32 + k)]);
        assert(s.subrange(o + 40, o + 48)[k] == s[o + (40 + k)]);
        assert(s.subrange(o + 48, o + 56)[k] == s[o + (48 + k)]);
    }
    assert(s.subrange(o, o + 8) =~= f1);
    assert(s.subrange(o + 8, o + 16) =~= f2);
    assert(s.subrange(o + 16, o + 24) =~= f3);
    assert(s.subrange(o + 24, o + 32) =~= f4);
    assert(s.subrange(o + 32, o + 40) =~= f5);
    assert(s.subrange(o + 40, o + 48) =~= f6);
    assert(s.subrange(o + 48, o + 56) =~= f7);
    let t = c.ts;
    assert((t as u64) as i64 == t) by (bit_vector);
    let parsed = parse_calc(s, i);
    assert(parsed is Some);
    let (pc, pe) = parsed.unwrap();
    assert(pc =~~= c);
    assert(pe == o + 56);
}

/// Reading from the start of an encoded list yields exactly that list.
proof fn lemma_parse_calcs_of_encoding(s: Seq<u8>, i: int, cs: Seq<CalcV>)
    requires
        0 <= i <= s.len(),
        s.subrange(i, s.len() as int) == calcs_bytes(cs),
        forall|k: int| 0 <= k < cs.len() ==> encode_utf8(#[trigger] cs[k].metric).len() <= u64::MAX,
    ensures
        parse_calcs(s, i) == Option::Some(cs),
    decreases cs.len(),
{
    if cs.len() == 0 {
        assert(s.subrange(i, s.len() as int).len() == 0);
        assert(i == s.len());
    } else {
        let c = cs[0];
        lemma_calc_bytes_len(c);
        let cb = calc_bytes(c);
        let e = i + calc_bytes_len(c);
        assert(calcs_bytes(cs) == cb + calcs_bytes(cs.drop_first()));
        assert(e <= s.len()) by {
            assert(s.subrange(i, s.len() as int).len() == calcs_bytes(cs).len());
        }
        assert(s.subrange(i, e) =~= cb) by {
            assert forall|k: int| 0 <= k < cb.len() implies s.subrange(i, e)[k] == cb[k] by {
                assert(s.subrange(i, s.len() as int)[k] == (cb + calcs_bytes(cs.drop_first()))[k]);
            }
        }
        lemma_parse_calc_of_encoding(s, i, c);
        assert(s.subrange(e, s.len() as int) =~= calcs_bytes(cs.drop_first())) by {
            let whole = s.subrange(i, s.len() as int);
            assert forall|k: int| 0 <= k < s.len() - e implies s.subrange(e, s.len() as int)[k]
                == calcs_bytes(cs.drop_first())[k] by {
                assert(whole[k + cb.len()] == (cb + calcs_bytes(cs.drop_first()))[k + cb.len()]);
            }
        }
        assert forall|k: int| 0 <= k < cs.drop_first().len() implies encode_utf8(
            #[trigger] cs.drop_first()[k].metric,
        ).len() <= u64::MAX by {
            assert(cs.drop_first()[k] == cs[k + 1]);
        }
        lemma_parse_calcs_of_encoding(s, e, cs.drop_first());
        assert(seq![c] + cs.drop_first() =~= cs);
    }
}

/// Decoding an encoded calculation list yields exactly the original
/// list. The one proviso is a machine limit: each metric name's UTF-8
/// form fits the 64-bit length prefix.
pub proof fn lemma_codec_round_trip(cs: Seq<CalcV>)
    requires
        forall|k: int| 0 <= k < cs.len() ==> encode_utf8(#[trigger] cs[k].metric).len() <= u64::MAX,
    ensures
        parse_calcs(calcs_bytes(cs), 0) == Option::Some(cs),
{
    let s = calcs_bytes(cs);
    assert(s.subrange(0, s.len() as int) =~= s);
    lemma_parse_calcs_of_encoding(s, 0, cs);
}

fn push_bytes(out: &mut Vec<u8>, b: &[u8])
    ensures
        final(out)@ == old(out)@ + b@,
{
    let mut i: usize = 0;
    while i < b.len()
        invariant
            i <= b@.len(),
            out@ == old(out)@ + b@.subrange(0, i as int),
        decreases b@.len() - i,
    {
        out.push(*slice_index_get(b, i));
        proof {
            assert(old(out)@ + b@.subrange(0, i as int) + seq![b@[i as int]] =~= old(out)@
                + b@.subrange(0, i + 1));
        }
        i = i + 1;
    }
    proof {
        assert(b@.subrange(0, b@.len() as int) =~= b@);
    }
}

fn push_u64_le(out: &mut Vec<u8>, x: u64)
    ensures
        final(out)@ == old(out)@ + spec_u64_to_le_bytes(x),
{
    let b = u64_to_le_bytes(x);
    push_bytes(out, b.as_slice());
}

/// Relies on std's `String::from_utf8`: it succeeds exactly on valid
/// UTF-8, and the returned string is the UTF-8 reading of the bytes.
#[verifier::external_body]
fn string_from_utf8(v: Vec<u8>) -> (r: Option<String>)
    ensures
        r is Some <==> valid_utf8(v@),
        r matches Option::Some(s) ==> encode_utf8(s@) == v@,
{
    String::from_utf8(v).ok()
}

/// Serializes a calculation list.
pub fn encode_calculations(calcs: &Vec<Calculation>) -> (r: Vec<u8>)
    ensures
        r@ == calcs_bytes(calcs.deep_view()),
{
    let ghost dv = calcs.deep_view();
    proof {
        lemma_vec_deep_view_len(calcs);
    }
    let mut r: Vec<u8> = Vec::new();
    let mut i: usize = 0;
    while i < calcs.len()
        invariant
            i <= calcs.len(),
            dv == calcs.deep_view(),
            dv.len() == calcs@.len(),
            r@ == calcs_bytes(dv.take(i as int)),
        decreases calcs.len() - i,
    {
        proof {
            lemma_vec_deep_view_index(calcs, i as int);
        }
        let c = &calcs[i];
        let ghost cv = dv[i as int];
        let mb = c.metric.as_str().as_bytes();
        let ghost r0 = r@;
        push_u64_le(&mut r, mb.len() as u64);
        push_bytes(&mut r, mb);
        r.push(if c.regression { 1u8 } else { 0u8 });
        push_u64_le(&mut r, c.ts as u64);
        push_u64_le(&mut r, c.data.threshold.num);
        push_u64_le(&mut r, c.data.threshold.den);
        push_u64_le(&mut r, c.data.difference.num);
        push_u64_le(&mut r, c.data.difference.den);
        push_u64_le(&mut r, c.data.baseline);
        push_u64_le(&mut r, c.data.dev);
        proof {
            assert(mb@ == encode_utf8(cv.metric));
            assert((mb@.len() as u64) == (encode_utf8(cv.metric).len() as u64));
            assert(r@ =~= r0 + calc_bytes(cv));
            lemma_calcs_bytes_snoc(dv.take(i as int), cv);
            assert(dv.take(i as int).push(cv) =~= dv.take(i + 1));
            assert(r@ == calcs_bytes(dv.take(i + 1)));
        }
        i = i + 1;
    }
    proof {
        assert(dv.take(calcs@.len() as int) =~= dv);
    }
    r
}

/// Deserializes a calculation list, returning nothing when the bytes are
/// not an encoded list.
pub fn decode_calculations(b: &[u8]) -> (r: Option<Vec<Calculation>>)
    ensures
        match r {
            Option::Some(v) => parse_calcs(b@, 0) == Option::Some(v.deep_view()),
            Option::None => parse_calcs(b@, 0) is None,
        },
{
    let mut out: Vec<Calculation> = Vec::new();
    let ghost mut done: Seq<CalcV> = Seq::empty();
    proof {
        lemma_parse_compose_empty(parse_calcs(b@, 0));
    }
    let mut i: usize = 0;
    while i < b.len()
        invariant
            i <= b@.len(),
            parse_calcs(b@, 0) == parse_compose(done, parse_calcs(b@, i as int)),
            out.deep_view() =~~= done,
        decreases b@.len() - i,
    {
        if b.len() - i < 8 {
            return Option::None;
        }
        let mlen64 = u64_from_le_bytes(slice_subrange(b, i, i + 8));
        let remaining = b.len() - (i + 8);
        if (mlen64 as u128) + 57 > (remaining as u128) {
            return Option::None;
        }
        let ml = mlen64 as usize;
        let ms = i + 8;
        let me = ms + ml;
        let mbytes = slice_to_vec(slice_subrange(b, ms, me));
        let metric = match string_from_utf8(mbytes) {
            Option::None => {
                return Option::None;
            },
            Option::Some(s) => s,
        };
        let rb = *slice_index_get(b, me);
        if rb != 0 && rb != 1 {
            return Option::None;
        }
        let o = me + 1;
        let tsu = u64_from_le_bytes(slice_subrange(b, o, o + 8));
        let tnum = u64_from_le_bytes(slice_subrange(b, o + 8, o + 16));
        let tden = u64_from_le_bytes(slice_subrange(b, o + 16, o + 24));
        let dnum = u64_from_le_bytes(slice_subrange(b, o + 24, o + 32));
        let dden = u64_from_le_bytes(slice_subrange(b, o + 32, o + 40));
        let baseline = u64_from_le_bytes(slice_subrange(b, o + 40, o + 48));
        let dev = u64_from_le_bytes(slice_subrange(b, o + 48, o + 56));
        let c = Calculation {
            metric,
            regression: rb == 1,
            ts: #[verifier::truncate] (tsu as i64),
            data: Data {
                threshold: Ratio { num: tnum, den: tden },
                difference: Ratio { num: dnum, den: dden },
                baseline,
                dev,
            },
        };
        let ghost cv = c.deep_view();
        proof {
            encode_utf8_decode_utf8(c.metric@);
            let parsed = parse_calc(b@, i as int);
            assert(parsed == Option::Some((cv, o + 56))) by {
                assert(parsed is Some);
                let (pc, pe) = parsed.unwrap();
                assert(pc =~~= cv);
            }
            lemma_parse_compose_step(done, cv, parse_calcs(b@, o + 56));
        }
        let ghost vb = out@;
        let ghost dv_before = out.deep_view();
        proof {
            lemma_vec_deep_view_len(&out);
            assert forall|t: int| 0 <= t < vb.len() implies dv_before[t]
                == vb[t].deep_view() by {
                lemma_vec_deep_view_index(&out, t);
            }
        }
        out.push(c);
        proof {
            lemma_vec_deep_view_len(&out);
            assert forall|t: int| 0 <= t < out@.len() implies out.deep_view()[t] == done.push(
                cv,
            )[t] by {
                lemma_vec_deep_view_index(&out, t);
                if t < vb.len() {
                    assert(out@[t] == vb[t]);
                } else {
                    assert(out@[t] == c);
                }
            }
            assert(out.deep_view() =~~= done.push(cv));
            done = done.push(cv);
        }
        i = o + 56;
    }
    proof {
        assert(parse_calcs(b@, i as int) == Option::Some(Seq::<CalcV>::empty()));
        assert(done + Seq::<CalcV>::empty() =~= done);
    }
    Option::Some(out)
}

} // verus!
