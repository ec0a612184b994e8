//! The persisted form of a task: a fixed-size header (owner, daemon, id,
//! status, due time, expiry, execution counter) followed by the
//! length-prefixed recurrence text and the action payload. Decoding a
//! malformed record fails with `NotParsable`; decoding an encoded record
//! gives back exactly what was encoded.

use vstd::prelude::*;

use crate::errors::Error;
use crate::task::TaskStatus;

verus! {

/// A task as an addressable stored record. The recurrence is kept as the
/// expression text it was created from (empty for a one-shot task); the
/// payload is opaque.
#[derive(Debug)]
pub struct TaskRecord {
    pub owner: u64,
    pub daemon: u64,
    pub id: u64,
    pub status: TaskStatus,
    pub exec_at: i64,
    pub stop_at: Option<i64>,
    pub exec_count: u64,
    pub recurrence: Vec<u8>,
    pub payload: Vec<u8>,
}

/// The little-endian bytes of a 64-bit value.
#[verifier::opaque]
pub open spec fn enc_u64(x: int) -> Seq<u8> {
    seq![
        (x % 256) as u8,
        ((x / 256) % 256) as u8,
        ((x / 65536) % 256) as u8,
        ((x / 16777216) % 256) as u8,
        ((x / 4294967296) % 256) as u8,
        ((x / 1099511627776) % 256) as u8,
        ((x / 281474976710656) % 256) as u8,
        ((x / 72057594037927936) % 256) as u8,
    ]
}

/// A sign byte followed by the magnitude.
pub open spec fn enc_i64(v: int) -> Seq<u8> {
    if v < 0 {
        seq![1u8] + enc_u64(-v)
    } else {
        seq![0u8] + enc_u64(v)
    }
}

/// A presence byte followed by the value (zero when absent).
pub open spec fn enc_opt_i64(v: Option<i64>) -> Seq<u8> {
    match v {
        Some(x) => seq![1u8] + enc_i64(x as int),
        None => seq![0u8] + enc_i64(0),
    }
}

pub open spec fn status_byte(s: TaskStatus) -> u8 {
    match s {
        TaskStatus::Pending => 0,
        TaskStatus::Due => 1,
        TaskStatus::Executed => 2,
        TaskStatus::Stopped => 3,
        TaskStatus::Cancelled => 4,
    }
}

/// The full record layout: a 53-byte header, the length-prefixed
/// recurrence text, and the payload running to the end of the record.
pub open spec fn spec_encode(r: TaskRecord) -> Seq<u8> {
    enc_u64(r.owner as int) + enc_u64(r.daemon as int) + enc_u64(r.id as int) + seq![
        status_byte(r.status),
    ] + enc_i64(r.exec_at as int) + enc_opt_i64(r.stop_at) + enc_u64(r.exec_count as int) + enc_u64(
        r.recurrence@.len() as int,
    ) + r.recurrence@ + r.payload@
}

proof fn lemma_enc_u64_len(x: int)
    ensures
        enc_u64(x).len() == 8,
{
    reveal(enc_u64);
}

proof fn lemma_u64_digit_sum(x: int)
    requires
        0 <= x < 0x10000000000000000,
    ensures
        x == (x % 256) + 256 * ((x / 256) % 256) + 65536 * ((x / 65536) % 256) + 16777216 * ((x
            / 16777216) % 256) + 4294967296 * ((x / 4294967296) % 256) + 1099511627776 * ((x
            / 1099511627776) % 256) + 281474976710656 * ((x / 281474976710656) % 256)
            + 72057594037927936 * ((x / 72057594037927936) % 256),
{
    vstd::arithmetic::div_mod::lemma_div_denominator(x, 256, 256);
    vstd::arithmetic::div_mod::lemma_div_denominator(x, 65536, 256);
    vstd::arithmetic::div_mod::lemma_div_denominator(x, 16777216, 256);
    vstd::arithmetic::div_mod::lemma_div_denominator(x, 4294967296, 256);
    vstd::arithmetic::div_mod::lemma_div_denominator(x, 1099511627776, 256);
    vstd::arithmetic::div_mod::lemma_div_denominator(x, 281474976710656, 256);
    assert(x / 72057594037927936 < 256) by (nonlinear_arith)
        requires
            0 <= x < 0x10000000000000000,
    ;
    assert((x / 72057594037927936) % 256 == x / 72057594037927936);
}

proof fn lemma_enc_u64_of_sum(b: Seq<u8>, p: int, x: int)
    requires
        0 <= p,
        p + 8 <= b.len(),
        x == b[p] + 256 * b[p + 1] + 65536 * b[p + 2] + 16777216 * b[p + 3] + 4294967296 * b[p + 4]
            + 1099511627776 * b[p + 5] + 281474976710656 * b[p + 6] + 72057594037927936 * b[p + 7],
    ensures
        b.subrange(p, p + 8) == enc_u64(x),
{
    reveal(enc_u64);
    let s1 = b[p + 1] + 256 * b[p + 2] + 65536 * b[p + 3] + 16777216 * b[p + 4] + 4294967296 * b[p
        + 5] + 1099511627776 * b[p + 6] + 281474976710656 * b[p + 7];
    let s2 = b[p + 2] + 256 * b[p + 3] + 65536 * b[p + 4] + 16777216 * b[p + 5] + 4294967296 * b[p
        + 6] + 1099511627776 * b[p + 7];
    let s3 = b[p + 3] + 256 * b[p + 4] + 65536 * b[p + 5] + 16777216 * b[p + 6] + 4294967296 * b[p
        + 7];
    let s4 = b[p + 4] + 256 * b[p + 5] + 65536 * b[p + 6] + 16777216 * b[p + 7];
    let s5 = b[p + 5] + 256 * b[p + 6] + 65536 * b[p + 7];
    let s6 = b[p + 6] + 256 * b[p + 7];
    let s7 = b[p + 7] as int;
    vstd::arithmetic::div_mod::lemma_fundamental_div_mod_converse(x, 256, s1, b[p] as int);
    vstd::arithmetic::div_mod::lemma_fundamental_div_mod_converse(s1, 256, s2, b[p + 1] as int);
    vstd::arithmetic::div_mod::lemma_fundamental_div_mod_converse(s2, 256, s3, b[p + 2] as int);
    vstd::arithmetic::div_mod::lemma_fundamental_div_mod_converse(s3, 256, s4, b[p + 3] as int);
    vstd::arithmetic::div_mod::lemma_fundamental_div_mod_converse(s4, 256, s5, b[p + 4] as int);
    vstd::arithmetic::div_mod::lemma_fundamental_div_mod_converse(s5, 256, s6, b[p + 5] as int);
    vstd::arithmetic::div_mod::lemma_fundamental_div_mod_converse(s6, 256, s7, b[p + 6] as int);
    vstd::arithmetic::div_mod::lemma_fundamental_div_mod_converse(s7, 256, 0, b[p + 7] as int);
    vstd::arithmetic::div_mod::lemma_div_denominator(x, 256, 256);
    vstd::arithmetic::div_mod::lemma_div_denominator(x, 65536, 256);
    vstd::arithmetic::div_mod::lemma_div_denominator(x, 16777216, 256);
    vstd::arithmetic::div_mod::lemma_div_denominator(x, 4294967296, 256);
    vstd::arithmetic::div_mod::lemma_div_denominator(x, 1099511627776, 256);
    vstd::arithmetic::div_mod::lemma_div_denominator(x, 281474976710656, 256);
    assert(b.subrange(p, p + 8) =~= enc_u64(x));
}

fn push_u64(out: &mut Vec<u8>, x: u64)
    ensures
        final(out)@ == old(out)@ + enc_u64(x as int),
{
    out.push((x % 256) as u8);
    out.push(((x / 256) % 256) as u8);
    out.push(((x / 65536) % 256) as u8);
    out.push(((x / 16777216) % 256) as u8);
    out.push(((x / 4294967296) % 256) as u8);
    out.push(((x / 1099511627776) % 256) as u8);
    out.push(((x / 281474976710656) % 256) as u8);
    out.push(((x / 72057594037927936) % 256) as u8);
    proof {
        reveal(enc_u64);
        assert(out@ =~= old(out)@ + enc_u64(x as int));
    }
}

fn push_i64(out: &mut Vec<u8>, v: i64)
    ensures
        final(out)@ == old(out)@ + enc_i64(v as int),
{
    if v < 0 {
        out.push(1);
        let wide: i128 = v as i128;
        let mag: u64 = (-wide) as u64;
        push_u64(out, mag);
    } else {
        out.push(0);
        push_u64(out, v as u64);
    }
    proof {
        lemma_enc_u64_len(v as int);
        lemma_enc_u64_len(-(v as int));
        assert(out@ =~= old(out)@ + enc_i64(v as int));
    }
}

fn read_u64(b: &[u8], p: usize) -> (x: u64)
    requires
        p + 8 <= b@.len(),
    ensures
        forall|v: u64| b@.subrange(p as int, p as int + 8) == enc_u64(v as int) ==> x == v,
        b@.subrange(p as int, p as int + 8) == enc_u64(x as int),
{
    let x: u64 = (b[p] as u64) + (b[p + 1] as u64) * 256 + (b[p + 2] as u64) * 65536 + (b[p
        + 3] as u64) * 16777216 + (b[p + 4] as u64) * 4294967296 + (b[p + 5] as u64)
        * 1099511627776 + (b[p + 6] as u64) * 281474976710656 + (b[p + 7] as u64)
        * 72057594037927936;
    proof {
        assert forall|v: u64| b@.subrange(p as int, p as int + 8) == enc_u64(v as int) implies x
            == v by {
            reveal(enc_u64);
            let s = b@.subrange(p as int, p as int + 8);
            assert(s[0] == b@[p as int]);
            assert(s[1] == b@[p as int + 1]);
            assert(s[2] == b@[p as int + 2]);
            assert(s[3] == b@[p as int + 3]);
            assert(s[4] == b@[p as int + 4]);
            assert(s[5] == b@[p as int + 5]);
            assert(s[6] == b@[p as int + 6]);
            assert(s[7] == b@[p as int + 7]);
            lemma_u64_digit_sum(v as int);
        }
        lemma_enc_u64_of_sum(b@, p as int, x as int);
    }
    x
}

fn read_i64(b: &[u8], p: usize) -> (r: Result<i64, Error>)
    requires
        p + 9 <= b@.len(),
    ensures
        r is Err ==> r == Err::<i64, Error>(Error::NotParsable),
        forall|v: i64| b@.subrange(p as int, p as int + 9) == enc_i64(v as int) ==> r == Ok::<
            i64,
            Error,
        >(v),
        r matches Ok(x) ==> b@.subrange(p as int, p as int + 9) == enc_i64(x as int),
{
    let flag = b[p];
    let m = read_u64(b, p + 1);
    let res: Result<i64, Error> = if flag == 0 {
        if m <= 0x7fffffffffffffff {
            Ok(m as i64)
        } else {
            Err(Error::NotParsable)
        }
    } else if flag == 1 {
        if 1 <= m && m <= 0x8000000000000000 {
            let wide: i128 = -(m as i128);
            Ok(wide as i64)
        } else {
            Err(Error::NotParsable)
        }
    } else {
        Err(Error::NotParsable)
    };
    proof {
        assert forall|v: i64| b@.subrange(p as int, p as int + 9) == enc_i64(v as int) implies res
            == Ok::<i64, Error>(v) by {
            lemma_enc_u64_len(v as int);
            lemma_enc_u64_len(-(v as int));
            let s = b@.subrange(p as int, p as int + 9);
            assert(s[0] == b@[p as int]);
            assert(b@.subrange(p as int + 1, p as int + 9) =~= s.subrange(1, 9));
            if v >= 0 {
                assert(s[0] == 0);
                assert(s.subrange(1, 9) =~= enc_u64(v as int));
            } else {
                assert(s[0] == 1);
                assert(s.subrange(1, 9) =~= enc_u64(-(v as int)));
            }
        }
        match res {
            Ok(x) => {
                lemma_enc_u64_len(x as int);
                lemma_enc_u64_len(-(x as int));
                assert(b@.subrange(p as int + 1, p as int + 9) == enc_u64(m as int));
                assert(b@.subrange(p as int, p as int + 9) =~= enc_i64(x as int));
            },
            Err(_) => {},
        }
    }
    res
}

fn copy_range(b: &[u8], from: usize, to: usize) -> (out: Vec<u8>)
    requires
        from <= to <= b@.len(),
    ensures
        out@ == b@.subrange(from as int, to as int),
{
    let mut out: Vec<u8> = Vec::new();
    let mut k: usize = from;
    while k < to
        invariant
            from <= k <= to <= b@.len(),
            out@ == b@.subrange(from as int, k as int),
        decreases to - k,
    {
        out.push(b[k]);
        proof {
            assert(out@ =~= b@.subrange(from as int, k as int + 1));
        }
        k = k + 1;
    }
    out
}

#[verifier::rlimit(100)]
proof fn lemma_layout(b: Seq<u8>, v: TaskRecord)
    requires
        b == spec_encode(v),
    ensures
        b.len() == 60 + v.recurrence@.len() + v.payload@.len(),
        b.subrange(0, 8) == enc_u64(v.owner as int),
        b.subrange(8, 16) == enc_u64(v.daemon as int),
        b.subrange(16, 24) == enc_u64(v.id as int),
        b[24] == status_byte(v.status),
        b.subrange(25, 34) == enc_i64(v.exec_at as int),
        b.subrange(34, 44) == enc_opt_i64(v.stop_at),
        b.subrange(44, 52) == enc_u64(v.exec_count as int),
        b.subrange(52, 60) == enc_u64(v.recurrence@.len() as int),
        b.subrange(60, 60 + v.recurrence@.len() as int) == v.recurrence@,
        b.subrange(60 + v.recurrence@.len() as int, b.len() as int) == v.payload@,
{
    reveal(enc_u64);
    assert(b.subrange(0, 8) =~= enc_u64(v.owner as int));
    assert(b.subrange(8, 16) =~= enc_u64(v.daemon as int));
    assert(b.subrange(16, 24) =~= enc_u64(v.id as int));
    assert(b.subrange(25, 34) =~= enc_i64(v.exec_at as int));
    assert(b.subrange(34, 44) =~= enc_opt_i64(v.stop_at));
    assert(b.subrange(44, 52) =~= enc_u64(v.exec_count as int));
    assert(b.subrange(52, 60) =~= enc_u64(v.recurrence@.len() as int));
    assert(b.subrange(60, 60 + v.recurrence@.len() as int) =~= v.recurrence@);
    assert(b.subrange(60 + v.recurrence@.len() as int, b.len() as int) =~= v.payload@);
}

proof fn lemma_stop_region(b: Seq<u8>, v: TaskRecord)
    requires
        b == spec_encode(v),
    ensures
        b[34] == (if v.stop_at is Some {
            1u8
        } else {
            0u8
        }),
        v.stop_at matches Some(x) ==> b.subrange(35, 44) == enc_i64(x as int),
        v.stop_at is None ==> b.subrange(35, 44) == enc_i64(0),
{
    lemma_layout(b, v);
    lemma_enc_u64_len(0);
    assert(b[34] == b.subrange(34, 44)[0]);
    match v.stop_at {
        Some(x) => {
            lemma_enc_u64_len(x as int);
            lemma_enc_u64_len(-(x as int));
            assert(b.subrange(35, 44) =~= b.subrange(34, 44).subrange(1, 10));
            assert(b.subrange(34, 44).subrange(1, 10) =~= enc_i64(x as int));
        },
        None => {
            assert(b.subrange(35, 44) =~= b.subrange(34, 44).subrange(1, 10));
            assert(b.subrange(34, 44).subrange(1, 10) =~= enc_i64(0));
        },
    }
}

proof fn lemma_len_field(b: Seq<u8>, v: TaskRecord)
    requires
        b == spec_encode(v),
    ensures
        b.subrange(52, 60) == enc_u64((v.recurrence@.len() as u64) as int),
        v.recurrence@.len() + 60 <= b.len(),
{
    lemma_layout(b, v);
    vstd::std_specs::vec::axiom_spec_len(&v.recurrence);
    assert((v.recurrence@.len() as u64) as int == v.recurrence@.len() as int);
}

#[verifier::rlimit(100)]
proof fn lemma_assemble(b: Seq<u8>, v: TaskRecord)
    requires
        b.len() == 60 + v.recurrence@.len() + v.payload@.len(),
        b.subrange(0, 8) == enc_u64(v.owner as int),
        b.subrange(8, 16) == enc_u64(v.daemon as int),
        b.subrange(16, 24) == enc_u64(v.id as int),
        b[24] == status_byte(v.status),
        b.subrange(25, 34) == enc_i64(v.exec_at as int),
        b.subrange(34, 44) == enc_opt_i64(v.stop_at),
        b.subrange(44, 52) == enc_u64(v.exec_count as int),
        b.subrange(52, 60) == enc_u64(v.recurrence@.len() as int),
        b.subrange(60, 60 + v.recurrence@.len() as int) == v.recurrence@,
        b.subrange(60 + v.recurrence@.len() as int, b.len() as int) == v.payload@,
    ensures
        b == spec_encode(v),
{
    lemma_enc_u64_len(v.owner as int);
    lemma_enc_u64_len(v.daemon as int);
    lemma_enc_u64_len(v.id as int);
    lemma_enc_u64_len(v.exec_at as int);
    lemma_enc_u64_len(-(v.exec_at as int));
    lemma_enc_u64_len(0);
    lemma_enc_u64_len(v.exec_count as int);
    lemma_enc_u64_len(v.recurrence@.len() as int);
    match v.stop_at {
        Some(x) => {
            lemma_enc_u64_len(x as int);
            lemma_enc_u64_len(-(x as int));
        },
        None => {},
    }
    assert(b =~= spec_encode(v));
}

/// Reads a stored record back; a record that does not follow the layout is
/// refused with `NotParsable`, and a record written by `encode_task` comes
/// back exactly as it was written.
#[verifier::rlimit(100)]
#[verifier::spinoff_prover]
pub fn decode_task(b: &[u8]) -> (r: Result<TaskRecord, Error>)
    ensures
        r is Err ==> r == Err::<TaskRecord, Error>(Error::NotParsable),
        r is Ok <==> exists|v: TaskRecord| b@ == spec_encode(v),
        forall|v: TaskRecord| b@ == spec_encode(v) ==> r is Ok,
        r matches Ok(out) ==> forall|v: TaskRecord|
            b@ == spec_encode(v) ==> (out.owner == v.owner && out.daemon == v.daemon && out.id
                == v.id && out.status == v.status && out.exec_at == v.exec_at && out.stop_at
                == v.stop_at && out.exec_count == v.exec_count && out.recurrence@ == v.recurrence@
                && out.payload@ == v.payload@),
{
    let blen = b.len();
    if blen < 60 {
        proof {
            assert forall|v: TaskRecord| b@ == spec_encode(v) implies false by {
                lemma_layout(b@, v);
            }
        }
        return Err(Error::NotParsable);
    }
    let owner = read_u64(b, 0);
    let daemon = read_u64(b, 8);
    let id = read_u64(b, 16);
    let sb = b[24];
    let status = match sb {
        0 => TaskStatus::Pending,
        1 => TaskStatus::Due,
        2 => TaskStatus::Executed,
        3 => TaskStatus::Stopped,
        4 => TaskStatus::Cancelled,
        _ => {
            proof {
                assert forall|v: TaskRecord| b@ == spec_encode(v) implies false by {
                    lemma_layout(b@, v);
                }
            }
            return Err(Error::NotParsable);
        },
    };
    let exec_at = match read_i64(b, 25) {
        Ok(x) => x,
        Err(_) => {
            proof {
                assert forall|v: TaskRecord| b@ == spec_encode(v) implies false by {
                    lemma_layout(b@, v);
                }
            }
            return Err(Error::NotParsable);
        },
    };
    let sf = b[34];
    let sval = match read_i64(b, 35) {
        Ok(x) => x,
        Err(_) => {
            proof {
                assert forall|v: TaskRecord| b@ == spec_encode(v) implies false by {
                    lemma_layout(b@, v);
                    lemma_stop_region(b@, v);
                }
            }
            return Err(Error::NotParsable);
        },
    };
    let stop_ok: bool = (sf == 0 && sval == 0) || sf == 1;
    if !stop_ok {
        proof {
            assert forall|v: TaskRecord| b@ == spec_encode(v) implies false by {
                lemma_layout(b@, v);
                lemma_stop_region(b@, v);
            }
        }
        return Err(Error::NotParsable);
    }
    let stop_at: Option<i64> = if sf == 0 {
        None
    } else {
        Some(sval)
    };
    let exec_count = read_u64(b, 44);
    let n = read_u64(b, 52);
    if n > (blen - 60) as u64 {
        proof {
            assert forall|v: TaskRecord| b@ == spec_encode(v) implies false by {
                lemma_layout(b@, v);
                lemma_len_field(b@, v);
            }
        }
        return Err(Error::NotParsable);
    }
    let nn = n as usize;
    let recurrence = copy_range(b, 60, 60 + nn);
    let payload = copy_range(b, 60 + nn, blen);
    let out = TaskRecord {
        owner,
        daemon,
        id,
        status,
        exec_at,
        stop_at,
        exec_count,
        recurrence,
        payload,
    };
    proof {
        assert forall|v: TaskRecord| b@ == spec_encode(v) implies (out.owner == v.owner
            && out.daemon == v.daemon && out.id == v.id && out.status == v.status && out.exec_at
            == v.exec_at && out.stop_at == v.stop_at && out.exec_count == v.exec_count
            && out.recurrence@ == v.recurrence@ && out.payload@ == v.payload@) by {
            lemma_layout(b@, v);
            lemma_stop_region(b@, v);
            lemma_len_field(b@, v);
            assert(n == v.recurrence@.len() as u64);
            assert(out.recurrence@ =~= v.recurrence@);
            assert(out.payload@ =~= v.payload@);
        }
        // the accepted record re-encodes to exactly the input bytes
        assert(status_byte(out.status) == sb);
        assert(out.recurrence@.len() == nn);
        assert(out.payload@.len() == b@.len() - (60 + nn));
        lemma_enc_u64_len(sval as int);
        lemma_enc_u64_len(-(sval as int));
        lemma_enc_u64_len(0);
        if sf == 0 {
            assert(b@.subrange(34, 44) =~= enc_opt_i64(out.stop_at));
        } else {
            assert(b@.subrange(34, 44) =~= enc_opt_i64(out.stop_at));
        }
        assert(enc_u64(n as int) == enc_u64(out.recurrence@.len() as int));
        lemma_assemble(b@, out);
        assert(b@ == spec_encode(out));
    }
    Ok(out)
}

/// Writes the record in its persisted layout.
pub fn encode_task(r: &TaskRecord) -> (out: Vec<u8>)
    ensures
        out@ == spec_encode(*r),
{
    let mut out: Vec<u8> = Vec::new();
    push_u64(&mut out, r.owner);
    push_u64(&mut out, r.daemon);
    push_u64(&mut out, r.id);
    let sb: u8 = match r.status {
        TaskStatus::Pending => 0,
        TaskStatus::Due => 1,
        TaskStatus::Executed => 2,
        TaskStatus::Stopped => 3,
        TaskStatus::Cancelled => 4,
    };
    out.push(sb);
    push_i64(&mut out, r.exec_at);
    match r.stop_at {
        Some(x) => {
            out.push(1);
            push_i64(&mut out, x);
        },
        None => {
            out.push(0);
            push_i64(&mut out, 0);
        },
    }
    push_u64(&mut out, r.exec_count);
    push_u64(&mut out, r.recurrence.len() as u64);
    proof {
        reveal(enc_u64);
        assert(out@ =~= spec_encode(*r).subrange(
            0,
            spec_encode(*r).len() - r.payload@.len() - r.recurrence@.len(),
        ));
    }
    let mut k: usize = 0;
    while k < r.recurrence.len()
        invariant
            k <= r.recurrence@.len(),
            out@ == spec_encode(*r).subrange(
                0,
                spec_encode(*r).len() - r.payload@.len() - r.recurrence@.len() + k,
            ),
        decreases r.recurrence@.len() - k,
    {
        out.push(r.recurrence[k]);
        proof {
            reveal(enc_u64);
            assert(out@ =~= spec_encode(*r).subrange(
                0,
                spec_encode(*r).len() - r.payload@.len() - r.recurrence@.len() + k + 1,
            ));
        }
        k = k + 1;
    }
    let mut k: usize = 0;
    while k < r.payload.len()
        invariant
            k <= r.payload@.len(),
            out@ == spec_encode(*r).subrange(0, spec_encode(*r).len() - r.payload@.len() + k),
        decreases r.payload@.len() - k,
    {
        out.push(r.payload[k]);
        proof {
            reveal(enc_u64);
            assert(out@ =~= spec_encode(*r).subrange(
                0,
                spec_encode(*r).len() - r.payload@.len() + k + 1,
            ));
        }
        k = k + 1;
    }
    proof {
        reveal(enc_u64);
        assert(out@ =~= spec_encode(*r));
    }
    out
}

} // verus!
