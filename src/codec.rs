//! The record codec. A record is a JSON object tagged with the command's
//! name: `{"Set":[key,value]}` or `{"Rm":key}`, where each string is written
//! as a JSON string literal by serde_json. Records are self-delimiting and are
//! concatenated in a segment without separators.
use crate::command::{Command, Op};
use vstd::prelude::*;

verus! {

/// The JSON string literal that serde_json writes for `s`, quotes included.
pub uninterp spec fn json_string(s: Seq<char>) -> Seq<u8>;

/// Relies on serde_json::to_vec on a `String`: the compact JSON literal of the
/// string. Serializing a string into a `Vec` never fails there.
#[verifier::external_body]
fn to_json_string(s: &String) -> (r: core::result::Result<Vec<u8>, serde_json::Error>)
    ensures
        r is Ok,
        r matches Ok(b) ==> b@ == json_string(s@),
{
    serde_json::to_vec(s)
}

/// `{"Set":[`
pub open spec fn put_open() -> Seq<u8> {
    seq![123u8, 34u8, 83u8, 101u8, 116u8, 34u8, 58u8, 91u8]
}

/// `,`
pub open spec fn comma() -> Seq<u8> {
    seq![44u8]
}

/// `]}`
pub open spec fn put_close() -> Seq<u8> {
    seq![93u8, 125u8]
}

/// `{"Rm":`
pub open spec fn del_open() -> Seq<u8> {
    seq![123u8, 34u8, 82u8, 109u8, 34u8, 58u8]
}

/// `}`
pub open spec fn del_close() -> Seq<u8> {
    seq![125u8]
}

/// The bytes of one encoded record.
pub open spec fn encoding(op: Op) -> Seq<u8> {
    match op {
        Op::Put(k, v) => put_open() + json_string(k) + comma() + json_string(v) + put_close(),
        Op::Del(k) => del_open() + json_string(k) + del_close(),
    }
}

fn append_literal(out: &mut Vec<u8>, lit: &[u8])
    ensures
        final(out)@ == old(out)@ + lit@,
{
    let mut i: usize = 0;
    while i < lit.len()
        invariant
            i <= lit@.len(),
            out@ == old(out)@ + lit@.subrange(0, i as int),
        decreases lit@.len() - i,
    {
        out.push(lit[i]);
        i = i + 1;
        assert(out@ =~= old(out)@ + lit@.subrange(0, i as int));
    }
    assert(lit@.subrange(0, lit@.len() as int) =~= lit@);
}

fn append_string(out: &mut Vec<u8>, s: &String)
    ensures
        final(out)@ == old(out)@ + json_string(s@),
{
    match to_json_string(s) {
        Ok(mut b) => {
            out.append(&mut b);
        },
        Err(_) => {},
    }
}

/// Encodes one command.
pub fn encode(cmd: &Command) -> (r: Vec<u8>)
    ensures
        r@ == encoding(cmd@),
{
    let mut out: Vec<u8> = Vec::new();
    match cmd {
        Command::Put(k, v) => {
            let open: [u8; 8] = [123u8, 34u8, 83u8, 101u8, 116u8, 34u8, 58u8, 91u8];
            append_literal(&mut out, &open);
            append_string(&mut out, k);
            let sep: [u8; 1] = [44u8];
            append_literal(&mut out, &sep);
            append_string(&mut out, v);
            let close: [u8; 2] = [93u8, 125u8];
            append_literal(&mut out, &close);
            assert(out@ =~= encoding(cmd@));
        },
        Command::Rm(k) => {
            let open: [u8; 6] = [123u8, 34u8, 82u8, 109u8, 34u8, 58u8];
            append_literal(&mut out, &open);
            append_string(&mut out, k);
            let close: [u8; 1] = [125u8];
            append_literal(&mut out, &close);
            assert(out@ =~= encoding(cmd@));
        },
    }
    out
}

} // verus!
