//! The command dispatcher: decodes a request, runs it against the store and
//! encodes the reply.
use crate::decimal::u64_value;
use crate::encode::{
    bulk_bytes, encode_bulk_string, encode_bulk_text, encode_error, encode_null_bulk,
    encode_simple_string, error_bytes, null_bulk_bytes, simple_bytes,
};
use crate::resp_parser::{decode, values_of, DataType, ParseError, RespParser, Value};
use crate::store::{expiry_after, lookup, Entry, Store, ValueWithExpiry};
use vstd::prelude::*;
use vstd::utf8::{encode_utf8, valid_utf8};

verus! {

/// `b` with ASCII lower-case letters raised.
pub open spec fn ascii_upper(b: u8) -> u8 {
    if 97 <= b <= 122 {
        (b - 32) as u8
    } else {
        b
    }
}

/// The bytes `b` spell the command `cmd` (given in upper case), ignoring
/// ASCII case.
pub open spec fn names(b: Seq<u8>, cmd: Seq<u8>) -> bool {
    b.len() == cmd.len() && forall|i: int| 0 <= i < b.len() ==> ascii_upper(b[i]) == cmd[i]
}

pub open spec fn is_bulk(v: Value) -> bool {
    v is Bulk
}

/// The reply to a command that names no known command or has the wrong
/// shape, and the reply to one that lacks arguments.
pub open spec fn unknown_reply() -> Seq<u8> {
    error_bytes("ERR no command found"@)
}

pub open spec fn arity_reply() -> Seq<u8> {
    error_bytes("ERR wrong number of arguments"@)
}

pub open spec fn ttl_reply() -> Seq<u8> {
    error_bytes("ERR value is not an integer or out of range"@)
}

pub open spec fn protocol_reply() -> Seq<u8> {
    error_bytes("ERR protocol error"@)
}

/// The reply to the command `v`, and the store after it, from the store `m`
/// at the instant `now`.
pub open spec fn run(v: Value, m: Map<Seq<char>, Entry>, now: u64) -> (Seq<u8>, Map<Seq<char>, Entry>) {
    match v {
        Value::Array(_, items) => if items.len() > 0 && is_bulk(items[0]) {
            let name = encode_utf8(items[0]->Bulk_1);
            if names(name, encode_utf8("PING"@)) {
                (simple_bytes("PONG"@), m)
            } else if names(name, encode_utf8("ECHO"@)) {
                if items.len() >= 2 && is_bulk(items[1]) {
                    (bulk_bytes(items[1]->Bulk_0, items[1]->Bulk_1), m)
                } else {
                    (arity_reply(), m)
                }
            } else if names(name, encode_utf8("SET"@)) {
                if items.len() >= 3 && is_bulk(items[1]) && is_bulk(items[2]) {
                    let key = items[1]->Bulk_1;
                    let value = items[2]->Bulk_1;
                    if items.len() >= 5 {
                        if is_bulk(items[4]) {
                            match u64_value(encode_utf8(items[4]->Bulk_1)) {
                                Some(ttl) => (
                                    simple_bytes("OK"@),
                                    m.insert(key, (value, expiry_after(now, ttl))),
                                ),
                                None => (ttl_reply(), m),
                            }
                        } else {
                            (ttl_reply(), m)
                        }
                    } else {
                        (simple_bytes("OK"@), m.insert(key, (value, None)))
                    }
                } else {
                    (arity_reply(), m)
                }
            } else if names(name, encode_utf8("GET"@)) {
                if items.len() >= 2 && is_bulk(items[1]) {
                    match lookup(m, items[1]->Bulk_1, now) {
                        Some(found) => (bulk_bytes(encode_utf8(found).len() as int, found), m),
                        None => (null_bulk_bytes(), m),
                    }
                } else {
                    (arity_reply(), m)
                }
            } else {
                (unknown_reply(), m)
            }
        } else {
            (unknown_reply(), m)
        },
        _ => (unknown_reply(), m),
    }
}

/// The reply to a decoded request and the store after it: the first frame
/// is the command; with no frame the reply is `PONG`.
pub open spec fn outcome(d: Result<Seq<Value>, ParseError>, m: Map<Seq<char>, Entry>, now: u64) -> (
    Seq<u8>,
    Map<Seq<char>, Entry>,
) {
    match d {
        Err(_) => (protocol_reply(), m),
        Ok(vs) => if vs.len() == 0 {
            (simple_bytes("PONG"@), m)
        } else {
            run(vs[0], m, now)
        },
    }
}

/// Whether `name` spells `cmd`, ignoring ASCII case.
fn is_command(name: &String, cmd: &str) -> (r: bool)
    ensures
        r == names(encode_utf8(name@), encode_utf8(cmd@)),
{
    let b = name.as_str().as_bytes();
    let c = cmd.as_bytes();
    if b.len() != c.len() {
        return false;
    }
    let mut i: usize = 0;
    while i < b.len()
        invariant
            b@ == encode_utf8(name@),
            c@ == encode_utf8(cmd@),
            b@.len() == c@.len(),
            i <= b@.len(),
            forall|j: int| 0 <= j < i ==> ascii_upper(b@[j]) == c@[j],
        decreases b@.len() - i,
    {
        let x = b[i];
        let up = if 97 <= x && x <= 122 {
            x - 32
        } else {
            x
        };
        if up != c[i] {
            return false;
        }
        i = i + 1;
    }
    true
}

/// Runs the command `v` against `store` at the instant `now`.
fn run_command(v: &DataType, store: &mut Store, now: u64) -> (r: Vec<u8>)
    requires
        old(store).wf(),
    ensures
        final(store).wf(),
        (r@, final(store)@) == run(v@, old(store)@, now),
{
    let items = match v {
        DataType::Array(_, items) => items,
        _ => {
            return encode_error("ERR no command found");
        },
    };
    let ghost vs = v@->Array_1;
    assert(vs.len() == items@.len());
    assert(forall|k: int| 0 <= k < items@.len() ==> vs[k] == (#[trigger] items@[k])@);
    if items.len() == 0 {
        return encode_error("ERR no command found");
    }
    let name = match &items[0] {
        DataType::BulkString(_, name) => name,
        _ => {
            return encode_error("ERR no command found");
        },
    };
    if is_command(name, "PING") {
        encode_simple_string("PONG")
    } else if is_command(name, "ECHO") {
        if items.len() >= 2 {
            if let DataType::BulkString(len, text) = &items[1] {
                return encode_bulk_string(*len, text.as_str());
            }
        }
        encode_error("ERR wrong number of arguments")
    } else if is_command(name, "SET") {
        if items.len() < 3 {
            return encode_error("ERR wrong number of arguments");
        }
        let key = match &items[1] {
            DataType::BulkString(_, key) => key,
            _ => {
                return encode_error("ERR wrong number of arguments");
            },
        };
        let value = match &items[2] {
            DataType::BulkString(_, value) => value,
            _ => {
                return encode_error("ERR wrong number of arguments");
            },
        };
        let duration = if items.len() >= 5 {
            match &items[4] {
                DataType::BulkString(_, ttl) => Some(ttl.clone()),
                _ => {
                    return encode_error("ERR value is not an integer or out of range");
                },
            }
        } else {
            None
        };
        match ValueWithExpiry::new(value.clone(), duration, now) {
            Some(entry) => {
                store.set(key.clone(), entry);
                encode_simple_string("OK")
            },
            None => encode_error("ERR value is not an integer or out of range"),
        }
    } else if is_command(name, "GET") {
        if items.len() >= 2 {
            if let DataType::BulkString(_, key) = &items[1] {
                return match store.get(key, now) {
                    Some(found) => encode_bulk_text(found.as_str()),
                    None => encode_null_bulk(),
                };
            }
        }
        encode_error("ERR wrong number of arguments")
    } else {
        encode_error("ERR no command found")
    }
}

/// The decoded frames of `d`, or its error.
pub open spec fn decoded_values(d: Result<Vec<DataType>, ParseError>) -> Result<Seq<Value>, ParseError> {
    match d {
        Ok(items) => Ok(values_of(items@)),
        Err(e) => Err(e),
    }
}

/// Answers a decoded request: runs its first frame as a command against
/// `store` at the instant `now` and returns the encoded reply.
pub fn answer(decoded: &Result<Vec<DataType>, ParseError>, store: &mut Store, now: u64) -> (r: Vec<u8>)
    requires
        old(store).wf(),
    ensures
        final(store).wf(),
        (r@, final(store)@) == outcome(decoded_values(*decoded), old(store)@, now),
{
    match decoded {
        Err(_) => encode_error("ERR protocol error"),
        Ok(values) => {
            if values.len() == 0 {
                encode_simple_string("PONG")
            } else {
                run_command(&values[0], store, now)
            }
        },
    }
}

/// Answers one request buffer: decodes it, runs its first frame as a
/// command against `store` at the instant `now`, and returns the encoded
/// reply. Fails only when the buffer is not UTF-8 text, and then leaves
/// the store as it was.
pub fn parse_command(resp: &[u8], store: &mut Store, now: u64) -> (r: Result<Vec<u8>, ParseError>)
    requires
        old(store).wf(),
    ensures
        final(store).wf(),
        !valid_utf8(resp@) ==> r == Err::<Vec<u8>, ParseError>(ParseError::InvalidText)
            && final(store)@ == old(store)@,
        valid_utf8(resp@) ==> (r matches Ok(out) && (out@, final(store)@) == outcome(
            decode(resp@),
            old(store)@,
            now,
        )),
{
    match RespParser::new(resp) {
        Err(e) => Err(e),
        Ok(mut parser) => {
            let decoded = parser.parse();
            Ok(answer(&decoded, store, now))
        },
    }
}

/// The bytes `b` name one of the commands PING, ECHO, SET, GET.
pub open spec fn known_command(b: Seq<u8>) -> bool {
    names(b, encode_utf8("PING"@)) || names(b, encode_utf8("ECHO"@)) || names(b, encode_utf8("SET"@))
        || names(b, encode_utf8("GET"@))
}

/// An array whose first element is not a bulk string that names a known
/// command gets the error reply, and the store stays as it was.
pub proof fn lemma_unknown_command(n: int, items: Seq<Value>, m: Map<Seq<char>, Entry>, now: u64)
    requires
        !(items.len() > 0 && is_bulk(items[0]) && known_command(encode_utf8(items[0]->Bulk_1))),
    ensures
        run(Value::Array(n, items), m, now) == (unknown_reply(), m),
{
}

/// A first frame that is not an array gets the error reply, and the store
/// stays as it was.
pub proof fn lemma_not_an_array(v: Value, m: Map<Seq<char>, Entry>, now: u64)
    requires
        !(v is Array),
    ensures
        run(v, m, now) == (unknown_reply(), m),
{
}

} // verus!
