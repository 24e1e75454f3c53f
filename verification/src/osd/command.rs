//! Commands to daemons.

use crate::maps::{Fsid, PG};
use crate::msgr::message::{zero_header, Message, MessageHeader, MessageLengths, MessageView};
use crate::text::{number, parse_number, parse_unsigned, unsigned_number};
use crate::wire::{
    concatenated, finished, get_i32, get_text, law_i32, law_text, le32, limited_input, text,
    unsigned32, Decoder, Encoder, WireError,
};
use vstd::prelude::*;
use vstd::slice::slice_to_vec;
use vstd::utf8::encode_utf8;

verus! {

broadcast use crate::wire::group_integers;

pub const MESSAGE_COMMAND: u16 = 97;

pub const MESSAGE_COMMAND_REPLY: u16 = 98;

/// A command and its input.
#[derive(Clone, Debug, PartialEq, Eq)]
pub struct CommandRequest<'a> {
    pub fsid: Fsid,
    pub transaction_id: u64,
    pub command: &'a [String],
    pub input: &'a [u8],
}

#[derive(Clone, Debug, PartialEq, Eq)]
pub struct CommandReply {
    pub transaction_id: u64,
    pub result: i32,
    pub status: String,
    pub output: Vec<u8>,
}

#[verifier::ext_equal]
pub struct CommandReplyView {
    pub transaction_id: u64,
    pub result: i32,
    pub status: Seq<char>,
    pub output: Seq<u8>,
}

impl View for CommandReply {
    type V = CommandReplyView;

    open spec fn view(&self) -> CommandReplyView {
        CommandReplyView {
            transaction_id: self.transaction_id,
            result: self.result,
            status: self.status@,
            output: self.output@,
        }
    }
}

#[derive(Clone, Copy, Debug, PartialEq, Eq, Structural)]
pub enum Error {
    Wire(WireError),
    MalformedReply,
    UnsupportedVersion,
}

pub open spec fn text_encoder() -> spec_fn(String) -> Seq<u8> {
    |argument: String| text(argument@)
}

/// The front of a command.
pub open spec fn command_front(request: CommandRequest<'_>) -> Seq<u8> {
    request.fsid@ + (le32(request.command@.len() as u32) + concatenated(
        request.command@,
        text_encoder(),
    ))
}

/// What `encode_command_request` yields.
pub open spec fn command_encoding(request: CommandRequest<'_>, max_bytes: u32) -> Result<
    MessageView,
    Error,
> {
    let front = command_front(request);
    if max_bytes == 0 || request.command@.len() == 0 || front.len() + request.input@.len()
        > max_bytes {
        Err(Error::Wire(WireError::LimitExceeded))
    } else {
        Ok(
            MessageView {
                header: MessageHeader {
                    transaction_id: request.transaction_id,
                    message_type: MESSAGE_COMMAND,
                    version: 1,
                    compat_version: 0,
                    ..zero_header()
                },
                lengths: MessageLengths {
                    front: front.len() as u32,
                    middle: 0,
                    data: request.input@.len() as u32,
                },
                front,
                middle: Seq::empty(),
                data: request.input@,
            },
        )
    }
}

pub fn encode_command_request(request: &CommandRequest<'_>, max_bytes: u32) -> (r: Result<
    Message,
    Error,
>)
    ensures
        r matches Ok(message) ==> command_encoding(*request, max_bytes) == Ok::<
            MessageView,
            Error,
        >(message@),
        r matches Err(error) ==> command_encoding(*request, max_bytes) == Err::<
            MessageView,
            Error,
        >(error),
{
    if max_bytes == 0 || request.command.len() == 0 || request.input.len() > max_bytes as usize {
        return Err(Error::Wire(WireError::LimitExceeded));
    }
    let ghost all = request.command@;
    let mut encoder = Encoder::new(max_bytes as usize);
    encoder.raw(request.fsid.0.as_slice());
    encoder.u32(#[verifier::truncate] (request.command.len() as u32));
    let ghost start = encoder@;
    let ghost limit = encoder.limit();
    let mut i: usize = 0;
    assert(encoder@ =~= start + concatenated(all.take(0), text_encoder()));
    while i < request.command.len()
        invariant
            i <= request.command@.len(),
            all == request.command@,
            encoder.wf(),
            encoder.limit() == limit,
            encoder@ == start + concatenated(all.take(i as int), text_encoder()),
        decreases request.command@.len() - i,
    {
        encoder.string(request.command[i].as_str());
        assert(all.take(i + 1).drop_last() =~= all.take(i as int));
        assert(encoder@ =~= start + concatenated(all.take(i + 1), text_encoder()));
        i = i + 1;
    }
    assert(all.take(i as int) =~= all);
    assert(encoder@ =~= command_front(*request));
    let front = match encoder.finish() {
        Ok(front) => front,
        Err(error) => {
            return Err(Error::Wire(error));
        },
    };
    if request.input.len() > max_bytes as usize - front.len() {
        return Err(Error::Wire(WireError::LimitExceeded));
    }
    let message = Message {
        header: MessageHeader {
            transaction_id: request.transaction_id,
            message_type: MESSAGE_COMMAND,
            version: 1,
            compat_version: 0,
            ..MessageHeader::default()
        },
        lengths: MessageLengths {
            front: front.len() as u32,
            middle: 0,
            data: request.input.len() as u32,
        },
        front,
        middle: Vec::new(),
        data: slice_to_vec(request.input),
    };
    assert(message@ =~= command_encoding(*request, max_bytes)->Ok_0);
    Ok(message)
}

/// What `decode_command_reply` yields.
pub open spec fn command_decoding(m: MessageView, max_bytes: u32) -> Result<
    CommandReplyView,
    Error,
> {
    let (result, d1) = get_i32(limited_input(m.front, max_bytes as nat));
    let (status, d2) = get_text(d1);
    if max_bytes == 0 {
        Err(Error::Wire(WireError::LimitExceeded))
    } else if m.header.message_type != MESSAGE_COMMAND_REPLY {
        Err(Error::MalformedReply)
    } else if m.header.version < 1 || m.header.compat_version > 1 {
        Err(Error::UnsupportedVersion)
    } else if m.middle.len() != 0 {
        Err(Error::MalformedReply)
    } else if m.front.len() + m.data.len() > max_bytes {
        Err(Error::Wire(WireError::LimitExceeded))
    } else if m.lengths.front != m.front.len() || m.lengths.data != m.data.len() {
        Err(Error::MalformedReply)
    } else if finished(d2) is Err || d2.rest.len() != 0 {
        Err(Error::MalformedReply)
    } else {
        Ok(
            CommandReplyView {
                transaction_id: m.header.transaction_id,
                result,
                status,
                output: m.data,
            },
        )
    }
}

pub fn decode_command_reply(message: &Message, max_bytes: u32) -> (r: Result<CommandReply, Error>)
    ensures
        r matches Ok(reply) ==> command_decoding(message@, max_bytes) == Ok::<
            CommandReplyView,
            Error,
        >(reply@),
        r matches Err(error) ==> command_decoding(message@, max_bytes) == Err::<
            CommandReplyView,
            Error,
        >(error),
{
    if max_bytes == 0 {
        return Err(Error::Wire(WireError::LimitExceeded));
    }
    if message.header.message_type != MESSAGE_COMMAND_REPLY {
        return Err(Error::MalformedReply);
    }
    if message.header.version < 1 || message.header.compat_version > 1 {
        return Err(Error::UnsupportedVersion);
    }
    if message.middle.len() != 0 {
        return Err(Error::MalformedReply);
    }
    if message.front.len() > max_bytes as usize || message.data.len() > max_bytes as usize
        - message.front.len() {
        return Err(Error::Wire(WireError::LimitExceeded));
    }
    if message.lengths.front != message.front.len() as u32 || message.lengths.data
        != message.data.len() as u32 {
        return Err(Error::MalformedReply);
    }
    let mut decoder = Decoder::new(message.front.as_slice(), max_bytes as usize);
    let result: i32 = decoder.i32();
    let status = decoder.string();
    if decoder.finish().is_err() || decoder.remaining() != 0 {
        return Err(Error::MalformedReply);
    }
    Ok(
        CommandReply {
            transaction_id: message.header.transaction_id,
            result,
            status,
            output: slice_to_vec(message.data.as_slice()),
        },
    )
}

/// A reply whose front is a result and a status reads back as these, with its data as the output.
pub proof fn law_command_reply_reads_back(
    transaction_id: u64,
    result: i32,
    status: Seq<char>,
    output: Seq<u8>,
    max_bytes: u32,
)
    requires
        max_bytes != 0,
        (le32(unsigned32(result)) + text(status)).len() + output.len() <= max_bytes,
    ensures
        ({
            let front = le32(unsigned32(result)) + text(status);
            let m = MessageView {
                header: MessageHeader {
                    transaction_id,
                    message_type: MESSAGE_COMMAND_REPLY,
                    version: 1,
                    compat_version: 1,
                    ..zero_header()
                },
                lengths: MessageLengths {
                    front: front.len() as u32,
                    middle: 0,
                    data: output.len() as u32,
                },
                front,
                middle: Seq::empty(),
                data: output,
            };
            command_decoding(m, max_bytes) == Ok::<CommandReplyView, Error>(
                CommandReplyView { transaction_id, result, status, output },
            )
        }),
{
    law_i32(result, text(status));
    assert(text(status) =~= text(status) + Seq::<u8>::empty());
    law_text(status, Seq::empty());
}

// ---------------------------------------------------------------------------
// Names of placement groups
// ---------------------------------------------------------------------------

/// A pool: a decimal number that may have a sign. It is not negative and fits in 63 bits.
pub open spec fn pool_value(digits: Seq<u8>) -> Option<u64> {
    let value = if digits.len() > 0 && (digits[0] == 43 || digits[0] == 45) {
        number(digits.skip(1), 10)
    } else {
        number(digits, 10)
    };
    match value {
        Some(value) => if value > i64::MAX || (digits[0] == 45 && value != 0) {
            None
        } else {
            Some(value as u64)
        },
        None => None,
    }
}

/// A seed: a hexadecimal number that may have a plus sign and fits in 32 bits.
pub open spec fn seed_value(digits: Seq<u8>) -> Option<u32> {
    match unsigned_number(digits, 16) {
        Some(value) => if value > u32::MAX {
            None
        } else {
            Some(value as u32)
        },
        None => None,
    }
}

/// Where the first dot stands.
pub open spec fn first_dot(name: Seq<u8>) -> int
    decreases name.len(),
{
    if name.len() == 0 || name[0] == 46 {
        0
    } else {
        1 + first_dot(name.skip(1))
    }
}

/// The placement group that a name of the form `pool.seed` stands for.
pub open spec fn pg_of(name: Seq<u8>) -> Option<PG> {
    let dot = first_dot(name);
    if dot == 0 || dot + 1 >= name.len() {
        None
    } else {
        match (pool_value(name.take(dot)), seed_value(name.skip(dot + 1))) {
            (Some(pool), Some(seed)) => Some(PG { pool, seed, preferred: (-1int) as i32 }),
            _ => None,
        }
    }
}

fn parse_pool(digits: &[u8]) -> (r: Option<u64>)
    ensures
        r == pool_value(digits@),
{
    if digits.len() > 0 && (digits[0] == 43 || digits[0] == 45) {
        let max: u64 = if digits[0] == 45 {
            0
        } else {
            i64::MAX as u64
        };
        return parse_number(digits, 1, 10, max);
    }
    assert(digits@.skip(0) =~= digits@);
    parse_number(digits, 0, 10, i64::MAX as u64)
}

fn parse_seed(digits: &[u8]) -> (r: Option<u32>)
    ensures
        r == seed_value(digits@),
{
    match parse_unsigned(digits, 16, u32::MAX as u64) {
        Some(value) => Some(value as u32),
        None => None,
    }
}

proof fn lemma_first_dot(name: Seq<u8>, n: int)
    requires
        0 <= n <= name.len(),
        forall|j: int| 0 <= j < n ==> #[trigger] name[j] != 46,
        n < name.len() ==> name[n] == 46,
    ensures
        first_dot(name) == n,
    decreases n,
{
    if n > 0 {
        assert forall|j: int| 0 <= j < n - 1 implies #[trigger] name.skip(1)[j] != 46 by {
            assert(name[j + 1] != 46);
        }
        lemma_first_dot(name.skip(1), n - 1);
    }
}

/// The placement group that a name stands for.
pub fn parse_pg(name: &str) -> (r: Result<PG, WireError>)
    ensures
        r == match pg_of(encode_utf8(name@)) {
            Some(pg) => Ok::<PG, WireError>(pg),
            None => Err::<PG, WireError>(WireError::Malformed),
        },
{
    let bytes = name.as_bytes();
    let mut dot: usize = 0;
    while dot < bytes.len() && bytes[dot] != 46
        invariant
            dot <= bytes@.len(),
            forall|j: int| 0 <= j < dot ==> #[trigger] bytes@[j] != 46,
        decreases bytes@.len() - dot,
    {
        dot = dot + 1;
    }
    proof {
        lemma_first_dot(bytes@, dot as int);
    }
    if dot == 0 || dot >= bytes.len() || bytes.len() - dot < 2 {
        return Err(WireError::Malformed);
    }
    let pool_text = vstd::slice::slice_subrange(bytes, 0, dot);
    let seed_text = vstd::slice::slice_subrange(bytes, dot + 1, bytes.len());
    assert(pool_text@ =~= bytes@.take(dot as int));
    assert(seed_text@ =~= bytes@.skip(dot + 1));
    match (parse_pool(pool_text), parse_seed(seed_text)) {
        (Some(pool), Some(seed)) => Ok(PG { pool, seed, preferred: -1 }),
        _ => Err(WireError::Malformed),
    }
}

proof fn lemma_dot_between(pool: Seq<u8>, seed: Seq<u8>)
    requires
        !pool.contains(46u8),
    ensures
        first_dot(pool.push(46u8) + seed) == pool.len(),
    decreases pool.len(),
{
    let name = pool.push(46u8) + seed;
    if pool.len() > 0 {
        let rest = pool.skip(1);
        assert(name[0] == pool[0]);
        assert(pool.contains(pool[0]));
        assert(name.skip(1) =~= rest.push(46u8) + seed);
        assert forall|i: int| 0 <= i < rest.len() implies rest[i] != 46 by {
            assert(pool[i + 1] == rest[i]);
            assert(pool.contains(pool[i + 1]));
        }
        lemma_dot_between(rest, seed);
    }
}

proof fn lemma_no_dot(name: Seq<u8>)
    requires
        !name.contains(46u8),
    ensures
        first_dot(name) == name.len(),
    decreases name.len(),
{
    if name.len() > 0 {
        let rest = name.skip(1);
        assert(name.contains(name[0]));
        assert forall|i: int| 0 <= i < rest.len() implies rest[i] != 46 by {
            assert(name[i + 1] == rest[i]);
            assert(name.contains(name[i + 1]));
        }
        lemma_no_dot(rest);
    }
}

/// The name of a placement group is its pool in decimal, a dot, and its seed in hexadecimal. It
/// prefers no daemon. Without a dot, or with nothing on one side of it, there is no such name.
pub proof fn law_group_is_named_by_pool_and_seed(pool: Seq<u8>, seed: Seq<u8>)
    requires
        !pool.contains(46u8),
    ensures
        ({
            let name = pool.push(46u8) + seed;
            &&& pool.len() > 0 && 48 <= pool[0] <= 57 && seed.len() > 0 && seed[0] != 43 ==> match (
                number(pool, 10),
                number(seed, 16),
            ) {
                (Some(p), Some(s)) => if p <= i64::MAX && s <= u32::MAX {
                    pg_of(name) matches Some(pg) && pg.pool == p && pg.seed == s && pg.preferred
                        == -1
                } else {
                    pg_of(name) is None
                },
                _ => pg_of(name) is None,
            }
            &&& pool.len() == 0 || seed.len() == 0 ==> pg_of(name) is None
        }),
        pg_of(pool) is None,
{
    let name = pool.push(46u8) + seed;
    lemma_dot_between(pool, seed);
    lemma_no_dot(pool);
    assert(name.take(pool.len() as int) =~= pool);
    assert(name.skip((pool.len() + 1) as int) =~= seed);
}

// ---------------------------------------------------------------------------
// Views
// ---------------------------------------------------------------------------

/// What stands for a value of this type has its fields.
pub proof fn law_command_reply_has_its_fields(x: CommandReply)
    ensures
        x@.transaction_id == x.transaction_id,
        x@.result == x.result,
        x@.status == x.status@,
        x@.output == x.output@,
{
}

} // verus!
