//! The numbers that peers go by.

use crate::mon::messages as mon;
use crate::mon::seeds::DEFAULT_MONITOR_V2_PORT;
use crate::msgr::{banner, control, frame, message, secure};
use crate::osd::{
    backoff, client, command, enumeration, lock, messages as osd, mutations, pager, sessions,
    watch,
};
use crate::protocol::address;
use vstd::prelude::*;

verus! {

/// The types of messages are those that monitors and object storage daemons know them by.
pub proof fn law_message_types_are_known()
    ensures
        mon::MESSAGE_MON_MAP == 4,
        mon::MESSAGE_MON_SUBSCRIBE == 15,
        mon::MESSAGE_MON_SUBSCRIBE_ACK == 16,
        mon::MESSAGE_OSD_MAP == 41,
        osd::MESSAGE_OSD_OP == 42,
        osd::MESSAGE_OSD_OP_REPLY == 43,
        watch::MESSAGE_WATCH_NOTIFY == 44,
        mon::MESSAGE_POOL_OPERATION_REPLY == 48,
        mon::MESSAGE_POOL_OPERATION == 49,
        backoff::MESSAGE_OSD_BACKOFF == 61,
        command::MESSAGE_COMMAND == 97,
        command::MESSAGE_COMMAND_REPLY == 98,
        mon::MESSAGE_MGR_MAP == 0x704,
{
}

/// The codes within messages are those that monitors and object storage daemons know.
pub proof fn law_codes_are_known()
    ensures
        mon::SUBSCRIBE_ONCE == 1,
        osd::OP_READ == 0x1201 && osd::OP_STAT == 0x1202,
        osd::OP_WRITE == 0x2201 && osd::OP_WRITE_FULL == 0x2202 && osd::OP_TRUNCATE == 0x2203,
        osd::OP_ZERO == 0x2204 && osd::OP_DELETE == 0x2205 && osd::OP_APPEND == 0x2206,
        osd::OP_CREATE == 0x220d,
        osd::NO_SNAP == u64::MAX - 1,
        backoff::BACKOFF_BLOCK == 1 && backoff::BACKOFF_ACK_BLOCK == 2 && backoff::BACKOFF_UNBLOCK
            == 3,
        lock::LOCK_EXCLUSIVE == 1 && lock::LOCK_SHARED == 2 && lock::LOCK_MAY_RENEW == 1,
        lock::ENTITY_CLIENT == 8 && watch::ENTITY_CLIENT == 8,
        watch::OPERATION_UNWATCH == 0 && watch::OPERATION_REGISTER == 3
            && watch::OPERATION_RECONNECT == 5 && watch::OPERATION_PING == 7,
        watch::EVENT_NOTIFY == 1 && watch::EVENT_COMPLETE == 2 && watch::EVENT_DISCONNECT == 3,
        client::TRY_AGAIN == -11,
        address::ADDRESS_MESSENGER_2 == 2,
        address::FAMILY_IPV4 == 2 && address::FAMILY_IPV6 == 10,
        DEFAULT_MONITOR_V2_PORT == 3300,
{
}

/// Flags are bits of their own, those that object storage daemons and peers know.
pub proof fn law_flags_are_known()
    ensures
        osd::OP_FLAG_EXCLUSIVE == 0x1 && osd::OP_FLAG_FAIL_OK == 0x2,
        osd::FLAG_ACK == 0x1 && osd::FLAG_ON_DISK == 0x4 && osd::FLAG_RETRY == 0x8,
        osd::FLAG_READ == 0x10 && osd::FLAG_WRITE == 0x20,
        osd::FLAG_PG_OP == 0x400,
        osd::FLAG_IGNORE_CACHE == 0x8000 && osd::FLAG_IGNORE_OVERLAY == 0x2_0000,
        osd::FLAG_REDIRECTED == 0x20_0000,
        osd::FLAG_RETURN_VECTOR == 0x400_0000,
        control::CONNECTION_FLAG_LOSSY == 1,
        banner::REVISION_1_FEATURES == 1,
        frame::LATE_STATUS_ABORTED == 0x1 && frame::LATE_STATUS_COMPLETE == 0xe,
{
}

/// The parts of messages and frames have the sizes that peers know them with.
pub proof fn law_sizes_are_known()
    ensures
        message::MESSAGE_HEADER_SIZE == 41,
        osd::OPERATION_DESCRIPTOR_SIZE == 2 + 4 + 28 + 4,
        banner::BANNER_HEADER_SIZE == 8 + 2,
        banner::BANNER_PAYLOAD_SIZE == 8 + 8,
        frame::PREAMBLE_SIZE == 2 + 4 * 6 + 2 + 4,
        frame::EPILOGUE_SIZE == 1 + 3 * 4,
        frame::MAX_SEGMENTS == 4,
        frame::DEFAULT_ALIGNMENT == 8 && frame::PAGE_ALIGNMENT == 4096,
        frame::LAST_TAG_CODE == frame::tag_code(frame::Tag::Ack),
        secure::SECRET_SIZE == 64 && secure::KEY_SIZE == 16 && secure::NONCE_SIZE == 4 + 8,
        secure::TAG_SIZE == 16 && secure::BLOCK_SIZE == 16,
        secure::FIRST_RECORD_SIZE == 32 + 48 && secure::SECURE_PREAMBLE_SIZE == 32 + 48 + 16,
        secure::INLINE_SIZE == 48,
        client::READ_REPLY_FRONT_BYTES == 144,
{
}

/// What may be asked, kept and tried at once is limited.
pub proof fn law_limits_are_known()
    ensures
        crate::operation::MAX_SUB_OPERATIONS == 16,
        crate::operation::MAX_OPERATION_BYTES == 0x400_0000,
        pager::SCRUB_PAGE_SIZE == 1024,
        enumeration::CURSOR_MAX_BYTES == 1024,
        sessions::MAX_RETIRED_SESSIONS == 16,
        mutations::MAX_MUTATIONS == 64,
        mutations::MAX_MUTATION_BYTES == 0x8000_0000,
        client::MAX_ATTEMPTS == 4,
        crate::wire::MAX_ENCODING == u32::MAX,
{
}

} // verus!
