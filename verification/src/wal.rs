//! The write-ahead log: an append-only file of records, each with its length
//! in front and a checksum behind.
use vstd::prelude::*;
use vstd::slice::slice_subrange;

use crate::codec;
use crate::codec::DecodeError;
use crate::decode;
use crate::decode::Reader;
use crate::encode::{put_bytes, put_u32};
use crate::octets;
use crate::octets::{get_le, put_le};
use crate::roundtrip;

verus! {

/// A log entry: a write or a delete.
#[derive(Debug, PartialEq, Eq, Clone)]
pub enum WalEntry {
    Put { key: Vec<u8>, value: Vec<u8> },
    Delete { key: Vec<u8> },
}

/// What a `WalEntry` stands for.
pub enum EntryView {
    Put { key: Seq<u8>, value: Seq<u8> },
    Delete { key: Seq<u8> },
}

impl View for WalEntry {
    type V = EntryView;

    open spec fn view(&self) -> EntryView {
        match *self {
            WalEntry::Put { key, value } => EntryView::Put { key: key@, value: value@ },
            WalEntry::Delete { key } => EntryView::Delete { key: key@ },
        }
    }
}

/// Entries, each by its view.
pub open spec fn log_view(entries: Seq<WalEntry>) -> Seq<EntryView> {
    entries.map_values(|entry: WalEntry| entry@)
}

/// The largest payload that is replayed, 64 MiB.
pub const MAX_PAYLOAD: usize = 67_108_864;

/// A step of the division that CRC-32 is: the remainder moves on by one bit.
pub open spec fn crc_step(crc: u32) -> u32 {
    if crc & 1 == 1 {
        (crc >> 1) ^ 0xedb8_8320
    } else {
        crc >> 1
    }
}

/// The remainder after a byte: its eight bits, the least significant first.
pub open spec fn crc_byte(crc: u32, byte: u8) -> u32 {
    crc_step(
        crc_step(
            crc_step(
                crc_step(crc_step(crc_step(crc_step(crc_step(crc ^ (byte as u32)))))),
            ),
        ),
    )
}

/// The remainder after bytes.
pub open spec fn crc_bytes(data: Seq<u8>) -> u32
    decreases data.len(),
{
    if data.len() == 0 {
        0xffff_ffff
    } else {
        crc_byte(crc_bytes(data.drop_last()), data.last())
    }
}

/// The CRC-32 checksum of a byte string, with the polynomial of IEEE 802.3.
#[verifier::opaque]
pub open spec fn crc32(data: Seq<u8>) -> u32 {
    crc_bytes(data) ^ 0xffff_ffff
}

/// `crc32fast::hash`: the CRC-32 checksum of the bytes, with the polynomial of
/// IEEE 802.3.
#[verifier::external_body]
fn crc32_hash(data: &[u8]) -> (crc: u32)
    ensures
        crc == crc32(data@),
{
    crc32fast::hash(data)
}

/// Different remainders stay different over the same byte, and different bytes take
/// a remainder to different ones.
proof fn lemma_crc_keeps_apart(a: u32, b: u32, x: u8, y: u8)
    ensures
        a != b ==> crc_byte(a, x) != crc_byte(b, x),
        x != y ==> crc_byte(a, x) != crc_byte(a, y),
{
    let (cx, cy): (u32, u32) = (x as u32, y as u32);
    assert(a != b ==> a ^ cx != b ^ cx) by (bit_vector);
    assert(cx != cy ==> a ^ cx != a ^ cy) by (bit_vector);
    assert forall|p: u32, q: u32| p != q implies #[trigger] crc_step(p) != #[trigger] crc_step(
        q,
    ) by {
        assert(p != q ==> (if p & 1 == 1 {
            (p >> 1) ^ 0xedb8_8320
        } else {
            p >> 1
        }) != (if q & 1 == 1 {
            (q >> 1) ^ 0xedb8_8320
        } else {
            q >> 1
        })) by (bit_vector);
    }
}

/// One byte that changes is noticed, wherever it stands and however much is
/// checked: the checksum is another one. The checksum of nothing is 0.
pub proof fn law_checksum_notices_changed_byte(data: Seq<u8>, at: int, b: u8)
    requires
        0 <= at < data.len(),
        data[at] != b,
    ensures
        crc32(Seq::empty()) == 0,
        crc32(data.update(at, b)) != crc32(data),
{
    reveal(crc32);
    lemma_crc_bytes_keep_apart(data, at, b);
    let (p, q) = (crc_bytes(data), crc_bytes(data.update(at, b)));
    assert(p != q ==> p ^ 0xffff_ffff != q ^ 0xffff_ffff) by (bit_vector);
    assert(0xffff_ffffu32 ^ 0xffff_ffffu32 == 0) by (bit_vector);
}

proof fn lemma_crc_bytes_keep_apart(data: Seq<u8>, at: int, b: u8)
    requires
        0 <= at < data.len(),
        data[at] != b,
    ensures
        crc_bytes(data.update(at, b)) != crc_bytes(data),
    decreases data.len(),
{
    let other = data.update(at, b);
    let front = crc_bytes(data.drop_last());
    if at == data.len() - 1 {
        assert(other.drop_last() =~= data.drop_last());
        lemma_crc_keeps_apart(front, 0, data[at], b);
    } else {
        lemma_crc_bytes_keep_apart(data.drop_last(), at, b);
        assert(other.drop_last() =~= data.drop_last().update(at, b));
        lemma_crc_keeps_apart(front, crc_bytes(other.drop_last()), data.last(), 0);
    }
}

/// An entry stands for its own kind, key and value, and a list for its entries in
/// their order.
pub proof fn law_entry_stands_for_its_fields(entries: Seq<WalEntry>, i: int)
    ensures
        log_view(entries).len() == entries.len(),
        0 <= i < entries.len() ==> log_view(entries)[i] == match entries[i] {
            WalEntry::Put { key, value } => EntryView::Put { key: key@, value: value@ },
            WalEntry::Delete { key } => EntryView::Delete { key: key@ },
        },
{
}

/// The encoding of an entry.
pub open spec fn enc_entry(entry: EntryView) -> Seq<u8> {
    match entry {
        EntryView::Put { key, value } => octets::le_bytes(0, 4) + codec::enc_bytes(key)
            + codec::enc_bytes(value),
        EntryView::Delete { key } => octets::le_bytes(1, 4) + codec::enc_bytes(key),
    }
}

/// The decoding of an entry.
pub open spec fn dec_entry(data: Seq<u8>) -> codec::Parsed<EntryView> {
    match codec::dec_variant(data, 2) {
        Err(e) => Err(e),
        Ok((variant, rest)) => match codec::dec_bytes(rest) {
            Err(e) => Err(e),
            Ok((key, rest)) => if variant == 0 {
                match codec::dec_bytes(rest) {
                    Err(e) => Err(e),
                    Ok((value, rest)) => Ok((EntryView::Put { key, value }, rest)),
                }
            } else {
                Ok((EntryView::Delete { key }, rest))
            },
        },
    }
}

/// A record: the length of the payload, the payload, the checksum.
pub open spec fn frame(payload: Seq<u8>, crc: u32) -> Seq<u8> {
    octets::le_bytes(payload.len(), 4) + payload + octets::le_bytes(crc as nat, 4)
}

/// The record of an entry.
pub open spec fn record(entry: EntryView) -> Seq<u8> {
    frame(enc_entry(entry), crc32(enc_entry(entry)))
}

/// The payload length that the record at the front of a log states.
pub open spec fn stated_len(data: Seq<u8>) -> nat {
    octets::le_value(data.take(4))
}

/// The entries that a log holds. Reading stops at the end, at a record that is
/// cut off, and at one that states a length above the limit. A record whose
/// checksum does not fit its payload, or whose payload is no entry, is skipped.
pub open spec fn replayed(data: Seq<u8>) -> Seq<EntryView>
    decreases data.len(),
{
    let n = stated_len(data);
    if data.len() < 4 || n > MAX_PAYLOAD || data.len() < 8 + n {
        Seq::empty()
    } else {
        let payload = data.subrange(4, 4 + n as int);
        let crc = octets::le_value(data.subrange(4 + n as int, 8 + n as int));
        let rest = data.skip(8 + n as int);
        if crc == crc32(payload) && dec_entry(payload) is Ok {
            seq![dec_entry(payload)->Ok_0.0] + replayed(rest)
        } else {
            replayed(rest)
        }
    }
}

/// How much of a log is in order: up to where reading stops.
pub open spec fn intact(data: Seq<u8>) -> nat
    decreases data.len(),
{
    let n = stated_len(data);
    if data.len() < 4 || n > MAX_PAYLOAD || data.len() < 8 + n {
        0
    } else {
        8 + n + intact(data.skip(8 + n as int))
    }
}

/// Records that follow the part of a log that is in order are replayed behind
/// what the log holds.
pub proof fn law_intact_part_continues(data: Seq<u8>, rest: Seq<u8>)
    ensures
        intact(data) <= data.len(),
        replayed(data.take(intact(data) as int) + rest) == replayed(data) + replayed(rest),
    decreases data.len(),
{
    let n = stated_len(data);
    if data.len() < 4 || n > MAX_PAYLOAD || data.len() < 8 + n {
        assert(data.take(0) + rest =~= rest);
        assert(replayed(data) + replayed(rest) =~= replayed(rest));
    } else {
        let behind = data.skip(8 + n as int);
        law_intact_part_continues(behind, rest);
        let kept = intact(data) as int;
        let whole = data.take(kept) + rest;
        assert(whole.take(4) =~= data.take(4));
        assert(whole.subrange(4, 4 + n as int) =~= data.subrange(4, 4 + n as int));
        assert(whole.subrange(4 + n as int, 8 + n as int) =~= data.subrange(
            4 + n as int,
            8 + n as int,
        ));
        assert(whole.skip(8 + n as int) =~= behind.take(intact(behind) as int) + rest);
        assert(replayed(whole) =~= replayed(data) + replayed(rest));
    }
}

/// How many bytes of a log are in order. What stands behind them, a record that
/// was cut off or that states a length above the limit, has to be cut before a
/// record is appended; then the record is replayed behind what the log holds.
pub fn intact_len(log: &[u8]) -> (n: usize)
    ensures
        n == intact(log@),
        n <= log@.len(),
        forall|rest: Seq<u8>| #[trigger]
            replayed(log@.take(n as int) + rest) == replayed(log@) + replayed(rest),
{
    let total: usize = log.len();
    let mut pos: usize = 0;
    assert(log@.skip(0) =~= log@);
    while total - pos >= 4
        invariant
            pos <= total == log@.len(),
            pos + intact(log@.skip(pos as int)) == intact(log@),
        ensures
            pos <= total,
            pos == intact(log@),
        decreases total - pos,
    {
        let ghost left = log@.skip(pos as int);
        let n: usize = get_le(log, pos, 4) as usize;
        proof {
            assert(left.take(4) =~= log@.subrange(pos as int, pos + 4));
            octets::lemma_le_bytes_of_value(left.take(4));
            octets::lemma_pow256_values();
        }
        if n > MAX_PAYLOAD || total - pos < 8 + n {
            break;
        }
        assert(left.skip(8 + n as int) =~= log@.skip(pos + 8 + n));
        pos = pos + 8 + n;
    }
    proof {
        assert forall|rest: Seq<u8>| #[trigger]
            replayed(log@.take(pos as int) + rest) == replayed(log@) + replayed(rest) by {
            law_intact_part_continues(log@, rest);
        }
    }
    pos
}

impl WalEntry {
    /// The encoding of this entry.
    pub fn to_bytes(&self) -> (out: Vec<u8>)
        ensures
            out@ == enc_entry(self@),
    {
        let mut out: Vec<u8> = Vec::new();
        match self {
            WalEntry::Put { key, value } => {
                put_u32(&mut out, 0);
                put_bytes(&mut out, key);
                put_bytes(&mut out, value);
            },
            WalEntry::Delete { key } => {
                put_u32(&mut out, 1);
                put_bytes(&mut out, key);
            },
        }
        assert(out@ =~= enc_entry(self@));
        out
    }

    /// Decodes an entry.
    pub fn from_bytes(data: &[u8]) -> (result: Result<Self, DecodeError>)
        ensures
            decode::decodes(dec_entry(data@), result),
    {
        let mut reader = Reader::new(data);
        let variant: u32 = reader.variant(2)?;
        let key = reader.bytes()?;
        if variant == 0 {
            let value = reader.bytes()?;
            Ok(WalEntry::Put { key, value })
        } else {
            Ok(WalEntry::Delete { key })
        }
    }
}

/// An entry that fits into the log: its lengths can be encoded and its payload
/// is within the limit.
pub open spec fn entry_fits(entry: EntryView) -> bool {
    &&& enc_entry(entry).len() <= MAX_PAYLOAD
    &&& match entry {
        EntryView::Put { key, value } => roundtrip::short(key) && roundtrip::short(value),
        EntryView::Delete { key } => roundtrip::short(key),
    }
}

/// The records of entries, one after the other.
pub open spec fn log_of(entries: Seq<EntryView>) -> Seq<u8>
    decreases entries.len(),
{
    if entries.len() == 0 {
        Seq::empty()
    } else {
        log_of(entries.drop_last()) + record(entries.last())
    }
}

/// An entry decodes to itself.
pub proof fn law_entry_roundtrip(entry: EntryView, rest: Seq<u8>)
    requires
        entry_fits(entry),
    ensures
        dec_entry(enc_entry(entry) + rest) == Ok::<_, DecodeError>((entry, rest)),
{
    let data = enc_entry(entry) + rest;
    match entry {
        EntryView::Put { key, value } => {
            let r2 = codec::enc_bytes(value) + rest;
            let r1 = codec::enc_bytes(key) + r2;
            assert(data =~= octets::le_bytes(0, 4) + r1);
            roundtrip::lemma_variant(0, 2, r1);
            roundtrip::lemma_bytes(key, r2);
            roundtrip::lemma_bytes(value, rest);
        },
        EntryView::Delete { key } => {
            let r1 = codec::enc_bytes(key) + rest;
            assert(data =~= octets::le_bytes(1, 4) + r1);
            roundtrip::lemma_variant(1, 2, r1);
            roundtrip::lemma_bytes(key, rest);
        },
    }
}

/// Where the parts of a record stand at the front of a log.
proof fn lemma_frame(payload: Seq<u8>, crc: u32, rest: Seq<u8>)
    requires
        payload.len() <= MAX_PAYLOAD,
    ensures
        ({
            let data = frame(payload, crc) + rest;
            let n = payload.len() as int;
            &&& frame(payload, crc).len() == 8 + n
            &&& stated_len(data) == n
            &&& data.subrange(4, 4 + n) == payload
            &&& octets::le_value(data.subrange(4 + n, 8 + n)) == crc
            &&& data.skip(8 + n) == rest
        }),
{
    let data = frame(payload, crc) + rest;
    let n = payload.len() as int;
    octets::lemma_pow256_values();
    octets::lemma_le_bytes_len(payload.len(), 4);
    octets::lemma_le_value_of_bytes(payload.len(), 4);
    octets::lemma_le_bytes_len(crc as nat, 4);
    octets::lemma_le_value_of_bytes(crc as nat, 4);
    assert(data.take(4) =~= octets::le_bytes(payload.len(), 4));
    assert(data.subrange(4, 4 + n) =~= payload);
    assert(data.subrange(4 + n, 8 + n) =~= octets::le_bytes(crc as nat, 4));
    assert(data.skip(8 + n) =~= rest);
}

/// The record at the front of a log is replayed first, whatever follows it.
pub proof fn law_record_replays(entry: EntryView, rest: Seq<u8>)
    requires
        entry_fits(entry),
    ensures
        replayed(record(entry) + rest) == seq![entry] + replayed(rest),
{
    let payload = enc_entry(entry);
    lemma_frame(payload, crc32(payload), rest);
    law_entry_roundtrip(entry, Seq::empty());
    assert(payload + Seq::empty() =~= payload);
}

/// A record whose checksum does not fit its payload is skipped, and the
/// records behind it are replayed.
pub proof fn law_corrupt_record_skipped(payload: Seq<u8>, crc: u32, rest: Seq<u8>)
    requires
        payload.len() <= MAX_PAYLOAD,
        crc != crc32(payload),
    ensures
        replayed(frame(payload, crc) + rest) == replayed(rest),
{
    lemma_frame(payload, crc, rest);
}

/// A record that was cut off at any point is not replayed.
pub proof fn law_torn_record_dropped(payload: Seq<u8>, crc: u32, kept: int)
    requires
        payload.len() <= MAX_PAYLOAD,
        0 <= kept < frame(payload, crc).len(),
    ensures
        replayed(frame(payload, crc).take(kept)) == Seq::<EntryView>::empty(),
{
    let whole = frame(payload, crc);
    let torn = whole.take(kept);
    lemma_frame(payload, crc, Seq::empty());
    assert(whole + Seq::empty() =~= whole);
    if kept >= 4 {
        assert(torn.take(4) =~= whole.take(4));
    }
}

/// Where the parts of an entry's payload stand: that of a write is the number 0, the
/// key and the value, that of a delete the number 1 and the key, each with its
/// length in eight bytes in front.
pub proof fn law_entry_layout(entry: EntryView)
    requires
        entry_fits(entry),
    ensures
        ({
            let payload = enc_entry(entry);
            match entry {
                EntryView::Put { key, value } => {
                    let n = key.len() as int;
                    &&& payload.len() == 20 + n + value.len()
                    &&& payload.take(4) == seq![0u8, 0u8, 0u8, 0u8]
                    &&& octets::le_value(payload.subrange(4, 12)) == n
                    &&& payload.subrange(12, 12 + n) == key
                    &&& octets::le_value(payload.subrange(12 + n, 20 + n)) == value.len()
                    &&& payload.skip(20 + n) == value
                },
                EntryView::Delete { key } => {
                    &&& payload.len() == 12 + key.len()
                    &&& payload.take(4) == seq![1u8, 0u8, 0u8, 0u8]
                    &&& octets::le_value(payload.subrange(4, 12)) == key.len()
                    &&& payload.skip(12) == key
                },
            }
        }),
{
    let payload = enc_entry(entry);
    octets::lemma_le_bytes_len(0, 4);
    octets::lemma_le_bytes_len(1, 4);
    assert(octets::le_bytes(0, 4) =~= seq![0u8, 0u8, 0u8, 0u8]) by {
        reveal_with_fuel(octets::le_bytes, 5);
    }
    assert(octets::le_bytes(1, 4) =~= seq![1u8, 0u8, 0u8, 0u8]) by {
        reveal_with_fuel(octets::le_bytes, 5);
    }
    match entry {
        EntryView::Put { key, value } => {
            let n = key.len() as int;
            octets::lemma_le_bytes_len(key.len(), 8);
            octets::lemma_le_bytes_len(value.len(), 8);
            octets::lemma_le_value_of_bytes(key.len(), 8);
            octets::lemma_le_value_of_bytes(value.len(), 8);
            assert(payload.take(4) =~= octets::le_bytes(0, 4));
            assert(payload.subrange(4, 12) =~= octets::le_bytes(key.len(), 8));
            assert(payload.subrange(12, 12 + n) =~= key);
            assert(payload.subrange(12 + n, 20 + n) =~= octets::le_bytes(value.len(), 8));
            assert(payload.skip(20 + n) =~= value);
        },
        EntryView::Delete { key } => {
            octets::lemma_le_bytes_len(key.len(), 8);
            octets::lemma_le_value_of_bytes(key.len(), 8);
            assert(payload.take(4) =~= octets::le_bytes(1, 4));
            assert(payload.subrange(4, 12) =~= octets::le_bytes(key.len(), 8));
            assert(payload.skip(12) =~= key);
        },
    }
}

/// A record is the length of the payload in four bytes, the payload, and its
/// checksum in four bytes.
pub proof fn law_record_layout(entry: EntryView)
    requires
        entry_fits(entry),
    ensures
        ({
            let bytes = record(entry);
            let payload = enc_entry(entry);
            let n = payload.len() as int;
            &&& bytes.len() == 8 + n
            &&& octets::le_value(bytes.take(4)) == n
            &&& bytes.subrange(4, 4 + n) == payload
            &&& octets::le_value(bytes.skip(4 + n)) == crc32(payload)
        }),
{
    let payload = enc_entry(entry);
    let crc = crc32(payload);
    let bytes = record(entry);
    let n = payload.len() as int;
    lemma_frame(payload, crc, Seq::empty());
    assert(frame(payload, crc) + Seq::<u8>::empty() =~= bytes);
    assert(bytes.skip(4 + n) =~= bytes.subrange(4 + n, 8 + n));
}

/// Every write and every delete whose payload is within 64 MiB fits into the log:
/// the key and the value and the twenty or twelve bytes beside them.
pub proof fn law_what_fits_into_the_log(key: Seq<u8>, value: Seq<u8>)
    ensures
        entry_fits(EntryView::Put { key, value }) <==> key.len() + value.len() + 20 <= 67_108_864,
        entry_fits(EntryView::Delete { key }) <==> key.len() + 12 <= 67_108_864,
{
    octets::lemma_pow256_values();
    octets::lemma_le_bytes_len(0, 4);
    octets::lemma_le_bytes_len(1, 4);
    octets::lemma_le_bytes_len(key.len(), 8);
    octets::lemma_le_bytes_len(value.len(), 8);
}

/// A record that states a length above the limit ends the log, whatever follows.
pub proof fn law_overlong_record_ends_the_log(length: u32, rest: Seq<u8>)
    requires
        length > 67_108_864,
    ensures
        replayed(octets::le_bytes(length as nat, 4) + rest) == Seq::<EntryView>::empty(),
        intact(octets::le_bytes(length as nat, 4) + rest) == 0,
{
    let data = octets::le_bytes(length as nat, 4) + rest;
    octets::lemma_pow256_values();
    octets::lemma_le_bytes_len(length as nat, 4);
    octets::lemma_le_value_of_bytes(length as nat, 4);
    assert(data.take(4) =~= octets::le_bytes(length as nat, 4));
}

/// A record whose payload is no entry is skipped, and the records behind it are
/// replayed.
pub proof fn law_undecodable_record_skipped(payload: Seq<u8>, crc: u32, rest: Seq<u8>)
    requires
        payload.len() <= 67_108_864,
        dec_entry(payload) is Err,
    ensures
        replayed(frame(payload, crc) + rest) == replayed(rest),
{
    lemma_frame(payload, crc, rest);
}

/// Of a log, whole records are in order, whatever they hold, and one that is cut
/// off is not.
pub proof fn law_whole_records_are_intact(payload: Seq<u8>, crc: u32, rest: Seq<u8>, kept: int)
    requires
        payload.len() <= 67_108_864,
        0 <= kept < 8 + payload.len(),
    ensures
        intact(frame(payload, crc) + rest) == 8 + payload.len() + intact(rest),
        intact(frame(payload, crc).take(kept)) == 0,
{
    lemma_frame(payload, crc, rest);
    lemma_frame(payload, crc, Seq::empty());
    let whole = frame(payload, crc);
    assert(whole + Seq::<u8>::empty() =~= whole);
    let torn = whole.take(kept);
    if kept >= 4 {
        assert(torn.take(4) =~= whole.take(4));
    }
}

/// What was appended is replayed, in order, followed by whatever stands behind
/// it in the log.
pub proof fn law_log_replays(entries: Seq<EntryView>, rest: Seq<u8>)
    requires
        forall|i: int| 0 <= i < entries.len() ==> entry_fits(#[trigger] entries[i]),
    ensures
        replayed(log_of(entries) + rest) == entries + replayed(rest),
    decreases entries.len(),
{
    if entries.len() == 0 {
        assert(log_of(entries) + rest =~= rest);
        assert(entries + replayed(rest) =~= replayed(rest));
    } else {
        let front = entries.drop_last();
        let last = entries.last();
        assert forall|i: int| 0 <= i < front.len() implies entry_fits(#[trigger] front[i]) by {
            assert(front[i] == entries[i]);
        }
        law_log_replays(front, record(last) + rest);
        assert(entry_fits(entries[entries.len() - 1]));
        law_record_replays(last, rest);
        assert(log_of(entries) + rest =~= log_of(front) + (record(last) + rest));
        assert(front + (seq![last] + replayed(rest)) =~= entries + replayed(rest));
    }
}

/// After a crash that cut off the last record, exactly the entries that were
/// appended before it are replayed.
pub proof fn law_crash_keeps_appended(entries: Seq<EntryView>, torn: EntryView, kept: int)
    requires
        forall|i: int| 0 <= i < entries.len() ==> entry_fits(#[trigger] entries[i]),
        entry_fits(torn),
        0 <= kept < record(torn).len(),
    ensures
        replayed(log_of(entries) + record(torn).take(kept)) == entries,
{
    law_log_replays(entries, record(torn).take(kept));
    law_torn_record_dropped(enc_entry(torn), crc32(enc_entry(torn)), kept);
    assert(entries + Seq::<EntryView>::empty() =~= entries);
}

/// The log of a store, with the number of entries appended to it.
#[derive(Debug)]
pub struct WriteAheadLog {
    entry_count: u64,
}

impl WriteAheadLog {
    /// How many entries have been appended since it was opened or truncated.
    pub closed spec fn count(&self) -> nat {
        self.entry_count as nat
    }

    /// A log to which nothing has been appended yet.
    pub fn open() -> (log: Self)
        ensures
            log.count() == 0,
    {
        WriteAheadLog { entry_count: 0 }
    }

    /// The record to write at the end of the log for an entry.
    pub fn append(&self, entry: &WalEntry) -> (bytes: Vec<u8>)
        ensures
            bytes@ == record(entry@),
    {
        let payload = entry.to_bytes();
        let crc: u32 = crc32_hash(&payload);
        let mut bytes: Vec<u8> = Vec::new();
        put_le(&mut bytes, payload.len() as u64, 4);
        let mut body = payload;
        bytes.append(&mut body);
        put_le(&mut bytes, crc as u64, 4);
        assert(bytes@ =~= record(entry@));
        bytes
    }

    /// Counts an entry whose record has been written.
    pub fn appended(&mut self)
        requires
            old(self).count() < u64::MAX,
        ensures
            final(self).count() == old(self).count() + 1,
    {
        self.entry_count = self.entry_count + 1;
    }

    /// The entries that the bytes of a log hold.
    pub fn replay(data: &[u8]) -> (entries: Vec<WalEntry>)
        ensures
            log_view(entries@) == replayed(data@),
    {
        let total: usize = data.len();
        let mut entries: Vec<WalEntry> = Vec::new();
        let mut pos: usize = 0;
        assert(data@.skip(0) =~= data@);
        assert(log_view(entries@) + replayed(data@) =~= replayed(data@));
        while total - pos >= 4
            invariant
                pos <= total == data@.len(),
                log_view(entries@) + replayed(data@.skip(pos as int)) == replayed(data@),
            ensures
                replayed(data@.skip(pos as int)) == Seq::<EntryView>::empty(),
                log_view(entries@) + replayed(data@.skip(pos as int)) == replayed(data@),
            decreases total - pos,
        {
            let ghost left = data@.skip(pos as int);
            let n: usize = get_le(data, pos, 4) as usize;
            proof {
                assert(left.take(4) =~= data@.subrange(pos as int, pos + 4));
                octets::lemma_le_bytes_of_value(left.take(4));
                octets::lemma_pow256_values();
            }
            if n > MAX_PAYLOAD || total - pos < 8 + n {
                break;
            }
            let payload = slice_subrange(data, pos + 4, pos + 4 + n);
            let stored: u64 = get_le(data, pos + 4 + n, 4);
            let computed: u32 = crc32_hash(payload);
            let ghost before = log_view(entries@);
            proof {
                assert(left.subrange(4, 4 + n as int) =~= payload@);
                assert(left.subrange(4 + n as int, 8 + n as int) =~= data@.subrange(
                    pos + 4 + n,
                    pos + 8 + n,
                ));
                assert(left.skip(8 + n as int) =~= data@.skip(pos + 8 + n));
            }
            pos = pos + 8 + n;
            if stored == computed as u64 {
                match WalEntry::from_bytes(payload) {
                    Ok(entry) => {
                        entries.push(entry);
                        proof {
                            let rest = replayed(data@.skip(pos as int));
                            assert(log_view(entries@) =~= before.push(entry@));
                            assert(before + (seq![entry@] + rest) =~= before.push(entry@) + rest);
                        }
                    },
                    Err(_) => {},
                }
            }
        }
        assert(log_view(entries@) =~= replayed(data@));
        entries
    }

    /// The number of entries appended since the log was opened or truncated.
    pub fn entry_count(&self) -> (n: u64)
        ensures
            n == self.count(),
    {
        self.entry_count
    }

    /// Starts counting anew, once the log has been emptied.
    pub fn truncate(&mut self)
        ensures
            final(self).count() == 0,
    {
        self.entry_count = 0;
    }
}

} // verus!
