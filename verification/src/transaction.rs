//! The transaction decoder: a single-byte type sniff, an RLP frame read,
//! and one positional field decoder per transaction shape.
//!
//! The central contract is the round-trip invariant: whenever decoding
//! succeeds, re-encoding the decoded fields with the same RLP rules
//! reproduces the input byte sequence exactly.

use vstd::prelude::*;
use vstd::slice::slice_subrange;
use vstd::slice::slice_to_vec;
use crate::errors::DecodeError;
use crate::errors::RlpCause;
use crate::errors::TxField;
use crate::numeric::is_canonical_scalar;
use crate::numeric::min_be_bytes;
use crate::numeric::be_val;
use crate::numeric::be_val_u64;
use crate::numeric::lemma_min_be_bytes_of_canonical;
use crate::rlp::rlp_str;
use crate::rlp::rlp_list;
use crate::rlp::ItemRef;
use crate::rlp::item_wf;
use crate::rlp::items_wf;
use crate::rlp::items_linked;
use crate::rlp::read_item_header;
use crate::rlp::split_items;
use crate::rlp::push_rlp_str;
use crate::rlp::wrap_rlp_list;
use crate::rlp::be_bytes_u64;
use crate::rlp::ItemSpec;
use crate::rlp::encs_concat;
use crate::rlp::item_matches_spec;
use crate::rlp::list_item_at;

verus! {

/// One access-list entry: an address and its ordered storage keys.
#[derive(Clone, Debug, PartialEq, Eq)]
pub struct AccessListEntry {
    /// A 20-byte address.
    pub address: Vec<u8>,
    /// 32-byte storage keys, in frame order.
    pub storage_keys: Vec<Vec<u8>>,
}

/// A decoded transaction, tagged by shape. Scalar fields are canonical
/// big-endian byte strings of at most 32 bytes (256-bit unsigned values);
/// `to` is absent for contract creation.
#[derive(Clone, Debug, PartialEq, Eq)]
pub enum TransactionEnvelope {
    Legacy {
        nonce: Vec<u8>,
        gas_price: Vec<u8>,
        gas_limit: Vec<u8>,
        to: Option<Vec<u8>>,
        value: Vec<u8>,
        data: Vec<u8>,
        sig_v: Vec<u8>,
        sig_r: Vec<u8>,
        sig_s: Vec<u8>,
    },
    AccessList {
        chain_id: u64,
        nonce: Vec<u8>,
        gas_price: Vec<u8>,
        gas_limit: Vec<u8>,
        to: Option<Vec<u8>>,
        value: Vec<u8>,
        data: Vec<u8>,
        access_list: Vec<AccessListEntry>,
        sig_v: Vec<u8>,
        sig_r: Vec<u8>,
        sig_s: Vec<u8>,
    },
    FeeMarket {
        chain_id: u64,
        nonce: Vec<u8>,
        max_priority_fee_per_gas: Vec<u8>,
        max_fee_per_gas: Vec<u8>,
        gas_limit: Vec<u8>,
        to: Option<Vec<u8>>,
        value: Vec<u8>,
        data: Vec<u8>,
        access_list: Vec<AccessListEntry>,
        sig_v: Vec<u8>,
        sig_r: Vec<u8>,
        sig_s: Vec<u8>,
    },
}

/// A 256-bit scalar field: canonical and at most 32 bytes.
pub open spec fn scalar_wf(b: Seq<u8>) -> bool {
    is_canonical_scalar(b) && b.len() <= 32
}

/// The `to` field: absent, or a 20-byte address.
pub open spec fn to_wf(t: Option<Vec<u8>>) -> bool {
    t matches Some(a) ==> a@.len() == 20
}

/// An access-list entry: 20-byte address, 32-byte storage keys.
pub open spec fn entry_wf(e: AccessListEntry) -> bool {
    &&& e.address@.len() == 20
    &&& forall|k: int| 0 <= k < e.storage_keys@.len() ==> (#[trigger] e.storage_keys@[k])@.len()
        == 32
}

/// Every entry of an access list is well-formed.
pub open spec fn entries_wf(es: Seq<AccessListEntry>) -> bool {
    forall|k: int| 0 <= k < es.len() ==> entry_wf(#[trigger] es[k])
}

/// The decoded envelope's internal invariant, established by the decoder.
pub open spec fn envelope_wf(tx: TransactionEnvelope) -> bool {
    match tx {
        TransactionEnvelope::Legacy {
            nonce, gas_price, gas_limit, to, value, data: _, sig_v, sig_r, sig_s,
        } => {
            &&& scalar_wf(nonce@)
            &&& scalar_wf(gas_price@)
            &&& scalar_wf(gas_limit@)
            &&& to_wf(to)
            &&& scalar_wf(value@)
            &&& scalar_wf(sig_v@)
            &&& scalar_wf(sig_r@)
            &&& scalar_wf(sig_s@)
        },
        TransactionEnvelope::AccessList {
            chain_id: _, nonce, gas_price, gas_limit, to, value, data: _, access_list,
            sig_v, sig_r, sig_s,
        } => {
            &&& scalar_wf(nonce@)
            &&& scalar_wf(gas_price@)
            &&& scalar_wf(gas_limit@)
            &&& to_wf(to)
            &&& scalar_wf(value@)
            &&& entries_wf(access_list@)
            &&& scalar_wf(sig_v@)
            &&& scalar_wf(sig_r@)
            &&& scalar_wf(sig_s@)
        },
        TransactionEnvelope::FeeMarket {
            chain_id: _, nonce, max_priority_fee_per_gas, max_fee_per_gas, gas_limit, to,
            value, data: _, access_list, sig_v, sig_r, sig_s,
        } => {
            &&& scalar_wf(nonce@)
            &&& scalar_wf(max_priority_fee_per_gas@)
            &&& scalar_wf(max_fee_per_gas@)
            &&& scalar_wf(gas_limit@)
            &&& to_wf(to)
            &&& scalar_wf(value@)
            &&& entries_wf(access_list@)
            &&& scalar_wf(sig_v@)
            &&& scalar_wf(sig_r@)
            &&& scalar_wf(sig_s@)
        },
    }
}

/// The RLP field encoding of the optional `to` address: the empty
/// byte-string when absent.
pub open spec fn enc_opt_addr(t: Option<Vec<u8>>) -> Seq<u8> {
    match t {
        Option::None => rlp_str(Seq::empty()),
        Option::Some(a) => rlp_str(a@),
    }
}

/// The RLP field encoding of a `u64` scalar.
pub open spec fn enc_u64(v: u64) -> Seq<u8> {
    rlp_str(min_be_bytes(v as nat))
}

/// The concatenated encodings of the storage keys of one entry.
pub open spec fn enc_keys(ks: Seq<Vec<u8>>) -> Seq<u8>
    decreases ks.len(),
{
    if ks.len() == 0 {
        Seq::empty()
    } else {
        enc_keys(ks.drop_last()) + rlp_str(ks.last()@)
    }
}

/// The RLP encoding of one access-list entry.
pub open spec fn enc_entry(e: AccessListEntry) -> Seq<u8> {
    rlp_list(rlp_str(e.address@) + rlp_list(enc_keys(e.storage_keys@)))
}

/// The concatenated encodings of the access-list entries.
pub open spec fn enc_entries(es: Seq<AccessListEntry>) -> Seq<u8>
    decreases es.len(),
{
    if es.len() == 0 {
        Seq::empty()
    } else {
        enc_entries(es.drop_last()) + enc_entry(es.last())
    }
}

/// The full encoding of a decoded transaction: the RLP frame with its
/// fields in positional order, behind the shape's type byte for the
/// non-legacy shapes.
pub open spec fn encode_envelope(tx: TransactionEnvelope) -> Seq<u8> {
    match tx {
        TransactionEnvelope::Legacy {
            nonce, gas_price, gas_limit, to, value, data, sig_v, sig_r, sig_s,
        } => rlp_list(
            rlp_str(nonce@) + rlp_str(gas_price@) + rlp_str(gas_limit@) + enc_opt_addr(to)
                + rlp_str(value@) + rlp_str(data@) + rlp_str(sig_v@) + rlp_str(sig_r@)
                + rlp_str(sig_s@),
        ),
        TransactionEnvelope::AccessList {
            chain_id, nonce, gas_price, gas_limit, to, value, data, access_list, sig_v,
            sig_r, sig_s,
        } => seq![1u8] + rlp_list(
            enc_u64(chain_id) + rlp_str(nonce@) + rlp_str(gas_price@) + rlp_str(gas_limit@)
                + enc_opt_addr(to) + rlp_str(value@) + rlp_str(data@) + rlp_list(
                enc_entries(access_list@),
            ) + rlp_str(sig_v@) + rlp_str(sig_r@) + rlp_str(sig_s@),
        ),
        TransactionEnvelope::FeeMarket {
            chain_id, nonce, max_priority_fee_per_gas, max_fee_per_gas, gas_limit, to,
            value, data, access_list, sig_v, sig_r, sig_s,
        } => seq![2u8] + rlp_list(
            enc_u64(chain_id) + rlp_str(nonce@) + rlp_str(max_priority_fee_per_gas@)
                + rlp_str(max_fee_per_gas@) + rlp_str(gas_limit@) + enc_opt_addr(to)
                + rlp_str(value@) + rlp_str(data@) + rlp_list(enc_entries(access_list@))
                + rlp_str(sig_v@) + rlp_str(sig_r@) + rlp_str(sig_s@),
        ),
    }
}

/// Decodes one RLP string item into a 256-bit scalar field.
fn item_scalar(buf: &[u8], it: ItemRef, f: TxField) -> (r: Result<Vec<u8>, DecodeError>)
    requires
        item_wf(buf@, it),
    ensures
        r is Ok ==> scalar_wf(r->Ok_0@) && r->Ok_0@ == it.payload(buf@) && buf@.subrange(
            it.start as int, it.end as int) == rlp_str(r->Ok_0@),
        r is Err ==> (r->Err_0 matches DecodeError::RlpDecodeError { field, cause: _ } && field
            == f),
        !it.is_list && scalar_wf(it.payload(buf@)) ==> r is Ok,
{
    if it.is_list {
        return Err(DecodeError::RlpDecodeError { field: f, cause: RlpCause::NotByteString });
    }
    let p = slice_subrange(buf, it.payload_start, it.end);
    if p.len() > 32 {
        return Err(DecodeError::RlpDecodeError { field: f, cause: RlpCause::TooLong });
    }
    if p.len() > 0 && p[0] == 0 {
        return Err(DecodeError::RlpDecodeError { field: f, cause: RlpCause::NonCanonical });
    }
    Ok(slice_to_vec(p))
}

/// Decodes one RLP string item into a raw byte field (the `data` field).
fn item_bytes(buf: &[u8], it: ItemRef, f: TxField) -> (r: Result<Vec<u8>, DecodeError>)
    requires
        item_wf(buf@, it),
    ensures
        r is Ok ==> r->Ok_0@ == it.payload(buf@) && buf@.subrange(it.start as int,
            it.end as int) == rlp_str(r->Ok_0@),
        r is Err ==> (r->Err_0 matches DecodeError::RlpDecodeError { field, cause: _ } && field
            == f),
        !it.is_list ==> r is Ok,
{
    if it.is_list {
        return Err(DecodeError::RlpDecodeError { field: f, cause: RlpCause::NotByteString });
    }
    let p = slice_subrange(buf, it.payload_start, it.end);
    Ok(slice_to_vec(p))
}

/// Decodes the `to` position from its raw byte-string payload. The
/// address is absent exactly when the payload is the empty byte-string;
/// any other length than 20 is an error, never a partial result.
pub fn decode_to_field(p: &[u8]) -> (r: Result<Option<Vec<u8>>, DecodeError>)
    ensures
        p@.len() == 0 ==> (r matches Ok(t) && t is None),
        (r matches Ok(t) && t is None) ==> p@.len() == 0,
        p@.len() == 20 ==> (r matches Ok(t) && t matches Some(a) && a@ == p@),
        (r matches Ok(t) && t matches Some(a)) ==> p@.len() == 20,
        p@.len() != 0 && p@.len() != 20 <==> (r matches Err(e) && e
            == (DecodeError::RlpDecodeError { field: TxField::To, cause: RlpCause::WrongLength })),
{
    let n = p.len();
    if n == 0 {
        Ok(None)
    } else if n == 20 {
        Ok(Some(slice_to_vec(p)))
    } else {
        Err(DecodeError::RlpDecodeError { field: TxField::To, cause: RlpCause::WrongLength })
    }
}

/// Decodes one RLP string item into the optional `to` address.
fn item_to(buf: &[u8], it: ItemRef) -> (r: Result<Option<Vec<u8>>, DecodeError>)
    requires
        item_wf(buf@, it),
    ensures
        r is Ok ==> to_wf(r->Ok_0) && buf@.subrange(it.start as int, it.end as int)
            == enc_opt_addr(r->Ok_0),
        r is Err ==> (r->Err_0 matches DecodeError::RlpDecodeError { field, cause: _ } && field
            == TxField::To),
        !it.is_list && (it.payload(buf@).len() == 0 || it.payload(buf@).len() == 20) ==> r
            is Ok,
{
    if it.is_list {
        return Err(
            DecodeError::RlpDecodeError { field: TxField::To, cause: RlpCause::NotByteString },
        );
    }
    let p = slice_subrange(buf, it.payload_start, it.end);
    let r = decode_to_field(p);
    proof {
        if r is Ok {
            if r->Ok_0 is None {
                assert(it.payload(buf@) =~= Seq::<u8>::empty());
            }
        }
    }
    r
}

/// Decodes one RLP string item into a `u64` scalar (the chain id).
fn item_u64(buf: &[u8], it: ItemRef, f: TxField) -> (r: Result<u64, DecodeError>)
    requires
        item_wf(buf@, it),
    ensures
        r is Ok ==> buf@.subrange(it.start as int, it.end as int) == enc_u64(r->Ok_0),
        r is Err ==> (r->Err_0 matches DecodeError::RlpDecodeError { field, cause: _ } && field
            == f),
        !it.is_list && is_canonical_scalar(it.payload(buf@)) && be_val(it.payload(buf@))
            <= u64::MAX ==> r is Ok,
{
    if it.is_list {
        return Err(DecodeError::RlpDecodeError { field: f, cause: RlpCause::NotByteString });
    }
    let p = slice_subrange(buf, it.payload_start, it.end);
    if p.len() > 0 && p[0] == 0 {
        return Err(DecodeError::RlpDecodeError { field: f, cause: RlpCause::NonCanonical });
    }
    match be_val_u64(p) {
        Some(v) => {
            proof {
                if p@.len() == 0 {
                    assert(min_be_bytes(v as nat) =~= p@);
                } else {
                    lemma_min_be_bytes_of_canonical(p@);
                }
            }
            Ok(v)
        },
        None => Err(DecodeError::RlpDecodeError { field: f, cause: RlpCause::TooLong }),
    }
}

/// Where a tiling of items has reached after its first `k` items.
spec fn tile_end(v: Seq<ItemRef>, k: int, lo: int) -> int {
    if k == 0 {
        lo
    } else {
        v[k - 1].end as int
    }
}

/// Appending a key appends its encoding.
proof fn lemma_enc_keys_push(ks: Seq<Vec<u8>>, x: Vec<u8>)
    ensures
        enc_keys(ks.push(x)) == enc_keys(ks) + rlp_str(x@),
{
    assert(ks.push(x).drop_last() =~= ks);
    assert(ks.push(x).last() == x);
}

/// Appending an entry appends its encoding.
proof fn lemma_enc_entries_push(es: Seq<AccessListEntry>, x: AccessListEntry)
    ensures
        enc_entries(es.push(x)) == enc_entries(es) + enc_entry(x),
{
    assert(es.push(x).drop_last() =~= es);
    assert(es.push(x).last() == x);
}

/// An entry item whose two sub-items encode the address and the key
/// list re-encodes to the entry's own encoding.
proof fn lemma_entry_enc(
    buf: Seq<u8>,
    e_it: ItemRef,
    a_it: ItemRef,
    k_it: ItemRef,
    entry: AccessListEntry,
)
    requires
        item_wf(buf, e_it),
        item_wf(buf, a_it),
        item_wf(buf, k_it),
        e_it.is_list,
        a_it.start == e_it.payload_start,
        k_it.start == a_it.end,
        k_it.end == e_it.end,
        buf.subrange(a_it.start as int, a_it.end as int) == rlp_str(entry.address@),
        buf.subrange(k_it.start as int, k_it.end as int) == rlp_list(
            enc_keys(entry.storage_keys@),
        ),
    ensures
        buf.subrange(e_it.start as int, e_it.end as int) == enc_entry(entry),
{
    crate::rlp::lemma_subrange_split(
        buf,
        e_it.payload_start as int,
        a_it.end as int,
        e_it.end as int,
    );
    assert(e_it.payload(buf) == rlp_str(entry.address@) + rlp_list(
        enc_keys(entry.storage_keys@),
    ));
}

/// Decodes an access-list item: a list of `[address, [key, ...]]` pairs.
#[verifier::rlimit(100)]
fn decode_access_list(buf: &[u8], it: ItemRef) -> (r: Result<Vec<AccessListEntry>, DecodeError>)
    requires
        item_wf(buf@, it),
    ensures
        r is Ok ==> entries_wf(r->Ok_0@) && buf@.subrange(it.start as int, it.end as int)
            == rlp_list(enc_entries(r->Ok_0@)),
        r is Err ==> (r->Err_0 matches DecodeError::RlpDecodeError { field, cause: _ } && field
            == TxField::AccessList),
{
    let f = TxField::AccessList;
    if !it.is_list {
        return Err(DecodeError::RlpDecodeError { field: f, cause: RlpCause::NotByteString });
    }
    let items = match split_items(buf, it.payload_start, it.end) {
        Ok(v) => v,
        Err(c) => {
            return Err(DecodeError::RlpDecodeError { field: f, cause: c });
        },
    };
    let ghost lo = it.payload_start as int;
    let mut entries: Vec<AccessListEntry> = Vec::new();
    let mut idx: usize = 0;
    let n = items.len();
    while idx < n
        invariant
            f == TxField::AccessList,
            item_wf(buf@, it),
            it.is_list,
            items_wf(buf@, items@),
            items_linked(items@, lo, it.end as int),
            lo == it.payload_start as int,
            n == items@.len(),
            idx <= n,
            entries@.len() == idx,
            entries_wf(entries@),
            enc_entries(entries@) == buf@.subrange(lo, tile_end(items@, idx as int, lo)),
            lo <= tile_end(items@, idx as int, lo) <= it.end as int,
        decreases n - idx,
    {
        let e_it = items[idx];
        proof {
            assert(item_wf(buf@, items@[idx as int]));
        }
        if !e_it.is_list {
            return Err(DecodeError::RlpDecodeError { field: f, cause: RlpCause::NotByteString });
        }
        let sub = match split_items(buf, e_it.payload_start, e_it.end) {
            Ok(v) => v,
            Err(c) => {
                return Err(DecodeError::RlpDecodeError { field: f, cause: c });
            },
        };
        if sub.len() != 2 {
            return Err(DecodeError::RlpDecodeError { field: f, cause: RlpCause::WrongLength });
        }
        let addr_it = sub[0];
        proof {
            assert(item_wf(buf@, sub@[0]));
            assert(item_wf(buf@, sub@[1]));
        }
        if addr_it.is_list {
            return Err(DecodeError::RlpDecodeError { field: f, cause: RlpCause::NotByteString });
        }
        let ap = slice_subrange(buf, addr_it.payload_start, addr_it.end);
        if ap.len() != 20 {
            return Err(DecodeError::RlpDecodeError { field: f, cause: RlpCause::WrongLength });
        }
        let address = slice_to_vec(ap);
        let keys_it = sub[1];
        if !keys_it.is_list {
            return Err(DecodeError::RlpDecodeError { field: f, cause: RlpCause::NotByteString });
        }
        let kitems = match split_items(buf, keys_it.payload_start, keys_it.end) {
            Ok(v) => v,
            Err(c) => {
                return Err(DecodeError::RlpDecodeError { field: f, cause: c });
            },
        };
        let ghost klo = keys_it.payload_start as int;
        let mut keys: Vec<Vec<u8>> = Vec::new();
        let mut j: usize = 0;
        let kn = kitems.len();
        while j < kn
            invariant
                f == TxField::AccessList,
                item_wf(buf@, keys_it),
                keys_it.is_list,
                items_wf(buf@, kitems@),
                items_linked(kitems@, klo, keys_it.end as int),
                klo == keys_it.payload_start as int,
                kn == kitems@.len(),
                j <= kn,
                keys@.len() == j,
                forall|k: int| 0 <= k < keys@.len() ==> (#[trigger] keys@[k])@.len() == 32,
                enc_keys(keys@) == buf@.subrange(klo, tile_end(kitems@, j as int, klo)),
                klo <= tile_end(kitems@, j as int, klo) <= keys_it.end as int,
            decreases kn - j,
        {
            let k_it = kitems[j];
            proof {
                assert(item_wf(buf@, kitems@[j as int]));
            }
            if k_it.is_list {
                return Err(
                    DecodeError::RlpDecodeError { field: f, cause: RlpCause::NotByteString },
                );
            }
            let kp = slice_subrange(buf, k_it.payload_start, k_it.end);
            if kp.len() != 32 {
                return Err(
                    DecodeError::RlpDecodeError { field: f, cause: RlpCause::WrongLength },
                );
            }
            let ghost old_keys = keys@;
            keys.push(slice_to_vec(kp));
            proof {
                let ke = tile_end(kitems@, j as int, klo);
                assert(kitems@[j as int].start == ke);
                lemma_enc_keys_push(old_keys, keys@.last());
                crate::rlp::lemma_items_upper(buf@, kitems@, klo, keys_it.end as int, j as int);
                crate::rlp::lemma_subrange_split(buf@, klo, ke, k_it.end as int);
                assert(buf@.subrange(k_it.start as int, k_it.end as int) == rlp_str(kp@));
            }
            j = j + 1;
        }
        proof {
            assert(enc_keys(keys@) == keys_it.payload(buf@));
        }
        let entry = AccessListEntry { address, storage_keys: keys };
        proof {
            assert(entry_wf(entry));
            assert(sub@[0].start == e_it.payload_start as int);
            assert(sub@[1].start == sub@[0].end);
            assert(sub@[1].end == e_it.end);
            assert(buf@.subrange(keys_it.start as int, keys_it.end as int) == rlp_list(
                enc_keys(entry.storage_keys@)));
            lemma_entry_enc(buf@, e_it, addr_it, keys_it, entry);
        }
        let ghost old_entries = entries@;
        entries.push(entry);
        proof {
            let pe = tile_end(items@, idx as int, lo);
            assert(items@[idx as int].start == pe);
            lemma_enc_entries_push(old_entries, entries@.last());
            crate::rlp::lemma_items_upper(buf@, items@, lo, it.end as int, idx as int);
            crate::rlp::lemma_subrange_split(buf@, lo, pe, e_it.end as int);
        }
        idx = idx + 1;
    }
    proof {
        assert(enc_entries(entries@) == it.payload(buf@));
        assert(buf@.subrange(it.start as int, it.end as int) == rlp_list(enc_entries(entries@)));
    }
    Ok(entries)
}


/// Reads the whole body as one RLP list with exactly `expected` items.
/// Returns the outer list item and the item spans. Conversely, whenever
/// the body is exactly a canonical list of `expected` encoded items, the
/// read succeeds with items realizing them one for one.
fn read_frame(body: &[u8], expected: usize) -> (r: Result<(ItemRef, Vec<ItemRef>), DecodeError>)
    ensures
        r is Ok ==> {
            let (outer, v) = r->Ok_0;
            &&& outer.is_list
            &&& outer.start == 0
            &&& outer.end == body@.len()
            &&& item_wf(body@, outer)
            &&& body@ == rlp_list(outer.payload(body@))
            &&& v@.len() == expected
            &&& items_wf(body@, v@)
            &&& items_linked(v@, outer.payload_start as int, outer.end as int)
        },
        r is Err ==> (r->Err_0 matches DecodeError::RlpDecodeError { field, cause: _ } && field
            == TxField::Frame) || (r->Err_0 matches DecodeError::MalformedFrame {
            expected: e, actual: _ } && e == expected),
        forall|sp: Seq<ItemSpec>|
            #![trigger encs_concat(sp)]
            (body@ == rlp_list(encs_concat(sp)) && sp.len() == expected) ==> (r matches Ok(f)
                && f.1@.len() == expected && (forall|k: int|
                0 <= k < sp.len() ==> item_matches_spec(body@, #[trigger] f.1@[k], sp[k]))),
{
    let blen = body.len();
    proof {
        assert(body@.len() == blen as nat);
        assert(body@.len() < 0x1_0000_0000_0000_0000);
    }
    if blen == 0 {
        proof {
            assert forall|sp: Seq<ItemSpec>| body@ != rlp_list(#[trigger] encs_concat(sp)) by {
                assert(rlp_list(encs_concat(sp)).len() >= 1);
            }
        }
        return Err(DecodeError::RlpDecodeError { field: TxField::Frame, cause: RlpCause::Header });
    }
    let ghost whole = body@;
    proof {
        assert forall|sp: Seq<ItemSpec>| whole == rlp_list(#[trigger] encs_concat(sp))
            implies list_item_at(body@, 0, encs_concat(sp)) by {
            assert(body@.subrange(0, rlp_list(encs_concat(sp)).len() as int) =~= body@);
        }
    }
    let outer = match read_item_header(body, 0) {
        Ok(it) => it,
        Err(c) => {
            return Err(DecodeError::RlpDecodeError { field: TxField::Frame, cause: c });
        },
    };
    if !outer.is_list {
        return Err(
            DecodeError::RlpDecodeError { field: TxField::Frame, cause: RlpCause::NotByteString },
        );
    }
    if outer.end != body.len() {
        return Err(DecodeError::RlpDecodeError { field: TxField::Frame, cause: RlpCause::Header });
    }
    let items = match split_items(body, outer.payload_start, outer.end) {
        Ok(v) => v,
        Err(c) => {
            proof {
                assert forall|sp: Seq<ItemSpec>| whole != rlp_list(#[trigger] encs_concat(
                    sp)) by {
                    if whole == rlp_list(encs_concat(sp)) {
                        assert(outer.payload(body@) == encs_concat(sp));
                    }
                }
            }
            return Err(DecodeError::RlpDecodeError { field: TxField::Frame, cause: c });
        },
    };
    proof {
        assert forall|sp: Seq<ItemSpec>| whole == rlp_list(#[trigger] encs_concat(sp)) implies
            items@.len() == sp.len() && (forall|k: int|
            0 <= k < sp.len() ==> item_matches_spec(body@, #[trigger] items@[k], sp[k])) by {
            assert(outer.payload(body@) == encs_concat(sp));
        }
    }
    if items.len() != expected {
        return Err(DecodeError::MalformedFrame { expected, actual: items.len() });
    }
    proof {
        assert(body@.subrange(0, body@.len() as int) =~= body@);
    }
    Ok((outer, items))
}

/// The intended items of a legacy frame: one byte-string per field, in
/// positional order.
spec fn legacy_specs(tx: TransactionEnvelope) -> Seq<ItemSpec> {
    match tx {
        TransactionEnvelope::Legacy {
            nonce, gas_price, gas_limit, to, value, data, sig_v, sig_r, sig_s,
        } => seq![
            ItemSpec::Bytes(nonce@),
            ItemSpec::Bytes(gas_price@),
            ItemSpec::Bytes(gas_limit@),
            ItemSpec::Bytes(
                match to {
                    Option::None => Seq::<u8>::empty(),
                    Option::Some(a) => a@,
                },
            ),
            ItemSpec::Bytes(value@),
            ItemSpec::Bytes(data@),
            ItemSpec::Bytes(sig_v@),
            ItemSpec::Bytes(sig_r@),
            ItemSpec::Bytes(sig_s@),
        ],
        _ => Seq::empty(),
    }
}

/// A legacy transaction's encoding is the canonical list of its nine
/// intended items.
proof fn lemma_legacy_specs(tx: TransactionEnvelope)
    requires
        tx is Legacy,
    ensures
        legacy_specs(tx).len() == 9,
        encode_envelope(tx) == rlp_list(encs_concat(legacy_specs(tx))),
{
    match tx {
        TransactionEnvelope::Legacy {
            nonce, gas_price, gas_limit, to, value, data, sig_v, sig_r, sig_s,
        } => {
            let tob = match to {
                Option::None => Seq::<u8>::empty(),
                Option::Some(a) => a@,
            };
            let s9 = legacy_specs(tx);
            let s8 = seq![
                ItemSpec::Bytes(nonce@),
                ItemSpec::Bytes(gas_price@),
                ItemSpec::Bytes(gas_limit@),
                ItemSpec::Bytes(tob),
                ItemSpec::Bytes(value@),
                ItemSpec::Bytes(data@),
                ItemSpec::Bytes(sig_v@),
                ItemSpec::Bytes(sig_r@),
            ];
            let s7 = s8.drop_last();
            let s6 = s7.drop_last();
            let s5 = s6.drop_last();
            let s4 = s5.drop_last();
            let s3 = s4.drop_last();
            let s2 = s3.drop_last();
            let s1 = s2.drop_last();
            let s0 = s1.drop_last();
            assert(s9.drop_last() =~= s8);
            assert(s9.last() == ItemSpec::Bytes(sig_s@));
            assert(s8.last() == ItemSpec::Bytes(sig_r@));
            assert(s7.last() == ItemSpec::Bytes(sig_v@));
            assert(s6.last() == ItemSpec::Bytes(data@));
            assert(s5.last() == ItemSpec::Bytes(value@));
            assert(s4.last() == ItemSpec::Bytes(tob));
            assert(s3.last() == ItemSpec::Bytes(gas_limit@));
            assert(s2.last() == ItemSpec::Bytes(gas_price@));
            assert(s1.last() == ItemSpec::Bytes(nonce@));
            assert(s0.len() == 0);
            assert(rlp_str(tob) == enc_opt_addr(to));
            assert(encs_concat(s0) == Seq::<u8>::empty());
            assert(encs_concat(s1) == encs_concat(s0) + rlp_str(nonce@));
            assert(encs_concat(s2) == encs_concat(s1) + rlp_str(gas_price@));
            assert(encs_concat(s3) == encs_concat(s2) + rlp_str(gas_limit@));
            assert(encs_concat(s4) == encs_concat(s3) + rlp_str(tob));
            assert(encs_concat(s5) == encs_concat(s4) + rlp_str(value@));
            assert(encs_concat(s6) == encs_concat(s5) + rlp_str(data@));
            assert(encs_concat(s7) == encs_concat(s6) + rlp_str(sig_v@));
            assert(encs_concat(s8) == encs_concat(s7) + rlp_str(sig_r@));
            assert(encs_concat(s9) == encs_concat(s8) + rlp_str(sig_s@));
            assert(encs_concat(s9) =~= rlp_str(nonce@) + rlp_str(gas_price@) + rlp_str(
                gas_limit@) + enc_opt_addr(to) + rlp_str(value@) + rlp_str(data@) + rlp_str(
                sig_v@) + rlp_str(sig_r@) + rlp_str(sig_s@));
        },
        _ => {},
    }
}

/// Nine adjacent field encodings assemble into the legacy frame's
/// encoding.
proof fn lemma_legacy_assemble(body: Seq<u8>, outer: ItemRef, v: Seq<ItemRef>,
    tx: TransactionEnvelope)
    requires
        tx is Legacy,
        outer.is_list,
        outer.start == 0,
        outer.end == body.len(),
        item_wf(body, outer),
        body == rlp_list(outer.payload(body)),
        v.len() == 9,
        items_wf(body, v),
        items_linked(v, outer.payload_start as int, outer.end as int),
        body.subrange(v[0].start as int, v[0].end as int) == rlp_str(tx->Legacy_nonce@),
        body.subrange(v[1].start as int, v[1].end as int) == rlp_str(tx->Legacy_gas_price@),
        body.subrange(v[2].start as int, v[2].end as int) == rlp_str(tx->Legacy_gas_limit@),
        body.subrange(v[3].start as int, v[3].end as int) == enc_opt_addr(tx->Legacy_to),
        body.subrange(v[4].start as int, v[4].end as int) == rlp_str(tx->Legacy_value@),
        body.subrange(v[5].start as int, v[5].end as int) == rlp_str(tx->Legacy_data@),
        body.subrange(v[6].start as int, v[6].end as int) == rlp_str(tx->Legacy_sig_v@),
        body.subrange(v[7].start as int, v[7].end as int) == rlp_str(tx->Legacy_sig_r@),
        body.subrange(v[8].start as int, v[8].end as int) == rlp_str(tx->Legacy_sig_s@),
    ensures
        encode_envelope(tx) == body,
{
    let ps = outer.payload_start as int;
    let hi = outer.end as int;
    assert forall|k: int| 0 <= k < 9 implies item_wf(body, #[trigger] v[k]) by {}
    assert(v[0].start == ps);
    assert forall|k: int| 0 < k < 9 implies (#[trigger] v[k]).start == v[k - 1].end by {}
    crate::rlp::lemma_subrange_split(body, ps, v[0].end as int, v[1].end as int);
    crate::rlp::lemma_subrange_split(body, ps, v[1].end as int, v[2].end as int);
    crate::rlp::lemma_subrange_split(body, ps, v[2].end as int, v[3].end as int);
    crate::rlp::lemma_subrange_split(body, ps, v[3].end as int, v[4].end as int);
    crate::rlp::lemma_subrange_split(body, ps, v[4].end as int, v[5].end as int);
    crate::rlp::lemma_subrange_split(body, ps, v[5].end as int, v[6].end as int);
    crate::rlp::lemma_subrange_split(body, ps, v[6].end as int, v[7].end as int);
    crate::rlp::lemma_subrange_split(body, ps, v[7].end as int, v[8].end as int);
    assert(v[8].end == hi);
    assert(outer.payload(body) == body.subrange(ps, hi));
    assert(outer.payload(body) == rlp_str(tx->Legacy_nonce@) + rlp_str(tx->Legacy_gas_price@)
        + rlp_str(tx->Legacy_gas_limit@) + enc_opt_addr(tx->Legacy_to) + rlp_str(
        tx->Legacy_value@) + rlp_str(tx->Legacy_data@) + rlp_str(tx->Legacy_sig_v@) + rlp_str(
        tx->Legacy_sig_r@) + rlp_str(tx->Legacy_sig_s@));
    assert(encode_envelope(tx) == body);
}

/// Under the frame-tiling hypothesis, a hypothetical well-formed legacy
/// transaction encoding pins each item's kind and payload shape.
proof fn lemma_legacy_items_facts(body: Seq<u8>, items: Seq<ItemRef>)
    requires
        items.len() == 9,
        forall|sp: Seq<ItemSpec>|
            #![trigger encs_concat(sp)]
            (body == rlp_list(encs_concat(sp)) && sp.len() == 9) ==> (forall|k: int|
                0 <= k < 9 ==> item_matches_spec(body, #[trigger] items[k], sp[k])),
    ensures
        forall|tx: TransactionEnvelope| (tx is Legacy && envelope_wf(tx)
            && #[trigger] encode_envelope(tx) == body) ==> ({
            &&& !items[0].is_list && scalar_wf(items[0].payload(body))
            &&& !items[1].is_list && scalar_wf(items[1].payload(body))
            &&& !items[2].is_list && scalar_wf(items[2].payload(body))
            &&& !items[3].is_list && (items[3].payload(body).len() == 0 || items[3].payload(
                body).len() == 20)
            &&& !items[4].is_list && scalar_wf(items[4].payload(body))
            &&& !items[5].is_list
            &&& !items[6].is_list && scalar_wf(items[6].payload(body))
            &&& !items[7].is_list && scalar_wf(items[7].payload(body))
            &&& !items[8].is_list && scalar_wf(items[8].payload(body))
        }),
{
    assert forall|tx: TransactionEnvelope| (tx is Legacy && envelope_wf(tx)
        && #[trigger] encode_envelope(tx) == body) implies ({
        &&& !items[0].is_list && scalar_wf(items[0].payload(body))
        &&& !items[1].is_list && scalar_wf(items[1].payload(body))
        &&& !items[2].is_list && scalar_wf(items[2].payload(body))
        &&& !items[3].is_list && (items[3].payload(body).len() == 0 || items[3].payload(
            body).len() == 20)
        &&& !items[4].is_list && scalar_wf(items[4].payload(body))
        &&& !items[5].is_list
        &&& !items[6].is_list && scalar_wf(items[6].payload(body))
        &&& !items[7].is_list && scalar_wf(items[7].payload(body))
        &&& !items[8].is_list && scalar_wf(items[8].payload(body))
    }) by {
        lemma_legacy_specs(tx);
        assert(body == rlp_list(encs_concat(legacy_specs(tx))));
        let sp = legacy_specs(tx);
        assert(item_matches_spec(body, items[0], sp[0]));
        assert(item_matches_spec(body, items[1], sp[1]));
        assert(item_matches_spec(body, items[2], sp[2]));
        assert(item_matches_spec(body, items[3], sp[3]));
        assert(item_matches_spec(body, items[4], sp[4]));
        assert(item_matches_spec(body, items[5], sp[5]));
        assert(item_matches_spec(body, items[6], sp[6]));
        assert(item_matches_spec(body, items[7], sp[7]));
        assert(item_matches_spec(body, items[8], sp[8]));
    }
}

/// Decodes the nine fields of a read legacy frame.
#[verifier::rlimit(100)]
#[verifier::spinoff_prover]
fn decode_legacy_fields(body: &[u8], outer: ItemRef, items: &Vec<ItemRef>) -> (r: Result<
    TransactionEnvelope,
    DecodeError,
>)
    requires
        outer.is_list,
        outer.start == 0,
        outer.end == body@.len(),
        item_wf(body@, outer),
        body@ == rlp_list(outer.payload(body@)),
        items@.len() == 9,
        items_wf(body@, items@),
        items_linked(items@, outer.payload_start as int, outer.end as int),
        forall|sp: Seq<ItemSpec>|
            #![trigger encs_concat(sp)]
            (body@ == rlp_list(encs_concat(sp)) && sp.len() == 9) ==> (forall|k: int|
                0 <= k < 9 ==> item_matches_spec(body@, #[trigger] items@[k], sp[k])),
    ensures
        r is Ok ==> r->Ok_0 is Legacy && envelope_wf(r->Ok_0) && encode_envelope(r->Ok_0)
            == body@,
        r is Err ==> r->Err_0 matches DecodeError::RlpDecodeError { .. },
        forall|tx: TransactionEnvelope| (tx is Legacy && envelope_wf(tx)
            && #[trigger] encode_envelope(tx) == body@) ==> r is Ok,
{
    proof {
        lemma_legacy_items_facts(body@, items@);
    }
    let nonce = item_scalar(body, items[0], TxField::Nonce)?;
    let gas_price = item_scalar(body, items[1], TxField::GasPrice)?;
    let gas_limit = item_scalar(body, items[2], TxField::GasLimit)?;
    let to = item_to(body, items[3])?;
    let value = item_scalar(body, items[4], TxField::Value)?;
    let data = item_bytes(body, items[5], TxField::Data)?;
    let sig_v = item_scalar(body, items[6], TxField::V)?;
    let sig_r = item_scalar(body, items[7], TxField::R)?;
    let sig_s = item_scalar(body, items[8], TxField::S)?;
    let tx = TransactionEnvelope::Legacy {
        nonce, gas_price, gas_limit, to, value, data, sig_v, sig_r, sig_s,
    };
    proof {
        lemma_legacy_assemble(body@, outer, items@, tx);
    }
    Ok(tx)
}

/// Decodes the 9-field legacy frame. Succeeds on exactly the canonical
/// encodings of well-formed legacy transactions.
#[verifier::rlimit(100)]
#[verifier::spinoff_prover]
fn decode_legacy_body(body: &[u8]) -> (r: Result<TransactionEnvelope, DecodeError>)
    ensures
        r is Ok ==> r->Ok_0 is Legacy && envelope_wf(r->Ok_0) && encode_envelope(r->Ok_0)
            == body@,
        r is Err ==> (r->Err_0 matches DecodeError::RlpDecodeError { .. } || r->Err_0 matches
            DecodeError::MalformedFrame { .. }),
        r matches Err(DecodeError::MalformedFrame { expected, actual: _ }) ==> expected == 9,
        forall|tx: TransactionEnvelope| (tx is Legacy && envelope_wf(tx)
            && #[trigger] encode_envelope(tx) == body@) ==> r is Ok,
{
    let frame = match read_frame(body, 9) {
        Ok(f) => f,
        Err(e) => {
            proof {
                assert forall|tx: TransactionEnvelope| !(tx is Legacy && envelope_wf(tx)
                    && #[trigger] encode_envelope(tx) == body@) by {
                    if tx is Legacy && envelope_wf(tx) && encode_envelope(tx) == body@ {
                        lemma_legacy_specs(tx);
                        assert(body@ == rlp_list(encs_concat(legacy_specs(tx))));
                    }
                }
            }
            return Err(e);
        },
    };
    decode_legacy_fields(body, frame.0, &frame.1)
}

/// Decodes the 11-field access-list frame (without its type byte).
#[verifier::rlimit(100)]
#[verifier::spinoff_prover]
fn decode_accesslist_body(body: &[u8]) -> (r: Result<TransactionEnvelope, DecodeError>)
    ensures
        r is Ok ==> r->Ok_0 is AccessList && envelope_wf(r->Ok_0) && encode_envelope(r->Ok_0)
            == seq![1u8] + body@,
        r is Err ==> (r->Err_0 matches DecodeError::RlpDecodeError { .. } || r->Err_0 matches
            DecodeError::MalformedFrame { .. }),
        r matches Err(DecodeError::MalformedFrame { expected, actual: _ }) ==> expected == 11,
{
    let frame = match read_frame(body, 11) {
        Ok(f) => f,
        Err(e) => {
            return Err(e);
        },
    };
    let outer = frame.0;
    let items = frame.1;
    let chain_id = item_u64(body, items[0], TxField::ChainId)?;
    let nonce = item_scalar(body, items[1], TxField::Nonce)?;
    let gas_price = item_scalar(body, items[2], TxField::GasPrice)?;
    let gas_limit = item_scalar(body, items[3], TxField::GasLimit)?;
    let to = item_to(body, items[4])?;
    let value = item_scalar(body, items[5], TxField::Value)?;
    let data = item_bytes(body, items[6], TxField::Data)?;
    let access_list = decode_access_list(body, items[7])?;
    let sig_v = item_scalar(body, items[8], TxField::V)?;
    let sig_r = item_scalar(body, items[9], TxField::R)?;
    let sig_s = item_scalar(body, items[10], TxField::S)?;
    let tx = TransactionEnvelope::AccessList {
        chain_id, nonce, gas_price, gas_limit, to, value, data, access_list, sig_v, sig_r,
        sig_s,
    };
    proof {
        let v = items@;
        let ps = outer.payload_start as int;
        let hi = outer.end as int;
        assert forall|k: int| 0 <= k < 11 implies item_wf(body@, #[trigger] v[k]) by {}
        assert(v[0].start == ps);
        assert forall|k: int| 0 < k < 11 implies (#[trigger] v[k]).start == v[k - 1].end by {}
        crate::rlp::lemma_subrange_split(body@, ps, v[0].end as int, v[1].end as int);
        crate::rlp::lemma_subrange_split(body@, ps, v[1].end as int, v[2].end as int);
        crate::rlp::lemma_subrange_split(body@, ps, v[2].end as int, v[3].end as int);
        crate::rlp::lemma_subrange_split(body@, ps, v[3].end as int, v[4].end as int);
        crate::rlp::lemma_subrange_split(body@, ps, v[4].end as int, v[5].end as int);
        crate::rlp::lemma_subrange_split(body@, ps, v[5].end as int, v[6].end as int);
        crate::rlp::lemma_subrange_split(body@, ps, v[6].end as int, v[7].end as int);
        crate::rlp::lemma_subrange_split(body@, ps, v[7].end as int, v[8].end as int);
        crate::rlp::lemma_subrange_split(body@, ps, v[8].end as int, v[9].end as int);
        crate::rlp::lemma_subrange_split(body@, ps, v[9].end as int, v[10].end as int);
        assert(v[10].end == hi);
        assert(outer.payload(body@) == enc_u64(chain_id) + rlp_str(nonce@) + rlp_str(
            gas_price@) + rlp_str(gas_limit@) + enc_opt_addr(to) + rlp_str(value@) + rlp_str(
            data@) + rlp_list(enc_entries(access_list@)) + rlp_str(sig_v@) + rlp_str(sig_r@)
            + rlp_str(sig_s@));
        assert(encode_envelope(tx) == seq![1u8] + body@);
    }
    Ok(tx)
}

/// Decodes the 12-field fee-market frame (without its type byte).
#[verifier::rlimit(100)]
#[verifier::spinoff_prover]
fn decode_feemarket_body(body: &[u8]) -> (r: Result<TransactionEnvelope, DecodeError>)
    ensures
        r is Ok ==> r->Ok_0 is FeeMarket && envelope_wf(r->Ok_0) && encode_envelope(r->Ok_0)
            == seq![2u8] + body@,
        r is Err ==> (r->Err_0 matches DecodeError::RlpDecodeError { .. } || r->Err_0 matches
            DecodeError::MalformedFrame { .. }),
        r matches Err(DecodeError::MalformedFrame { expected, actual: _ }) ==> expected == 12,
{
    let frame = match read_frame(body, 12) {
        Ok(f) => f,
        Err(e) => {
            return Err(e);
        },
    };
    let outer = frame.0;
    let items = frame.1;
    let chain_id = item_u64(body, items[0], TxField::ChainId)?;
    let nonce = item_scalar(body, items[1], TxField::Nonce)?;
    let max_priority_fee_per_gas = item_scalar(body, items[2], TxField::MaxPriorityFeePerGas)?;
    let max_fee_per_gas = item_scalar(body, items[3], TxField::MaxFeePerGas)?;
    let gas_limit = item_scalar(body, items[4], TxField::GasLimit)?;
    let to = item_to(body, items[5])?;
    let value = item_scalar(body, items[6], TxField::Value)?;
    let data = item_bytes(body, items[7], TxField::Data)?;
    let access_list = decode_access_list(body, items[8])?;
    let sig_v = item_scalar(body, items[9], TxField::V)?;
    let sig_r = item_scalar(body, items[10], TxField::R)?;
    let sig_s = item_scalar(body, items[11], TxField::S)?;
    let tx = TransactionEnvelope::FeeMarket {
        chain_id, nonce, max_priority_fee_per_gas, max_fee_per_gas, gas_limit, to, value,
        data, access_list, sig_v, sig_r, sig_s,
    };
    proof {
        let v = items@;
        let ps = outer.payload_start as int;
        let hi = outer.end as int;
        assert forall|k: int| 0 <= k < 12 implies item_wf(body@, #[trigger] v[k]) by {}
        assert(v[0].start == ps);
        assert forall|k: int| 0 < k < 12 implies (#[trigger] v[k]).start == v[k - 1].end by {}
        crate::rlp::lemma_subrange_split(body@, ps, v[0].end as int, v[1].end as int);
        crate::rlp::lemma_subrange_split(body@, ps, v[1].end as int, v[2].end as int);
        crate::rlp::lemma_subrange_split(body@, ps, v[2].end as int, v[3].end as int);
        crate::rlp::lemma_subrange_split(body@, ps, v[3].end as int, v[4].end as int);
        crate::rlp::lemma_subrange_split(body@, ps, v[4].end as int, v[5].end as int);
        crate::rlp::lemma_subrange_split(body@, ps, v[5].end as int, v[6].end as int);
        crate::rlp::lemma_subrange_split(body@, ps, v[6].end as int, v[7].end as int);
        crate::rlp::lemma_subrange_split(body@, ps, v[7].end as int, v[8].end as int);
        crate::rlp::lemma_subrange_split(body@, ps, v[8].end as int, v[9].end as int);
        crate::rlp::lemma_subrange_split(body@, ps, v[9].end as int, v[10].end as int);
        crate::rlp::lemma_subrange_split(body@, ps, v[10].end as int, v[11].end as int);
        assert(v[11].end == hi);
        assert(outer.payload(body@) == enc_u64(chain_id) + rlp_str(nonce@) + rlp_str(
            max_priority_fee_per_gas@) + rlp_str(max_fee_per_gas@) + rlp_str(gas_limit@)
            + enc_opt_addr(to) + rlp_str(value@) + rlp_str(data@) + rlp_list(
            enc_entries(access_list@)) + rlp_str(sig_v@) + rlp_str(sig_r@) + rlp_str(sig_s@));
        assert(encode_envelope(tx) == seq![2u8] + body@);
    }
    Ok(tx)
}

/// A legacy encoding is nonempty and starts with a list prefix byte.
proof fn lemma_legacy_first_byte(tx: TransactionEnvelope)
    requires
        tx is Legacy,
        encode_envelope(tx).len() < 0x1_0000_0000_0000_0000,
    ensures
        encode_envelope(tx).len() >= 1,
        encode_envelope(tx)[0] >= 0xc0,
{
    match tx {
        TransactionEnvelope::Legacy {
            nonce, gas_price, gas_limit, to, value, data, sig_v, sig_r, sig_s,
        } => {
            let pl = rlp_str(nonce@) + rlp_str(gas_price@) + rlp_str(gas_limit@)
                + enc_opt_addr(to) + rlp_str(value@) + rlp_str(data@) + rlp_str(sig_v@)
                + rlp_str(sig_r@) + rlp_str(sig_s@);
            assert(encode_envelope(tx) == rlp_list(pl));
            if pl.len() <= 55 {
                assert(rlp_list(pl)[0] == (0xc0 + pl.len()) as u8);
            } else {
                assert(pl.len() < 0x1_0000_0000_0000_0000);
                crate::numeric::lemma_min_be_bytes_len8(pl.len() as nat);
                crate::numeric::lemma_min_be_no_leading_zero(pl.len() as nat);
                assert(rlp_list(pl)[0] == (0xf7 + min_be_bytes(pl.len() as nat).len()) as u8);
            }
        },
        _ => {},
    }
}

/// Classifies a raw transaction buffer by its first byte and decodes the
/// matching shape. On success the decoded fields re-encode to exactly
/// the input bytes; conversely, every canonical encoding of a
/// well-formed legacy transaction decodes successfully.
pub fn decode_transaction(raw: &[u8]) -> (r: Result<TransactionEnvelope, DecodeError>)
    ensures
        r is Ok ==> envelope_wf(r->Ok_0) && encode_envelope(r->Ok_0) == raw@,
        raw@.len() == 0 <==> r is Err && r->Err_0 == DecodeError::EmptyInput,
        raw@.len() > 0 ==> ((r is Err && r->Err_0 == DecodeError::UnsupportedTransactionType)
            <==> (raw@[0] < 0x80 && raw@[0] != 1 && raw@[0] != 2)),
        r is Ok ==> (r->Ok_0 is Legacy <==> raw@[0] >= 0x80) && (r->Ok_0 is AccessList <==>
            raw@[0] == 1) && (r->Ok_0 is FeeMarket <==> raw@[0] == 2),
        r matches Err(DecodeError::MalformedFrame { expected, actual: _ }) ==> raw@.len() > 0
            && (raw@[0] >= 0x80 ==> expected == 9) && (raw@[0] == 1 ==> expected == 11) && (
        raw@[0] == 2 ==> expected == 12),
        forall|tx: TransactionEnvelope| (tx is Legacy && envelope_wf(tx)
            && #[trigger] encode_envelope(tx) == raw@) ==> r is Ok,
{
    let rlen = raw.len();
    proof {
        assert(raw@.len() == rlen as nat);
        assert(raw@.len() < 0x1_0000_0000_0000_0000);
    }
    if rlen == 0 {
        proof {
            assert forall|tx: TransactionEnvelope| !(tx is Legacy && envelope_wf(tx)
                && #[trigger] encode_envelope(tx) == raw@) by {
                if tx is Legacy && encode_envelope(tx) == raw@ {
                    lemma_legacy_first_byte(tx);
                }
            }
        }
        return Err(DecodeError::EmptyInput);
    }
    let b0 = raw[0];
    proof {
        assert forall|tx: TransactionEnvelope| (tx is Legacy && envelope_wf(tx)
            && #[trigger] encode_envelope(tx) == raw@) implies raw@[0] >= 0xc0 by {
            lemma_legacy_first_byte(tx);
        }
    }
    if b0 == 1 {
        let body = slice_subrange(raw, 1, raw.len());
        match decode_accesslist_body(body) {
            Ok(tx) => {
                proof {
                    assert(raw@ =~= seq![1u8] + body@);
                }
                Ok(tx)
            },
            Err(e) => Err(e),
        }
    } else if b0 == 2 {
        let body = slice_subrange(raw, 1, raw.len());
        match decode_feemarket_body(body) {
            Ok(tx) => {
                proof {
                    assert(raw@ =~= seq![2u8] + body@);
                }
                Ok(tx)
            },
            Err(e) => Err(e),
        }
    } else if b0 >= 0x80 {
        decode_legacy_body(raw)
    } else {
        Err(DecodeError::UnsupportedTransactionType)
    }
}

/// Emits the field encoding of the optional `to` address.
fn push_opt_addr(out: &mut Vec<u8>, t: &Option<Vec<u8>>) -> (r: ())
    ensures
        final(out)@ == old(out)@ + enc_opt_addr(*t),
{
    let ghost base = out@;
    match t {
        None => {
            out.push(0x80);
            proof {
                assert(rlp_str(Seq::<u8>::empty()) =~= seq![0x80u8]);
                assert(out@ =~= base + rlp_str(Seq::<u8>::empty()));
            }
        },
        Some(a) => {
            push_rlp_str(out, a.as_slice());
        },
    }
}

/// Encodes the entries of an access list, concatenated.
fn encode_entries_vec(es: &Vec<AccessListEntry>) -> (r: Vec<u8>)
    ensures
        r@ == enc_entries(es@),
{
    let mut out: Vec<u8> = Vec::new();
    let n = es.len();
    let mut i: usize = 0;
    proof {
        assert(es@.take(0) =~= Seq::<AccessListEntry>::empty());
    }
    while i < n
        invariant
            i <= n,
            n == es@.len(),
            out@ == enc_entries(es@.take(i as int)),
        decreases n - i,
    {
        let e = &es[i];
        let mut kp: Vec<u8> = Vec::new();
        let kn = e.storage_keys.len();
        let mut j: usize = 0;
        proof {
            assert(e.storage_keys@.take(0) =~= Seq::<Vec<u8>>::empty());
        }
        while j < kn
            invariant
                j <= kn,
                kn == e.storage_keys@.len(),
                kp@ == enc_keys(e.storage_keys@.take(j as int)),
        decreases kn - j,
        {
            push_rlp_str(&mut kp, e.storage_keys[j].as_slice());
            proof {
                assert(e.storage_keys@.take(j + 1).drop_last() =~= e.storage_keys@.take(
                    j as int));
                assert(e.storage_keys@.take(j + 1).last() == e.storage_keys@[j as int]);
            }
            j = j + 1;
        }
        proof {
            assert(e.storage_keys@.take(kn as int) =~= e.storage_keys@);
        }
        let mut ep: Vec<u8> = Vec::new();
        push_rlp_str(&mut ep, e.address.as_slice());
        let mut kl = wrap_rlp_list(kp);
        ep.append(&mut kl);
        let mut el = wrap_rlp_list(ep);
        proof {
            assert(el@ == enc_entry(*e));
        }
        out.append(&mut el);
        proof {
            assert(es@.take(i + 1).drop_last() =~= es@.take(i as int));
            assert(es@.take(i + 1).last() == es@[i as int]);
        }
        i = i + 1;
    }
    proof {
        assert(es@.take(n as int) =~= es@);
    }
    out
}

/// Re-encodes a decoded transaction with the same RLP rules. For a value
/// that came out of `decode_transaction` this reproduces the decoder's
/// input exactly.
pub fn encode_transaction(tx: &TransactionEnvelope) -> (r: Vec<u8>)
    ensures
        r@ == encode_envelope(*tx),
{
    match tx {
        TransactionEnvelope::Legacy {
            nonce, gas_price, gas_limit, to, value, data, sig_v, sig_r, sig_s,
        } => {
            let mut p: Vec<u8> = Vec::new();
            push_rlp_str(&mut p, nonce.as_slice());
            push_rlp_str(&mut p, gas_price.as_slice());
            push_rlp_str(&mut p, gas_limit.as_slice());
            push_opt_addr(&mut p, to);
            push_rlp_str(&mut p, value.as_slice());
            push_rlp_str(&mut p, data.as_slice());
            push_rlp_str(&mut p, sig_v.as_slice());
            push_rlp_str(&mut p, sig_r.as_slice());
            push_rlp_str(&mut p, sig_s.as_slice());
            wrap_rlp_list(p)
        },
        TransactionEnvelope::AccessList {
            chain_id, nonce, gas_price, gas_limit, to, value, data, access_list, sig_v,
            sig_r, sig_s,
        } => {
            let mut p: Vec<u8> = Vec::new();
            let cb = be_bytes_u64(*chain_id);
            push_rlp_str(&mut p, cb.as_slice());
            push_rlp_str(&mut p, nonce.as_slice());
            push_rlp_str(&mut p, gas_price.as_slice());
            push_rlp_str(&mut p, gas_limit.as_slice());
            push_opt_addr(&mut p, to);
            push_rlp_str(&mut p, value.as_slice());
            push_rlp_str(&mut p, data.as_slice());
            let ev = encode_entries_vec(access_list);
            let mut al = wrap_rlp_list(ev);
            p.append(&mut al);
            push_rlp_str(&mut p, sig_v.as_slice());
            push_rlp_str(&mut p, sig_r.as_slice());
            push_rlp_str(&mut p, sig_s.as_slice());
            let mut body = wrap_rlp_list(p);
            let mut out: Vec<u8> = Vec::new();
            out.push(1);
            let ghost bodyv = body@;
            out.append(&mut body);
            proof {
                assert(out@ =~= seq![1u8] + bodyv);
            }
            out
        },
        TransactionEnvelope::FeeMarket {
            chain_id, nonce, max_priority_fee_per_gas, max_fee_per_gas, gas_limit, to,
            value, data, access_list, sig_v, sig_r, sig_s,
        } => {
            let mut p: Vec<u8> = Vec::new();
            let cb = be_bytes_u64(*chain_id);
            push_rlp_str(&mut p, cb.as_slice());
            push_rlp_str(&mut p, nonce.as_slice());
            push_rlp_str(&mut p, max_priority_fee_per_gas.as_slice());
            push_rlp_str(&mut p, max_fee_per_gas.as_slice());
            push_rlp_str(&mut p, gas_limit.as_slice());
            push_opt_addr(&mut p, to);
            push_rlp_str(&mut p, value.as_slice());
            push_rlp_str(&mut p, data.as_slice());
            let ev = encode_entries_vec(access_list);
            let mut al = wrap_rlp_list(ev);
            p.append(&mut al);
            push_rlp_str(&mut p, sig_v.as_slice());
            push_rlp_str(&mut p, sig_r.as_slice());
            push_rlp_str(&mut p, sig_s.as_slice());
            let mut body = wrap_rlp_list(p);
            let mut out: Vec<u8> = Vec::new();
            out.push(2);
            let ghost bodyv = body@;
            out.append(&mut body);
            proof {
                assert(out@ =~= seq![2u8] + bodyv);
            }
            out
        },
    }
}

} // verus!
