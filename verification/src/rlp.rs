//! The recursive length-prefixed (RLP) frame layer of the transaction
//! decoder.
//!
//! The reader accepts only canonical encodings: minimal length prefixes,
//! and the single-byte form for one-byte strings below `0x80`. On success
//! every parsed item re-encodes to exactly the bytes it was read from,
//! which is what the decoder's round-trip contract rests on.

use vstd::prelude::*;
use vstd::slice::slice_subrange;
use vstd::slice::slice_to_vec;
use crate::errors::RlpCause;
use crate::numeric::be_val;
use crate::numeric::be_val_u64;
use crate::numeric::min_be_bytes;
use crate::numeric::lemma_min_be_bytes_of_canonical;
use crate::numeric::lemma_be_val_min_be;
use crate::numeric::lemma_min_be_no_leading_zero;
use crate::numeric::lemma_min_be_bytes_len8;

verus! {

/// The RLP encoding of a byte-string item.
pub open spec fn rlp_str(s: Seq<u8>) -> Seq<u8> {
    if s.len() == 1 && s[0] < 0x80 {
        s
    } else if s.len() <= 55 {
        seq![(0x80 + s.len()) as u8] + s
    } else {
        seq![(0xb7 + min_be_bytes(s.len() as nat).len()) as u8] + min_be_bytes(s.len() as nat)
            + s
    }
}

/// The RLP encoding of a list item with the given payload bytes.
pub open spec fn rlp_list(p: Seq<u8>) -> Seq<u8> {
    if p.len() <= 55 {
        seq![(0xc0 + p.len()) as u8] + p
    } else {
        seq![(0xf7 + min_be_bytes(p.len() as nat).len()) as u8] + min_be_bytes(p.len() as nat)
            + p
    }
}

/// One parsed item: its span within the buffer and where its payload
/// begins. The payload always runs to the item's end.
#[derive(Clone, Copy, Debug, PartialEq, Eq, Structural)]
pub struct ItemRef {
    pub is_list: bool,
    pub start: usize,
    pub payload_start: usize,
    pub end: usize,
}

impl ItemRef {
    /// The payload bytes of this item within `buf`.
    pub open spec fn payload(self, buf: Seq<u8>) -> Seq<u8> {
        buf.subrange(self.payload_start as int, self.end as int)
    }

    /// The re-encoding of this item from its payload.
    pub open spec fn enc(self, buf: Seq<u8>) -> Seq<u8> {
        if self.is_list {
            rlp_list(self.payload(buf))
        } else {
            rlp_str(self.payload(buf))
        }
    }
}

/// A well-formed parse: the item's span lies in the buffer and holds
/// exactly the canonical encoding of its payload.
pub open spec fn item_wf(buf: Seq<u8>, it: ItemRef) -> bool {
    &&& it.start < it.end
    &&& it.start <= it.payload_start <= it.end <= buf.len()
    &&& buf.subrange(it.start as int, it.end as int) == it.enc(buf)
}

/// The canonical encoding of the byte string `s` stands at `pos`.
pub open spec fn str_item_at(buf: Seq<u8>, pos: int, s: Seq<u8>) -> bool {
    &&& 0 <= pos
    &&& pos + rlp_str(s).len() <= buf.len()
    &&& buf.subrange(pos, pos + rlp_str(s).len()) == rlp_str(s)
}

/// The canonical encoding of a list with payload `p` stands at `pos`.
pub open spec fn list_item_at(buf: Seq<u8>, pos: int, p: Seq<u8>) -> bool {
    &&& 0 <= pos
    &&& pos + rlp_list(p).len() <= buf.len()
    &&& buf.subrange(pos, pos + rlp_list(p).len()) == rlp_list(p)
}

/// A byte-string encoding at `pos` is determined by the leading byte:
/// its form, payload length and payload position all follow from it.
pub proof fn lemma_str_item_inversion(buf: Seq<u8>, pos: int, s: Seq<u8>)
    requires
        str_item_at(buf, pos, s),
        buf.len() < 0x1_0000_0000_0000_0000,
    ensures
        ({
            let b0 = buf[pos];
            &&& (b0 < 0x80 ==> s == seq![b0] && rlp_str(s).len() == 1)
            &&& (0x80 <= b0 < 0xb8 ==> s.len() == b0 - 0x80 && rlp_str(s).len() == 1 + s.len()
                && s == buf.subrange(pos + 1, pos + 1 + s.len()) && (s.len() == 1 ==> s[0]
                >= 0x80))
            &&& (0xb8 <= b0 < 0xc0 ==> ({
                let ll = b0 - 0xb7;
                &&& pos + 1 + ll <= buf.len()
                &&& buf.subrange(pos + 1, pos + 1 + ll) == min_be_bytes(s.len() as nat)
                &&& buf[pos + 1] != 0
                &&& s.len() == be_val(buf.subrange(pos + 1, pos + 1 + ll))
                &&& s.len() > 55
                &&& rlp_str(s).len() == 1 + ll + s.len()
                &&& s == buf.subrange(pos + 1 + ll, pos + 1 + ll + s.len())
            }))
            &&& (b0 >= 0xc0 ==> false)
        }),
{
    let e = rlp_str(s);
    assert(buf.subrange(pos, pos + e.len() as int)[0] == e[0]);
    if s.len() == 1 && s[0] < 0x80 {
        assert(buf[pos] == e[0]);
        assert(s =~= seq![buf[pos]]);
    } else if s.len() <= 55 {
        assert(e == seq![(0x80 + s.len()) as u8] + s);
        assert(buf[pos] == e[0]);
        assert(e[0] == 0x80 + s.len());
        assert forall|k: int| 0 <= k < s.len() implies buf.subrange(pos + 1,
            pos + 1 + s.len() as int)[k] == s[k] by {
            assert(buf.subrange(pos, pos + e.len() as int)[1 + k] == e[1 + k]);
            assert(e[1 + k] == s[k]);
        }
        assert(s =~= buf.subrange(pos + 1, pos + 1 + s.len() as int));
    } else {
        let lb = min_be_bytes(s.len() as nat);
        assert(e == seq![(0xb7 + lb.len()) as u8] + lb + s);
        assert(s.len() <= e.len());
        assert(s.len() < 0x1_0000_0000_0000_0000);
        lemma_min_be_bytes_len8(s.len() as nat);
        lemma_min_be_no_leading_zero(s.len() as nat);
        lemma_be_val_min_be(s.len() as nat);
        assert(buf[pos] == e[0]);
        assert(e[0] == 0xb7 + lb.len());
        let ll = lb.len() as int;
        assert forall|k: int| 0 <= k < ll implies buf.subrange(pos + 1, pos + 1 + ll)[k]
            == lb[k] by {
            assert(buf.subrange(pos, pos + e.len() as int)[1 + k] == e[1 + k]);
            assert(e[1 + k] == lb[k]);
        }
        assert(buf.subrange(pos + 1, pos + 1 + ll) =~= lb);
        assert(buf[pos + 1] == lb[0]);
        assert forall|k: int| 0 <= k < s.len() implies buf.subrange(pos + 1 + ll,
            pos + 1 + ll + s.len() as int)[k] == s[k] by {
            assert(buf.subrange(pos, pos + e.len() as int)[1 + ll + k] == e[1 + ll + k]);
            assert(e[1 + ll + k] == s[k]);
        }
        assert(s =~= buf.subrange(pos + 1 + ll, pos + 1 + ll + s.len() as int));
    }
}

/// A list encoding at `pos` is determined by the leading byte in the
/// same way.
pub proof fn lemma_list_item_inversion(buf: Seq<u8>, pos: int, p: Seq<u8>)
    requires
        list_item_at(buf, pos, p),
        buf.len() < 0x1_0000_0000_0000_0000,
    ensures
        ({
            let b0 = buf[pos];
            &&& (b0 < 0xc0 ==> false)
            &&& (0xc0 <= b0 < 0xf8 ==> p.len() == b0 - 0xc0 && rlp_list(p).len() == 1 + p.len()
                && p == buf.subrange(pos + 1, pos + 1 + p.len()))
            &&& (b0 >= 0xf8 ==> ({
                let ll = b0 - 0xf7;
                &&& pos + 1 + ll <= buf.len()
                &&& buf.subrange(pos + 1, pos + 1 + ll) == min_be_bytes(p.len() as nat)
                &&& buf[pos + 1] != 0
                &&& p.len() == be_val(buf.subrange(pos + 1, pos + 1 + ll))
                &&& p.len() > 55
                &&& rlp_list(p).len() == 1 + ll + p.len()
                &&& p == buf.subrange(pos + 1 + ll, pos + 1 + ll + p.len())
            }))
        }),
{
    let e = rlp_list(p);
    assert(buf.subrange(pos, pos + e.len() as int)[0] == e[0]);
    if p.len() <= 55 {
        assert(e == seq![(0xc0 + p.len()) as u8] + p);
        assert(buf[pos] == e[0]);
        assert(e[0] == 0xc0 + p.len());
        assert forall|k: int| 0 <= k < p.len() implies buf.subrange(pos + 1,
            pos + 1 + p.len() as int)[k] == p[k] by {
            assert(buf.subrange(pos, pos + e.len() as int)[1 + k] == e[1 + k]);
            assert(e[1 + k] == p[k]);
        }
        assert(p =~= buf.subrange(pos + 1, pos + 1 + p.len() as int));
    } else {
        let lb = min_be_bytes(p.len() as nat);
        assert(e == seq![(0xf7 + lb.len()) as u8] + lb + p);
        assert(p.len() <= e.len());
        assert(p.len() < 0x1_0000_0000_0000_0000);
        lemma_min_be_bytes_len8(p.len() as nat);
        lemma_min_be_no_leading_zero(p.len() as nat);
        lemma_be_val_min_be(p.len() as nat);
        assert(buf[pos] == e[0]);
        assert(e[0] == 0xf7 + lb.len());
        let ll = lb.len() as int;
        assert forall|k: int| 0 <= k < ll implies buf.subrange(pos + 1, pos + 1 + ll)[k]
            == lb[k] by {
            assert(buf.subrange(pos, pos + e.len() as int)[1 + k] == e[1 + k]);
            assert(e[1 + k] == lb[k]);
        }
        assert(buf.subrange(pos + 1, pos + 1 + ll) =~= lb);
        assert(buf[pos + 1] == lb[0]);
        assert forall|k: int| 0 <= k < p.len() implies buf.subrange(pos + 1 + ll,
            pos + 1 + ll + p.len() as int)[k] == p[k] by {
            assert(buf.subrange(pos, pos + e.len() as int)[1 + ll + k] == e[1 + ll + k]);
            assert(e[1 + ll + k] == p[k]);
        }
        assert(p =~= buf.subrange(pos + 1 + ll, pos + 1 + ll + p.len() as int));
    }
}

/// Reads the header of the item starting at `pos` and returns its span.
/// Fails on a length prefix that is malformed or runs past the end of
/// the buffer (`Header`), and on a non-minimal encoding
/// (`NonCanonical`). Conversely, wherever a canonical item stands, the
/// read succeeds and returns exactly that item.
pub fn read_item_header(buf: &[u8], pos: usize) -> (r: Result<ItemRef, RlpCause>)
    requires
        pos < buf@.len(),
    ensures
        r is Ok ==> r->Ok_0.start == pos && item_wf(buf@, r->Ok_0),
        forall|s: Seq<u8>| str_item_at(buf@, pos as int, s) ==> (r matches Ok(it) && !it.is_list
            && it.end == pos + rlp_str(s).len() && it.payload(buf@) == s),
        forall|p: Seq<u8>| list_item_at(buf@, pos as int, p) ==> (r matches Ok(it) && it.is_list
            && it.end == pos + rlp_list(p).len() && it.payload(buf@) == p),
{
    let n = buf.len();
    proof {
        assert(buf@.len() == n as nat);
        assert(buf@.len() < 0x1_0000_0000_0000_0000);
    }
    let b0 = buf[pos];
    if b0 < 0x80 {
        let it = ItemRef { is_list: false, start: pos, payload_start: pos, end: pos + 1 };
        proof {
            assert(it.payload(buf@).len() == 1);
            assert(it.payload(buf@)[0] == b0);
            assert(buf@.subrange(pos as int, pos as int + 1) =~= it.enc(buf@));
            assert forall|s2: Seq<u8>| str_item_at(buf@, pos as int, s2) implies it.end == pos
                + rlp_str(s2).len() && it.payload(buf@) == s2 by {
                lemma_str_item_inversion(buf@, pos as int, s2);
                assert(it.payload(buf@) =~= seq![buf@[pos as int]]);
            }
            assert forall|p2: Seq<u8>| !list_item_at(buf@, pos as int, p2) by {
                if list_item_at(buf@, pos as int, p2) {
                    lemma_list_item_inversion(buf@, pos as int, p2);
                }
            }
        }
        Ok(it)
    } else if b0 < 0xb8 {
        let len = (b0 - 0x80) as usize;
        proof {
            assert forall|p2: Seq<u8>| !list_item_at(buf@, pos as int, p2) by {
                if list_item_at(buf@, pos as int, p2) {
                    lemma_list_item_inversion(buf@, pos as int, p2);
                }
            }
        }
        if len > n - (pos + 1) {
            proof {
                assert forall|s2: Seq<u8>| !str_item_at(buf@, pos as int, s2) by {
                    if str_item_at(buf@, pos as int, s2) {
                        lemma_str_item_inversion(buf@, pos as int, s2);
                    }
                }
            }
            return Err(RlpCause::Header);
        }
        let end = pos + 1 + len;
        if len == 1 && buf[pos + 1] < 0x80 {
            proof {
                assert forall|s2: Seq<u8>| !str_item_at(buf@, pos as int, s2) by {
                    if str_item_at(buf@, pos as int, s2) {
                        lemma_str_item_inversion(buf@, pos as int, s2);
                        assert(s2[0] == buf@.subrange(pos as int + 1, pos as int + 2)[0]);
                    }
                }
            }
            return Err(RlpCause::NonCanonical);
        }
        let it = ItemRef { is_list: false, start: pos, payload_start: pos + 1, end };
        proof {
            let p = it.payload(buf@);
            assert(p.len() == len);
            assert(len == 1 ==> p[0] == buf@[pos as int + 1]);
            assert(it.enc(buf@) == seq![(0x80 + p.len()) as u8] + p);
            assert(buf@.subrange(pos as int, end as int) =~= seq![b0] + p);
            assert forall|s2: Seq<u8>| str_item_at(buf@, pos as int, s2) implies it.end == pos
                + rlp_str(s2).len() && it.payload(buf@) == s2 by {
                lemma_str_item_inversion(buf@, pos as int, s2);
            }
        }
        Ok(it)
    } else if b0 < 0xc0 {
        let lenlen = (b0 - 0xb7) as usize;
        proof {
            assert forall|p2: Seq<u8>| !list_item_at(buf@, pos as int, p2) by {
                if list_item_at(buf@, pos as int, p2) {
                    lemma_list_item_inversion(buf@, pos as int, p2);
                }
            }
        }
        if lenlen > n - (pos + 1) {
            proof {
                assert forall|s2: Seq<u8>| !str_item_at(buf@, pos as int, s2) by {
                    if str_item_at(buf@, pos as int, s2) {
                        lemma_str_item_inversion(buf@, pos as int, s2);
                    }
                }
            }
            return Err(RlpCause::Header);
        }
        let lb = slice_subrange(buf, pos + 1, pos + 1 + lenlen);
        if lb[0] == 0 {
            proof {
                assert forall|s2: Seq<u8>| !str_item_at(buf@, pos as int, s2) by {
                    if str_item_at(buf@, pos as int, s2) {
                        lemma_str_item_inversion(buf@, pos as int, s2);
                        assert(lb@[0] == buf@[pos as int + 1]);
                    }
                }
            }
            return Err(RlpCause::NonCanonical);
        }
        let v = match be_val_u64(lb) {
            Some(v) => v,
            None => {
                proof {
                    assert forall|s2: Seq<u8>| !str_item_at(buf@, pos as int, s2) by {
                        if str_item_at(buf@, pos as int, s2) {
                            lemma_str_item_inversion(buf@, pos as int, s2);
                            assert(s2.len() == be_val(lb@));
                            assert(s2.len() <= rlp_str(s2).len());
                        }
                    }
                }
                return Err(RlpCause::Header);
            },
        };
        if v <= 55 {
            proof {
                assert forall|s2: Seq<u8>| !str_item_at(buf@, pos as int, s2) by {
                    if str_item_at(buf@, pos as int, s2) {
                        lemma_str_item_inversion(buf@, pos as int, s2);
                        assert(s2.len() == be_val(lb@));
                    }
                }
            }
            return Err(RlpCause::NonCanonical);
        }
        if v > usize::MAX as u64 {
            proof {
                assert forall|s2: Seq<u8>| !str_item_at(buf@, pos as int, s2) by {
                    if str_item_at(buf@, pos as int, s2) {
                        lemma_str_item_inversion(buf@, pos as int, s2);
                        assert(s2.len() == be_val(lb@));
                        assert(s2.len() <= rlp_str(s2).len());
                    }
                }
            }
            return Err(RlpCause::Header);
        }
        let len = v as usize;
        if len > n - (pos + 1 + lenlen) {
            proof {
                assert forall|s2: Seq<u8>| !str_item_at(buf@, pos as int, s2) by {
                    if str_item_at(buf@, pos as int, s2) {
                        lemma_str_item_inversion(buf@, pos as int, s2);
                        assert(s2.len() == be_val(lb@));
                    }
                }
            }
            return Err(RlpCause::Header);
        }
        let ps = pos + 1 + lenlen;
        let end = ps + len;
        let it = ItemRef { is_list: false, start: pos, payload_start: ps, end };
        proof {
            let p = it.payload(buf@);
            assert(p.len() == len && len > 55);
            lemma_min_be_bytes_of_canonical(lb@);
            assert(min_be_bytes(p.len() as nat) == lb@);
            assert(it.enc(buf@) == seq![(0xb7 + lb@.len()) as u8] + lb@ + p);
            assert(buf@.subrange(pos as int, end as int) =~= seq![b0] + lb@ + p);
            assert forall|s2: Seq<u8>| str_item_at(buf@, pos as int, s2) implies it.end == pos
                + rlp_str(s2).len() && it.payload(buf@) == s2 by {
                lemma_str_item_inversion(buf@, pos as int, s2);
                assert(s2.len() == be_val(lb@));
            }
        }
        Ok(it)
    } else if b0 < 0xf8 {
        let len = (b0 - 0xc0) as usize;
        proof {
            assert forall|s2: Seq<u8>| !str_item_at(buf@, pos as int, s2) by {
                if str_item_at(buf@, pos as int, s2) {
                    lemma_str_item_inversion(buf@, pos as int, s2);
                }
            }
        }
        if len > n - (pos + 1) {
            proof {
                assert forall|p2: Seq<u8>| !list_item_at(buf@, pos as int, p2) by {
                    if list_item_at(buf@, pos as int, p2) {
                        lemma_list_item_inversion(buf@, pos as int, p2);
                    }
                }
            }
            return Err(RlpCause::Header);
        }
        let end = pos + 1 + len;
        let it = ItemRef { is_list: true, start: pos, payload_start: pos + 1, end };
        proof {
            let p = it.payload(buf@);
            assert(p.len() == len);
            assert(it.enc(buf@) == seq![(0xc0 + p.len()) as u8] + p);
            assert(buf@.subrange(pos as int, end as int) =~= seq![b0] + p);
            assert forall|p2: Seq<u8>| list_item_at(buf@, pos as int, p2) implies it.end == pos
                + rlp_list(p2).len() && it.payload(buf@) == p2 by {
                lemma_list_item_inversion(buf@, pos as int, p2);
            }
        }
        Ok(it)
    } else {
        let lenlen = (b0 - 0xf7) as usize;
        proof {
            assert forall|s2: Seq<u8>| !str_item_at(buf@, pos as int, s2) by {
                if str_item_at(buf@, pos as int, s2) {
                    lemma_str_item_inversion(buf@, pos as int, s2);
                }
            }
        }
        if lenlen > n - (pos + 1) {
            proof {
                assert forall|p2: Seq<u8>| !list_item_at(buf@, pos as int, p2) by {
                    if list_item_at(buf@, pos as int, p2) {
                        lemma_list_item_inversion(buf@, pos as int, p2);
                    }
                }
            }
            return Err(RlpCause::Header);
        }
        let lb = slice_subrange(buf, pos + 1, pos + 1 + lenlen);
        if lb[0] == 0 {
            proof {
                assert forall|p2: Seq<u8>| !list_item_at(buf@, pos as int, p2) by {
                    if list_item_at(buf@, pos as int, p2) {
                        lemma_list_item_inversion(buf@, pos as int, p2);
                        assert(lb@[0] == buf@[pos as int + 1]);
                    }
                }
            }
            return Err(RlpCause::NonCanonical);
        }
        let v = match be_val_u64(lb) {
            Some(v) => v,
            None => {
                proof {
                    assert forall|p2: Seq<u8>| !list_item_at(buf@, pos as int, p2) by {
                        if list_item_at(buf@, pos as int, p2) {
                            lemma_list_item_inversion(buf@, pos as int, p2);
                            assert(p2.len() == be_val(lb@));
                            assert(p2.len() <= rlp_list(p2).len());
                        }
                    }
                }
                return Err(RlpCause::Header);
            },
        };
        if v <= 55 {
            proof {
                assert forall|p2: Seq<u8>| !list_item_at(buf@, pos as int, p2) by {
                    if list_item_at(buf@, pos as int, p2) {
                        lemma_list_item_inversion(buf@, pos as int, p2);
                        assert(p2.len() == be_val(lb@));
                    }
                }
            }
            return Err(RlpCause::NonCanonical);
        }
        if v > usize::MAX as u64 {
            proof {
                assert forall|p2: Seq<u8>| !list_item_at(buf@, pos as int, p2) by {
                    if list_item_at(buf@, pos as int, p2) {
                        lemma_list_item_inversion(buf@, pos as int, p2);
                        assert(p2.len() == be_val(lb@));
                        assert(p2.len() <= rlp_list(p2).len());
                    }
                }
            }
            return Err(RlpCause::Header);
        }
        let len = v as usize;
        if len > n - (pos + 1 + lenlen) {
            proof {
                assert forall|p2: Seq<u8>| !list_item_at(buf@, pos as int, p2) by {
                    if list_item_at(buf@, pos as int, p2) {
                        lemma_list_item_inversion(buf@, pos as int, p2);
                        assert(p2.len() == be_val(lb@));
                    }
                }
            }
            return Err(RlpCause::Header);
        }
        let ps = pos + 1 + lenlen;
        let end = ps + len;
        let it = ItemRef { is_list: true, start: pos, payload_start: ps, end };
        proof {
            let p = it.payload(buf@);
            assert(p.len() == len && len > 55);
            lemma_min_be_bytes_of_canonical(lb@);
            assert(min_be_bytes(p.len() as nat) == lb@);
            assert(it.enc(buf@) == seq![(0xf7 + lb@.len()) as u8] + lb@ + p);
            assert(buf@.subrange(pos as int, end as int) =~= seq![b0] + lb@ + p);
            assert forall|p2: Seq<u8>| list_item_at(buf@, pos as int, p2) implies it.end == pos
                + rlp_list(p2).len() && it.payload(buf@) == p2 by {
                lemma_list_item_inversion(buf@, pos as int, p2);
                assert(p2.len() == be_val(lb@));
            }
        }
        Ok(it)
    }
}

/// A region of a buffer splits at any midpoint into two adjacent pieces.
pub proof fn lemma_subrange_split(b: Seq<u8>, lo: int, mid: int, hi: int)
    requires
        0 <= lo <= mid <= hi <= b.len(),
    ensures
        b.subrange(lo, hi) == b.subrange(lo, mid) + b.subrange(mid, hi),
{
    assert(b.subrange(lo, hi) =~= b.subrange(lo, mid) + b.subrange(mid, hi));
}

/// Every item of the sequence is a well-formed parse within `buf`.
pub open spec fn items_wf(buf: Seq<u8>, v: Seq<ItemRef>) -> bool {
    forall|k: int| 0 <= k < v.len() ==> item_wf(buf, #[trigger] v[k])
}

/// The items tile the region `[lo, hi)` without gap or overlap.
pub open spec fn items_linked(v: Seq<ItemRef>, lo: int, hi: int) -> bool {
    &&& (v.len() == 0 ==> lo == hi)
    &&& (v.len() > 0 ==> v[0].start == lo && v[v.len() - 1].end == hi)
    &&& forall|k: int| 0 < k < v.len() ==> (#[trigger] v[k]).start == v[k - 1].end
}

/// The intended form of one item of a tiling: a byte string, or a list
/// with the given payload bytes.
pub enum ItemSpec {
    Bytes(Seq<u8>),
    Nested(Seq<u8>),
}

/// The encoding of one intended item.
pub open spec fn enc_of(it: ItemSpec) -> Seq<u8> {
    match it {
        ItemSpec::Bytes(s) => rlp_str(s),
        ItemSpec::Nested(p) => rlp_list(p),
    }
}

/// The concatenated encodings of a sequence of intended items.
pub open spec fn encs_concat(v: Seq<ItemSpec>) -> Seq<u8>
    decreases v.len(),
{
    if v.len() == 0 {
        Seq::empty()
    } else {
        encs_concat(v.drop_last()) + enc_of(v.last())
    }
}

/// A parsed item realizes an intended one: same kind, same payload.
pub open spec fn item_matches_spec(buf: Seq<u8>, it: ItemRef, isp: ItemSpec) -> bool {
    match isp {
        ItemSpec::Bytes(s) => !it.is_list && it.payload(buf) == s,
        ItemSpec::Nested(p) => it.is_list && it.payload(buf) == p,
    }
}

/// One more intended item appends its encoding.
pub proof fn lemma_encs_take_step(v: Seq<ItemSpec>, j: int)
    requires
        0 <= j < v.len(),
    ensures
        encs_concat(v.take(j + 1)) == encs_concat(v.take(j)) + enc_of(v[j]),
{
    assert(v.take(j + 1).drop_last() =~= v.take(j));
    assert(v.take(j + 1).last() == v[j]);
}

/// A prefix of a tiling is no longer than the whole.
pub proof fn lemma_encs_prefix_le(v: Seq<ItemSpec>, j: int)
    requires
        0 <= j <= v.len(),
    ensures
        encs_concat(v.take(j)).len() <= encs_concat(v).len(),
    decreases v.len() - j,
{
    if j == v.len() {
        assert(v.take(j) =~= v);
    } else {
        lemma_encs_take_step(v, j);
        lemma_encs_prefix_le(v, j + 1);
    }
}

/// Indexing into the concatenation lands in the right segment.
proof fn lemma_encs_index(v: Seq<ItemSpec>, j: int, k: int)
    requires
        0 <= j < v.len(),
        0 <= k < enc_of(v[j]).len(),
    ensures
        encs_concat(v)[encs_concat(v.take(j)).len() + k] == enc_of(v[j])[k],
    decreases v.len(),
{
    if j == v.len() - 1 {
        assert(v.take(j) =~= v.drop_last());
    } else {
        lemma_encs_index(v.drop_last(), j, k);
        assert(v.drop_last().take(j) =~= v.take(j));
        assert(v.drop_last()[j] == v[j]);
        lemma_encs_take_step(v.drop_last(), j);
        lemma_encs_prefix_le(v.drop_last(), j + 1);
    }
}

/// Where a region holds a tiling, the `j`-th intended item's encoding
/// occupies its own sub-span of the region.
pub proof fn lemma_encs_extract(buf: Seq<u8>, lo: int, hi: int, v: Seq<ItemSpec>, j: int)
    requires
        0 <= lo <= hi <= buf.len(),
        buf.subrange(lo, hi) == encs_concat(v),
        0 <= j < v.len(),
    ensures
        ({
            let c0 = lo + encs_concat(v.take(j)).len();
            let c1 = lo + encs_concat(v.take(j + 1)).len();
            &&& lo <= c0 < c1 <= hi
            &&& buf.subrange(c0, c1) == enc_of(v[j])
        }),
{
    lemma_encs_take_step(v, j);
    lemma_encs_prefix_le(v, j + 1);
    let e = enc_of(v[j]);
    let off = encs_concat(v.take(j)).len() as int;
    assert(e.len() >= 1);
    assert forall|k: int| 0 <= k < e.len() implies buf.subrange(lo + off, lo + off
        + e.len() as int)[k] == e[k] by {
        lemma_encs_index(v, j, k);
        assert(buf.subrange(lo, hi)[off + k] == encs_concat(v)[off + k]);
    }
    assert(buf.subrange(lo + off, lo + off + e.len() as int) =~= e);
}

/// Every item of a tiling ends no later than the region it tiles.
pub proof fn lemma_items_upper(buf: Seq<u8>, v: Seq<ItemRef>, lo: int, hi: int, k: int)
    requires
        items_wf(buf, v),
        items_linked(v, lo, hi),
        0 <= k < v.len(),
    ensures
        v[k].end <= hi,
    decreases v.len() - k,
{
    if k < v.len() - 1 {
        assert(v[k + 1].start == v[k].end);
        assert(item_wf(buf, v[k + 1]));
        lemma_items_upper(buf, v, lo, hi, k + 1);
    }
}

/// Splits the region `[lo, hi)` of the buffer into consecutive items.
/// Conversely, wherever the region is exactly a concatenation of
/// canonical item encodings, the split succeeds and returns items
/// realizing them one for one.
#[verifier::rlimit(100)]
pub fn split_items(buf: &[u8], lo: usize, hi: usize) -> (r: Result<Vec<ItemRef>, RlpCause>)
    requires
        lo <= hi <= buf@.len(),
    ensures
        r is Ok ==> items_wf(buf@, r->Ok_0@) && items_linked(r->Ok_0@, lo as int, hi as int),
        forall|sp: Seq<ItemSpec>| buf@.subrange(lo as int, hi as int) == #[trigger] encs_concat(
        sp) ==> (r matches Ok(v) && v@.len() == sp.len() && (forall|k: int|
            0 <= k < sp.len() ==> item_matches_spec(buf@, #[trigger] v@[k], sp[k]))),
{
    let mut v: Vec<ItemRef> = Vec::new();
    let mut pos = lo;
    proof {
        assert forall|sp: Seq<ItemSpec>| buf@.subrange(lo as int, hi as int)
            == #[trigger] encs_concat(sp) implies pos == lo + encs_concat(sp.take(0)).len() by {
            assert(sp.take(0) =~= Seq::<ItemSpec>::empty());
        }
    }
    while pos < hi
        invariant
            lo <= pos <= hi <= buf@.len(),
            items_wf(buf@, v@),
            v@.len() == 0 ==> pos == lo,
            v@.len() > 0 ==> v@[0].start == lo && v@[v@.len() - 1].end == pos,
            forall|k: int| 0 < k < v@.len() ==> (#[trigger] v@[k]).start == v@[k - 1].end,
            forall|sp: Seq<ItemSpec>| buf@.subrange(lo as int, hi as int)
                == #[trigger] encs_concat(sp) ==> (v@.len() <= sp.len() && pos == lo
                + encs_concat(sp.take(v@.len() as int)).len() && (forall|k: int|
                0 <= k < v@.len() ==> item_matches_spec(buf@, #[trigger] v@[k], sp[k]))),
        decreases hi - pos,
    {
        let it = match read_item_header(buf, pos) {
            Ok(it) => it,
            Err(c) => {
                proof {
                    assert forall|sp: Seq<ItemSpec>| buf@.subrange(lo as int, hi as int)
                        != #[trigger] encs_concat(sp) by {
                        if buf@.subrange(lo as int, hi as int) == encs_concat(sp) {
                            let j = v@.len() as int;
                            assert(sp.take(sp.len() as int) =~= sp);
                            assert(j < sp.len());
                            lemma_encs_extract(buf@, lo as int, hi as int, sp, j);
                            match sp[j] {
                                ItemSpec::Bytes(s0) => {
                                    assert(str_item_at(buf@, pos as int, s0));
                                },
                                ItemSpec::Nested(p0) => {
                                    assert(list_item_at(buf@, pos as int, p0));
                                },
                            }
                        }
                    }
                }
                return Err(c);
            },
        };
        if it.end > hi {
            proof {
                assert forall|sp: Seq<ItemSpec>| buf@.subrange(lo as int, hi as int)
                    != #[trigger] encs_concat(sp) by {
                    if buf@.subrange(lo as int, hi as int) == encs_concat(sp) {
                        let j = v@.len() as int;
                        assert(sp.take(sp.len() as int) =~= sp);
                        assert(j < sp.len());
                        lemma_encs_extract(buf@, lo as int, hi as int, sp, j);
                        match sp[j] {
                            ItemSpec::Bytes(s0) => {
                                assert(str_item_at(buf@, pos as int, s0));
                            },
                            ItemSpec::Nested(p0) => {
                                assert(list_item_at(buf@, pos as int, p0));
                            },
                        }
                    }
                }
            }
            return Err(RlpCause::Header);
        }
        let ghost old_v = v@;
        let ghost old_pos = pos as int;
        v.push(it);
        pos = it.end;
        proof {
            assert forall|sp: Seq<ItemSpec>| buf@.subrange(lo as int, hi as int)
                == #[trigger] encs_concat(sp) implies (v@.len() <= sp.len() && pos == lo
                + encs_concat(sp.take(v@.len() as int)).len() && (forall|k: int|
                0 <= k < v@.len() ==> item_matches_spec(buf@, #[trigger] v@[k], sp[k]))) by {
                let j = old_v.len() as int;
                assert(sp.take(sp.len() as int) =~= sp);
                assert(j < sp.len());
                lemma_encs_extract(buf@, lo as int, hi as int, sp, j);
                lemma_encs_take_step(sp, j);
                match sp[j] {
                    ItemSpec::Bytes(s0) => {
                        assert(str_item_at(buf@, old_pos, s0));
                        assert(item_matches_spec(buf@, it, sp[j]));
                    },
                    ItemSpec::Nested(p0) => {
                        assert(list_item_at(buf@, old_pos, p0));
                        assert(item_matches_spec(buf@, it, sp[j]));
                    },
                }
                assert forall|k: int| 0 <= k < v@.len() implies item_matches_spec(buf@,
                    #[trigger] v@[k], sp[k]) by {
                    if k < j {
                        assert(v@[k] == old_v[k]);
                    }
                }
            }
        }
    }
    proof {
        assert forall|sp: Seq<ItemSpec>| buf@.subrange(lo as int, hi as int)
            == #[trigger] encs_concat(sp) implies v@.len() == sp.len() by {
            let j = v@.len() as int;
            if j < sp.len() {
                lemma_encs_extract(buf@, lo as int, hi as int, sp, j);
            }
        }
    }
    Ok(v)
}

/// Emits the RLP encoding of a byte-string item.
pub fn push_rlp_str(out: &mut Vec<u8>, s: &[u8]) -> (r: ())
    ensures
        final(out)@ == old(out)@ + rlp_str(s@),
{
    let ghost base = out@;
    let n = s.len();
    if n == 1 && s[0] < 0x80 {
        out.push(s[0]);
        proof {
            assert(rlp_str(s@) =~= s@);
            assert(out@ =~= base + s@);
        }
    } else if n <= 55 {
        out.push(0x80 + n as u8);
        let mut tail = slice_to_vec(s);
        out.append(&mut tail);
        proof {
            assert(out@ =~= base + rlp_str(s@));
        }
    } else {
        let mut lb = be_bytes_usize(n);
        let ghost lbv = lb@;
        proof {
            crate::numeric::lemma_min_be_bytes_len8(n as nat);
        }
        let ll = lb.len() as u8;
        out.push(0xb7 + ll);
        out.append(&mut lb);
        let mut tail = slice_to_vec(s);
        out.append(&mut tail);
        proof {
            assert(out@ =~= base + rlp_str(s@));
        }
    }
}

/// Wraps already-encoded payload bytes as an RLP list item.
pub fn wrap_rlp_list(payload: Vec<u8>) -> (r: Vec<u8>)
    ensures
        r@ == rlp_list(payload@),
{
    let n = payload.len();
    let mut out: Vec<u8> = Vec::new();
    let mut p = payload;
    let ghost pv = p@;
    if n <= 55 {
        out.push(0xc0 + n as u8);
        out.append(&mut p);
        proof {
            assert(out@ =~= rlp_list(pv));
        }
    } else {
        let mut lb = be_bytes_usize(n);
        let ghost lbv = lb@;
        proof {
            crate::numeric::lemma_min_be_bytes_len8(n as nat);
        }
        let ll = lb.len() as u8;
        out.push(0xf7 + ll);
        out.append(&mut lb);
        out.append(&mut p);
        proof {
            assert(out@ =~= rlp_list(pv));
        }
    }
    out
}

/// The minimal big-endian bytes of a `usize` value.
pub fn be_bytes_usize(n: usize) -> (r: Vec<u8>)
    ensures
        r@ == min_be_bytes(n as nat),
    decreases n,
{
    if n == 0 {
        Vec::new()
    } else {
        let mut v = be_bytes_usize(n / 256);
        v.push((n % 256) as u8);
        v
    }
}

/// The minimal big-endian bytes of a `u64` value.
pub fn be_bytes_u64(n: u64) -> (r: Vec<u8>)
    ensures
        r@ == min_be_bytes(n as nat),
    decreases n,
{
    if n == 0 {
        Vec::new()
    } else {
        let mut v = be_bytes_u64(n / 256);
        v.push((n % 256) as u8);
        v
    }
}

} // verus!
