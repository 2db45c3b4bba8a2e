//! The facts of a tangle transaction that timewarp detection reads.
use vstd::prelude::*;
use vstd::string::StrSliceExecFns;
use crate::signing::{trit_value, trits_of};
use crate::timewarpindexing::ends_with_tw;

verus! {

/// A transaction as the detection logic sees it.
pub struct TxInfo {
    pub hash: String,
    pub signature_fragments: String,
    pub address: String,
    pub timestamp: i64,
    pub trunk_transaction: String,
    pub branch_transaction: String,
    pub tag: String,
    pub attachment_timestamp: i64,
    pub nonce: String,
}

impl TxInfo {
    /// Both records hold the same values.
    pub open spec fn same(&self, o: TxInfo) -> bool {
        &&& self.hash@ == o.hash@
        &&& self.signature_fragments@ == o.signature_fragments@
        &&& self.address@ == o.address@
        &&& self.timestamp == o.timestamp
        &&& self.trunk_transaction@ == o.trunk_transaction@
        &&& self.branch_transaction@ == o.branch_transaction@
        &&& self.tag@ == o.tag@
        &&& self.attachment_timestamp == o.attachment_timestamp
        &&& self.nonce@ == o.nonce@
    }

    /// A field-for-field copy.
    pub fn duplicate(&self) -> (r: TxInfo)
        ensures
            r.same(*self),
    {
        TxInfo {
            hash: self.hash.clone(),
            signature_fragments: self.signature_fragments.clone(),
            address: self.address.clone(),
            timestamp: self.timestamp,
            trunk_transaction: self.trunk_transaction.clone(),
            branch_transaction: self.branch_transaction.clone(),
            tag: self.tag.clone(),
            attachment_timestamp: self.attachment_timestamp,
            nonce: self.nonce.clone(),
        }
    }
}

/// The pieces of `s` between single spaces, as splitting on `" "` gives them.
pub open spec fn split_spaces(s: Seq<char>) -> Seq<Seq<char>>
    decreases s.len(),
{
    if s.len() == 0 {
        seq![s]
    } else {
        let rest = split_spaces(s.drop_last());
        if s.last() == ' ' {
            rest.push(Seq::empty())
        } else {
            rest.update(rest.len() - 1, rest.last().push(s.last()))
        }
    }
}

proof fn lemma_split_nonempty(s: Seq<char>)
    ensures
        split_spaces(s).len() >= 1,
    decreases s.len(),
{
    if s.len() > 0 {
        lemma_split_nonempty(s.drop_last());
    }
}

/// The pieces of `s` between single spaces.
pub fn split_on_spaces(s: &str) -> (r: Vec<String>)
    ensures
        crate::indexstorage::texts(r@) == split_spaces(s@),
{
    let mut pieces: Vec<String> = Vec::new();
    let mut current = String::new();
    let ghost chars = s@;
    let ghost mut n: int = 0;
    proof {
        let e = chars.subrange(0, 0);
        assert(e.len() == 0);
        assert(split_spaces(e) == seq![e]);
        assert(e =~= Seq::<char>::empty());
        assert(current@ =~= Seq::<char>::empty());
        assert(crate::indexstorage::texts(pieces@) =~= Seq::<Seq<char>>::empty());
        assert(crate::indexstorage::texts(pieces@).push(current@) =~= split_spaces(e));
    }
    for c in it: s.chars()
        invariant
            chars == s@,
            it.seq() == chars,
            n == it.index(),
            crate::indexstorage::texts(pieces@).push(current@) == split_spaces(chars.subrange(0, n)),
    {
        proof {
            assert(chars.subrange(0, n + 1).drop_last() =~= chars.subrange(0, n));
            assert(chars.subrange(0, n + 1).last() == c);
            lemma_split_nonempty(chars.subrange(0, n));
        }
        if c == ' ' {
            let ghost before = pieces@;
            let done = current;
            pieces.push(done);
            current = String::new();
            proof {
                assert(crate::indexstorage::texts(pieces@) =~= crate::indexstorage::texts(before).push(done@));
                assert(crate::indexstorage::texts(pieces@).push(current@) =~= split_spaces(chars.subrange(0, n + 1)));
            }
        } else {
            let ghost before = current@;
            crate::pathway::push_char(&mut current, c);
            proof {
                assert(crate::indexstorage::texts(pieces@).push(current@) =~= split_spaces(chars.subrange(0, n + 1)));
            }
        }
        proof {
            n = n + 1;
        }
    }
    let ghost before = pieces@;
    let last = current;
    pieces.push(last);
    proof {
        assert(chars.subrange(0, chars.len() as int) =~= chars);
        assert(crate::indexstorage::texts(pieces@) =~= crate::indexstorage::texts(before).push(last@));
    }
    pieces
}

/// Reads a transaction from its 2673 trytes (its tag, signature when the
/// tag marks a timewarp, address, timestamp, trunk and branch), with the
/// given hash; the other fields stay empty.
pub fn parse_tx_trytes(trytes: &str, hash: &str) -> (r: TxInfo)
    requires
        vstd::utf8::is_ascii_chars(trytes@),
        trytes@.len() >= 2619,
    ensures
        r.hash@ == hash@,
        r.tag@ == trytes@.subrange(2592, 2619),
        r.signature_fragments@ == (if ends_with_tw(trytes@.subrange(2592, 2619)) {
            trytes@.subrange(0, 2187)
        } else {
            Seq::<char>::empty()
        }),
        r.address@ == trytes@.subrange(2187, 2268),
        r.timestamp == trit_value(trits_of(trytes@).subrange(6966, 6993)),
        r.trunk_transaction@ == trytes@.subrange(2430, 2511),
        r.branch_transaction@ == trytes@.subrange(2511, 2592),
        r.attachment_timestamp == 0,
        r.nonce@ == Seq::<char>::empty(),
{
    let tag = trytes.substring_ascii(2592, 2619).to_owned();
    let trits = crate::signing::str_trits(trytes);
    proof {
        crate::signing::lemma_trits_of(trytes@);
    }
    let timestamp_trits = crate::signing::sub_trits(&trits, 6966, 6993);
    proof {
        assert forall|i: int| 0 <= i < timestamp_trits@.len() implies -1 <= #[trigger] timestamp_trits@[i]
            <= 1 by {
            assert(timestamp_trits@[i] == trits@[i + 6966]);
        }
    }
    let timestamp = crate::signing::trit_long_value(timestamp_trits.as_slice());
    let signature_fragments = if crate::timewarpindexing::tag_ends_with_tw(&tag) {
        trytes.substring_ascii(0, 2187).to_owned()
    } else {
        String::new()
    };
    TxInfo {
        hash: hash.to_owned(),
        signature_fragments,
        address: trytes.substring_ascii(2187, 2268).to_owned(),
        timestamp,
        trunk_transaction: trytes.substring_ascii(2430, 2511).to_owned(),
        branch_transaction: trytes.substring_ascii(2511, 2592).to_owned(),
        tag,
        attachment_timestamp: 0,
        nonce: String::new(),
    }
}

/// Reads a `tx_trytes` message: its second word is the trytes, its third the hash.
pub fn parse_zmqtransaction(tx_string: &str) -> (r: TxInfo)
    requires
        split_spaces(tx_string@).len() >= 3,
        vstd::utf8::is_ascii_chars(split_spaces(tx_string@)[1]),
        split_spaces(tx_string@)[1].len() >= 2619,
    ensures
        ({
            let trytes = split_spaces(tx_string@)[1];
            &&& r.hash@ == split_spaces(tx_string@)[2]
            &&& r.tag@ == trytes.subrange(2592, 2619)
            &&& r.signature_fragments@ == (if ends_with_tw(trytes.subrange(2592, 2619)) {
                trytes.subrange(0, 2187)
            } else {
                Seq::<char>::empty()
            })
            &&& r.address@ == trytes.subrange(2187, 2268)
            &&& r.timestamp == trit_value(trits_of(trytes).subrange(6966, 6993))
            &&& r.trunk_transaction@ == trytes.subrange(2430, 2511)
            &&& r.branch_transaction@ == trytes.subrange(2511, 2592)
            &&& r.attachment_timestamp == 0
            &&& r.nonce@ == Seq::<char>::empty()
        }),
{
    let split = split_on_spaces(tx_string);
    parse_tx_trytes(split[1].as_str(), split[2].as_str())
}

/// The confirmed transaction of a confirmation message: its third word.
pub fn parse_zmq_confirmation_transaction(tx_string: &str) -> (r: String)
    requires
        split_spaces(tx_string@).len() >= 3,
    ensures
        r@ == split_spaces(tx_string@)[2],
{
    let split = split_on_spaces(tx_string);
    split[2].clone()
}

} // verus!
