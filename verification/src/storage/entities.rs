//! The entity codec: how transactions and client positions are addressed
//! (partition and primary key) and laid out as byte payloads.

use crate::client::ClientPosition;
use crate::codec::{
    append_dec, dec_chars, lemma_dec_chars_injective, lemma_i64_u64_roundtrip,
    lemma_u16_le_roundtrip, lemma_u32_le_roundtrip, lemma_u64_le_roundtrip, push_u16_le,
    push_u32_le, push_u64_le, read_u16_le, read_u32_le, read_u64_le, u16_from_le, u16_le_bytes,
    u32_from_le, u32_le_bytes, u64_from_le, u64_le_bytes,
};
use crate::storage::errors::Data;
use crate::storage::{FromStorage, ToFromStorage, ToStorage};
use crate::transaction::{Transaction, TransactionType};
use vstd::prelude::*;
use vstd::string::StringExecFns;

verus! {

/// The primary key of the transaction with id `id`. Transaction keys carry
/// the id alone: a record under an existing id but another client is caught
/// by the merge resolver, not by the key.
pub open spec fn tx_key(id: u32) -> Seq<char> {
    "transaction-"@ + dec_chars(id as nat)
}

/// The primary key of client `c`'s position.
pub open spec fn pos_key(c: u16) -> Seq<char> {
    "client-position-"@ + dec_chars(c as nat)
}

/// The common prefix of all position keys, used to scan them.
pub open spec fn pos_prefix() -> Seq<char> {
    "client-position-"@
}

pub proof fn lemma_tx_key_injective(a: u32, b: u32)
    requires
        tx_key(a) == tx_key(b),
    ensures
        a == b,
{
    reveal_strlit("transaction-");
    let p = "transaction-"@;
    let da = dec_chars(a as nat);
    let db = dec_chars(b as nat);
    assert(p + da == p + db);
    assert((p + da).len() == (p + db).len());
    assert forall|i: int| 0 <= i < da.len() implies da[i] == db[i] by {
        assert((p + da)[p.len() + i] == da[i]);
        assert((p + db)[p.len() + i] == db[i]);
    }
    assert(da =~= db);
    lemma_dec_chars_injective(a as nat, b as nat);
}

pub proof fn lemma_pos_key_injective(a: u16, b: u16)
    requires
        pos_key(a) == pos_key(b),
    ensures
        a == b,
{
    reveal_strlit("client-position-");
    let p = "client-position-"@;
    let da = dec_chars(a as nat);
    let db = dec_chars(b as nat);
    assert(p + da == p + db);
    assert((p + da).len() == (p + db).len());
    assert forall|i: int| 0 <= i < da.len() implies da[i] == db[i] by {
        assert((p + da)[p.len() + i] == da[i]);
        assert((p + db)[p.len() + i] == db[i]);
    }
    assert(da =~= db);
    lemma_dec_chars_injective(a as nat, b as nat);
}

/// Distinct ids have distinct transaction keys.
pub proof fn lemma_tx_key_distinct(a: u32, b: u32)
    requires
        a != b,
    ensures
        tx_key(a) != tx_key(b),
{
    if tx_key(a) == tx_key(b) {
        lemma_tx_key_injective(a, b);
    }
}

/// Distinct clients have distinct position keys.
pub proof fn lemma_pos_key_distinct(a: u16, b: u16)
    requires
        a != b,
    ensures
        pos_key(a) != pos_key(b),
{
    if pos_key(a) == pos_key(b) {
        lemma_pos_key_injective(a, b);
    }
}

/// A transaction key is never a position key: they start with different
/// characters.
pub proof fn lemma_tx_pos_keys_distinct(id: u32, c: u16)
    ensures
        tx_key(id) != pos_key(c),
{
    reveal_strlit("transaction-");
    reveal_strlit("client-position-");
    assert(tx_key(id)[0] == 't');
    assert(pos_key(c)[0] == 'c');
}

/// Every position key starts with the position prefix.
pub proof fn lemma_pos_prefix_of_pos_key(c: u16)
    ensures
        pos_prefix().is_prefix_of(pos_key(c)),
{
    crate::codec::lemma_dec_chars_len(c as nat);
    assert(pos_key(c).subrange(0, pos_prefix().len() as int) =~= pos_prefix());
}

/// No transaction key starts with the position prefix.
pub proof fn lemma_pos_prefix_not_of_tx_key(id: u32)
    ensures
        !pos_prefix().is_prefix_of(tx_key(id)),
{
    reveal_strlit("transaction-");
    reveal_strlit("client-position-");
    if pos_prefix().is_prefix_of(tx_key(id)) {
        assert(tx_key(id).subrange(0, pos_prefix().len() as int)[0] == tx_key(id)[0]);
        assert(tx_key(id)[0] == 't');
        assert(pos_prefix()[0] == 'c');
    }
}

/// The byte tag of a transaction kind.
pub open spec fn type_tag(t: TransactionType) -> u8 {
    match t {
        TransactionType::Deposit => 0,
        TransactionType::Withdrawal => 1,
        TransactionType::Dispute => 2,
        TransactionType::Resolve => 3,
        TransactionType::Chargeback => 4,
    }
}

/// The transaction kind a byte tag decodes to.
pub open spec fn tag_type(b: u8) -> Option<TransactionType> {
    if b == 0 {
        Some(TransactionType::Deposit)
    } else if b == 1 {
        Some(TransactionType::Withdrawal)
    } else if b == 2 {
        Some(TransactionType::Dispute)
    } else if b == 3 {
        Some(TransactionType::Resolve)
    } else if b == 4 {
        Some(TransactionType::Chargeback)
    } else {
        None
    }
}

/// The 16-byte payload of a transaction: kind tag, client, id, an
/// amount-present flag, and the amount's two's-complement image.
pub open spec fn tx_bytes(t: Transaction) -> Seq<u8> {
    seq![type_tag(t.transaction_type)] + u16_le_bytes(t.client) + u32_le_bytes(t.transaction_id)
        + (match t.amount {
        None => seq![0u8] + u64_le_bytes(0),
        Some(a) => seq![1u8] + u64_le_bytes(a as u64),
    })
}

/// Decodes a transaction payload; `None` for corrupt bytes.
pub open spec fn tx_decode(b: Seq<u8>) -> Option<Transaction> {
    if b.len() != 16 {
        None
    } else {
        match tag_type(b[0]) {
            None => None,
            Some(tt) => {
                if b[7] == 0 || b[7] == 1 {
                    Some(
                        Transaction {
                            transaction_type: tt,
                            client: u16_from_le(b.subrange(1, 3)),
                            transaction_id: u32_from_le(b.subrange(3, 7)),
                            amount: if b[7] == 0 {
                                None
                            } else {
                                Some(u64_from_le(b.subrange(8, 16)) as i64)
                            },
                        },
                    )
                } else {
                    None
                }
            },
        }
    }
}

pub proof fn lemma_tx_roundtrip(t: Transaction)
    ensures
        tx_decode(tx_bytes(t)) == Some(t),
{
    let b = tx_bytes(t);
    assert(b.len() == 16);
    assert(b[0] == type_tag(t.transaction_type));
    assert(tag_type(type_tag(t.transaction_type)) == Some(t.transaction_type));
    assert(b.subrange(1, 3) =~= u16_le_bytes(t.client));
    assert(b.subrange(3, 7) =~= u32_le_bytes(t.transaction_id));
    lemma_u16_le_roundtrip(t.client);
    lemma_u32_le_roundtrip(t.transaction_id);
    match t.amount {
        None => {
            assert(b[7] == 0);
        },
        Some(a) => {
            assert(b[7] == 1);
            assert(b.subrange(8, 16) =~= u64_le_bytes(a as u64));
            lemma_u64_le_roundtrip(a as u64);
            lemma_i64_u64_roundtrip(a);
        },
    }
}

/// The 27-byte payload of a client position: client, the three
/// two's-complement monetary fields, and the lock flag.
pub open spec fn pos_bytes(p: ClientPosition) -> Seq<u8> {
    u16_le_bytes(p.client) + u64_le_bytes(p.total as u64) + u64_le_bytes(p.available as u64)
        + u64_le_bytes(p.held as u64) + seq![
        if p.locked {
            1u8
        } else {
            0u8
        },
    ]
}

/// Decodes a client-position payload; `None` for corrupt bytes.
pub open spec fn pos_decode(b: Seq<u8>) -> Option<ClientPosition> {
    if b.len() != 27 {
        None
    } else if b[26] == 0 || b[26] == 1 {
        Some(
            ClientPosition {
                client: u16_from_le(b.subrange(0, 2)),
                total: u64_from_le(b.subrange(2, 10)) as i64,
                available: u64_from_le(b.subrange(10, 18)) as i64,
                held: u64_from_le(b.subrange(18, 26)) as i64,
                locked: b[26] == 1,
            },
        )
    } else {
        None
    }
}

pub proof fn lemma_pos_roundtrip(p: ClientPosition)
    ensures
        pos_decode(pos_bytes(p)) == Some(p),
{
    let b = pos_bytes(p);
    assert(b.len() == 27);
    assert(b.subrange(0, 2) =~= u16_le_bytes(p.client));
    assert(b.subrange(2, 10) =~= u64_le_bytes(p.total as u64));
    assert(b.subrange(10, 18) =~= u64_le_bytes(p.available as u64));
    assert(b.subrange(18, 26) =~= u64_le_bytes(p.held as u64));
    lemma_u16_le_roundtrip(p.client);
    lemma_u64_le_roundtrip(p.total as u64);
    lemma_u64_le_roundtrip(p.available as u64);
    lemma_u64_le_roundtrip(p.held as u64);
    lemma_i64_u64_roundtrip(p.total);
    lemma_i64_u64_roundtrip(p.available);
    lemma_i64_u64_roundtrip(p.held);
}

impl ToStorage for Transaction {
    open spec fn spec_bytes(&self) -> Seq<u8> {
        tx_bytes(*self)
    }

    fn to_bytes(&self) -> (r: Vec<u8>)
        ensures
            r@ == self.spec_bytes(),
    {
        let mut v: Vec<u8> = Vec::new();
        match self.transaction_type {
            TransactionType::Deposit => v.push(0),
            TransactionType::Withdrawal => v.push(1),
            TransactionType::Dispute => v.push(2),
            TransactionType::Resolve => v.push(3),
            TransactionType::Chargeback => v.push(4),
        }
        push_u16_le(&mut v, self.client);
        push_u32_le(&mut v, self.transaction_id);
        match self.amount {
            None => {
                v.push(0);
                push_u64_le(&mut v, 0);
            },
            Some(a) => {
                v.push(1);
                push_u64_le(&mut v, a as u64);
            },
        }
        proof {
            assert(v@ =~= tx_bytes(*self));
        }
        v
    }
}

impl FromStorage for Transaction {
    open spec fn spec_decode(b: Seq<u8>) -> Option<Self> {
        tx_decode(b)
    }

    fn from_bytes(input: &[u8]) -> (r: Result<Self, Data>)
        ensures
            match r {
                Ok(t) => Self::spec_decode(input@) == Some(t),
                Err(e) => Self::spec_decode(input@) is None && e is Serialization,
            },
    {
        if input.len() != 16 {
            return Err(Data::Serialization);
        }
        let tag = input[0];
        let transaction_type = if tag == 0 {
            TransactionType::Deposit
        } else if tag == 1 {
            TransactionType::Withdrawal
        } else if tag == 2 {
            TransactionType::Dispute
        } else if tag == 3 {
            TransactionType::Resolve
        } else if tag == 4 {
            TransactionType::Chargeback
        } else {
            return Err(Data::Serialization);
        };
        let client = read_u16_le(input, 1);
        let transaction_id = read_u32_le(input, 3);
        let flag = input[7];
        let amount = if flag == 0 {
            None
        } else if flag == 1 {
            Some(read_u64_le(input, 8) as i64)
        } else {
            return Err(Data::Serialization);
        };
        Ok(Transaction { transaction_type, client, transaction_id, amount })
    }
}

impl ToFromStorage for Transaction {
    open spec fn spec_partition(&self) -> int {
        self.transaction_id as int
    }

    open spec fn spec_key(&self) -> Seq<char> {
        tx_key(self.transaction_id)
    }

    fn partition(&self) -> (r: usize)
        ensures
            r as int == self.spec_partition(),
    {
        self.transaction_id as usize
    }

    fn primary_key(&self) -> (r: String)
        ensures
            r@ == self.spec_key(),
    {
        let mut s = String::from_str("transaction-");
        append_dec(&mut s, self.transaction_id as u64);
        s
    }
}

impl ToStorage for ClientPosition {
    open spec fn spec_bytes(&self) -> Seq<u8> {
        pos_bytes(*self)
    }

    fn to_bytes(&self) -> (r: Vec<u8>)
        ensures
            r@ == self.spec_bytes(),
    {
        let mut v: Vec<u8> = Vec::new();
        push_u16_le(&mut v, self.client);
        push_u64_le(&mut v, self.total as u64);
        push_u64_le(&mut v, self.available as u64);
        push_u64_le(&mut v, self.held as u64);
        if self.locked {
            v.push(1);
        } else {
            v.push(0);
        }
        proof {
            assert(v@ =~= pos_bytes(*self));
        }
        v
    }
}

impl FromStorage for ClientPosition {
    open spec fn spec_decode(b: Seq<u8>) -> Option<Self> {
        pos_decode(b)
    }

    fn from_bytes(input: &[u8]) -> (r: Result<Self, Data>)
        ensures
            match r {
                Ok(t) => Self::spec_decode(input@) == Some(t),
                Err(e) => Self::spec_decode(input@) is None && e is Serialization,
            },
    {
        if input.len() != 27 {
            return Err(Data::Serialization);
        }
        let flag = input[26];
        if flag != 0 && flag != 1 {
            return Err(Data::Serialization);
        }
        let client = read_u16_le(input, 0);
        let total = read_u64_le(input, 2) as i64;
        let available = read_u64_le(input, 10) as i64;
        let held = read_u64_le(input, 18) as i64;
        Ok(ClientPosition { client, total, available, held, locked: flag == 1 })
    }
}

impl ToFromStorage for ClientPosition {
    open spec fn spec_partition(&self) -> int {
        self.client as int
    }

    open spec fn spec_key(&self) -> Seq<char> {
        pos_key(self.client)
    }

    fn partition(&self) -> (r: usize)
        ensures
            r as int == self.spec_partition(),
    {
        self.client as usize
    }

    fn primary_key(&self) -> (r: String)
        ensures
            r@ == self.spec_key(),
    {
        let mut s = String::from_str("client-position-");
        append_dec(&mut s, self.client as u64);
        s
    }
}

} // verus!
