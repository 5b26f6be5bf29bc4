//! The ledger action payloads: a closed sum type with a canonical byte
//! encoding, a strict decoder, and a content hash over the canonical
//! bytes.
use vstd::prelude::*;
use crate::ext::blake256;
use crate::ext::blake_of;
use crate::ext::bytes_to_string;
use crate::ext::str_to_bytes;
use crate::ext::utf8_of;
use crate::rlp_dec::blobs_of;
use crate::rlp_dec::copy_range;
use crate::rlp_dec::decode_blob_list;
use crate::rlp_dec::decode_str_item;
use crate::rlp_dec::decode_uint_item;
use crate::rlp_dec::item_length;
use crate::rlp_dec::parse_list_header;
use crate::rlp_dec::ranges_view;
use crate::rlp_dec::split_range;
use crate::rlp_enc::append_bytes;
use crate::rlp_enc::append_str;
use crate::rlp_enc::append_uint;
use crate::rlp_enc::wrap_list;
use crate::rlp_spec::cat;
use crate::rlp_spec::enc_strs;
use crate::rlp_spec::is_item;
use crate::rlp_spec::lemma_cat1;
use crate::rlp_spec::lemma_cat2;
use crate::rlp_spec::lemma_cat3;
use crate::rlp_spec::lemma_cat4;
use crate::rlp_spec::lemma_cat5;
use crate::rlp_spec::lemma_cat_push;
use crate::rlp_spec::pow256;
use crate::rlp_spec::rlp_blob_list;
use crate::rlp_spec::rlp_list;
use crate::rlp_spec::rlp_str;
use crate::rlp_spec::rlp_uint;
use crate::rlp_spec::list_payload;
use crate::rlp_spec::split_items;

verus! {

/// A shard of ledger state is addressed by a 16-bit id.
pub type ShardId = u16;

/// A 160-bit account address, held as its 20 raw bytes.
#[derive(Clone, Debug, PartialEq, Eq)]
pub struct Address {
    pub bytes: Vec<u8>,
}

impl View for Address {
    type V = Seq<u8>;

    open spec fn view(&self) -> Seq<u8> {
        self.bytes@
    }
}

impl Address {
    pub open spec fn wf(&self) -> bool {
        self.bytes@.len() == 20
    }
}

/// A public key, held as its 64 raw bytes.
#[derive(Clone, Debug, PartialEq, Eq)]
pub struct Public {
    pub bytes: Vec<u8>,
}

impl View for Public {
    type V = Seq<u8>;

    open spec fn view(&self) -> Seq<u8> {
        self.bytes@
    }
}

impl Public {
    pub open spec fn wf(&self) -> bool {
        self.bytes@.len() == 64
    }
}

/// A signature, held as its 65 raw bytes.
#[derive(Clone, Debug, PartialEq, Eq)]
pub struct Signature {
    pub bytes: Vec<u8>,
}

impl View for Signature {
    type V = Seq<u8>;

    open spec fn view(&self) -> Seq<u8> {
        self.bytes@
    }
}

impl Signature {
    pub open spec fn wf(&self) -> bool {
        self.bytes@.len() == 65
    }
}

/// A 160-bit hash, held as its 20 raw bytes.
#[derive(Clone, Debug, PartialEq, Eq)]
pub struct H160 {
    pub bytes: Vec<u8>,
}

impl View for H160 {
    type V = Seq<u8>;

    open spec fn view(&self) -> Seq<u8> {
        self.bytes@
    }
}

impl H160 {
    pub open spec fn wf(&self) -> bool {
        self.bytes@.len() == 20
    }
}

/// A 256-bit hash, held as its 32 raw bytes.
#[derive(Clone, Debug, PartialEq, Eq)]
pub struct H256 {
    pub bytes: Vec<u8>,
}

impl View for H256 {
    type V = Seq<u8>;

    open spec fn view(&self) -> Seq<u8> {
        self.bytes@
    }
}

impl H256 {
    pub open spec fn wf(&self) -> bool {
        self.bytes@.len() == 32
    }
}

/// An opaque sub-transaction, carried through as its own already
/// canonical encoding: exactly one whole item of the wire format. This
/// core moves its bytes and never interprets them.
#[derive(Clone, Debug, PartialEq, Eq)]
pub struct Transaction {
    pub raw: Vec<u8>,
}

impl View for Transaction {
    type V = Seq<u8>;

    open spec fn view(&self) -> Seq<u8> {
        self.raw@
    }
}

impl Transaction {
    pub open spec fn wf(&self) -> bool {
        is_item(self.raw@)
    }

    /// Accept `raw` as a sub-transaction exactly when it is one whole
    /// item of the wire format.
    pub fn from_encoded(raw: Vec<u8>) -> (r: Option<Transaction>)
        ensures
            match r {
                Some(t) => t@ == raw@ && t.wf(),
                None => !is_item(raw@),
            },
    {
        let n = raw.len();
        proof {
            assert(raw@.subrange(0, n as int) =~= raw@);
        }
        match item_length(&raw, 0, n) {
            Some(l) => {
                if l == n {
                    Some(Transaction { raw })
                } else {
                    None
                }
            },
            None => None,
        }
    }
}

/// One ledger state-transition request. The set of variants is closed;
/// each has a fixed one-byte discriminant and a fixed arity on the wire.
#[derive(Clone, Debug, PartialEq, Eq)]
pub enum Action {
    AssetTransaction { transaction: Transaction, approvals: Vec<Signature> },
    Payment { receiver: Address, amount: u64 },
    SetRegularKey { key: Public },
    CreateShard,
    SetShardOwners { shard_id: ShardId, owners: Vec<Address> },
    SetShardUsers { shard_id: ShardId, users: Vec<Address> },
    WrapCCC { shard_id: ShardId, lock_script_hash: H160, parameters: Vec<Vec<u8>>, amount: u64 },
    Custom { handler_id: u64, bytes: Vec<u8> },
    Store { content: String, certifier: Address, signature: Signature },
    Remove { hash: H256, signature: Signature },
}

/// The mathematical value of an action: every field reduced to sequences
/// and integers. A `Store`'s text appears as its UTF-8 bytes.
pub ghost enum ActionModel {
    AssetTransaction { transaction: Seq<u8>, approvals: Seq<Seq<u8>> },
    Payment { receiver: Seq<u8>, amount: u64 },
    SetRegularKey { key: Seq<u8> },
    CreateShard,
    SetShardOwners { shard_id: u16, owners: Seq<Seq<u8>> },
    SetShardUsers { shard_id: u16, users: Seq<Seq<u8>> },
    WrapCCC { shard_id: u16, lock_script_hash: Seq<u8>, parameters: Seq<Seq<u8>>, amount: u64 },
    Custom { handler_id: u64, bytes: Seq<u8> },
    Store { content: Seq<u8>, certifier: Seq<u8>, signature: Seq<u8> },
    Remove { hash: Seq<u8>, signature: Seq<u8> },
}

impl View for Action {
    type V = ActionModel;

    open spec fn view(&self) -> ActionModel {
        match self {
            Action::AssetTransaction { transaction, approvals } => ActionModel::AssetTransaction {
                transaction: transaction@,
                approvals: approvals@.map_values(|s: Signature| s@),
            },
            Action::Payment { receiver, amount } => ActionModel::Payment {
                receiver: receiver@,
                amount: *amount,
            },
            Action::SetRegularKey { key } => ActionModel::SetRegularKey { key: key@ },
            Action::CreateShard => ActionModel::CreateShard,
            Action::SetShardOwners { shard_id, owners } => ActionModel::SetShardOwners {
                shard_id: *shard_id,
                owners: owners@.map_values(|a: Address| a@),
            },
            Action::SetShardUsers { shard_id, users } => ActionModel::SetShardUsers {
                shard_id: *shard_id,
                users: users@.map_values(|a: Address| a@),
            },
            Action::WrapCCC { shard_id, lock_script_hash, parameters, amount } => {
                ActionModel::WrapCCC {
                    shard_id: *shard_id,
                    lock_script_hash: lock_script_hash@,
                    parameters: parameters@.map_values(|p: Vec<u8>| p@),
                    amount: *amount,
                }
            },
            Action::Custom { handler_id, bytes } => ActionModel::Custom {
                handler_id: *handler_id,
                bytes: bytes@,
            },
            Action::Store { content, certifier, signature } => ActionModel::Store {
                content: utf8_of(content@),
                certifier: certifier@,
                signature: signature@,
            },
            Action::Remove { hash, signature } => ActionModel::Remove {
                hash: hash@,
                signature: signature@,
            },
        }
    }
}

/// The discriminant byte of a variant: an injective, fixed table. The
/// escape value 255 keeps the open-ended `Custom` variant away from the
/// sequential range.
pub open spec fn tag_of(m: ActionModel) -> u8 {
    match m {
        ActionModel::AssetTransaction { .. } => 1,
        ActionModel::Payment { .. } => 2,
        ActionModel::SetRegularKey { .. } => 3,
        ActionModel::CreateShard => 4,
        ActionModel::SetShardOwners { .. } => 5,
        ActionModel::SetShardUsers { .. } => 6,
        ActionModel::WrapCCC { .. } => 7,
        ActionModel::Store { .. } => 8,
        ActionModel::Remove { .. } => 9,
        ActionModel::Custom { .. } => 255,
    }
}

/// The bytes that identify some variant.
pub open spec fn is_tag(t: u8) -> bool {
    1 <= t <= 9 || t == 255
}

/// How many top-level items a variant's encoding holds, discriminant
/// included.
pub open spec fn arity_of(t: u8) -> int
    recommends
        is_tag(t),
{
    if t == 3 {
        2
    } else if t == 4 {
        1
    } else if t == 7 {
        5
    } else if t == 8 {
        4
    } else {
        3
    }
}

/// The top-level items of an action's encoding: the discriminant first,
/// then each field in declared order, each in its own canonical encoding.
pub open spec fn items_of(m: ActionModel) -> Seq<Seq<u8>> {
    match m {
        ActionModel::AssetTransaction { transaction, approvals } => seq![
            rlp_uint(1),
            transaction,
            rlp_blob_list(approvals),
        ],
        ActionModel::Payment { receiver, amount } => seq![
            rlp_uint(2),
            rlp_str(receiver),
            rlp_uint(amount as nat),
        ],
        ActionModel::SetRegularKey { key } => seq![rlp_uint(3), rlp_str(key)],
        ActionModel::CreateShard => seq![rlp_uint(4)],
        ActionModel::SetShardOwners { shard_id, owners } => seq![
            rlp_uint(5),
            rlp_uint(shard_id as nat),
            rlp_blob_list(owners),
        ],
        ActionModel::SetShardUsers { shard_id, users } => seq![
            rlp_uint(6),
            rlp_uint(shard_id as nat),
            rlp_blob_list(users),
        ],
        ActionModel::WrapCCC { shard_id, lock_script_hash, parameters, amount } => seq![
            rlp_uint(7),
            rlp_uint(shard_id as nat),
            rlp_str(lock_script_hash),
            rlp_blob_list(parameters),
            rlp_uint(amount as nat),
        ],
        ActionModel::Store { content, certifier, signature } => seq![
            rlp_uint(8),
            rlp_str(content),
            rlp_str(certifier),
            rlp_str(signature),
        ],
        ActionModel::Remove { hash, signature } => seq![
            rlp_uint(9),
            rlp_str(hash),
            rlp_str(signature),
        ],
        ActionModel::Custom { handler_id, bytes } => seq![
            rlp_uint(255),
            rlp_uint(handler_id as nat),
            rlp_str(bytes),
        ],
    }
}

/// The canonical encoding of an action: the list of its items.
pub open spec fn encode_spec(m: ActionModel) -> Seq<u8> {
    rlp_list(cat(items_of(m)))
}

/// A well-formed action value: fixed-width fields have their width, a
/// sub-transaction is one whole item, a `Store`'s content is the UTF-8 of
/// some text, and the whole encoding fits in memory.
pub open spec fn wf_action(m: ActionModel) -> bool {
    cat(items_of(m)).len() < pow256(8) && match m {
        ActionModel::AssetTransaction { transaction, approvals } => is_item(transaction) && forall|
            i: int,
        | 0 <= i < approvals.len() ==> (#[trigger] approvals[i]).len() == 65,
        ActionModel::Payment { receiver, .. } => receiver.len() == 20,
        ActionModel::SetRegularKey { key } => key.len() == 64,
        ActionModel::CreateShard => true,
        ActionModel::SetShardOwners { owners, .. } => forall|i: int|
            0 <= i < owners.len() ==> (#[trigger] owners[i]).len() == 20,
        ActionModel::SetShardUsers { users, .. } => forall|i: int|
            0 <= i < users.len() ==> (#[trigger] users[i]).len() == 20,
        ActionModel::WrapCCC { lock_script_hash, .. } => lock_script_hash.len() == 20,
        ActionModel::Store { content, certifier, signature } => certifier.len() == 20
            && signature.len() == 65 && exists|t: Seq<char>| utf8_of(t) == content,
        ActionModel::Remove { hash, signature } => hash.len() == 32 && signature.len() == 65,
        ActionModel::Custom { .. } => true,
    }
}

/// A discriminant below `pow256(8)` encodes to a whole item.
proof fn lemma_uint_is_item(n: nat)
    requires
        n < pow256(8),
    ensures
        is_item(rlp_uint(n)),
{
    crate::rlp_spec::lemma_pow256_values();
    crate::rlp_spec::lemma_be_len_le(n, 8);
    crate::rlp_spec::lemma_rlp_str_is_item(crate::rlp_spec::be_bytes(n));
}

/// In a bounded encoded blob list, every blob and every encoded item is
/// bounded, and every encoded item is one whole item.
proof fn lemma_blob_items(bs: Seq<Seq<u8>>)
    requires
        cat(enc_strs(bs)).len() < pow256(8),
    ensures
        forall|k: int| 0 <= k < bs.len() ==> (#[trigger] bs[k]).len() < pow256(8),
        forall|k: int| 0 <= k < enc_strs(bs).len() ==> is_item(#[trigger] enc_strs(bs)[k]),
        is_item(rlp_blob_list(bs)),
{
    assert forall|k: int| 0 <= k < bs.len() implies (#[trigger] bs[k]).len() < pow256(8) by {
        crate::rlp_spec::lemma_item_le_cat(enc_strs(bs), k);
        crate::rlp_spec::lemma_enc_len_ge(bs[k]);
        assert(enc_strs(bs)[k] == rlp_str(bs[k]));
    }
    assert forall|k: int| 0 <= k < enc_strs(bs).len() implies is_item(
        #[trigger] enc_strs(bs)[k],
    ) by {
        crate::rlp_spec::lemma_rlp_str_is_item(bs[k]);
    }
    crate::rlp_spec::lemma_rlp_list_is_item(cat(enc_strs(bs)));
}

/// Every item of a well-formed action's encoding is one whole item, and
/// the blob lists and strings among them are bounded.
proof fn lemma_items_whole(m: ActionModel)
    requires
        wf_action(m),
    ensures
        forall|i: int| 0 <= i < items_of(m).len() ==> is_item(#[trigger] items_of(m)[i]),
        forall|i: int| 0 <= i < items_of(m).len() ==> (#[trigger] items_of(m)[i]).len() < pow256(
            8,
        ),
{
    let items = items_of(m);
    let p = cat(items);
    crate::rlp_spec::lemma_pow256_values();
    assert forall|i: int| 0 <= i < items.len() implies is_item(#[trigger] items[i]) && (
    #[trigger] items[i]).len() < pow256(8) by {
        crate::rlp_spec::lemma_item_le_cat(items, i);
        lemma_uint_is_item(tag_of(m) as nat);
        match m {
            ActionModel::AssetTransaction { transaction, approvals } => {
                crate::rlp_spec::lemma_item_le_cat(items, 2);
                crate::rlp_spec::lemma_enc_len_ge(cat(enc_strs(approvals)));
                lemma_blob_items(approvals);
            },
            ActionModel::Payment { receiver, amount } => {
                crate::rlp_spec::lemma_rlp_str_is_item(receiver);
                lemma_uint_is_item(amount as nat);
            },
            ActionModel::SetRegularKey { key } => {
                crate::rlp_spec::lemma_rlp_str_is_item(key);
            },
            ActionModel::CreateShard => {},
            ActionModel::SetShardOwners { shard_id, owners } => {
                lemma_uint_is_item(shard_id as nat);
                crate::rlp_spec::lemma_item_le_cat(items, 2);
                crate::rlp_spec::lemma_enc_len_ge(cat(enc_strs(owners)));
                lemma_blob_items(owners);
            },
            ActionModel::SetShardUsers { shard_id, users } => {
                lemma_uint_is_item(shard_id as nat);
                crate::rlp_spec::lemma_item_le_cat(items, 2);
                crate::rlp_spec::lemma_enc_len_ge(cat(enc_strs(users)));
                lemma_blob_items(users);
            },
            ActionModel::WrapCCC { shard_id, lock_script_hash, parameters, amount } => {
                lemma_uint_is_item(shard_id as nat);
                crate::rlp_spec::lemma_rlp_str_is_item(lock_script_hash);
                crate::rlp_spec::lemma_item_le_cat(items, 3);
                crate::rlp_spec::lemma_enc_len_ge(cat(enc_strs(parameters)));
                lemma_blob_items(parameters);
                lemma_uint_is_item(amount as nat);
            },
            ActionModel::Store { content, certifier, signature } => {
                crate::rlp_spec::lemma_item_le_cat(items, 1);
                crate::rlp_spec::lemma_enc_len_ge(content);
                assert(content.len() < pow256(8));
                crate::rlp_spec::lemma_rlp_str_is_item(content);
                crate::rlp_spec::lemma_rlp_str_is_item(certifier);
                crate::rlp_spec::lemma_rlp_str_is_item(signature);
            },
            ActionModel::Remove { hash, signature } => {
                crate::rlp_spec::lemma_rlp_str_is_item(hash);
                crate::rlp_spec::lemma_rlp_str_is_item(signature);
            },
            ActionModel::Custom { handler_id, bytes } => {
                lemma_uint_is_item(handler_id as nat);
                crate::rlp_spec::lemma_item_le_cat(items, 2);
                crate::rlp_spec::lemma_enc_len_ge(bytes);
                assert(bytes.len() < pow256(8));
                crate::rlp_spec::lemma_rlp_str_is_item(bytes);
            },
        }
    }
}

/// How a well-formed action's encoding comes apart again: the strict list
/// parse yields the concatenated items, the split yields the items, the
/// first item is the encoded discriminant, and the item count is the
/// variant's arity.
pub proof fn lemma_encode_envelope(m: ActionModel)
    requires
        wf_action(m),
    ensures
        list_payload(encode_spec(m)) == Some(cat(items_of(m))),
        split_items(cat(items_of(m))) == Some(items_of(m)),
        items_of(m).len() == arity_of(tag_of(m)),
        is_tag(tag_of(m)),
        items_of(m)[0] == rlp_uint(tag_of(m) as nat),
{
    crate::rlp_spec::lemma_list_payload_of_rlp_list(cat(items_of(m)));
    lemma_items_whole(m);
    crate::rlp_spec::lemma_split_of_cat(items_of(m));
}

/// Two bounded blob lists with the same encoding hold the same blobs.
proof fn lemma_blob_list_injective(a: Seq<Seq<u8>>, b: Seq<Seq<u8>>)
    requires
        rlp_blob_list(a) == rlp_blob_list(b),
        cat(enc_strs(a)).len() < pow256(8),
        cat(enc_strs(b)).len() < pow256(8),
    ensures
        a == b,
{
    crate::rlp_spec::lemma_list_payload_of_rlp_list(cat(enc_strs(a)));
    crate::rlp_spec::lemma_list_payload_of_rlp_list(cat(enc_strs(b)));
    assert(cat(enc_strs(a)) == cat(enc_strs(b)));
    lemma_blob_items(a);
    lemma_blob_items(b);
    crate::rlp_spec::lemma_split_of_cat(enc_strs(a));
    crate::rlp_spec::lemma_split_of_cat(enc_strs(b));
    assert(enc_strs(a) == enc_strs(b));
    assert(a =~~= b) by {
        assert(a.len() == b.len());
        assert forall|i: int| 0 <= i < a.len() implies #[trigger] a[i] == b[i] by {
            assert(rlp_str(a[i]) == enc_strs(a)[i]);
            assert(enc_strs(b)[i] == rlp_str(b[i]));
            assert(rlp_str(a[i]) == rlp_str(b[i]));
            crate::rlp_spec::lemma_rlp_str_injective(a[i], b[i]);
        }
    }
}

/// The canonical encoding is injective: two well-formed actions with the
/// same bytes are the same value. Changing any field of an action, an
/// owner's place in its list included, therefore changes the encoding.
pub proof fn lemma_encode_injective(m1: ActionModel, m2: ActionModel)
    requires
        wf_action(m1),
        wf_action(m2),
        encode_spec(m1) == encode_spec(m2),
    ensures
        m1 == m2,
{
    crate::rlp_spec::lemma_pow256_values();
    lemma_encode_envelope(m1);
    lemma_encode_envelope(m2);
    assert(cat(items_of(m1)) == cat(items_of(m2)));
    let items = items_of(m1);
    assert(items == items_of(m2));
    crate::rlp_spec::lemma_rlp_uint_injective(tag_of(m1) as nat, tag_of(m2) as nat);
    assert(tag_of(m1) == tag_of(m2));
    let ghost bound = pow256(8);
    match (m1, m2) {
        (
            ActionModel::AssetTransaction { transaction: t1, approvals: a1 },
            ActionModel::AssetTransaction { transaction: t2, approvals: a2 },
        ) => {
            assert(t1 == items[1]);
            assert(items_of(m2)[1] == t2);
            assert(t1 == t2);
            crate::rlp_spec::lemma_enc_len_ge(cat(enc_strs(a1)));
            crate::rlp_spec::lemma_enc_len_ge(cat(enc_strs(a2)));
            crate::rlp_spec::lemma_item_le_cat(items, 2);
            crate::rlp_spec::lemma_item_le_cat(items_of(m2), 2);
            lemma_blob_list_injective(a1, a2);
        },
        (
            ActionModel::Payment { receiver: r1, amount: a1 },
            ActionModel::Payment { receiver: r2, amount: a2 },
        ) => {
            crate::rlp_spec::lemma_rlp_str_injective(r1, r2);
            crate::rlp_spec::lemma_rlp_uint_injective(a1 as nat, a2 as nat);
        },
        (ActionModel::SetRegularKey { key: k1 }, ActionModel::SetRegularKey { key: k2 }) => {
            crate::rlp_spec::lemma_rlp_str_injective(k1, k2);
        },
        (ActionModel::CreateShard, ActionModel::CreateShard) => {},
        (
            ActionModel::SetShardOwners { shard_id: s1, owners: o1 },
            ActionModel::SetShardOwners { shard_id: s2, owners: o2 },
        ) => {
            crate::rlp_spec::lemma_rlp_uint_injective(s1 as nat, s2 as nat);
            crate::rlp_spec::lemma_enc_len_ge(cat(enc_strs(o1)));
            crate::rlp_spec::lemma_enc_len_ge(cat(enc_strs(o2)));
            crate::rlp_spec::lemma_item_le_cat(items, 2);
            crate::rlp_spec::lemma_item_le_cat(items_of(m2), 2);
            lemma_blob_list_injective(o1, o2);
        },
        (
            ActionModel::SetShardUsers { shard_id: s1, users: u1 },
            ActionModel::SetShardUsers { shard_id: s2, users: u2 },
        ) => {
            crate::rlp_spec::lemma_rlp_uint_injective(s1 as nat, s2 as nat);
            crate::rlp_spec::lemma_enc_len_ge(cat(enc_strs(u1)));
            crate::rlp_spec::lemma_enc_len_ge(cat(enc_strs(u2)));
            crate::rlp_spec::lemma_item_le_cat(items, 2);
            crate::rlp_spec::lemma_item_le_cat(items_of(m2), 2);
            lemma_blob_list_injective(u1, u2);
        },
        (
            ActionModel::WrapCCC { shard_id: s1, lock_script_hash: l1, parameters: p1, amount: a1 },
            ActionModel::WrapCCC { shard_id: s2, lock_script_hash: l2, parameters: p2, amount: a2 },
        ) => {
            crate::rlp_spec::lemma_rlp_uint_injective(s1 as nat, s2 as nat);
            crate::rlp_spec::lemma_rlp_str_injective(l1, l2);
            crate::rlp_spec::lemma_enc_len_ge(cat(enc_strs(p1)));
            crate::rlp_spec::lemma_enc_len_ge(cat(enc_strs(p2)));
            crate::rlp_spec::lemma_item_le_cat(items, 3);
            crate::rlp_spec::lemma_item_le_cat(items_of(m2), 3);
            lemma_blob_list_injective(p1, p2);
            crate::rlp_spec::lemma_rlp_uint_injective(a1 as nat, a2 as nat);
        },
        (
            ActionModel::Store { content: c1, certifier: ce1, signature: sg1 },
            ActionModel::Store { content: c2, certifier: ce2, signature: sg2 },
        ) => {
            crate::rlp_spec::lemma_enc_len_ge(c1);
            crate::rlp_spec::lemma_enc_len_ge(c2);
            crate::rlp_spec::lemma_item_le_cat(items, 1);
            crate::rlp_spec::lemma_item_le_cat(items_of(m2), 1);
            crate::rlp_spec::lemma_rlp_str_injective(c1, c2);
            crate::rlp_spec::lemma_rlp_str_injective(ce1, ce2);
            crate::rlp_spec::lemma_rlp_str_injective(sg1, sg2);
        },
        (
            ActionModel::Remove { hash: h1, signature: sg1 },
            ActionModel::Remove { hash: h2, signature: sg2 },
        ) => {
            crate::rlp_spec::lemma_rlp_str_injective(h1, h2);
            crate::rlp_spec::lemma_rlp_str_injective(sg1, sg2);
        },
        (
            ActionModel::Custom { handler_id: h1, bytes: b1 },
            ActionModel::Custom { handler_id: h2, bytes: b2 },
        ) => {
            crate::rlp_spec::lemma_rlp_uint_injective(h1 as nat, h2 as nat);
            crate::rlp_spec::lemma_enc_len_ge(b1);
            crate::rlp_spec::lemma_enc_len_ge(b2);
            crate::rlp_spec::lemma_item_le_cat(items, 2);
            crate::rlp_spec::lemma_item_le_cat(items_of(m2), 2);
            crate::rlp_spec::lemma_rlp_str_injective(b1, b2);
        },
        _ => {
            assert(false);
        },
    }
}

/// Determinism: encoding is a function of the value alone, and so is the
/// content hash. Two equal actions always yield byte-identical encodings
/// and identical digests.
pub proof fn lemma_encode_deterministic(m1: ActionModel, m2: ActionModel)
    requires
        m1 == m2,
    ensures
        encode_spec(m1) == encode_spec(m2),
        blake_of(encode_spec(m1)) == blake_of(encode_spec(m2)),
{
}

/// Append the encoded list of the signatures in `v`.
fn append_sig_list(out: &mut Vec<u8>, v: &Vec<Signature>)
    ensures
        final(out)@ == old(out)@ + rlp_blob_list(v@.map_values(|s: Signature| s@)),
{
    let ghost bs = v@.map_values(|s: Signature| s@);
    let mut inner: Vec<u8> = Vec::new();
    let mut i: usize = 0;
    while i < v.len()
        invariant
            i <= v@.len(),
            bs == v@.map_values(|s: Signature| s@),
            inner@ == cat(enc_strs(bs.take(i as int))),
        decreases v@.len() - i,
    {
        append_str(&mut inner, &v[i].bytes);
        proof {
            assert(enc_strs(bs.take(i + 1)) =~~= enc_strs(bs.take(i as int)).push(
                rlp_str(bs[i as int]),
            ));
            lemma_cat_push(enc_strs(bs.take(i as int)), rlp_str(bs[i as int]));
        }
        i = i + 1;
    }
    proof {
        assert(bs.take(bs.len() as int) =~~= bs);
    }
    let wrapped = wrap_list(inner);
    append_bytes(out, &wrapped);
}

/// Append the encoded list of the addresses in `v`.
fn append_addr_list(out: &mut Vec<u8>, v: &Vec<Address>)
    ensures
        final(out)@ == old(out)@ + rlp_blob_list(v@.map_values(|a: Address| a@)),
{
    let ghost bs = v@.map_values(|a: Address| a@);
    let mut inner: Vec<u8> = Vec::new();
    let mut i: usize = 0;
    while i < v.len()
        invariant
            i <= v@.len(),
            bs == v@.map_values(|a: Address| a@),
            inner@ == cat(enc_strs(bs.take(i as int))),
        decreases v@.len() - i,
    {
        append_str(&mut inner, &v[i].bytes);
        proof {
            assert(enc_strs(bs.take(i + 1)) =~~= enc_strs(bs.take(i as int)).push(
                rlp_str(bs[i as int]),
            ));
            lemma_cat_push(enc_strs(bs.take(i as int)), rlp_str(bs[i as int]));
        }
        i = i + 1;
    }
    proof {
        assert(bs.take(bs.len() as int) =~~= bs);
    }
    let wrapped = wrap_list(inner);
    append_bytes(out, &wrapped);
}

/// Append the encoded list of the byte blobs in `v`.
fn append_vecs_list(out: &mut Vec<u8>, v: &Vec<Vec<u8>>)
    ensures
        final(out)@ == old(out)@ + rlp_blob_list(v@.map_values(|p: Vec<u8>| p@)),
{
    let ghost bs = v@.map_values(|p: Vec<u8>| p@);
    let mut inner: Vec<u8> = Vec::new();
    let mut i: usize = 0;
    while i < v.len()
        invariant
            i <= v@.len(),
            bs == v@.map_values(|p: Vec<u8>| p@),
            inner@ == cat(enc_strs(bs.take(i as int))),
        decreases v@.len() - i,
    {
        append_str(&mut inner, &v[i]);
        proof {
            assert(enc_strs(bs.take(i + 1)) =~~= enc_strs(bs.take(i as int)).push(
                rlp_str(bs[i as int]),
            ));
            lemma_cat_push(enc_strs(bs.take(i as int)), rlp_str(bs[i as int]));
        }
        i = i + 1;
    }
    proof {
        assert(bs.take(bs.len() as int) =~~= bs);
    }
    let wrapped = wrap_list(inner);
    append_bytes(out, &wrapped);
}

/// Why a byte sequence was rejected. Decoding never panics: every
/// failure is one of these typed errors.
#[derive(Clone, Copy, Debug, PartialEq, Eq)]
pub enum DecodeError {
    /// The first item names no variant.
    UnknownDiscriminant,
    /// The envelope is malformed, or its item count is not the arity of
    /// the variant the discriminant names.
    IncorrectArity,
    /// An item at a fixed position is not its declared field type.
    FieldDecodeFailure,
}

/// The top-level items of a byte sequence, where it is one whole
/// canonical list that splits into whole items.
pub open spec fn envelope_of(s: Seq<u8>) -> Option<Seq<Seq<u8>>> {
    match list_payload(s) {
        None => None,
        Some(p) => split_items(p),
    }
}

/// The inputs on which decoding reports `IncorrectArity`: the envelope is
/// malformed or empty, or the discriminant names a variant whose arity
/// the item count misses.
pub open spec fn arity_error(s: Seq<u8>) -> bool {
    match envelope_of(s) {
        None => true,
        Some(items) => items.len() == 0 || exists|t: u8|
            is_tag(t) && items[0] == rlp_uint(t as nat) && items.len() != arity_of(t),
    }
}

/// The inputs on which decoding reports `UnknownDiscriminant`: the
/// envelope is sound and its first item is a byte that names no variant.
pub open spec fn unknown_tag_error(s: Seq<u8>) -> bool {
    match envelope_of(s) {
        None => false,
        Some(items) => items.len() >= 1 && exists|t: u8|
            !is_tag(t) && items[0] == rlp_uint(t as nat),
    }
}

/// A well-formed action's encoding envelopes into exactly its items.
proof fn lemma_model_items(m: ActionModel, s: Seq<u8>, items: Seq<Seq<u8>>)
    requires
        wf_action(m),
        encode_spec(m) == s,
        envelope_of(s) == Some(items),
    ensures
        items_of(m) == items,
        items.len() >= 1,
        items[0] == rlp_uint(tag_of(m) as nat),
        is_tag(tag_of(m)),
        items.len() == arity_of(tag_of(m)),
{
    lemma_encode_envelope(m);
}

/// With a sound envelope whose first item encodes a known discriminant of
/// the right arity, neither error class applies.
proof fn lemma_known_tag(s: Seq<u8>, items: Seq<Seq<u8>>, t: u8)
    requires
        envelope_of(s) == Some(items),
        items.len() >= 1,
        items[0] == rlp_uint(t as nat),
        is_tag(t),
        items.len() == arity_of(t),
    ensures
        !arity_error(s),
        !unknown_tag_error(s),
{
    assert forall|t2: u8| items[0] == rlp_uint(t2 as nat) implies t2 == t by {
        crate::rlp_spec::lemma_pow256_values();
        crate::rlp_spec::lemma_rlp_uint_injective(t2 as nat, t as nat);
    }
}

/// What a well-formed action with a given discriminant must be, and what
/// its items therefore are.
proof fn lemma_model_shape(m: ActionModel)
    requires
        wf_action(m),
    ensures
        tag_of(m) == 1 ==> (m matches ActionModel::AssetTransaction { transaction, approvals }
            && items_of(m) == seq![rlp_uint(1), transaction, rlp_blob_list(approvals)] && is_item(
            transaction,
        ) && forall|i: int| 0 <= i < approvals.len() ==> (#[trigger] approvals[i]).len() == 65),
        tag_of(m) == 2 ==> (m matches ActionModel::Payment { receiver, amount } && items_of(m)
            == seq![rlp_uint(2), rlp_str(receiver), rlp_uint(amount as nat)] && receiver.len()
            == 20),
        tag_of(m) == 3 ==> (m matches ActionModel::SetRegularKey { key } && items_of(m) == seq![
            rlp_uint(3),
            rlp_str(key),
        ] && key.len() == 64),
        tag_of(m) == 4 ==> (m is CreateShard && items_of(m) == seq![rlp_uint(4)]),
        tag_of(m) == 5 ==> (m matches ActionModel::SetShardOwners { shard_id, owners }
            && items_of(m) == seq![rlp_uint(5), rlp_uint(shard_id as nat), rlp_blob_list(owners)]
            && forall|i: int| 0 <= i < owners.len() ==> (#[trigger] owners[i]).len() == 20),
        tag_of(m) == 6 ==> (m matches ActionModel::SetShardUsers { shard_id, users } && items_of(
            m,
        ) == seq![rlp_uint(6), rlp_uint(shard_id as nat), rlp_blob_list(users)] && forall|i: int|
            0 <= i < users.len() ==> (#[trigger] users[i]).len() == 20),
        tag_of(m) == 7 ==> (m matches ActionModel::WrapCCC {
            shard_id,
            lock_script_hash,
            parameters,
            amount,
        } && items_of(m) == seq![
            rlp_uint(7),
            rlp_uint(shard_id as nat),
            rlp_str(lock_script_hash),
            rlp_blob_list(parameters),
            rlp_uint(amount as nat),
        ] && lock_script_hash.len() == 20),
        tag_of(m) == 8 ==> (m matches ActionModel::Store { content, certifier, signature }
            && items_of(m) == seq![
            rlp_uint(8),
            rlp_str(content),
            rlp_str(certifier),
            rlp_str(signature),
        ] && certifier.len() == 20 && signature.len() == 65 && exists|tc: Seq<char>|
            utf8_of(tc) == content),
        tag_of(m) == 9 ==> (m matches ActionModel::Remove { hash, signature } && items_of(m)
            == seq![rlp_uint(9), rlp_str(hash), rlp_str(signature)] && hash.len() == 32
            && signature.len() == 65),
        tag_of(m) == 255 ==> (m matches ActionModel::Custom { handler_id, bytes } && items_of(m)
            == seq![rlp_uint(255), rlp_uint(handler_id as nat), rlp_str(bytes)]),
{
}

/// Strict decode of one item as a byte string of a fixed width.
fn decode_fixed(b: &Vec<u8>, start: usize, end: usize, w: usize) -> (r: Option<Vec<u8>>)
    requires
        start <= end <= b@.len(),
    ensures
        match r {
            Some(v) => b@.subrange(start as int, end as int) == rlp_str(v@) && v@.len() == w,
            None => forall|t: Seq<u8>|
                t.len() == w ==> b@.subrange(start as int, end as int) != rlp_str(t),
        },
{
    let ghost sub = b@.subrange(start as int, end as int);
    match decode_str_item(b, start, end) {
        None => None,
        Some(v) => {
            if v.len() == w {
                Some(v)
            } else {
                proof {
                    assert forall|t: Seq<u8>| t.len() == w implies sub != rlp_str(t) by {
                        if sub == rlp_str(t) {
                            crate::rlp_spec::lemma_pow256_values();
                            crate::rlp_spec::lemma_enc_len_ge(t);
                            crate::rlp_spec::lemma_rlp_str_injective(t, v@);
                        }
                    }
                }
                None
            }
        },
    }
}

/// Strict decode of one item as a list of fixed-width byte strings.
fn decode_fixed_list(b: &Vec<u8>, start: usize, end: usize, w: usize) -> (r: Option<Vec<Vec<u8>>>)
    requires
        start <= end <= b@.len(),
    ensures
        match r {
            Some(v) => b@.subrange(start as int, end as int) == rlp_blob_list(blobs_of(v@)) && (
            forall|i: int| 0 <= i < v@.len() ==> (#[trigger] v@[i])@.len() == w),
            None => forall|bs: Seq<Seq<u8>>|
                (forall|i: int| 0 <= i < bs.len() ==> (#[trigger] bs[i]).len() == w)
                    ==> b@.subrange(start as int, end as int) != rlp_blob_list(bs),
        },
{
    let ghost sub = b@.subrange(start as int, end as int);
    let blobs = match decode_blob_list(b, start, end) {
        None => {
            return None;
        },
        Some(v) => v,
    };
    let mut i: usize = 0;
    while i < blobs.len()
        invariant
            i <= blobs@.len(),
            start <= end <= b@.len(),
            sub == b@.subrange(start as int, end as int),
            sub == rlp_list(cat(enc_strs(blobs_of(blobs@)))),
            forall|j: int| 0 <= j < i ==> (#[trigger] blobs@[j])@.len() == w,
        decreases blobs@.len() - i,
    {
        if blobs[i].len() != w {
            proof {
                crate::rlp_spec::lemma_pow256_values();
                assert forall|bs: Seq<Seq<u8>>|
                    (forall|k: int| 0 <= k < bs.len() ==> (#[trigger] bs[k]).len() == w) implies sub
                    != rlp_blob_list(bs) by {
                    if sub == rlp_blob_list(bs) {
                        crate::rlp_spec::lemma_enc_len_ge(cat(enc_strs(bs)));
                        crate::rlp_spec::lemma_enc_len_ge(cat(enc_strs(blobs_of(blobs@))));
                        lemma_blob_list_injective(bs, blobs_of(blobs@));
                        assert(blobs_of(blobs@)[i as int] == blobs@[i as int]@);
                        assert(bs[i as int].len() == w);
                    }
                }
            }
            return None;
        }
        i = i + 1;
    }
    Some(blobs)
}

/// Rewrap fixed-width blobs as addresses.
fn to_addrs(v: Vec<Vec<u8>>) -> (r: Vec<Address>)
    ensures
        r@.map_values(|a: Address| a@) == blobs_of(v@),
        r@.len() == v@.len(),
{
    let mut out: Vec<Address> = Vec::new();
    let mut i: usize = 0;
    while i < v.len()
        invariant
            i <= v@.len(),
            out@.len() == i,
            out@.map_values(|a: Address| a@) == blobs_of(v@).take(i as int),
        decreases v@.len() - i,
    {
        let bl = copy_range(&v[i], 0, v[i].len());
        proof {
            assert(bl@ =~= v@[i as int]@);
        }
        out.push(Address { bytes: bl });
        proof {
            assert(out@.map_values(|a: Address| a@) =~~= blobs_of(v@).take(i + 1));
        }
        i = i + 1;
    }
    proof {
        assert(blobs_of(v@).take(v@.len() as int) =~~= blobs_of(v@));
    }
    out
}

/// Rewrap fixed-width blobs as signatures.
fn to_sigs(v: Vec<Vec<u8>>) -> (r: Vec<Signature>)
    ensures
        r@.map_values(|s: Signature| s@) == blobs_of(v@),
        r@.len() == v@.len(),
{
    let mut out: Vec<Signature> = Vec::new();
    let mut i: usize = 0;
    while i < v.len()
        invariant
            i <= v@.len(),
            out@.len() == i,
            out@.map_values(|s: Signature| s@) == blobs_of(v@).take(i as int),
        decreases v@.len() - i,
    {
        let bl = copy_range(&v[i], 0, v[i].len());
        proof {
            assert(bl@ =~= v@[i as int]@);
        }
        out.push(Signature { bytes: bl });
        proof {
            assert(out@.map_values(|s: Signature| s@) =~~= blobs_of(v@).take(i + 1));
        }
        i = i + 1;
    }
    proof {
        assert(blobs_of(v@).take(v@.len() as int) =~~= blobs_of(v@));
    }
    out
}

/// Decode the fields of an `AssetTransaction` envelope.
fn decode_asset_transaction(
    bytes: &Vec<u8>,
    ranges: &Vec<(usize, usize)>,
    Ghost(items): Ghost<Seq<Seq<u8>>>,
) -> (r: Result<Action, DecodeError>)
    requires
        envelope_of(bytes@) == Some(items),
        items == ranges_view(bytes@, ranges@),
        forall|j: int|
            0 <= j < ranges@.len() ==> ((#[trigger] ranges@[j]).0 <= ranges@[j].1 <= bytes@.len()),
        bytes@ == rlp_list(cat(items)),
        cat(items).len() < pow256(8),
        forall|k: int| 0 <= k < items.len() ==> is_item(#[trigger] items[k]),
        items.len() == ranges@.len(),
        items[0] == rlp_uint(1 as nat),
        items.len() == 3,
    ensures
        r matches Ok(a) ==> wf_action(a@) && encode_spec(a@) == bytes@,
        forall|m: ActionModel|
            wf_action(m) && encode_spec(m) == bytes@ ==> (r matches Ok(a) && a@ == m),
        r matches Err(e) ==> e == DecodeError::FieldDecodeFailure,
{
    let r1 = ranges[1];
    let r2 = ranges[2];
    proof {
        assert(items[1] == bytes@.subrange(r1.0 as int, r1.1 as int));
        assert(items[2] == bytes@.subrange(r2.0 as int, r2.1 as int));
    }
    let tx_raw = copy_range(bytes, r1.0, r1.1);
    let sig_blobs = match decode_fixed_list(bytes, r2.0, r2.1, 65) {
        Some(v) => v,
        None => {
            proof {
                crate::rlp_spec::lemma_pow256_values();
                assert forall|m: ActionModel| !(wf_action(m) && encode_spec(m) == bytes@) by {
                    if wf_action(m) && encode_spec(m) == bytes@ {
                        lemma_model_items(m, bytes@, items);
                        crate::rlp_spec::lemma_rlp_uint_injective(tag_of(m) as nat, 1 as nat);
                        lemma_model_shape(m);
                    }
                }
            }
            return Err(DecodeError::FieldDecodeFailure);
        },
    };
    let approvals = to_sigs(sig_blobs);
    let a = Action::AssetTransaction { transaction: Transaction { raw: tx_raw }, approvals };
    proof {
        assert(items_of(a@) =~~= items);
        assert(encode_spec(a@) == bytes@);
        assert(wf_action(a@));
        assert forall|m: ActionModel| wf_action(m) && encode_spec(m) == bytes@ implies a@ == m by {
            lemma_encode_injective(m, a@);
        }
    }
    Ok(a)
}

/// Decode the fields of a `Payment` envelope.
fn decode_payment(
    bytes: &Vec<u8>,
    ranges: &Vec<(usize, usize)>,
    Ghost(items): Ghost<Seq<Seq<u8>>>,
) -> (r: Result<Action, DecodeError>)
    requires
        envelope_of(bytes@) == Some(items),
        items == ranges_view(bytes@, ranges@),
        forall|j: int|
            0 <= j < ranges@.len() ==> ((#[trigger] ranges@[j]).0 <= ranges@[j].1 <= bytes@.len()),
        bytes@ == rlp_list(cat(items)),
        cat(items).len() < pow256(8),
        forall|k: int| 0 <= k < items.len() ==> is_item(#[trigger] items[k]),
        items.len() == ranges@.len(),
        items[0] == rlp_uint(2 as nat),
        items.len() == 3,
    ensures
        r matches Ok(a) ==> wf_action(a@) && encode_spec(a@) == bytes@,
        forall|m: ActionModel|
            wf_action(m) && encode_spec(m) == bytes@ ==> (r matches Ok(a) && a@ == m),
        r matches Err(e) ==> e == DecodeError::FieldDecodeFailure,
{
    let r1 = ranges[1];
    let r2 = ranges[2];
    proof {
        assert(items[1] == bytes@.subrange(r1.0 as int, r1.1 as int));
        assert(items[2] == bytes@.subrange(r2.0 as int, r2.1 as int));
    }
    let rec = match decode_fixed(bytes, r1.0, r1.1, 20) {
        Some(v) => v,
        None => {
            proof {
                crate::rlp_spec::lemma_pow256_values();
                assert forall|m: ActionModel| !(wf_action(m) && encode_spec(m) == bytes@) by {
                    if wf_action(m) && encode_spec(m) == bytes@ {
                        lemma_model_items(m, bytes@, items);
                        crate::rlp_spec::lemma_rlp_uint_injective(tag_of(m) as nat, 2 as nat);
                        lemma_model_shape(m);
                    }
                }
            }
            return Err(DecodeError::FieldDecodeFailure);
        },
    };
    let amount = match decode_uint_item(bytes, r2.0, r2.1) {
        Some(v) => v,
        None => {
            proof {
                crate::rlp_spec::lemma_pow256_values();
                assert forall|m: ActionModel| !(wf_action(m) && encode_spec(m) == bytes@) by {
                    if wf_action(m) && encode_spec(m) == bytes@ {
                        lemma_model_items(m, bytes@, items);
                        crate::rlp_spec::lemma_rlp_uint_injective(tag_of(m) as nat, 2 as nat);
                        lemma_model_shape(m);
                    }
                }
            }
            return Err(DecodeError::FieldDecodeFailure);
        },
    };
    let a = Action::Payment { receiver: Address { bytes: rec }, amount };
    proof {
        assert(items_of(a@) =~~= items);
        assert(encode_spec(a@) == bytes@);
        assert(wf_action(a@));
        assert forall|m: ActionModel| wf_action(m) && encode_spec(m) == bytes@ implies a@ == m by {
            lemma_encode_injective(m, a@);
        }
    }
    Ok(a)
}

/// Decode the fields of a `SetRegularKey` envelope.
fn decode_set_regular_key(
    bytes: &Vec<u8>,
    ranges: &Vec<(usize, usize)>,
    Ghost(items): Ghost<Seq<Seq<u8>>>,
) -> (r: Result<Action, DecodeError>)
    requires
        envelope_of(bytes@) == Some(items),
        items == ranges_view(bytes@, ranges@),
        forall|j: int|
            0 <= j < ranges@.len() ==> ((#[trigger] ranges@[j]).0 <= ranges@[j].1 <= bytes@.len()),
        bytes@ == rlp_list(cat(items)),
        cat(items).len() < pow256(8),
        forall|k: int| 0 <= k < items.len() ==> is_item(#[trigger] items[k]),
        items.len() == ranges@.len(),
        items[0] == rlp_uint(3 as nat),
        items.len() == 2,
    ensures
        r matches Ok(a) ==> wf_action(a@) && encode_spec(a@) == bytes@,
        forall|m: ActionModel|
            wf_action(m) && encode_spec(m) == bytes@ ==> (r matches Ok(a) && a@ == m),
        r matches Err(e) ==> e == DecodeError::FieldDecodeFailure,
{
    let r1 = ranges[1];
    proof {
        assert(items[1] == bytes@.subrange(r1.0 as int, r1.1 as int));
    }
    let key = match decode_fixed(bytes, r1.0, r1.1, 64) {
        Some(v) => v,
        None => {
            proof {
                crate::rlp_spec::lemma_pow256_values();
                assert forall|m: ActionModel| !(wf_action(m) && encode_spec(m) == bytes@) by {
                    if wf_action(m) && encode_spec(m) == bytes@ {
                        lemma_model_items(m, bytes@, items);
                        crate::rlp_spec::lemma_rlp_uint_injective(tag_of(m) as nat, 3 as nat);
                        lemma_model_shape(m);
                    }
                }
            }
            return Err(DecodeError::FieldDecodeFailure);
        },
    };
    let a = Action::SetRegularKey { key: Public { bytes: key } };
    proof {
        assert(items_of(a@) =~~= items);
        assert(encode_spec(a@) == bytes@);
        assert(wf_action(a@));
        assert forall|m: ActionModel| wf_action(m) && encode_spec(m) == bytes@ implies a@ == m by {
            lemma_encode_injective(m, a@);
        }
    }
    Ok(a)
}

/// Decode the fields of a `SetShardOwners` or `SetShardUsers` envelope.
fn decode_shard_list(
    bytes: &Vec<u8>,
    ranges: &Vec<(usize, usize)>,
    t: u8,
    Ghost(items): Ghost<Seq<Seq<u8>>>,
) -> (r: Result<Action, DecodeError>)
    requires
        t == 5 || t == 6,
        envelope_of(bytes@) == Some(items),
        items == ranges_view(bytes@, ranges@),
        forall|j: int|
            0 <= j < ranges@.len() ==> ((#[trigger] ranges@[j]).0 <= ranges@[j].1 <= bytes@.len()),
        bytes@ == rlp_list(cat(items)),
        cat(items).len() < pow256(8),
        forall|k: int| 0 <= k < items.len() ==> is_item(#[trigger] items[k]),
        items.len() == ranges@.len(),
        items[0] == rlp_uint(t as nat),
        items.len() == 3,
    ensures
        r matches Ok(a) ==> wf_action(a@) && encode_spec(a@) == bytes@,
        forall|m: ActionModel|
            wf_action(m) && encode_spec(m) == bytes@ ==> (r matches Ok(a) && a@ == m),
        r matches Err(e) ==> e == DecodeError::FieldDecodeFailure,
{
    let r1 = ranges[1];
    let r2 = ranges[2];
    proof {
        assert(items[1] == bytes@.subrange(r1.0 as int, r1.1 as int));
        assert(items[2] == bytes@.subrange(r2.0 as int, r2.1 as int));
    }
    let sid = match decode_uint_item(bytes, r1.0, r1.1) {
        Some(v) => v,
        None => {
            proof {
                crate::rlp_spec::lemma_pow256_values();
                assert forall|m: ActionModel| !(wf_action(m) && encode_spec(m) == bytes@) by {
                    if wf_action(m) && encode_spec(m) == bytes@ {
                        lemma_model_items(m, bytes@, items);
                        crate::rlp_spec::lemma_rlp_uint_injective(tag_of(m) as nat, t as nat);
                        lemma_model_shape(m);
                        assert forall|sh: u16| items[1] != rlp_uint(sh as nat) by {
                            assert(items[1] != rlp_uint((sh as u64) as nat));
                        }
                    }
                }
            }
            return Err(DecodeError::FieldDecodeFailure);
        },
    };
    if sid > 0xFFFF {
        proof {
            crate::rlp_spec::lemma_pow256_values();
            assert forall|m: ActionModel| !(wf_action(m) && encode_spec(m) == bytes@) by {
                if wf_action(m) && encode_spec(m) == bytes@ {
                    lemma_model_items(m, bytes@, items);
                    crate::rlp_spec::lemma_rlp_uint_injective(tag_of(m) as nat, t as nat);
                    lemma_model_shape(m);
                    assert forall|sh: u16| items[1] != rlp_uint(sh as nat) by {
                        if items[1] == rlp_uint(sh as nat) {
                            crate::rlp_spec::lemma_rlp_uint_injective(sh as nat, sid as nat);
                        }
                    }
                }
            }
        }
        return Err(DecodeError::FieldDecodeFailure);
    }
    let addr_blobs = match decode_fixed_list(bytes, r2.0, r2.1, 20) {
        Some(v) => v,
        None => {
            proof {
                crate::rlp_spec::lemma_pow256_values();
                assert forall|m: ActionModel| !(wf_action(m) && encode_spec(m) == bytes@) by {
                    if wf_action(m) && encode_spec(m) == bytes@ {
                        lemma_model_items(m, bytes@, items);
                        crate::rlp_spec::lemma_rlp_uint_injective(tag_of(m) as nat, t as nat);
                        lemma_model_shape(m);
                    }
                }
            }
            return Err(DecodeError::FieldDecodeFailure);
        },
    };
    let addrs = to_addrs(addr_blobs);
    let a = if t == 5 {
        Action::SetShardOwners { shard_id: sid as u16, owners: addrs }
    } else {
        Action::SetShardUsers { shard_id: sid as u16, users: addrs }
    };
    proof {
        assert(items_of(a@) =~~= items);
        assert(encode_spec(a@) == bytes@);
        assert(wf_action(a@));
        assert forall|m: ActionModel| wf_action(m) && encode_spec(m) == bytes@ implies a@ == m by {
            lemma_encode_injective(m, a@);
        }
    }
    Ok(a)
}

/// Decode the fields of a `WrapCCC` envelope.
fn decode_wrap_ccc(
    bytes: &Vec<u8>,
    ranges: &Vec<(usize, usize)>,
    Ghost(items): Ghost<Seq<Seq<u8>>>,
) -> (r: Result<Action, DecodeError>)
    requires
        envelope_of(bytes@) == Some(items),
        items == ranges_view(bytes@, ranges@),
        forall|j: int|
            0 <= j < ranges@.len() ==> ((#[trigger] ranges@[j]).0 <= ranges@[j].1 <= bytes@.len()),
        bytes@ == rlp_list(cat(items)),
        cat(items).len() < pow256(8),
        forall|k: int| 0 <= k < items.len() ==> is_item(#[trigger] items[k]),
        items.len() == ranges@.len(),
        items[0] == rlp_uint(7 as nat),
        items.len() == 5,
    ensures
        r matches Ok(a) ==> wf_action(a@) && encode_spec(a@) == bytes@,
        forall|m: ActionModel|
            wf_action(m) && encode_spec(m) == bytes@ ==> (r matches Ok(a) && a@ == m),
        r matches Err(e) ==> e == DecodeError::FieldDecodeFailure,
{
    let r1 = ranges[1];
    let r2 = ranges[2];
    let r3 = ranges[3];
    let r4 = ranges[4];
    proof {
        assert(items[1] == bytes@.subrange(r1.0 as int, r1.1 as int));
        assert(items[2] == bytes@.subrange(r2.0 as int, r2.1 as int));
        assert(items[3] == bytes@.subrange(r3.0 as int, r3.1 as int));
        assert(items[4] == bytes@.subrange(r4.0 as int, r4.1 as int));
    }
    let sid = match decode_uint_item(bytes, r1.0, r1.1) {
        Some(v) => v,
        None => {
            proof {
                crate::rlp_spec::lemma_pow256_values();
                assert forall|m: ActionModel| !(wf_action(m) && encode_spec(m) == bytes@) by {
                    if wf_action(m) && encode_spec(m) == bytes@ {
                        lemma_model_items(m, bytes@, items);
                        crate::rlp_spec::lemma_rlp_uint_injective(tag_of(m) as nat, 7 as nat);
                        lemma_model_shape(m);
                        assert forall|sh: u16| items[1] != rlp_uint(sh as nat) by {
                            assert(items[1] != rlp_uint((sh as u64) as nat));
                        }
                    }
                }
            }
            return Err(DecodeError::FieldDecodeFailure);
        },
    };
    if sid > 0xFFFF {
        proof {
            crate::rlp_spec::lemma_pow256_values();
            assert forall|m: ActionModel| !(wf_action(m) && encode_spec(m) == bytes@) by {
                if wf_action(m) && encode_spec(m) == bytes@ {
                    lemma_model_items(m, bytes@, items);
                    crate::rlp_spec::lemma_rlp_uint_injective(tag_of(m) as nat, 7 as nat);
                    lemma_model_shape(m);
                    assert forall|sh: u16| items[1] != rlp_uint(sh as nat) by {
                        if items[1] == rlp_uint(sh as nat) {
                            crate::rlp_spec::lemma_rlp_uint_injective(sh as nat, sid as nat);
                        }
                    }
                }
            }
        }
        return Err(DecodeError::FieldDecodeFailure);
    }
    let lsh = match decode_fixed(bytes, r2.0, r2.1, 20) {
        Some(v) => v,
        None => {
            proof {
                crate::rlp_spec::lemma_pow256_values();
                assert forall|m: ActionModel| !(wf_action(m) && encode_spec(m) == bytes@) by {
                    if wf_action(m) && encode_spec(m) == bytes@ {
                        lemma_model_items(m, bytes@, items);
                        crate::rlp_spec::lemma_rlp_uint_injective(tag_of(m) as nat, 7 as nat);
                        lemma_model_shape(m);
                    }
                }
            }
            return Err(DecodeError::FieldDecodeFailure);
        },
    };
    let params = match decode_blob_list(bytes, r3.0, r3.1) {
        Some(v) => v,
        None => {
            proof {
                crate::rlp_spec::lemma_pow256_values();
                assert forall|m: ActionModel| !(wf_action(m) && encode_spec(m) == bytes@) by {
                    if wf_action(m) && encode_spec(m) == bytes@ {
                        lemma_model_items(m, bytes@, items);
                        crate::rlp_spec::lemma_rlp_uint_injective(tag_of(m) as nat, 7 as nat);
                        lemma_model_shape(m);
                    }
                }
            }
            return Err(DecodeError::FieldDecodeFailure);
        },
    };
    let amount = match decode_uint_item(bytes, r4.0, r4.1) {
        Some(v) => v,
        None => {
            proof {
                crate::rlp_spec::lemma_pow256_values();
                assert forall|m: ActionModel| !(wf_action(m) && encode_spec(m) == bytes@) by {
                    if wf_action(m) && encode_spec(m) == bytes@ {
                        lemma_model_items(m, bytes@, items);
                        crate::rlp_spec::lemma_rlp_uint_injective(tag_of(m) as nat, 7 as nat);
                        lemma_model_shape(m);
                    }
                }
            }
            return Err(DecodeError::FieldDecodeFailure);
        },
    };
    let a = Action::WrapCCC {
        shard_id: sid as u16,
        lock_script_hash: H160 { bytes: lsh },
        parameters: params,
        amount,
    };
    proof {
        assert(items_of(a@) =~~= items);
        assert(encode_spec(a@) == bytes@);
        assert(wf_action(a@));
        assert forall|m: ActionModel| wf_action(m) && encode_spec(m) == bytes@ implies a@ == m by {
            lemma_encode_injective(m, a@);
        }
    }
    Ok(a)
}

/// Decode the fields of a `Store` envelope.
fn decode_store(
    bytes: &Vec<u8>,
    ranges: &Vec<(usize, usize)>,
    Ghost(items): Ghost<Seq<Seq<u8>>>,
) -> (r: Result<Action, DecodeError>)
    requires
        envelope_of(bytes@) == Some(items),
        items == ranges_view(bytes@, ranges@),
        forall|j: int|
            0 <= j < ranges@.len() ==> ((#[trigger] ranges@[j]).0 <= ranges@[j].1 <= bytes@.len()),
        bytes@ == rlp_list(cat(items)),
        cat(items).len() < pow256(8),
        forall|k: int| 0 <= k < items.len() ==> is_item(#[trigger] items[k]),
        items.len() == ranges@.len(),
        items[0] == rlp_uint(8 as nat),
        items.len() == 4,
    ensures
        r matches Ok(a) ==> wf_action(a@) && encode_spec(a@) == bytes@,
        forall|m: ActionModel|
            wf_action(m) && encode_spec(m) == bytes@ ==> (r matches Ok(a) && a@ == m),
        r matches Err(e) ==> e == DecodeError::FieldDecodeFailure,
{
    let r1 = ranges[1];
    let r2 = ranges[2];
    let r3 = ranges[3];
    proof {
        assert(items[1] == bytes@.subrange(r1.0 as int, r1.1 as int));
        assert(items[2] == bytes@.subrange(r2.0 as int, r2.1 as int));
        assert(items[3] == bytes@.subrange(r3.0 as int, r3.1 as int));
    }
    let cb = match decode_str_item(bytes, r1.0, r1.1) {
        Some(v) => v,
        None => {
            proof {
                crate::rlp_spec::lemma_pow256_values();
                assert forall|m: ActionModel| !(wf_action(m) && encode_spec(m) == bytes@) by {
                    if wf_action(m) && encode_spec(m) == bytes@ {
                        lemma_model_items(m, bytes@, items);
                        crate::rlp_spec::lemma_rlp_uint_injective(tag_of(m) as nat, 8 as nat);
                        lemma_model_shape(m);
                    }
                }
            }
            return Err(DecodeError::FieldDecodeFailure);
        },
    };
    let ghost cbv = cb@;
    let content = match bytes_to_string(cb) {
        Some(v) => v,
        None => {
            proof {
                crate::rlp_spec::lemma_pow256_values();
                assert forall|m: ActionModel| !(wf_action(m) && encode_spec(m) == bytes@) by {
                    if wf_action(m) && encode_spec(m) == bytes@ {
                        lemma_model_items(m, bytes@, items);
                        crate::rlp_spec::lemma_rlp_uint_injective(tag_of(m) as nat, 8 as nat);
                        lemma_model_shape(m);
                        assert forall|c: Seq<u8>| items[1] == rlp_str(c) implies c == cbv by {
                            crate::rlp_spec::lemma_enc_len_ge(c);
                            crate::rlp_spec::lemma_rlp_str_injective(c, cbv);
                        }
                    }
                }
            }
            return Err(DecodeError::FieldDecodeFailure);
        },
    };
    let cert = match decode_fixed(bytes, r2.0, r2.1, 20) {
        Some(v) => v,
        None => {
            proof {
                crate::rlp_spec::lemma_pow256_values();
                assert forall|m: ActionModel| !(wf_action(m) && encode_spec(m) == bytes@) by {
                    if wf_action(m) && encode_spec(m) == bytes@ {
                        lemma_model_items(m, bytes@, items);
                        crate::rlp_spec::lemma_rlp_uint_injective(tag_of(m) as nat, 8 as nat);
                        lemma_model_shape(m);
                    }
                }
            }
            return Err(DecodeError::FieldDecodeFailure);
        },
    };
    let sig = match decode_fixed(bytes, r3.0, r3.1, 65) {
        Some(v) => v,
        None => {
            proof {
                crate::rlp_spec::lemma_pow256_values();
                assert forall|m: ActionModel| !(wf_action(m) && encode_spec(m) == bytes@) by {
                    if wf_action(m) && encode_spec(m) == bytes@ {
                        lemma_model_items(m, bytes@, items);
                        crate::rlp_spec::lemma_rlp_uint_injective(tag_of(m) as nat, 8 as nat);
                        lemma_model_shape(m);
                    }
                }
            }
            return Err(DecodeError::FieldDecodeFailure);
        },
    };
    let a = Action::Store {
        content,
        certifier: Address { bytes: cert },
        signature: Signature { bytes: sig },
    };
    proof {
        assert(items_of(a@) =~~= items);
        assert(encode_spec(a@) == bytes@);
        assert(wf_action(a@));
        assert forall|m: ActionModel| wf_action(m) && encode_spec(m) == bytes@ implies a@ == m by {
            lemma_encode_injective(m, a@);
        }
    }
    Ok(a)
}

/// Decode the fields of a `Remove` envelope.
fn decode_remove(
    bytes: &Vec<u8>,
    ranges: &Vec<(usize, usize)>,
    Ghost(items): Ghost<Seq<Seq<u8>>>,
) -> (r: Result<Action, DecodeError>)
    requires
        envelope_of(bytes@) == Some(items),
        items == ranges_view(bytes@, ranges@),
        forall|j: int|
            0 <= j < ranges@.len() ==> ((#[trigger] ranges@[j]).0 <= ranges@[j].1 <= bytes@.len()),
        bytes@ == rlp_list(cat(items)),
        cat(items).len() < pow256(8),
        forall|k: int| 0 <= k < items.len() ==> is_item(#[trigger] items[k]),
        items.len() == ranges@.len(),
        items[0] == rlp_uint(9 as nat),
        items.len() == 3,
    ensures
        r matches Ok(a) ==> wf_action(a@) && encode_spec(a@) == bytes@,
        forall|m: ActionModel|
            wf_action(m) && encode_spec(m) == bytes@ ==> (r matches Ok(a) && a@ == m),
        r matches Err(e) ==> e == DecodeError::FieldDecodeFailure,
{
    let r1 = ranges[1];
    let r2 = ranges[2];
    proof {
        assert(items[1] == bytes@.subrange(r1.0 as int, r1.1 as int));
        assert(items[2] == bytes@.subrange(r2.0 as int, r2.1 as int));
    }
    let h = match decode_fixed(bytes, r1.0, r1.1, 32) {
        Some(v) => v,
        None => {
            proof {
                crate::rlp_spec::lemma_pow256_values();
                assert forall|m: ActionModel| !(wf_action(m) && encode_spec(m) == bytes@) by {
                    if wf_action(m) && encode_spec(m) == bytes@ {
                        lemma_model_items(m, bytes@, items);
                        crate::rlp_spec::lemma_rlp_uint_injective(tag_of(m) as nat, 9 as nat);
                        lemma_model_shape(m);
                    }
                }
            }
            return Err(DecodeError::FieldDecodeFailure);
        },
    };
    let sig = match decode_fixed(bytes, r2.0, r2.1, 65) {
        Some(v) => v,
        None => {
            proof {
                crate::rlp_spec::lemma_pow256_values();
                assert forall|m: ActionModel| !(wf_action(m) && encode_spec(m) == bytes@) by {
                    if wf_action(m) && encode_spec(m) == bytes@ {
                        lemma_model_items(m, bytes@, items);
                        crate::rlp_spec::lemma_rlp_uint_injective(tag_of(m) as nat, 9 as nat);
                        lemma_model_shape(m);
                    }
                }
            }
            return Err(DecodeError::FieldDecodeFailure);
        },
    };
    let a = Action::Remove { hash: H256 { bytes: h }, signature: Signature { bytes: sig } };
    proof {
        assert(items_of(a@) =~~= items);
        assert(encode_spec(a@) == bytes@);
        assert(wf_action(a@));
        assert forall|m: ActionModel| wf_action(m) && encode_spec(m) == bytes@ implies a@ == m by {
            lemma_encode_injective(m, a@);
        }
    }
    Ok(a)
}

/// Decode the fields of a `Custom` envelope.
fn decode_custom(
    bytes: &Vec<u8>,
    ranges: &Vec<(usize, usize)>,
    Ghost(items): Ghost<Seq<Seq<u8>>>,
) -> (r: Result<Action, DecodeError>)
    requires
        envelope_of(bytes@) == Some(items),
        items == ranges_view(bytes@, ranges@),
        forall|j: int|
            0 <= j < ranges@.len() ==> ((#[trigger] ranges@[j]).0 <= ranges@[j].1 <= bytes@.len()),
        bytes@ == rlp_list(cat(items)),
        cat(items).len() < pow256(8),
        forall|k: int| 0 <= k < items.len() ==> is_item(#[trigger] items[k]),
        items.len() == ranges@.len(),
        items[0] == rlp_uint(255 as nat),
        items.len() == 3,
    ensures
        r matches Ok(a) ==> wf_action(a@) && encode_spec(a@) == bytes@,
        forall|m: ActionModel|
            wf_action(m) && encode_spec(m) == bytes@ ==> (r matches Ok(a) && a@ == m),
        r matches Err(e) ==> e == DecodeError::FieldDecodeFailure,
{
    let r1 = ranges[1];
    let r2 = ranges[2];
    proof {
        assert(items[1] == bytes@.subrange(r1.0 as int, r1.1 as int));
        assert(items[2] == bytes@.subrange(r2.0 as int, r2.1 as int));
    }
    let hid = match decode_uint_item(bytes, r1.0, r1.1) {
        Some(v) => v,
        None => {
            proof {
                crate::rlp_spec::lemma_pow256_values();
                assert forall|m: ActionModel| !(wf_action(m) && encode_spec(m) == bytes@) by {
                    if wf_action(m) && encode_spec(m) == bytes@ {
                        lemma_model_items(m, bytes@, items);
                        crate::rlp_spec::lemma_rlp_uint_injective(tag_of(m) as nat, 255 as nat);
                        lemma_model_shape(m);
                    }
                }
            }
            return Err(DecodeError::FieldDecodeFailure);
        },
    };
    let bl = match decode_str_item(bytes, r2.0, r2.1) {
        Some(v) => v,
        None => {
            proof {
                crate::rlp_spec::lemma_pow256_values();
                assert forall|m: ActionModel| !(wf_action(m) && encode_spec(m) == bytes@) by {
                    if wf_action(m) && encode_spec(m) == bytes@ {
                        lemma_model_items(m, bytes@, items);
                        crate::rlp_spec::lemma_rlp_uint_injective(tag_of(m) as nat, 255 as nat);
                        lemma_model_shape(m);
                    }
                }
            }
            return Err(DecodeError::FieldDecodeFailure);
        },
    };
    let a = Action::Custom { handler_id: hid, bytes: bl };
    proof {
        assert(items_of(a@) =~~= items);
        assert(encode_spec(a@) == bytes@);
        assert(wf_action(a@));
        assert forall|m: ActionModel| wf_action(m) && encode_spec(m) == bytes@ implies a@ == m by {
            lemma_encode_injective(m, a@);
        }
    }
    Ok(a)
}

impl Action {
    /// Serialize the action to its canonical bytes. Total and
    /// deterministic: the result is exactly `encode_spec` of the value.
    pub fn encode(&self) -> (r: Vec<u8>)
        ensures
            r@ == encode_spec(self@),
    {
        let mut payload: Vec<u8> = Vec::new();
        match self {
            Action::AssetTransaction { transaction, approvals } => {
                append_uint(&mut payload, 1);
                append_bytes(&mut payload, &transaction.raw);
                append_sig_list(&mut payload, approvals);
                proof {
                    lemma_cat3(
                        rlp_uint(1),
                        transaction@,
                        rlp_blob_list(approvals@.map_values(|s: Signature| s@)),
                    );
                    assert(payload@ =~= cat(items_of(self@)));
                }
            },
            Action::Payment { receiver, amount } => {
                append_uint(&mut payload, 2);
                append_str(&mut payload, &receiver.bytes);
                append_uint(&mut payload, *amount);
                proof {
                    lemma_cat3(rlp_uint(2), rlp_str(receiver@), rlp_uint(*amount as nat));
                    assert(payload@ =~= cat(items_of(self@)));
                }
            },
            Action::SetRegularKey { key } => {
                append_uint(&mut payload, 3);
                append_str(&mut payload, &key.bytes);
                proof {
                    lemma_cat2(rlp_uint(3), rlp_str(key@));
                    assert(payload@ =~= cat(items_of(self@)));
                }
            },
            Action::CreateShard => {
                append_uint(&mut payload, 4);
                proof {
                    lemma_cat1(rlp_uint(4));
                    assert(payload@ =~= cat(items_of(self@)));
                }
            },
            Action::SetShardOwners { shard_id, owners } => {
                append_uint(&mut payload, 5);
                append_uint(&mut payload, *shard_id as u64);
                append_addr_list(&mut payload, owners);
                proof {
                    lemma_cat3(
                        rlp_uint(5),
                        rlp_uint(*shard_id as nat),
                        rlp_blob_list(owners@.map_values(|a: Address| a@)),
                    );
                    assert(payload@ =~= cat(items_of(self@)));
                }
            },
            Action::SetShardUsers { shard_id, users } => {
                append_uint(&mut payload, 6);
                append_uint(&mut payload, *shard_id as u64);
                append_addr_list(&mut payload, users);
                proof {
                    lemma_cat3(
                        rlp_uint(6),
                        rlp_uint(*shard_id as nat),
                        rlp_blob_list(users@.map_values(|a: Address| a@)),
                    );
                    assert(payload@ =~= cat(items_of(self@)));
                }
            },
            Action::WrapCCC { shard_id, lock_script_hash, parameters, amount } => {
                append_uint(&mut payload, 7);
                append_uint(&mut payload, *shard_id as u64);
                append_str(&mut payload, &lock_script_hash.bytes);
                append_vecs_list(&mut payload, parameters);
                append_uint(&mut payload, *amount);
                proof {
                    lemma_cat5(
                        rlp_uint(7),
                        rlp_uint(*shard_id as nat),
                        rlp_str(lock_script_hash@),
                        rlp_blob_list(parameters@.map_values(|p: Vec<u8>| p@)),
                        rlp_uint(*amount as nat),
                    );
                    assert(payload@ =~= cat(items_of(self@)));
                }
            },
            Action::Store { content, certifier, signature } => {
                append_uint(&mut payload, 8);
                let cb = str_to_bytes(content.as_str());
                append_str(&mut payload, &cb);
                append_str(&mut payload, &certifier.bytes);
                append_str(&mut payload, &signature.bytes);
                proof {
                    lemma_cat4(
                        rlp_uint(8),
                        rlp_str(utf8_of(content@)),
                        rlp_str(certifier@),
                        rlp_str(signature@),
                    );
                    assert(payload@ =~= cat(items_of(self@)));
                }
            },
            Action::Remove { hash, signature } => {
                append_uint(&mut payload, 9);
                append_str(&mut payload, &hash.bytes);
                append_str(&mut payload, &signature.bytes);
                proof {
                    lemma_cat3(rlp_uint(9), rlp_str(hash@), rlp_str(signature@));
                    assert(payload@ =~= cat(items_of(self@)));
                }
            },
            Action::Custom { handler_id, bytes } => {
                append_uint(&mut payload, 255);
                append_uint(&mut payload, *handler_id);
                append_str(&mut payload, bytes);
                proof {
                    lemma_cat3(
                        rlp_uint(255),
                        rlp_uint(*handler_id as nat),
                        rlp_str(bytes@),
                    );
                    assert(payload@ =~= cat(items_of(self@)));
                }
            },
        }
        wrap_list(payload)
    }

    /// Reconstruct the action a byte sequence encodes, or say exactly why
    /// there is none. Strict: it accepts precisely the canonical
    /// encodings of well-formed actions, so a successful decode always
    /// re-encodes to the very same bytes, and every well-formed action's
    /// encoding decodes back to that action (the round trip).
    #[verifier::rlimit(100)]
    #[verifier::spinoff_prover]
    pub fn decode(bytes: &Vec<u8>) -> (r: Result<Action, DecodeError>)
        ensures
            r matches Ok(a) ==> wf_action(a@) && encode_spec(a@) == bytes@,
            forall|m: ActionModel|
                wf_action(m) && encode_spec(m) == bytes@ ==> (r matches Ok(a) && a@ == m),
            r == Err::<Action, DecodeError>(DecodeError::IncorrectArity) <==> arity_error(bytes@),
            r == Err::<Action, DecodeError>(DecodeError::UnknownDiscriminant) <==> unknown_tag_error(
                bytes@,
            ),
    {
        let n = bytes.len();
        proof {
            assert(bytes@.subrange(0, n as int) =~= bytes@);
            crate::rlp_spec::lemma_pow256_values();
        }
        let ps = match parse_list_header(bytes, 0, n) {
            Some(ps) => ps,
            None => {
                proof {
                    assert forall|m: ActionModel|
                        !(wf_action(m) && encode_spec(m) == bytes@) by {
                        if wf_action(m) && encode_spec(m) == bytes@ {
                            lemma_encode_envelope(m);
                        }
                    }
                }
                return Err(DecodeError::IncorrectArity);
            },
        };
        let ghost pay = bytes@.subrange(ps as int, n as int);
        let ranges = match split_range(bytes, ps, n) {
            Some(v) => v,
            None => {
                proof {
                    assert forall|m: ActionModel|
                        !(wf_action(m) && encode_spec(m) == bytes@) by {
                        if wf_action(m) && encode_spec(m) == bytes@ {
                            lemma_encode_envelope(m);
                        }
                    }
                }
                return Err(DecodeError::IncorrectArity);
            },
        };
        let ghost items = ranges_view(bytes@, ranges@);
        proof {
            assert(envelope_of(bytes@) == Some(items));
            crate::rlp_spec::lemma_list_payload_canonical(bytes@);
            crate::rlp_spec::lemma_split_canonical(pay);
            assert(bytes@ == rlp_list(pay));
            assert(cat(items) == pay);
            assert(items.len() == ranges@.len());
        }
        if ranges.len() == 0 {
            proof {
                assert(arity_error(bytes@));
                assert forall|m: ActionModel| !(wf_action(m) && encode_spec(m) == bytes@) by {
                    if wf_action(m) && encode_spec(m) == bytes@ {
                        lemma_model_items(m, bytes@, items);
                    }
                }
            }
            return Err(DecodeError::IncorrectArity);
        }
        let r0 = ranges[0];
        proof {
            assert(items[0] == bytes@.subrange(r0.0 as int, r0.1 as int));
        }
        let t64 = match decode_uint_item(bytes, r0.0, r0.1) {
            Some(v) => v,
            None => {
                proof {
                    assert forall|t2: u8| items[0] != rlp_uint(t2 as nat) by {
                        assert(items[0] != rlp_uint((t2 as u64) as nat));
                    }
                    assert(!arity_error(bytes@));
                    assert(!unknown_tag_error(bytes@));
                    assert forall|m: ActionModel|
                        !(wf_action(m) && encode_spec(m) == bytes@) by {
                        if wf_action(m) && encode_spec(m) == bytes@ {
                            lemma_model_items(m, bytes@, items);
                        }
                    }
                }
                return Err(DecodeError::FieldDecodeFailure);
            },
        };
        if t64 > 255 {
            proof {
                assert forall|t2: u8| items[0] != rlp_uint(t2 as nat) by {
                    if items[0] == rlp_uint(t2 as nat) {
                        crate::rlp_spec::lemma_rlp_uint_injective(t2 as nat, t64 as nat);
                    }
                }
                assert(!arity_error(bytes@));
                assert(!unknown_tag_error(bytes@));
                assert forall|m: ActionModel| !(wf_action(m) && encode_spec(m) == bytes@) by {
                    if wf_action(m) && encode_spec(m) == bytes@ {
                        lemma_model_items(m, bytes@, items);
                    }
                }
            }
            return Err(DecodeError::FieldDecodeFailure);
        }
        let t = t64 as u8;
        proof {
            assert(items[0] == rlp_uint(t as nat));
            assert forall|t2: u8| items[0] == rlp_uint(t2 as nat) implies t2 == t by {
                crate::rlp_spec::lemma_rlp_uint_injective(t2 as nat, t as nat);
            }
        }
        if !(1 <= t && t <= 9 || t == 255) {
            proof {
                assert(unknown_tag_error(bytes@));
                assert(!arity_error(bytes@));
                assert forall|m: ActionModel| !(wf_action(m) && encode_spec(m) == bytes@) by {
                    if wf_action(m) && encode_spec(m) == bytes@ {
                        lemma_model_items(m, bytes@, items);
                    }
                }
            }
            return Err(DecodeError::UnknownDiscriminant);
        }
        let required: usize = if t == 3 {
            2
        } else if t == 4 {
            1
        } else if t == 7 {
            5
        } else if t == 8 {
            4
        } else {
            3
        };
        if ranges.len() != required {
            proof {
                assert(items.len() != arity_of(t));
                assert(arity_error(bytes@));
                assert(!unknown_tag_error(bytes@));
                assert forall|m: ActionModel| !(wf_action(m) && encode_spec(m) == bytes@) by {
                    if wf_action(m) && encode_spec(m) == bytes@ {
                        lemma_model_items(m, bytes@, items);
                    }
                }
            }
            return Err(DecodeError::IncorrectArity);
        }
        proof {
            lemma_known_tag(bytes@, items, t);
        }
        if t == 1 {
            decode_asset_transaction(bytes, &ranges, Ghost(items))
        } else if t == 2 {
            decode_payment(bytes, &ranges, Ghost(items))
        } else if t == 3 {
            decode_set_regular_key(bytes, &ranges, Ghost(items))
        } else if t == 4 {
            let a = Action::CreateShard;
            proof {
                assert(items_of(a@) =~~= items);
                assert(encode_spec(a@) == bytes@);
                assert(wf_action(a@));
                assert forall|m: ActionModel|
                    wf_action(m) && encode_spec(m) == bytes@ implies a@ == m by {
                    lemma_encode_injective(m, a@);
                }
            }
            Ok(a)
        } else if t == 5 || t == 6 {
            decode_shard_list(bytes, &ranges, t, Ghost(items))
        } else if t == 7 {
            decode_wrap_ccc(bytes, &ranges, Ghost(items))
        } else if t == 8 {
            decode_store(bytes, &ranges, Ghost(items))
        } else if t == 9 {
            decode_remove(bytes, &ranges, Ghost(items))
        } else {
            decode_custom(bytes, &ranges, Ghost(items))
        }
    }

    /// The content hash that identifies the action: the blake2b digest of
    /// its canonical encoding.
    pub fn hash(&self) -> (r: H256)
        ensures
            r@ == blake_of(encode_spec(self@)),
            r.wf(),
    {
        let e = self.encode();
        let d = blake256(&e);
        H256 { bytes: d }
    }
}


} // verus!
