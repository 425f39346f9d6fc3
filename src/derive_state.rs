use vstd::prelude::*;
use vstd::string::StringSliceAdditionalSpecFns;

use crate::bytes::{bytes_eq, clone_bytes, copy_range, extend_bytes};
use crate::inventory::{expiration_in, holds, EntryView, Inventory, Mutation};
use crate::codec::{body_bytes, decode_body, decode_public_key, decode_unverified, public_key_bytes, unverified_bytes, MessageBodyView};
use crate::private_box::{decrypt, encrypt, open_envelope, sealed_exactly, sealed_for};
use crate::codec::{encode_body, encode_public_key, encode_unverified, MessageBody};
use crate::bytes::opt_bytes;
use crate::seq_facts::{lemma_filter_keeps_all, lemma_filter_member, lemma_filter_pairwise};
use crate::sodium::{box_gen_keypair, ed25519_open_of, secretbox_seal_of, ed25519_sign_of, random_bytes, secretbox_seal, sign, secretbox_open, secretbox_open_of, sign_gen_keypair, sign_verify};

verus! {

/// Whether messages that an inbox receives are saved on arrival.
#[derive(PartialEq, Eq, Structural, Clone, Copy, Debug)]
pub enum AutosavePreference {
    Autosave,
    Manual,
}

/// The public keys of an inbox or a contact.
#[derive(Debug)]
pub struct PublicHalf {
    pub public_encryption_key: Vec<u8>,
    pub public_signing_key: Vec<u8>,
}

/// How a message's content is to be rendered.
#[derive(PartialEq, Eq, Structural, Clone, Copy, Debug)]
pub enum RichTextFormat {
    Plaintext,
    Markdown,
}

/// A file attached to a message.
#[derive(Debug)]
pub struct Attachment {
    pub mime_type: String,
    pub blob: Vec<u8>,
}

/// A decrypted, signature-checked message.
#[derive(Debug)]
pub struct Message {
    pub sender: PublicHalf,
    pub in_reply_to: Option<Vec<u8>>,
    pub disclosed_recipients: Vec<PublicHalf>,
    pub rich_text_format: RichTextFormat,
    pub content: String,
    pub attachments: Vec<Attachment>,
}

/// The public keys of a public half, as plain values.
pub ghost struct PublicHalfView {
    pub encryption: Seq<u8>,
    pub signing: Seq<u8>,
}

/// An attachment, as plain values.
pub ghost struct AttachmentView {
    pub mime_type: Seq<char>,
    pub blob: Seq<u8>,
}

impl PublicHalf {
    pub open spec fn view(&self) -> PublicHalfView {
        PublicHalfView { encryption: self.public_encryption_key@, signing: self.public_signing_key@ }
    }
}

impl Attachment {
    pub open spec fn view(&self) -> AttachmentView {
        AttachmentView { mime_type: self.mime_type@, blob: self.blob@ }
    }
}

/// The views of a list of public halves.
pub open spec fn public_half_views(s: Seq<PublicHalf>) -> Seq<PublicHalfView> {
    s.map_values(|p: PublicHalf| p.view())
}

/// The views of a list of attachments.
pub open spec fn attachment_views(s: Seq<Attachment>) -> Seq<AttachmentView> {
    s.map_values(|a: Attachment| a.view())
}

/// Whether a stored message is kept after its last witness expires.
#[derive(PartialEq, Eq, Structural, Clone, Copy, Debug)]
pub enum MessageType {
    Saved,
    Unsaved,
}

/// A contact as the user enters it.
#[derive(Debug)]
pub struct Contact {
    pub label: String,
    pub public_half: PublicHalf,
}

/// A contact with its global id.
#[derive(Debug)]
pub struct StoredContact {
    pub contact: Contact,
    pub global_id: Vec<u8>,
}

/// A stored message as a state dump reports it.
#[derive(Debug)]
pub struct StoredMessage {
    pub message: Message,
    pub expiration_time: Option<i64>,
    pub inbox_id: Vec<u8>,
    pub global_id: Vec<u8>,
    pub message_type: MessageType,
}

/// An inbox as a state dump reports it.
#[derive(Debug)]
pub struct Inbox {
    pub global_id: Vec<u8>,
    pub label: String,
    pub public_half: PublicHalf,
    pub autosave_preference: AutosavePreference,
}

/// The latest expiration time seen for an inbox's public-half announcement.
#[derive(Debug)]
pub struct InboxExpirationTime {
    pub inbox_id: Vec<u8>,
    pub expiration_time: i64,
}

/// What the state deriver reports to the frontend.
#[derive(Debug)]
pub enum Event {
    Message {
        message: Message,
        message_type: MessageType,
        global_id: Vec<u8>,
        inbox_id: Vec<u8>,
        expiration_time: i64,
    },
    MessageExpirationTimeExtended { global_id: Vec<u8>, inbox_id: Vec<u8>, expiration_time: i64 },
    MessageExpired { global_id: Vec<u8>, inbox_id: Vec<u8> },
    Inbox { global_id: Vec<u8>, expiration_time: i64 },
}

/// A request to the state deriver.
pub enum Command {
    NewInbox { label: String },
    SetAutosavePreference { inbox_id: Vec<u8>, autosave_preference: AutosavePreference },
    SetInboxLabel { label: String, inbox_id: Vec<u8> },
    DeleteInbox { inbox_id: Vec<u8> },
    GetPublicHalfEntry { inbox_id: Vec<u8> },
    EncodeMessage {
        in_reply_to: Option<Vec<u8>>,
        disclosed_recipients: Vec<PublicHalf>,
        rich_text_format: RichTextFormat,
        content: String,
        attachments: Vec<Attachment>,
        hidden_recipients: Vec<Vec<u8>>,
        inbox_id: Vec<u8>,
    },
    SaveMessage { message_id: Vec<u8>, inbox_id: Vec<u8> },
    UnsaveMessage { message_id: Vec<u8>, inbox_id: Vec<u8> },
    NewContact { contact: Contact },
    SetContactLabel { contact_id: Vec<u8>, label: String },
    SetContactPublicHalf { contact_id: Vec<u8>, public_half: PublicHalf },
    DeleteContact { contact_id: Vec<u8> },
    LookupPublicHalf { first_ten_bytes_of_id: Vec<u8> },
    RequestStateDump,
    Stop,
}

/// Everything the derived state holds, as the frontend sees it.
pub struct StateDump {
    pub inboxes: Vec<Inbox>,
    pub stored_messages: Vec<StoredMessage>,
    pub contacts: Vec<StoredContact>,
    pub inbox_expiration_times: Vec<InboxExpirationTime>,
}

/// A local inbox with its secret keys.
pub struct InboxRecord {
    pub global_id: Vec<u8>,
    pub label: String,
    pub public_encryption_key: Vec<u8>,
    pub private_encryption_key: Vec<u8>,
    pub public_signing_key: Vec<u8>,
    pub private_signing_key: Vec<u8>,
    pub autosave_preference: AutosavePreference,
}

/// A stored (decrypted) message of an inbox.
pub struct MessageRecord {
    pub global_id: Vec<u8>,
    pub inbox_id: Vec<u8>,
    pub message_type: MessageType,
    pub plaintext: Vec<u8>,
}

/// A link from an inventory item to the stored message that it decrypts to.
pub struct Derivation {
    pub inventory_item: Vec<u8>,
    pub global_id: Vec<u8>,
    pub inbox_id: Vec<u8>,
}

/// A stored contact.
pub struct ContactRecord {
    pub global_id: Vec<u8>,
    pub label: String,
    pub public_encryption_key: Vec<u8>,
    pub public_signing_key: Vec<u8>,
}

/// Whether some derivation of `ds` links to the stored message `(global_id, inbox_id)`.
pub open spec fn has_derivation_for(ds: Seq<Derivation>, global_id: Seq<u8>, inbox_id: Seq<u8>) -> bool {
    exists|i: int|
        0 <= i < ds.len() && (#[trigger] ds[i]).global_id@ == global_id && ds[i].inbox_id@ == inbox_id
}

/// Whether some record of `ms` is the stored message `(global_id, inbox_id)`.
pub open spec fn has_record_for(ms: Seq<MessageRecord>, global_id: Seq<u8>, inbox_id: Seq<u8>) -> bool {
    exists|i: int|
        0 <= i < ms.len() && (#[trigger] ms[i]).global_id@ == global_id && ms[i].inbox_id@ == inbox_id
}

/// Derivation accounting: an unsaved stored message exists exactly while at least one
/// derivation references it, and every derivation references a stored message.
pub open spec fn accounting(ms: Seq<MessageRecord>, ds: Seq<Derivation>) -> bool {
    &&& forall|k: int|
        0 <= k < ms.len() && (#[trigger] ms[k]).message_type == MessageType::Unsaved
            ==> has_derivation_for(ds, ms[k].global_id@, ms[k].inbox_id@)
    &&& forall|d: int|
        0 <= d < ds.len() ==> has_record_for(ms, (#[trigger] ds[d]).global_id@, ds[d].inbox_id@)
}

/// The derived state: inboxes, stored messages, derivations, contacts and the latest
/// announcement expiration of each inbox.
pub struct DerivedState {
    pub inboxes: Vec<InboxRecord>,
    pub messages: Vec<MessageRecord>,
    pub derivations: Vec<Derivation>,
    pub contacts: Vec<ContactRecord>,
    pub inbox_expiration_times: Vec<(Vec<u8>, i64)>,
}

/// Whether the keys of an inbox have the lengths that its operations need.
pub open spec fn inbox_keys_ok(r: InboxRecord) -> bool {
    &&& r.global_id@.len() == 32
    &&& r.public_encryption_key@.len() == 32
    &&& r.private_encryption_key@.len() == 32
    &&& r.public_signing_key@.len() == 32
    &&& r.private_signing_key@.len() == 64
    &&& forall|m: Seq<u8>|
        #[trigger] ed25519_open_of(ed25519_sign_of(m, r.private_signing_key@), r.public_signing_key@) == Some(m)
}

/// Domain string hashed into public-half ids.
pub const PUBLIC_HALF_ID_DOMAIN: &'static str = "CONTRASLEUTH CALCULATE PUBLIC HALF ID";

/// Domain string hashed into the key that hides public-half announcements.
pub const OBFUSCATE_PUBLIC_HALF_DOMAIN: &'static str = "CONTRASLEUTH OBFUSCATE PUBLIC HALF";

/// Domain string hashed into stored-message ids.
pub const MESSAGE_ID_DOMAIN: &'static str = "CONTRASLEUTH CALCULATE MESSAGE ID";

/// The 32-byte BLAKE3 digest of `input`.
pub uninterp spec fn blake3_of(input: Seq<u8>) -> Seq<u8>;

/// The first `len` bytes of BLAKE3's extendable output on `input`.
pub uninterp spec fn blake3_xof_of(input: Seq<u8>, len: nat) -> Seq<u8>;

/// Relies on `blake3::hash`: the 32-byte digest of its input.
#[verifier::external_body]
pub(crate) fn blake3_hash(input: &[u8]) -> (r: Vec<u8>)
    ensures
        r@ == blake3_of(input@),
        r@.len() == 32,
{
    blake3::hash(input).as_bytes().to_vec()
}

/// Relies on `blake3::Hasher::finalize_xof` and `OutputReader::fill`: `len` bytes of
/// extendable output for its input.
#[verifier::external_body]
pub(crate) fn blake3_xof(input: &[u8], len: usize) -> (r: Vec<u8>)
    ensures
        r@ == blake3_xof_of(input@, len as nat),
        r@.len() == len,
{
    let mut out = vec![0u8; len];
    blake3::Hasher::new().update(input).finalize_xof().fill(&mut out);
    out
}

/// The global id of a public half: BLAKE3 of the encryption key, the signing key and
/// the digest of the public-half domain.
pub open spec fn public_half_id(encryption: Seq<u8>, signing: Seq<u8>) -> Seq<u8> {
    blake3_of(encryption + signing + blake3_of(PUBLIC_HALF_ID_DOMAIN.spec_bytes()))
}

/// The global id of a stored message: BLAKE3 of its plaintext and the digest of the
/// message domain.
pub open spec fn message_id(plaintext: Seq<u8>) -> Seq<u8> {
    blake3_of(plaintext + blake3_of(MESSAGE_ID_DOMAIN.spec_bytes()))
}

/// The key that hides the announcements of the inbox whose id starts with `first_ten`.
pub open spec fn obfuscation_key(first_ten: Seq<u8>) -> Seq<u8> {
    blake3_xof_of(first_ten + blake3_of(OBFUSCATE_PUBLIC_HALF_DOMAIN.spec_bytes()), 32)
}

/// Computes the global id of a public half.
pub fn calculate_public_half_id(encryption: &[u8], signing: &[u8]) -> (r: Vec<u8>)
    ensures
        r@ == public_half_id(encryption@, signing@),
        r@.len() == 32,
{
    let domain = blake3_hash(PUBLIC_HALF_ID_DOMAIN.as_bytes());
    let mut input: Vec<u8> = Vec::new();
    extend_bytes(&mut input, encryption);
    extend_bytes(&mut input, signing);
    extend_bytes(&mut input, domain.as_slice());
    blake3_hash(input.as_slice())
}

/// Computes the global id of a stored message from its plaintext.
pub fn calculate_message_id(plaintext: &[u8]) -> (r: Vec<u8>)
    ensures
        r@ == message_id(plaintext@),
        r@.len() == 32,
{
    let domain = blake3_hash(MESSAGE_ID_DOMAIN.as_bytes());
    let mut input: Vec<u8> = Vec::new();
    extend_bytes(&mut input, plaintext);
    extend_bytes(&mut input, domain.as_slice());
    blake3_hash(input.as_slice())
}

/// Derives the key that hides the announcements of the inbox whose id starts with
/// `first_ten`.
pub fn derive_public_half_encryption_key(first_ten: &[u8]) -> (r: Vec<u8>)
    ensures
        r@ == obfuscation_key(first_ten@),
        r@.len() == 32,
{
    let domain = blake3_hash(OBFUSCATE_PUBLIC_HALF_DOMAIN.as_bytes());
    let mut input: Vec<u8> = Vec::new();
    extend_bytes(&mut input, first_ten);
    extend_bytes(&mut input, domain.as_slice());
    blake3_xof(input.as_slice(), 32)
}

/// What the announcement key of the inbox whose id starts with `first_ten` recovers
/// from `payload`: a 24-byte nonce, then a secret box under that key.
pub open spec fn announcement_of(payload: Seq<u8>, first_ten: Seq<u8>) -> Option<Seq<u8>> {
    if payload.len() < 24 {
        None
    } else {
        secretbox_open_of(
            payload.subrange(24, payload.len() as int),
            payload.subrange(0, 24),
            obfuscation_key(first_ten),
        )
    }
}

/// Whether `payload` announces the public half of `inbox`.
pub open spec fn announces(payload: Seq<u8>, inbox: InboxRecord) -> bool {
    announcement_of(payload, inbox.global_id@.subrange(0, 10)) == Some(
        public_key_bytes(
            PublicHalfView {
                encryption: inbox.public_encryption_key@,
                signing: inbox.public_signing_key@,
            },
        ),
    )
}

/// The inner message that `m` came from, with nonce `nonce`.
pub open spec fn body_view_of(m: Message, nonce: Seq<u8>) -> MessageBodyView {
    MessageBodyView {
        in_reply_to: opt_bytes(m.in_reply_to),
        nonce,
        content: m.content@,
        rich_text_format: m.rich_text_format,
        disclosed_recipients: public_half_views(m.disclosed_recipients@),
        attachments: attachment_views(m.attachments@),
    }
}

/// Whether every key of a list of public halves is 32 bytes long.
pub open spec fn recipients_ok(s: Seq<PublicHalfView>) -> bool {
    forall|i: int| 0 <= i < s.len() ==> (#[trigger] s[i]).encryption.len() == 32 && s[i].signing.len() == 32
}

/// Whether plaintext `pt` is a signed envelope from `sender` whose signature opens to
/// the encoding of `v`, with keys of the right lengths.
pub open spec fn signs_body(pt: Seq<u8>, sender: PublicHalfView, v: MessageBodyView) -> bool {
    exists|payload: Seq<u8>|
        #![trigger unverified_bytes(sender.encryption, sender.signing, payload)]
        unverified_bytes(sender.encryption, sender.signing, payload) == pt && sender.encryption.len() == 32
            && sender.signing.len() == 32 && ed25519_open_of(payload, sender.signing) == Some(
            body_bytes(v),
        ) && recipients_ok(v.disclosed_recipients)
}

/// Parses a decrypted plaintext as a signed message: the envelope, the signature
/// checked with the declared signing key, then the inner message. `None` when any
/// step fails.
pub fn parse(plaintext: &[u8]) -> (r: Option<Message>)
    ensures
        r matches Some(m) ==> exists|n: Seq<u8>| signs_body(plaintext@, m.sender.view(), body_view_of(m, n)),
        (exists|s: PublicHalfView, v: MessageBodyView| signs_body(plaintext@, s, v)) ==> r is Some,
{
    let ghost has = exists|s: PublicHalfView, v: MessageBodyView| #[trigger] signs_body(plaintext@, s, v);
    let ghost sv = choose|sv: (PublicHalfView, MessageBodyView)| #[trigger] signs_body(plaintext@, sv.0, sv.1);
    let ghost s = sv.0;
    let ghost v = sv.1;
    proof {
        if has {
            let (s0, v0) = choose|s0: PublicHalfView, v0: MessageBodyView| #[trigger] signs_body(plaintext@, s0, v0);
            assert(signs_body(plaintext@, (s0, v0).0, (s0, v0).1));
        }
    }
    let ghost payload_v = choose|payload: Seq<u8>|
        #![trigger unverified_bytes(s.encryption, s.signing, payload)]
        unverified_bytes(s.encryption, s.signing, payload) == plaintext@ && s.encryption.len() == 32
            && s.signing.len() == 32 && ed25519_open_of(payload, s.signing) == Some(body_bytes(v))
            && recipients_ok(v.disclosed_recipients);
    proof {
        if has {
            assert(unverified_bytes(s.encryption, s.signing, payload_v) == plaintext@);
        }
    }
    let (encryption, signing, payload) = match decode_unverified(plaintext) {
        Some(x) => x,
        None => return None,
    };
    if encryption.len() != 32 || signing.len() != 32 {
        return None;
    }
    let body_bytes_signed = match sign_verify(payload.as_slice(), signing.as_slice()) {
        Some(b) => b,
        None => return None,
    };
    proof {
        if has {
            assert(encryption@ == s.encryption && signing@ == s.signing && payload@ == payload_v);
            assert(body_bytes_signed@ == body_bytes(v));
        }
    }
    let body = match decode_body(body_bytes_signed.as_slice()) {
        Some(b) => b,
        None => return None,
    };
    assert(has ==> body.view() == v);
    let mut i: usize = 0;
    while i < body.disclosed_recipients.len()
        invariant
            i <= body.disclosed_recipients@.len(),
            has ==> body.view() == v && recipients_ok(v.disclosed_recipients),
            has == exists|s: PublicHalfView, v: MessageBodyView| #[trigger] signs_body(plaintext@, s, v),
            forall|k: int| 0 <= k < i ==> (#[trigger] body.disclosed_recipients@[k]).public_encryption_key@.len() == 32
                && body.disclosed_recipients@[k].public_signing_key@.len() == 32,
        decreases body.disclosed_recipients@.len() - i,
    {
        if body.disclosed_recipients[i].public_encryption_key.len() != 32
            || body.disclosed_recipients[i].public_signing_key.len() != 32 {
            proof {
                if has {
                    assert(body.view() == v);
                    assert(public_half_views(body.disclosed_recipients@)[i as int] == body.disclosed_recipients@[i as int].view());
                    assert(v.disclosed_recipients[i as int].encryption.len() == 32);
                }
            }
            return None;
        }
        i = i + 1;
    }
    let ghost bv = body.view();
    let ghost sender_v = PublicHalfView { encryption: encryption@, signing: signing@ };
    let message = Message {
        sender: PublicHalf { public_encryption_key: encryption, public_signing_key: signing },
        in_reply_to: body.in_reply_to,
        disclosed_recipients: body.disclosed_recipients,
        rich_text_format: body.rich_text_format,
        content: body.content,
        attachments: body.attachments,
    };
    proof {
        assert(body_view_of(message, bv.nonce) == bv);
        assert forall|k: int| 0 <= k < bv.disclosed_recipients.len() implies (#[trigger] bv.disclosed_recipients[k]).encryption.len() == 32
            && bv.disclosed_recipients[k].signing.len() == 32 by {
            assert(bv.disclosed_recipients[k] == message.disclosed_recipients@[k].view());
        }
        assert(unverified_bytes(sender_v.encryption, sender_v.signing, payload@) == plaintext@);
        assert(signs_body(plaintext@, message.sender.view(), body_view_of(message, bv.nonce)));
    }
    Some(message)
}

/// Parses a public-half record: both keys must be 32 bytes long.
pub fn parse_public_half(plaintext: &[u8]) -> (r: Option<PublicHalf>)
    ensures
        r matches Some(p) ==> public_key_bytes(p.view()) == plaintext@ && p.public_encryption_key@.len() == 32
            && p.public_signing_key@.len() == 32,
        forall|v: PublicHalfView|
            #![trigger public_key_bytes(v)]
            public_key_bytes(v) == plaintext@ && v.encryption.len() == 32 && v.signing.len() == 32
                ==> (r matches Some(p) && p.view() == v),
{
    let p = match decode_public_key(plaintext) {
        Some(p) => p,
        None => return None,
    };
    if p.public_encryption_key.len() != 32 || p.public_signing_key.len() != 32 {
        return None;
    }
    Some(p)
}

/// Opens the announcement that `payload` may carry for the inbox whose id starts with
/// `first_ten`.
pub fn deobfuscate_public_half(payload: &[u8], first_ten: &[u8]) -> (r: Option<Vec<u8>>)
    ensures
        opt_bytes(r) == announcement_of(payload@, first_ten@),
{
    if payload.len() < 24 {
        return None;
    }
    let nonce = copy_range(payload, 0, 24);
    let sealed = copy_range(payload, 24, payload.len());
    let key = derive_public_half_encryption_key(first_ten);
    secretbox_open(sealed.as_slice(), nonce.as_slice(), key.as_slice())
}

/// The latest expiration time, in `inventory`, among the items that the derivations
/// of `(global_id, inbox_id)` in `ds` link to; items no longer stored are skipped.
pub open spec fn max_expiration(inventory: Seq<EntryView>, ds: Seq<Derivation>, global_id: Seq<u8>, inbox_id: Seq<u8>) -> Option<i64>
    decreases ds.len(),
{
    if ds.len() == 0 {
        None
    } else {
        let rest = max_expiration(inventory, ds.drop_last(), global_id, inbox_id);
        let d = ds.last();
        if d.global_id@ == global_id && d.inbox_id@ == inbox_id {
            match expiration_in(inventory, d.inventory_item@) {
                None => rest,
                Some(t) => match rest {
                    None => Some(t),
                    Some(m) => Some(if t > m { t } else { m }),
                },
            }
        } else {
            rest
        }
    }
}

/// The keys an encoded message is sealed for: the hidden recipients, the disclosed
/// recipients' encryption keys, then the sender's own encryption key.
pub open spec fn recipient_keys(hidden: Seq<Vec<u8>>, disclosed: Seq<PublicHalf>, own: Seq<u8>) -> Seq<Seq<u8>> {
    hidden.map_values(|h: Vec<u8>| h@) + disclosed.map_values(|p: PublicHalf| p.public_encryption_key@)
        + seq![own]
}

/// Whether the public half `p` has 32-byte keys, its id starts with `first_ten`, and
/// `payload` announces it under the key of `first_ten`.
pub open spec fn announces_prefix(payload: Seq<u8>, first_ten: Seq<u8>, p: PublicHalfView) -> bool {
    &&& p.encryption.len() == 32
    &&& p.signing.len() == 32
    &&& announcement_of(payload, first_ten) == Some(public_key_bytes(p))
    &&& public_half_id(p.encryption, p.signing).subrange(0, 10) == first_ten
}

/// Whether every public half of `found` is announced, with its id's prefix, by some
/// item of `inventory`.
pub open spec fn lookup_sound(inventory: Seq<EntryView>, first_ten: Seq<u8>, found: Seq<PublicHalf>) -> bool {
    forall|k: int| 0 <= k < found.len() ==> #[trigger] announced_in(inventory, first_ten, found[k].view())
}

/// Whether some item of `inventory` announces `v` with its id's prefix `first_ten`.
pub open spec fn announced_in(inventory: Seq<EntryView>, first_ten: Seq<u8>, v: PublicHalfView) -> bool {
    exists|i: int| 0 <= i < inventory.len() && #[trigger] announces_prefix(inventory[i].payload, first_ten, v)
}

/// Whether dumped message `n` reports stored message `o`: same ids and type, and the
/// latest expiration among its stored witnesses.
pub open spec fn dump_matches(n: StoredMessage, o: MessageRecord, inventory: Seq<EntryView>, ds: Seq<Derivation>) -> bool {
    &&& n.global_id@ == o.global_id@
    &&& n.inbox_id@ == o.inbox_id@
    &&& n.message_type == o.message_type
    &&& n.expiration_time == max_expiration(inventory, ds, o.global_id@, o.inbox_id@)
    &&& exists|nonce: Seq<u8>| signs_body(o.plaintext@, n.message.sender.view(), body_view_of(n.message, nonce))
}

/// Whether a stored message's plaintext parses as a signed message.
pub open spec fn parseable(m: MessageRecord) -> bool {
    exists|s: PublicHalfView, v: MessageBodyView| #[trigger] signs_body(m.plaintext@, s, v)
}

/// The public halves that the items of `inventory` announce under the key of
/// `first_ten`, with 32-byte keys and an id that starts with `first_ten`, in order.
pub open spec fn announced_halves(inventory: Seq<EntryView>, first_ten: Seq<u8>) -> Seq<PublicHalfView>
    decreases inventory.len(),
{
    if inventory.len() == 0 {
        Seq::empty()
    } else {
        let rest = announced_halves(inventory.drop_last(), first_ten);
        if exists|v: PublicHalfView| announces_prefix(inventory.last().payload, first_ten, v) {
            rest.push(choose|v: PublicHalfView| announces_prefix(inventory.last().payload, first_ten, v))
        } else {
            rest
        }
    }
}

/// Whether an item expiring at `t` extends a stored message whose latest known
/// expiration is `known`.
pub open spec fn extends(known: Option<i64>, t: i64) -> bool {
    match known {
        None => true,
        Some(m) => t > m,
    }
}

/// The message type that inbox `inbox` gives new stored messages.
pub open spec fn ty_of(inbox: InboxRecord) -> MessageType {
    if inbox.autosave_preference == AutosavePreference::Autosave {
        MessageType::Saved
    } else {
        MessageType::Unsaved
    }
}

/// What deriving inventory item `hash`, with `payload` and `expiration_time`, for inbox
/// `index` does: `before` becomes `after` and `r` is reported. An announcement of the
/// inbox's public half is reported as such; an item that does not decrypt for the inbox
/// changes nothing; a further witness of a stored message is recorded and reported when
/// it extends that message's life; a new stored message whose plaintext parses is
/// stored, saved or not by the inbox's preference, and reported.
pub open spec fn derive_step(
    before: DerivedState,
    after: DerivedState,
    r: Option<Event>,
    inventory: Seq<EntryView>,
    hash: Seq<u8>,
    payload: Seq<u8>,
    expiration_time: i64,
    index: int,
) -> bool {
    &&& after.inboxes == before.inboxes
    &&& after.contacts == before.contacts
    &&& {
        let inbox = before.inboxes@[index];
        let iid = inbox.global_id@;
        if announces(payload, inbox) {
            &&& r matches Some(Event::Inbox { global_id: g, expiration_time: t }) && g@ == iid
                && t == expiration_time
            &&& after.messages == before.messages
            &&& after.derivations == before.derivations
            &&& expiry_recorded(
                expiry_view(before.inbox_expiration_times@),
                expiry_view(after.inbox_expiration_times@),
                iid,
                expiration_time,
            )
        } else {
            &&& after.inbox_expiration_times == before.inbox_expiration_times
            &&& match open_envelope(payload, inbox.private_encryption_key@) {
                None => {
                    &&& r is None
                    &&& after.messages == before.messages
                    &&& after.derivations == before.derivations
                },
                Some(pt) => {
                    let gid = message_id(pt);
                    if has_derivation_for(before.derivations@, gid, iid) {
                        &&& after.messages == before.messages
                        &&& after.derivations@.len() == before.derivations@.len() + 1
                        &&& after.derivations@.drop_last() == before.derivations@
                        &&& after.derivations@.last().inventory_item@ == hash
                        &&& after.derivations@.last().global_id@ == gid
                        &&& after.derivations@.last().inbox_id@ == iid
                        &&& (r is Some <==> extends(
                            max_expiration(inventory, before.derivations@, gid, iid),
                            expiration_time,
                        ))
                        &&& r matches Some(e) ==> e matches Event::MessageExpirationTimeExtended {
                            global_id: g,
                            inbox_id: i,
                            expiration_time: t,
                        } && g@ == gid && i@ == iid && t == expiration_time
                    } else if exists|s: PublicHalfView, v: MessageBodyView| #[trigger] signs_body(pt, s, v) {
                        &&& r matches Some(Event::Message {
                            message: m,
                            message_type: ty,
                            global_id: g,
                            inbox_id: i,
                            expiration_time: t,
                        }) && g@ == gid && i@ == iid && t == expiration_time && ty == (if inbox.autosave_preference == AutosavePreference::Autosave {
                            MessageType::Saved
                        } else {
                            MessageType::Unsaved
                        }) && (exists|n: Seq<u8>| signs_body(pt, m.sender.view(), body_view_of(m, n)))
                        &&& after.derivations@ == before.derivations@.push(after.derivations@.last())
                        &&& after.derivations@.last().inventory_item@ == hash
                        &&& after.derivations@.last().global_id@ == gid
                        &&& after.derivations@.last().inbox_id@ == iid
                        &&& after.messages@.last().global_id@ == gid
                        &&& after.messages@.last().inbox_id@ == iid
                        &&& after.messages@.last().plaintext@ == pt
                        &&& after.messages@.last().message_type == ty_of(inbox)
                        &&& after.messages@.drop_last() == before.messages@.filter(
                            |m: MessageRecord| !(m.global_id@ == gid && m.inbox_id@ == iid),
                        )
                    } else {
                        &&& r is None
                        &&& after.messages == before.messages
                        &&& after.derivations == before.derivations
                    }
                },
            }
        }
    }
}

/// The events that a sequence of per-inbox results reports, in order.
pub open spec fn reported(outs: Seq<Option<Event>>) -> Seq<Event>
    decreases outs.len(),
{
    if outs.len() == 0 {
        Seq::empty()
    } else {
        match outs.last() {
            Some(e) => reported(outs.drop_last()).push(e),
            None => reported(outs.drop_last()),
        }
    }
}

/// Whether `states` and `outs` record deriving one item for each inbox in turn:
/// step `i` takes `states[i]` to `states[i + 1]` for inbox `i` and reports `outs[i]`.
pub open spec fn derive_fold(
    states: Seq<DerivedState>,
    outs: Seq<Option<Event>>,
    inventory: Seq<EntryView>,
    hash: Seq<u8>,
    payload: Seq<u8>,
    expiration_time: i64,
) -> bool {
    &&& states.len() == outs.len() + 1
    &&& forall|i: int|
        0 <= i < outs.len() ==> #[trigger] derive_step(
            states[i],
            states[i + 1],
            outs[i],
            inventory,
            hash,
            payload,
            expiration_time,
            i,
        )
}

/// What handling the insertion of inventory item `hash` does: nothing for an item no
/// longer stored; otherwise the item is derived for every inbox in order, and the
/// events are those the inboxes report, in that order.
pub open spec fn insert_post(
    before: DerivedState,
    after: DerivedState,
    r: Seq<Event>,
    inventory: Seq<EntryView>,
    hash: Seq<u8>,
) -> bool {
    if holds(inventory, hash) {
        exists|e: int, states: Seq<DerivedState>, outs: Seq<Option<Event>>|
            #![trigger derive_fold(states, outs, inventory, hash, inventory[e].payload, inventory[e].expiration_time)]
            0 <= e < inventory.len() && inventory[e].hash == hash && derive_fold(
                states,
                outs,
                inventory,
                hash,
                inventory[e].payload,
                inventory[e].expiration_time,
            ) && outs.len() == before.inboxes@.len() && states[0] == before && states.last() == after
                && r == reported(outs)
    } else {
        after == before && r.len() == 0
    }
}

/// Whether no two stored messages share a global id and an inbox id.
pub open spec fn pairs_unique(ms: Seq<MessageRecord>) -> bool {
    forall|i: int, j: int|
        #![trigger ms[i], ms[j]]
        0 <= i < j < ms.len() ==> !(ms[i].global_id@ == ms[j].global_id@ && ms[i].inbox_id@ == ms[j].inbox_id@)
}

/// Whether no two announcement expirations belong to one inbox.
pub open spec fn expiry_ids_unique(times: Seq<(Vec<u8>, i64)>) -> bool {
    forall|i: int, j: int| #![trigger times[i], times[j]] 0 <= i < j < times.len() ==> times[i].0@ != times[j].0@
}

/// The announcement expirations as inbox ids with times.
pub open spec fn expiry_view(times: Seq<(Vec<u8>, i64)>) -> Seq<(Seq<u8>, i64)> {
    times.map_values(|p: (Vec<u8>, i64)| (p.0@, p.1))
}

/// Recording that inbox `id` is announced until `t` takes `before` to `after`: an
/// inbox already listed keeps the later of its time and `t`; a new one is appended.
pub open spec fn expiry_recorded(before: Seq<(Seq<u8>, i64)>, after: Seq<(Seq<u8>, i64)>, id: Seq<u8>, t: i64) -> bool {
    if exists|i: int| 0 <= i < before.len() && (#[trigger] before[i]).0 == id {
        &&& after.len() == before.len()
        &&& forall|i: int|
            0 <= i < before.len() ==> #[trigger] after[i] == (if before[i].0 == id {
                (id, if before[i].1 > t { before[i].1 } else { t })
            } else {
                before[i]
            })
    } else {
        after == before.push((id, t))
    }
}

/// The stored message that a record is, as its global id and inbox id.
pub open spec fn record_pair(m: MessageRecord) -> (Seq<u8>, Seq<u8>) {
    (m.global_id@, m.inbox_id@)
}

/// The stored message that an expiry event names; other events name nothing.
pub open spec fn expired_pair(e: Event) -> (Seq<u8>, Seq<u8>) {
    match e {
        Event::MessageExpired { global_id, inbox_id } => (global_id@, inbox_id@),
        _ => (Seq::empty(), Seq::empty()),
    }
}

/// What handling the purge of inventory item `hash` does: its derivations go; every
/// stored message that is not saved and that no remaining derivation references is
/// deleted; and exactly those messages are reported expired, in order.
pub open spec fn purge_post(before: DerivedState, after: DerivedState, r: Seq<Event>, hash: Seq<u8>) -> bool {
    &&& after.derivations@ == before.derivations@.filter(|d: Derivation| d.inventory_item@ != hash)
    &&& after.messages@ == before.messages@.filter(
        |m: MessageRecord|
            m.message_type == MessageType::Saved || has_derivation_for(after.derivations@, m.global_id@, m.inbox_id@),
    )
    &&& forall|i: int| 0 <= i < r.len() ==> #[trigger] r[i] is MessageExpired
    &&& r.map_values(|e: Event| expired_pair(e)) == before.messages@.filter(
        |m: MessageRecord|
            !(m.message_type == MessageType::Saved || has_derivation_for(after.derivations@, m.global_id@, m.inbox_id@)),
    ).map_values(|m: MessageRecord| record_pair(m))
    &&& after.inboxes == before.inboxes
    &&& after.contacts == before.contacts
    &&& after.inbox_expiration_times == before.inbox_expiration_times
}

impl DerivedState {
    /// Derivation accounting holds and every inbox has keys of the right lengths.
    pub open spec fn wf(&self) -> bool {
        &&& accounting(self.messages@, self.derivations@)
        &&& forall|i: int| 0 <= i < self.inboxes@.len() ==> inbox_keys_ok(#[trigger] self.inboxes@[i])
        &&& pairs_unique(self.messages@)
        &&& forall|k: int| 0 <= k < self.messages@.len() ==> parseable(#[trigger] self.messages@[k])
        &&& expiry_ids_unique(self.inbox_expiration_times@)
    }

    /// A state with nothing in it.
    pub fn new() -> (r: DerivedState)
        ensures
            r.wf(),
            r.inboxes@.len() == 0,
            r.messages@.len() == 0,
            r.derivations@.len() == 0,
            r.contacts@.len() == 0,
    {
        DerivedState {
            inboxes: Vec::new(),
            messages: Vec::new(),
            derivations: Vec::new(),
            contacts: Vec::new(),
            inbox_expiration_times: Vec::new(),
        }
    }

    /// Whether a derivation links to the stored message `(global_id, inbox_id)`.
    pub fn has_derivation(&self, global_id: &[u8], inbox_id: &[u8]) -> (r: bool)
        ensures
            r == has_derivation_for(self.derivations@, global_id@, inbox_id@),
    {
        let mut i: usize = 0;
        while i < self.derivations.len()
            invariant
                i <= self.derivations@.len(),
                forall|k: int|
                    0 <= k < i ==> !((#[trigger] self.derivations@[k]).global_id@ == global_id@
                        && self.derivations@[k].inbox_id@ == inbox_id@),
            decreases self.derivations@.len() - i,
        {
            let d = &self.derivations[i];
            if bytes_eq(d.global_id.as_slice(), global_id) && bytes_eq(d.inbox_id.as_slice(), inbox_id) {
                return true;
            }
            i = i + 1;
        }
        false
    }

    /// Applies the purge of inventory item `hash`: its derivations go, and each stored
    /// message that is not saved and that no derivation references any more is deleted
    /// and reported expired, in the order of the stored messages.
    pub fn on_purge(&mut self, hash: &[u8]) -> (r: Vec<Event>)
        requires
            old(self).wf(),
        ensures
            final(self).wf(),
            final(self).derivations@ == old(self).derivations@.filter(
                |d: Derivation| d.inventory_item@ != hash@,
            ),
            final(self).messages@ == old(self).messages@.filter(
                |m: MessageRecord|
                    m.message_type == MessageType::Saved || has_derivation_for(
                        final(self).derivations@,
                        m.global_id@,
                        m.inbox_id@,
                    ),
            ),
            r@.len() == old(self).messages@.len() - final(self).messages@.len(),
            forall|i: int| 0 <= i < r@.len() ==> #[trigger] r@[i] matches Event::MessageExpired { .. },
            purge_post(*old(self), *final(self), r@, hash@),
            final(self).inboxes == old(self).inboxes,
            final(self).contacts == old(self).contacts,
            final(self).inbox_expiration_times == old(self).inbox_expiration_times,
    {
        let ghost old_ds = self.derivations@;
        let ghost old_ms = self.messages@;
        // Drop the derivations of the purged item.
        let mut old_derivations: Vec<Derivation> = Vec::new();
        std::mem::swap(&mut self.derivations, &mut old_derivations);
        let ghost mut k: int = 0;
        while old_derivations.len() > 0
            invariant
                0 <= k <= old_ds.len(),
                old_derivations@.len() == old_ds.len() - k,
                forall|i: int| 0 <= i < old_derivations@.len() ==> #[trigger] old_derivations@[i] == old_ds[k + i],
                self.derivations@ == old_ds.subrange(0, k).filter(|d: Derivation| d.inventory_item@ != hash@),
                self.messages@ == old_ms,
                self.inboxes == old(self).inboxes,
                self.contacts == old(self).contacts,
                self.inbox_expiration_times == old(self).inbox_expiration_times,
                old_ds == old(self).derivations@,
            decreases old_derivations@.len(),
        {
            let d = old_derivations.remove(0);
            assert(d == old_ds[k]);
            assert forall|i: int| 0 <= i < old_derivations@.len() implies #[trigger] old_derivations@[i] == old_ds[k + 1 + i] by {}
            let ghost prefix = old_ds.subrange(0, k + 1);
            assert(prefix.drop_last() =~= old_ds.subrange(0, k));
            proof {
                reveal(Seq::filter);
                assert(prefix.filter(|d: Derivation| d.inventory_item@ != hash@) == (if d.inventory_item@ != hash@ {
                    old_ds.subrange(0, k).filter(|d: Derivation| d.inventory_item@ != hash@).push(d)
                } else {
                    old_ds.subrange(0, k).filter(|d: Derivation| d.inventory_item@ != hash@)
                }));
            }
            if !bytes_eq(d.inventory_item.as_slice(), hash) {
                self.derivations.push(d);
            }
            proof {
                k = k + 1;
            }
        }
        assert(old_ds.subrange(0, k) =~= old_ds);
        let ghost new_ds = self.derivations@;
        // Delete the unsaved messages that lost their last derivation.
        let mut events: Vec<Event> = Vec::new();
        let mut old_messages: Vec<MessageRecord> = Vec::new();
        std::mem::swap(&mut self.messages, &mut old_messages);
        let ghost mut j: int = 0;
        while old_messages.len() > 0
            invariant
                0 <= j <= old_ms.len(),
                old_messages@.len() == old_ms.len() - j,
                forall|i: int| 0 <= i < old_messages@.len() ==> #[trigger] old_messages@[i] == old_ms[j + i],
                self.derivations@ == new_ds,
                self.messages@ == old_ms.subrange(0, j).filter(
                    |m: MessageRecord|
                        m.message_type == MessageType::Saved || has_derivation_for(new_ds, m.global_id@, m.inbox_id@),
                ),
                events@.len() == j - self.messages@.len(),
                forall|i: int| 0 <= i < events@.len() ==> #[trigger] events@[i] matches Event::MessageExpired { .. },
                events@.map_values(|e: Event| expired_pair(e)) == old_ms.subrange(0, j).filter(
                    |m: MessageRecord|
                        !(m.message_type == MessageType::Saved || has_derivation_for(new_ds, m.global_id@, m.inbox_id@)),
                ).map_values(|m: MessageRecord| record_pair(m)),
                self.inboxes == old(self).inboxes,
                self.contacts == old(self).contacts,
                self.inbox_expiration_times == old(self).inbox_expiration_times,
                old_ms == old(self).messages@,
            decreases old_messages@.len(),
        {
            let m = old_messages.remove(0);
            assert(m == old_ms[j]);
            assert forall|i: int| 0 <= i < old_messages@.len() implies #[trigger] old_messages@[i] == old_ms[j + 1 + i] by {}
            let ghost prefix = old_ms.subrange(0, j + 1);
            assert(prefix.drop_last() =~= old_ms.subrange(0, j));
            let keep = m.message_type == MessageType::Saved || self.has_derivation(
                m.global_id.as_slice(),
                m.inbox_id.as_slice(),
            );
            proof {
                reveal(Seq::filter);
                let f = |m: MessageRecord|
                    m.message_type == MessageType::Saved || has_derivation_for(new_ds, m.global_id@, m.inbox_id@);
                assert(prefix.filter(f) == (if f(m) {
                    old_ms.subrange(0, j).filter(f).push(m)
                } else {
                    old_ms.subrange(0, j).filter(f)
                }));
                let g = |m: MessageRecord|
                    !(m.message_type == MessageType::Saved || has_derivation_for(new_ds, m.global_id@, m.inbox_id@));
                assert(prefix.filter(g) == (if g(m) {
                    old_ms.subrange(0, j).filter(g).push(m)
                } else {
                    old_ms.subrange(0, j).filter(g)
                }));
            }
            let ghost pair = record_pair(m);
            let ghost before_events = events@;
            if keep {
                self.messages.push(m);
            } else {
                events.push(Event::MessageExpired { global_id: m.global_id, inbox_id: m.inbox_id });
                assert(events@.map_values(|e: Event| expired_pair(e)) =~= before_events.map_values(
                    |e: Event| expired_pair(e),
                ).push(pair));
                assert(old_ms.subrange(0, j + 1).filter(
                    |m: MessageRecord|
                        !(m.message_type == MessageType::Saved || has_derivation_for(new_ds, m.global_id@, m.inbox_id@)),
                ).map_values(|m: MessageRecord| record_pair(m)) =~= old_ms.subrange(0, j).filter(
                    |m: MessageRecord|
                        !(m.message_type == MessageType::Saved || has_derivation_for(new_ds, m.global_id@, m.inbox_id@)),
                ).map_values(|m: MessageRecord| record_pair(m)).push(pair));
            }
            proof {
                j = j + 1;
            }
        }
        assert(old_ms.subrange(0, j) =~= old_ms);
        proof {
            broadcast use vstd::seq_lib::group_filter_ensures;
            let fd = |d: Derivation| d.inventory_item@ != hash@;
            let fm = |m: MessageRecord|
                m.message_type == MessageType::Saved || has_derivation_for(new_ds, m.global_id@, m.inbox_id@);
            let ms = self.messages@;
            assert forall|q: int| 0 <= q < ms.len() && (#[trigger] ms[q]).message_type == MessageType::Unsaved
                implies has_derivation_for(new_ds, ms[q].global_id@, ms[q].inbox_id@) by {
                assert(fm(ms[q]));
            }
            assert forall|d: int| 0 <= d < new_ds.len() implies has_record_for(ms, (#[trigger] new_ds[d]).global_id@, new_ds[d].inbox_id@) by {
                lemma_filter_member(old_ds, fd, d);
                let a = choose|a: int| 0 <= a < old_ds.len() && old_ds[a] == new_ds[d];
                assert(has_record_for(old_ms, old_ds[a].global_id@, old_ds[a].inbox_id@));
                let w = choose|w: int| 0 <= w < old_ms.len() && (#[trigger] old_ms[w]).global_id@ == old_ds[a].global_id@ && old_ms[w].inbox_id@ == old_ds[a].inbox_id@;
                assert(has_derivation_for(new_ds, old_ms[w].global_id@, old_ms[w].inbox_id@));
                assert(fm(old_ms[w]));
                old_ms.lemma_filter_contains(fm, w);
                let x = choose|x: int| 0 <= x < ms.len() && ms[x] == old_ms[w];
            }
        }
        proof {
            lemma_messages_filtered(
                old_ms,
                |m: MessageRecord|
                    m.message_type == MessageType::Saved || has_derivation_for(new_ds, m.global_id@, m.inbox_id@),
            );
        }
        events
    }

    /// Marks the stored message `(global_id, inbox_id)` saved, so that it outlives its
    /// inventory items.
    pub fn save_message(&mut self, global_id: &[u8], inbox_id: &[u8])
        requires
            old(self).wf(),
        ensures
            final(self).wf(),
            final(self).messages@.len() == old(self).messages@.len(),
            forall|k: int|
                0 <= k < old(self).messages@.len() ==> {
                    let m = #[trigger] old(self).messages@[k];
                    let n = final(self).messages@[k];
                    &&& n.global_id@ == m.global_id@
                    &&& n.inbox_id@ == m.inbox_id@
                    &&& n.plaintext@ == m.plaintext@
                    &&& n.message_type == (if m.global_id@ == global_id@ && m.inbox_id@ == inbox_id@ {
                        MessageType::Saved
                    } else {
                        m.message_type
                    })
                },
            final(self).derivations == old(self).derivations,
            final(self).inboxes == old(self).inboxes,
    {
        self.set_message_type(global_id, inbox_id, MessageType::Saved);
    }

    /// Gives up the stored message `(global_id, inbox_id)`: while a derivation still
    /// references it, it only becomes unsaved; otherwise it is deleted and reported
    /// expired.
    pub fn unsave_message(&mut self, global_id: &[u8], inbox_id: &[u8]) -> (r: Vec<Event>)
        requires
            old(self).wf(),
        ensures
            final(self).wf(),
            final(self).derivations == old(self).derivations,
            final(self).inboxes == old(self).inboxes,
            final(self).contacts == old(self).contacts,
            final(self).inbox_expiration_times == old(self).inbox_expiration_times,
            has_derivation_for(old(self).derivations@, global_id@, inbox_id@) ==> {
                &&& r@.len() == 0
                &&& final(self).messages@.len() == old(self).messages@.len()
                &&& forall|k: int|
                    0 <= k < old(self).messages@.len() ==> {
                        let m = #[trigger] old(self).messages@[k];
                        let n = final(self).messages@[k];
                        &&& n.plaintext@ == m.plaintext@
                        &&& n.global_id@ == m.global_id@
                        &&& n.inbox_id@ == m.inbox_id@
                        &&& n.message_type == (if m.global_id@ == global_id@ && m.inbox_id@
                            == inbox_id@ {
                            MessageType::Unsaved
                        } else {
                            m.message_type
                        })
                    }
            },
            !has_derivation_for(old(self).derivations@, global_id@, inbox_id@) ==> {
                &&& final(self).messages@ == old(self).messages@.filter(
                    |m: MessageRecord| !(m.global_id@ == global_id@ && m.inbox_id@ == inbox_id@),
                )
                &&& r@.len() == 1
                &&& r@[0] matches Event::MessageExpired { global_id: g, inbox_id: i } && g@
                    == global_id@ && i@ == inbox_id@
            },
    {
        if self.has_derivation(global_id, inbox_id) {
            self.set_message_type(global_id, inbox_id, MessageType::Unsaved);
            Vec::new()
        } else {
            self.remove_messages(Some(global_id), inbox_id);
            proof {
                let some_id: Option<&[u8]> = Some(global_id);
                let f1 = |m: MessageRecord|
                    !(m.inbox_id@ == inbox_id@ && (some_id is None || m.global_id@ == some_id->0@));
                let f2 = |m: MessageRecord| !(m.global_id@ == global_id@ && m.inbox_id@ == inbox_id@);
                assert(f1 =~= f2);
                assert forall|i: int, j: int|
                    #![trigger old(self).messages@[i], old(self).derivations@[j]]
                    0 <= i < old(self).messages@.len() && 0 <= j < old(self).derivations@.len()
                        && old(self).messages@[i].global_id@ == old(self).derivations@[j].global_id@
                        && old(self).messages@[i].inbox_id@ == old(self).derivations@[j].inbox_id@
                    implies f2(old(self).messages@[i]) by {
                    if !f2(old(self).messages@[i]) {
                        assert(has_derivation_for(old(self).derivations@, global_id@, inbox_id@));
                    }
                }
                lemma_accounting_filtered(
                    old(self).messages@,
                    old(self).derivations@,
                    f2,
                    |d: Derivation| true,
                );
                assert(old(self).derivations@.filter(|d: Derivation| true) =~= old(self).derivations@) by {
                    lemma_filter_all(old(self).derivations@);
                }
                lemma_messages_filtered(old(self).messages@, f2);
            }
            let mut events: Vec<Event> = Vec::new();
            events.push(
                Event::MessageExpired {
                    global_id: copy_range(global_id, 0, global_id.len()),
                    inbox_id: copy_range(inbox_id, 0, inbox_id.len()),
                },
            );
            assert(global_id@.subrange(0, global_id@.len() as int) =~= global_id@);
            assert(inbox_id@.subrange(0, inbox_id@.len() as int) =~= inbox_id@);
            events
        }
    }

    /// Deletes the stored messages of `inbox_id` (only `(global_id, inbox_id)` when a
    /// global id is given).
    fn remove_messages(&mut self, global_id: Option<&[u8]>, inbox_id: &[u8])
        ensures
            final(self).messages@ == old(self).messages@.filter(
                |m: MessageRecord|
                    !(m.inbox_id@ == inbox_id@ && (global_id is None || m.global_id@ == global_id->0@)),
            ),
            final(self).derivations == old(self).derivations,
            final(self).inboxes == old(self).inboxes,
            final(self).contacts == old(self).contacts,
            final(self).inbox_expiration_times == old(self).inbox_expiration_times,
    {
        let ghost old_ms = self.messages@;
        let ghost f = |m: MessageRecord|
            !(m.inbox_id@ == inbox_id@ && (global_id is None || m.global_id@ == global_id->0@));
        let mut old_messages: Vec<MessageRecord> = Vec::new();
        std::mem::swap(&mut self.messages, &mut old_messages);
        let ghost mut j: int = 0;
        while old_messages.len() > 0
            invariant
                0 <= j <= old_ms.len(),
                old_messages@.len() == old_ms.len() - j,
                forall|i: int| 0 <= i < old_messages@.len() ==> #[trigger] old_messages@[i] == old_ms[j + i],
                self.messages@ == old_ms.subrange(0, j).filter(
                    |m: MessageRecord|
                        !(m.inbox_id@ == inbox_id@ && (global_id is None || m.global_id@ == global_id->0@)),
                ),
                self.derivations == old(self).derivations,
                self.inboxes == old(self).inboxes,
                self.contacts == old(self).contacts,
                self.inbox_expiration_times == old(self).inbox_expiration_times,
                old_ms == old(self).messages@,
            decreases old_messages@.len(),
        {
            let m = old_messages.remove(0);
            assert(m == old_ms[j]);
            assert forall|i: int| 0 <= i < old_messages@.len() implies #[trigger] old_messages@[i] == old_ms[j + 1 + i] by {}
            let ghost prefix = old_ms.subrange(0, j + 1);
            assert(prefix.drop_last() =~= old_ms.subrange(0, j));
            let matches_id = match global_id {
                Some(g) => bytes_eq(m.global_id.as_slice(), g),
                None => true,
            };
            let remove = bytes_eq(m.inbox_id.as_slice(), inbox_id) && matches_id;
            proof {
                reveal(Seq::filter);
                let f = |m: MessageRecord|
                    !(m.inbox_id@ == inbox_id@ && (global_id is None || m.global_id@ == global_id->0@));
                assert(prefix.filter(f) == (if f(m) {
                    old_ms.subrange(0, j).filter(f).push(m)
                } else {
                    old_ms.subrange(0, j).filter(f)
                }));
            }
            if !remove {
                self.messages.push(m);
            }
            proof {
                j = j + 1;
            }
        }
        assert(old_ms.subrange(0, j) =~= old_ms);
    }

    /// Deletes an inbox with its derivations and stored messages.
    pub fn delete_inbox(&mut self, inbox_id: &[u8])
        requires
            old(self).wf(),
        ensures
            final(self).wf(),
            final(self).derivations@ == old(self).derivations@.filter(
                |d: Derivation| d.inbox_id@ != inbox_id@,
            ),
            final(self).messages@ == old(self).messages@.filter(|m: MessageRecord| m.inbox_id@ != inbox_id@),
            final(self).inboxes@ == old(self).inboxes@.filter(|r: InboxRecord| r.global_id@ != inbox_id@),
            final(self).contacts == old(self).contacts,
            final(self).inbox_expiration_times == old(self).inbox_expiration_times,
    {
        let ghost old_ms = self.messages@;
        let ghost old_ds = self.derivations@;
        self.remove_derivations_of_inbox(inbox_id);
        self.remove_messages(None, inbox_id);
        proof {
            let fm = |m: MessageRecord|
                !(m.inbox_id@ == inbox_id@ && (None::<&[u8]> is None || m.global_id@ == None::<&[u8]>->0@));
            let fd = |d: Derivation| d.inbox_id@ != inbox_id@;
            lemma_accounting_filtered(old_ms, old_ds, fm, fd);
            let fm2 = |m: MessageRecord| m.inbox_id@ != inbox_id@;
            assert(fm =~= fm2);
            lemma_messages_filtered(old_ms, fm2);
        }
        let ghost mid = self.inboxes@;
        let mut old_inboxes: Vec<InboxRecord> = Vec::new();
        std::mem::swap(&mut self.inboxes, &mut old_inboxes);
        let ghost mut j: int = 0;
        while old_inboxes.len() > 0
            invariant
                0 <= j <= mid.len(),
                old_inboxes@.len() == mid.len() - j,
                forall|i: int| 0 <= i < old_inboxes@.len() ==> #[trigger] old_inboxes@[i] == mid[j + i],
                self.inboxes@ == mid.subrange(0, j).filter(|r: InboxRecord| r.global_id@ != inbox_id@),
                mid == old(self).inboxes@,
                accounting(self.messages@, self.derivations@),
                self.messages@ == old(self).messages@.filter(|m: MessageRecord| m.inbox_id@ != inbox_id@),
                self.derivations@ == old(self).derivations@.filter(|d: Derivation| d.inbox_id@ != inbox_id@),
                self.contacts == old(self).contacts,
                self.inbox_expiration_times == old(self).inbox_expiration_times,
            decreases old_inboxes@.len(),
        {
            let r = old_inboxes.remove(0);
            assert(r == mid[j]);
            assert forall|i: int| 0 <= i < old_inboxes@.len() implies #[trigger] old_inboxes@[i] == mid[j + 1 + i] by {}
            let ghost prefix = mid.subrange(0, j + 1);
            assert(prefix.drop_last() =~= mid.subrange(0, j));
            proof {
                reveal(Seq::filter);
                let f = |r: InboxRecord| r.global_id@ != inbox_id@;
                assert(prefix.filter(f) == (if f(r) {
                    mid.subrange(0, j).filter(f).push(r)
                } else {
                    mid.subrange(0, j).filter(f)
                }));
            }
            if !bytes_eq(r.global_id.as_slice(), inbox_id) {
                self.inboxes.push(r);
            }
            proof {
                j = j + 1;
            }
        }
        assert(mid.subrange(0, j) =~= mid);
        proof {
            broadcast use vstd::seq_lib::group_filter_ensures;
            let f = |r: InboxRecord| r.global_id@ != inbox_id@;
            assert forall|i: int| 0 <= i < self.inboxes@.len() implies inbox_keys_ok(#[trigger] self.inboxes@[i]) by {
                lemma_inbox_filter_member(mid, f, i);
            }
        }
    }

    fn remove_derivations_of_inbox(&mut self, inbox_id: &[u8])
        ensures
            final(self).derivations@ == old(self).derivations@.filter(
                |d: Derivation| d.inbox_id@ != inbox_id@,
            ),
            final(self).messages == old(self).messages,
            final(self).inboxes == old(self).inboxes,
            final(self).contacts == old(self).contacts,
            final(self).inbox_expiration_times == old(self).inbox_expiration_times,
    {
        let ghost old_ds = self.derivations@;
        let mut old_derivations: Vec<Derivation> = Vec::new();
        std::mem::swap(&mut self.derivations, &mut old_derivations);
        let ghost mut k: int = 0;
        while old_derivations.len() > 0
            invariant
                0 <= k <= old_ds.len(),
                old_derivations@.len() == old_ds.len() - k,
                forall|i: int| 0 <= i < old_derivations@.len() ==> #[trigger] old_derivations@[i] == old_ds[k + i],
                self.derivations@ == old_ds.subrange(0, k).filter(|d: Derivation| d.inbox_id@ != inbox_id@),
                self.messages == old(self).messages,
                self.inboxes == old(self).inboxes,
                self.contacts == old(self).contacts,
                self.inbox_expiration_times == old(self).inbox_expiration_times,
                old_ds == old(self).derivations@,
            decreases old_derivations@.len(),
        {
            let d = old_derivations.remove(0);
            assert(d == old_ds[k]);
            assert forall|i: int| 0 <= i < old_derivations@.len() implies #[trigger] old_derivations@[i] == old_ds[k + 1 + i] by {}
            let ghost prefix = old_ds.subrange(0, k + 1);
            assert(prefix.drop_last() =~= old_ds.subrange(0, k));
            proof {
                reveal(Seq::filter);
                assert(prefix.filter(|d: Derivation| d.inbox_id@ != inbox_id@) == (if d.inbox_id@ != inbox_id@ {
                    old_ds.subrange(0, k).filter(|d: Derivation| d.inbox_id@ != inbox_id@).push(d)
                } else {
                    old_ds.subrange(0, k).filter(|d: Derivation| d.inbox_id@ != inbox_id@)
                }));
            }
            if !bytes_eq(d.inbox_id.as_slice(), inbox_id) {
                self.derivations.push(d);
            }
            proof {
                k = k + 1;
            }
        }
        assert(old_ds.subrange(0, k) =~= old_ds);
    }

    /// Creates an inbox with fresh keypairs and the given label; messages to it are
    /// not saved on arrival. Returns its global id and public half.
    pub fn new_inbox(&mut self, label: String) -> (r: (Vec<u8>, PublicHalf))
        requires
            old(self).wf(),
        ensures
            final(self).wf(),
            r.0@ == public_half_id(r.1.public_encryption_key@, r.1.public_signing_key@),
            final(self).inboxes@.len() == old(self).inboxes@.len() + 1,
            forall|i: int| 0 <= i < old(self).inboxes@.len() ==> #[trigger] final(self).inboxes@[i] == old(self).inboxes@[i],
            ({
                let n = final(self).inboxes@.last();
                &&& n.global_id@ == r.0@
                &&& n.label@ == label@
                &&& n.public_encryption_key@ == r.1.public_encryption_key@
                &&& n.public_signing_key@ == r.1.public_signing_key@
                &&& n.autosave_preference == AutosavePreference::Manual
            }),
            final(self).messages == old(self).messages,
            final(self).derivations == old(self).derivations,
            final(self).contacts == old(self).contacts,
    {
        let (public_encryption_key, private_encryption_key) = box_gen_keypair();
        let (public_signing_key, private_signing_key) = sign_gen_keypair();
        let global_id = calculate_public_half_id(
            public_encryption_key.as_slice(),
            public_signing_key.as_slice(),
        );
        let public_half = PublicHalf {
            public_encryption_key: clone_bytes(&public_encryption_key),
            public_signing_key: clone_bytes(&public_signing_key),
        };
        let id = clone_bytes(&global_id);
        self.inboxes.push(
            InboxRecord {
                global_id,
                label,
                public_encryption_key,
                private_encryption_key,
                public_signing_key,
                private_signing_key,
                autosave_preference: AutosavePreference::Manual,
            },
        );
        (id, public_half)
    }

    /// Sets the autosave preference of the inbox `inbox_id`.
    pub fn set_autosave_preference(&mut self, inbox_id: &[u8], autosave_preference: AutosavePreference)
        requires
            old(self).wf(),
        ensures
            final(self).wf(),
            final(self).inboxes@.len() == old(self).inboxes@.len(),
            forall|i: int|
                0 <= i < old(self).inboxes@.len() ==> {
                    let o = #[trigger] old(self).inboxes@[i];
                    let n = final(self).inboxes@[i];
                    &&& n.global_id@ == o.global_id@
                    &&& n.label@ == o.label@
                    &&& n.public_encryption_key@ == o.public_encryption_key@
                    &&& n.public_signing_key@ == o.public_signing_key@
                    &&& n.autosave_preference == (if o.global_id@ == inbox_id@ {
                        autosave_preference
                    } else {
                        o.autosave_preference
                    })
                },
            final(self).messages == old(self).messages,
            final(self).derivations == old(self).derivations,
    {
        let mut i: usize = 0;
        while i < self.inboxes.len()
            invariant
                i <= self.inboxes@.len() == old(self).inboxes@.len(),
                self.messages == old(self).messages,
                self.derivations == old(self).derivations,
                self.contacts == old(self).contacts,
                self.inbox_expiration_times == old(self).inbox_expiration_times,
                old(self).wf(),
                forall|k: int|
                    0 <= k < old(self).inboxes@.len() ==> {
                        let o = #[trigger] old(self).inboxes@[k];
                        let n = self.inboxes@[k];
                        &&& n.global_id@ == o.global_id@
                        &&& n.label@ == o.label@
                        &&& n.public_encryption_key@ == o.public_encryption_key@
                        &&& n.private_encryption_key@ == o.private_encryption_key@
                        &&& n.public_signing_key@ == o.public_signing_key@
                        &&& n.private_signing_key@ == o.private_signing_key@
                        &&& n.autosave_preference == (if k < i && o.global_id@ == inbox_id@ {
                            autosave_preference
                        } else {
                            o.autosave_preference
                        })
                    },
            decreases old(self).inboxes@.len() - i,
        {
            if bytes_eq(self.inboxes[i].global_id.as_slice(), inbox_id) {
                let mut r = self.inboxes.remove(i);
                r.autosave_preference = autosave_preference;
                self.inboxes.insert(i, r);
            }
            i = i + 1;
        }
        assert forall|k: int| 0 <= k < self.inboxes@.len() implies inbox_keys_ok(#[trigger] self.inboxes@[k]) by {
            assert(inbox_keys_ok(old(self).inboxes@[k]));
        }
    }

    /// Sets the label of the inbox `inbox_id`.
    pub fn set_inbox_label(&mut self, inbox_id: &[u8], label: String)
        requires
            old(self).wf(),
        ensures
            final(self).wf(),
            final(self).inboxes@.len() == old(self).inboxes@.len(),
            forall|i: int|
                0 <= i < old(self).inboxes@.len() ==> {
                    let o = #[trigger] old(self).inboxes@[i];
                    let n = final(self).inboxes@[i];
                    &&& n.global_id@ == o.global_id@
                    &&& n.label@ == (if o.global_id@ == inbox_id@ { label@ } else { o.label@ })
                    &&& n.public_encryption_key@ == o.public_encryption_key@
                    &&& n.public_signing_key@ == o.public_signing_key@
                    &&& n.autosave_preference == o.autosave_preference
                },
            final(self).messages == old(self).messages,
            final(self).derivations == old(self).derivations,
    {
        let mut i: usize = 0;
        while i < self.inboxes.len()
            invariant
                i <= self.inboxes@.len() == old(self).inboxes@.len(),
                self.messages == old(self).messages,
                self.derivations == old(self).derivations,
                self.contacts == old(self).contacts,
                self.inbox_expiration_times == old(self).inbox_expiration_times,
                old(self).wf(),
                forall|k: int|
                    0 <= k < old(self).inboxes@.len() ==> {
                        let o = #[trigger] old(self).inboxes@[k];
                        let n = self.inboxes@[k];
                        &&& n.global_id@ == o.global_id@
                        &&& n.label@ == (if k < i && o.global_id@ == inbox_id@ { label@ } else { o.label@ })
                        &&& n.public_encryption_key@ == o.public_encryption_key@
                        &&& n.private_encryption_key@ == o.private_encryption_key@
                        &&& n.public_signing_key@ == o.public_signing_key@
                        &&& n.private_signing_key@ == o.private_signing_key@
                        &&& n.autosave_preference == o.autosave_preference
                    },
            decreases old(self).inboxes@.len() - i,
        {
            if bytes_eq(self.inboxes[i].global_id.as_slice(), inbox_id) {
                let mut r = self.inboxes.remove(i);
                r.label = label.clone();
                self.inboxes.insert(i, r);
            }
            i = i + 1;
        }
        assert forall|k: int| 0 <= k < self.inboxes@.len() implies inbox_keys_ok(#[trigger] self.inboxes@[k]) by {
            assert(inbox_keys_ok(old(self).inboxes@[k]));
        }
    }

    fn find_contact(&self, contact_id: &[u8]) -> (r: Option<usize>)
        ensures
            r matches Some(i) ==> i < self.contacts@.len() && self.contacts@[i as int].global_id@ == contact_id@,
            r is None ==> forall|i: int| 0 <= i < self.contacts@.len() ==> (#[trigger] self.contacts@[i]).global_id@ != contact_id@,
    {
        let mut i: usize = 0;
        while i < self.contacts.len()
            invariant
                i <= self.contacts@.len(),
                forall|k: int| 0 <= k < i ==> (#[trigger] self.contacts@[k]).global_id@ != contact_id@,
            decreases self.contacts@.len() - i,
        {
            if bytes_eq(self.contacts[i].global_id.as_slice(), contact_id) {
                return Some(i);
            }
            i = i + 1;
        }
        None
    }

    /// Stores a contact under the global id of its public half and returns that id;
    /// `None`, with nothing stored, when a contact already holds that id.
    pub fn new_contact(&mut self, contact: Contact) -> (r: Option<Vec<u8>>)
        requires
            old(self).wf(),
        ensures
            final(self).wf(),
            final(self).messages == old(self).messages,
            final(self).derivations == old(self).derivations,
            final(self).inboxes == old(self).inboxes,
            (exists|i: int| 0 <= i < old(self).contacts@.len() && (#[trigger] old(self).contacts@[i]).global_id@
                == public_half_id(contact.public_half.public_encryption_key@, contact.public_half.public_signing_key@)) ==> {
                &&& r is None
                &&& final(self).contacts@ == old(self).contacts@
            },
            !(exists|i: int| 0 <= i < old(self).contacts@.len() && (#[trigger] old(self).contacts@[i]).global_id@
                == public_half_id(contact.public_half.public_encryption_key@, contact.public_half.public_signing_key@)) ==> {
                &&& r matches Some(id) && id@ == public_half_id(contact.public_half.public_encryption_key@, contact.public_half.public_signing_key@)
                &&& final(self).contacts@.len() == old(self).contacts@.len() + 1
                &&& forall|i: int| 0 <= i < old(self).contacts@.len() ==> #[trigger] final(self).contacts@[i] == old(self).contacts@[i]
                &&& final(self).contacts@.last().global_id@ == public_half_id(contact.public_half.public_encryption_key@, contact.public_half.public_signing_key@)
                &&& final(self).contacts@.last().label@ == contact.label@
                &&& final(self).contacts@.last().public_encryption_key@ == contact.public_half.public_encryption_key@
                &&& final(self).contacts@.last().public_signing_key@ == contact.public_half.public_signing_key@
            },
    {
        let global_id = calculate_public_half_id(
            contact.public_half.public_encryption_key.as_slice(),
            contact.public_half.public_signing_key.as_slice(),
        );
        if self.find_contact(global_id.as_slice()).is_some() {
            return None;
        }
        let id = clone_bytes(&global_id);
        self.contacts.push(
            ContactRecord {
                global_id,
                label: contact.label,
                public_encryption_key: contact.public_half.public_encryption_key,
                public_signing_key: contact.public_half.public_signing_key,
            },
        );
        Some(id)
    }

    /// Sets the label of the contact `contact_id`.
    pub fn set_contact_label(&mut self, contact_id: &[u8], label: String)
        requires
            old(self).wf(),
        ensures
            final(self).wf(),
            final(self).contacts@.len() == old(self).contacts@.len(),
            forall|i: int|
                0 <= i < old(self).contacts@.len() ==> {
                    let o = #[trigger] old(self).contacts@[i];
                    let n = final(self).contacts@[i];
                    &&& n.global_id@ == o.global_id@
                    &&& n.label@ == (if o.global_id@ == contact_id@ { label@ } else { o.label@ })
                    &&& n.public_encryption_key@ == o.public_encryption_key@
                    &&& n.public_signing_key@ == o.public_signing_key@
                },
            final(self).messages == old(self).messages,
            final(self).derivations == old(self).derivations,
            final(self).inboxes == old(self).inboxes,
    {
        let mut i: usize = 0;
        while i < self.contacts.len()
            invariant
                i <= self.contacts@.len() == old(self).contacts@.len(),
                self.messages == old(self).messages,
                self.derivations == old(self).derivations,
                self.inboxes == old(self).inboxes,
                self.inbox_expiration_times == old(self).inbox_expiration_times,
                forall|k: int|
                    0 <= k < old(self).contacts@.len() ==> {
                        let o = #[trigger] old(self).contacts@[k];
                        let n = self.contacts@[k];
                        &&& n.global_id@ == o.global_id@
                        &&& n.label@ == (if k < i && o.global_id@ == contact_id@ { label@ } else { o.label@ })
                        &&& n.public_encryption_key@ == o.public_encryption_key@
                        &&& n.public_signing_key@ == o.public_signing_key@
                    },
            decreases old(self).contacts@.len() - i,
        {
            if bytes_eq(self.contacts[i].global_id.as_slice(), contact_id) {
                let mut c = self.contacts.remove(i);
                c.label = label.clone();
                self.contacts.insert(i, c);
            }
            i = i + 1;
        }
    }

    /// Replaces the public half of the contact `contact_id`, which moves to the new
    /// public half's global id, and returns that id; `None`, with nothing changed, when
    /// another contact already holds it.
    pub fn set_contact_public_half(&mut self, contact_id: &[u8], public_half: PublicHalf) -> (r: Option<Vec<u8>>)
        requires
            old(self).wf(),
        ensures
            final(self).wf(),
            final(self).messages == old(self).messages,
            final(self).derivations == old(self).derivations,
            final(self).inboxes == old(self).inboxes,
            final(self).contacts@.len() == old(self).contacts@.len(),
            r is None <==> exists|i: int| 0 <= i < old(self).contacts@.len() && (#[trigger] old(self).contacts@[i]).global_id@
                == public_half_id(public_half.public_encryption_key@, public_half.public_signing_key@)
                && old(self).contacts@[i].global_id@ != contact_id@,
            r is None ==> final(self).contacts@ == old(self).contacts@,
            r matches Some(id) ==> id@ == public_half_id(public_half.public_encryption_key@, public_half.public_signing_key@)
                && forall|i: int|
                0 <= i < old(self).contacts@.len() ==> {
                    let o = #[trigger] old(self).contacts@[i];
                    let n = final(self).contacts@[i];
                    &&& n.label@ == o.label@
                    &&& o.global_id@ == contact_id@ ==> (n.global_id@ == id@ && n.public_encryption_key@
                        == public_half.public_encryption_key@ && n.public_signing_key@ == public_half.public_signing_key@)
                    &&& o.global_id@ != contact_id@ ==> n == o
                },
    {
        let new_id = calculate_public_half_id(
            public_half.public_encryption_key.as_slice(),
            public_half.public_signing_key.as_slice(),
        );
        let mut i: usize = 0;
        while i < self.contacts.len()
            invariant
                i <= self.contacts@.len(),
                *self == *old(self),
                old(self).wf(),
                new_id@ == public_half_id(public_half.public_encryption_key@, public_half.public_signing_key@),
                forall|k: int| 0 <= k < i ==> !((#[trigger] self.contacts@[k]).global_id@ == new_id@
                    && self.contacts@[k].global_id@ != contact_id@),
            decreases self.contacts@.len() - i,
        {
            if bytes_eq(self.contacts[i].global_id.as_slice(), new_id.as_slice()) && !bytes_eq(
                self.contacts[i].global_id.as_slice(),
                contact_id,
            ) {
                assert(old(self).contacts@[i as int].global_id@ == new_id@);
                return None;
            }
            i = i + 1;
        }
        let mut i: usize = 0;
        while i < self.contacts.len()
            invariant
                i <= self.contacts@.len() == old(self).contacts@.len(),
                self.messages == old(self).messages,
                self.derivations == old(self).derivations,
                self.inboxes == old(self).inboxes,
                self.inbox_expiration_times == old(self).inbox_expiration_times,
                new_id@ == public_half_id(public_half.public_encryption_key@, public_half.public_signing_key@),
                forall|k: int|
                    0 <= k < old(self).contacts@.len() ==> {
                        let o = #[trigger] old(self).contacts@[k];
                        let n = self.contacts@[k];
                        &&& n.label@ == o.label@
                        &&& (k < i && o.global_id@ == contact_id@) ==> (n.global_id@ == new_id@
                            && n.public_encryption_key@ == public_half.public_encryption_key@
                            && n.public_signing_key@ == public_half.public_signing_key@)
                        &&& !(k < i && o.global_id@ == contact_id@) ==> n == o
                    },
            decreases old(self).contacts@.len() - i,
        {
            if bytes_eq(self.contacts[i].global_id.as_slice(), contact_id) {
                let mut c = self.contacts.remove(i);
                c.global_id = clone_bytes(&new_id);
                c.public_encryption_key = clone_bytes(&public_half.public_encryption_key);
                c.public_signing_key = clone_bytes(&public_half.public_signing_key);
                self.contacts.insert(i, c);
            }
            i = i + 1;
        }
        Some(new_id)
    }

    /// Deletes the contact `contact_id`.
    pub fn delete_contact(&mut self, contact_id: &[u8])
        requires
            old(self).wf(),
        ensures
            final(self).wf(),
            forall|i: int| 0 <= i < final(self).contacts@.len() ==> (#[trigger] final(self).contacts@[i]).global_id@ != contact_id@,
            forall|i: int|
                0 <= i < old(self).contacts@.len() && (#[trigger] old(self).contacts@[i]).global_id@ != contact_id@
                    ==> exists|j: int| 0 <= j < final(self).contacts@.len() && final(self).contacts@[j] == old(self).contacts@[i],
            final(self).messages == old(self).messages,
            final(self).derivations == old(self).derivations,
            final(self).inboxes == old(self).inboxes,
    {
        let ghost old_cs = self.contacts@;
        let mut kept: Vec<ContactRecord> = Vec::new();
        let mut old_contacts: Vec<ContactRecord> = Vec::new();
        std::mem::swap(&mut self.contacts, &mut old_contacts);
        let ghost mut j: int = 0;
        while old_contacts.len() > 0
            invariant
                0 <= j <= old_cs.len(),
                old_contacts@.len() == old_cs.len() - j,
                forall|i: int| 0 <= i < old_contacts@.len() ==> #[trigger] old_contacts@[i] == old_cs[j + i],
                forall|i: int| 0 <= i < kept@.len() ==> (#[trigger] kept@[i]).global_id@ != contact_id@,
                forall|i: int|
                    0 <= i < j && (#[trigger] old_cs[i]).global_id@ != contact_id@ ==> exists|k: int|
                        0 <= k < kept@.len() && kept@[k] == old_cs[i],
                old_cs == old(self).contacts@,
            decreases old_contacts@.len(),
        {
            let c = old_contacts.remove(0);
            assert(c == old_cs[j]);
            assert forall|i: int| 0 <= i < old_contacts@.len() implies #[trigger] old_contacts@[i] == old_cs[j + 1 + i] by {}
            if !bytes_eq(c.global_id.as_slice(), contact_id) {
                let ghost before = kept@;
                kept.push(c);
                assert forall|i: int|
                    0 <= i < j + 1 && (#[trigger] old_cs[i]).global_id@ != contact_id@ implies exists|k: int|
                        0 <= k < kept@.len() && kept@[k] == old_cs[i] by {
                    if i < j {
                        let k = choose|k: int| 0 <= k < before.len() && before[k] == old_cs[i];
                        assert(kept@[k] == before[k]);
                    } else {
                        assert(kept@[before.len() as int] == old_cs[i]);
                    }
                }
            }
            proof {
                j = j + 1;
            }
        }
        let ghost kv = kept@;
        self.contacts = kept;
        assert(self.contacts@ == kv);
        assert(j == old_cs.len());
        assert forall|i: int|
            0 <= i < old(self).contacts@.len() && (#[trigger] old(self).contacts@[i]).global_id@ != contact_id@
                implies exists|j: int| 0 <= j < self.contacts@.len() && self.contacts@[j] == old(self).contacts@[i] by {
            assert(old_cs[i] == old(self).contacts@[i]);
            let k = choose|k: int| 0 <= k < kv.len() && kv[k] == old_cs[i];
            assert(self.contacts@[k] == old(self).contacts@[i]);
        }
    }

    /// The latest expiration time among the stored items that derive the stored
    /// message `(global_id, inbox_id)`.
    pub fn stored_message_expiration_time(&self, inventory: &Inventory, global_id: &[u8], inbox_id: &[u8]) -> (r: Option<i64>)
        requires
            inventory.wf(),
        ensures
            r == max_expiration(inventory@, self.derivations@, global_id@, inbox_id@),
    {
        let mut best: Option<i64> = None;
        let mut i: usize = 0;
        while i < self.derivations.len()
            invariant
                inventory.wf(),
                i <= self.derivations@.len(),
                best == max_expiration(inventory@, self.derivations@.subrange(0, i as int), global_id@, inbox_id@),
            decreases self.derivations@.len() - i,
        {
            let d = &self.derivations[i];
            let ghost prefix = self.derivations@.subrange(0, i + 1);
            assert(prefix.drop_last() =~= self.derivations@.subrange(0, i as int));
            assert(prefix.last() == *d);
            if bytes_eq(d.global_id.as_slice(), global_id) && bytes_eq(d.inbox_id.as_slice(), inbox_id) {
                match inventory.get_expiration_time(d.inventory_item.as_slice()) {
                    None => {},
                    Some(t) => {
                        best = match best {
                            None => Some(t),
                            Some(m) => Some(if t > m { t } else { m }),
                        };
                    },
                }
            }
            i = i + 1;
        }
        assert(self.derivations@.subrange(0, i as int) =~= self.derivations@);
        best
    }

    /// Records that an announcement of inbox `inbox_id` lives until `expiration_time`,
    /// keeping the latest such time.
    fn record_inbox_expiration(&mut self, inbox_id: Vec<u8>, expiration_time: i64)
        requires
            old(self).wf(),
        ensures
            final(self).wf(),
            final(self).inboxes == old(self).inboxes,
            final(self).messages == old(self).messages,
            final(self).derivations == old(self).derivations,
            final(self).contacts == old(self).contacts,
            expiry_recorded(
                expiry_view(old(self).inbox_expiration_times@),
                expiry_view(final(self).inbox_expiration_times@),
                inbox_id@,
                expiration_time,
            ),
    {
        let ghost before = expiry_view(self.inbox_expiration_times@);
        let mut i: usize = 0;
        while i < self.inbox_expiration_times.len()
            invariant
                *self == *old(self),
                old(self).wf(),
                before == expiry_view(self.inbox_expiration_times@),
                i <= self.inbox_expiration_times@.len(),
                forall|k: int| 0 <= k < i ==> (#[trigger] self.inbox_expiration_times@[k]).0@ != inbox_id@,
            decreases self.inbox_expiration_times@.len() - i,
        {
            if bytes_eq(self.inbox_expiration_times[i].0.as_slice(), inbox_id.as_slice()) {
                let ghost old_times = self.inbox_expiration_times@;
                let (id, t) = self.inbox_expiration_times.remove(i);
                let latest = if t > expiration_time { t } else { expiration_time };
                self.inbox_expiration_times.insert(i, (id, latest));
                let ghost after = expiry_view(self.inbox_expiration_times@);
                assert(before[i as int].0 == inbox_id@);
                assert forall|k: int| 0 <= k < before.len() implies #[trigger] after[k] == (if before[k].0
                    == inbox_id@ {
                    (inbox_id@, if before[k].1 > expiration_time { before[k].1 } else { expiration_time })
                } else {
                    before[k]
                }) by {
                    if k != i {
                        assert(self.inbox_expiration_times@[k] == old_times[k]);
                        if k < i {
                            assert(old_times[k].0@ != old_times[i as int].0@);
                        } else {
                            assert(old_times[i as int].0@ != old_times[k].0@);
                        }
                    }
                }
                assert forall|a: int, b: int|
                    #![trigger self.inbox_expiration_times@[a], self.inbox_expiration_times@[b]]
                    0 <= a < b < self.inbox_expiration_times@.len() implies self.inbox_expiration_times@[a].0@
                    != self.inbox_expiration_times@[b].0@ by {
                    assert(self.inbox_expiration_times@[a].0@ == old_times[a].0@);
                    assert(self.inbox_expiration_times@[b].0@ == old_times[b].0@);
                }
                return;
            }
            i = i + 1;
        }
        let ghost old_times = self.inbox_expiration_times@;
        self.inbox_expiration_times.push((inbox_id, expiration_time));
        assert(expiry_view(self.inbox_expiration_times@) =~= before.push((inbox_id@, expiration_time)));
        assert forall|k: int| 0 <= k < before.len() implies (#[trigger] before[k]).0 != inbox_id@ by {
            assert(old_times[k].0@ != inbox_id@);
        }
        assert forall|a: int, b: int|
            #![trigger self.inbox_expiration_times@[a], self.inbox_expiration_times@[b]]
            0 <= a < b < self.inbox_expiration_times@.len() implies self.inbox_expiration_times@[a].0@
            != self.inbox_expiration_times@[b].0@ by {
            assert(self.inbox_expiration_times@[a] == old_times[a]);
            if b < old_times.len() {
                assert(self.inbox_expiration_times@[b] == old_times[b]);
            }
        }
    }

    /// Whether `payload` announces the public half of inbox `index`.
    pub fn announcement_matches(&self, payload: &[u8], index: usize) -> (r: bool)
        requires
            self.wf(),
            index < self.inboxes@.len(),
        ensures
            r == announces(payload@, self.inboxes@[index as int]),
    {
        let inbox = &self.inboxes[index];
        assert(inbox_keys_ok(self.inboxes@[index as int]));
        let first_ten = copy_range(inbox.global_id.as_slice(), 0, 10);
        let ghost keys = PublicHalfView {
            encryption: inbox.public_encryption_key@,
            signing: inbox.public_signing_key@,
        };
        let plaintext = match deobfuscate_public_half(payload, first_ten.as_slice()) {
            Some(p) => p,
            None => return false,
        };
        let public_half = match parse_public_half(plaintext.as_slice()) {
            Some(p) => p,
            None => return false,
        };
        let r = bytes_eq(public_half.public_encryption_key.as_slice(), inbox.public_encryption_key.as_slice())
            && bytes_eq(public_half.public_signing_key.as_slice(), inbox.public_signing_key.as_slice());
        proof {
            if r {
                assert(public_half.view() == keys);
            }
            if plaintext@ == public_key_bytes(keys) {
                assert(public_half.view() == keys);
            }
        }
        r
    }

    /// Derives what inventory item `hash`, with `payload` and `expiration_time`, means
    /// for inbox `index`: an announcement of the inbox's public half; nothing, when it
    /// does not decrypt for the inbox; a further witness of a stored message, reported
    /// when it extends that message's life; or a new stored message, saved or not by
    /// the inbox's preference, when its plaintext parses.
    #[verifier::rlimit(60)]
    pub fn derive_for_inbox(
        &mut self,
        inventory: &Inventory,
        hash: &[u8],
        payload: &[u8],
        expiration_time: i64,
        index: usize,
    ) -> (r: Option<Event>)
        requires
            old(self).wf(),
            inventory.wf(),
            index < old(self).inboxes@.len(),
        ensures
            final(self).wf(),
            final(self).inboxes == old(self).inboxes,
            final(self).contacts == old(self).contacts,
            derive_step(*old(self), *final(self), r, inventory@, hash@, payload@, expiration_time, index as int),
    {
        if self.announcement_matches(payload, index) {
            let inbox_id = clone_bytes(&self.inboxes[index].global_id);
            let reported = clone_bytes(&inbox_id);
            self.record_inbox_expiration(inbox_id, expiration_time);
            return Some(Event::Inbox { global_id: reported, expiration_time });
        }
        let message_type = if self.inboxes[index].autosave_preference == AutosavePreference::Autosave {
            MessageType::Saved
        } else {
            MessageType::Unsaved
        };
        let plaintext = match decrypt(payload, self.inboxes[index].private_encryption_key.as_slice()) {
            Some(p) => p,
            None => return None,
        };
        let global_id = calculate_message_id(plaintext.as_slice());
        let inbox_id = clone_bytes(&self.inboxes[index].global_id);
        if self.has_derivation(global_id.as_slice(), inbox_id.as_slice()) {
            let known = self.stored_message_expiration_time(inventory, global_id.as_slice(), inbox_id.as_slice());
            let ghost old_ds = self.derivations@;
            self.derivations.push(
                Derivation {
                    inventory_item: copy_range(hash, 0, hash.len()),
                    global_id: clone_bytes(&global_id),
                    inbox_id: clone_bytes(&inbox_id),
                },
            );
            assert(hash@.subrange(0, hash@.len() as int) =~= hash@);
            assert(self.derivations@.drop_last() =~= old_ds);
            proof {
                let ms = self.messages@;
                let ds = self.derivations@;
                assert forall|q: int| 0 <= q < ms.len() && (#[trigger] ms[q]).message_type == MessageType::Unsaved
                    implies has_derivation_for(ds, ms[q].global_id@, ms[q].inbox_id@) by {
                    let w = choose|w: int| 0 <= w < old_ds.len() && (#[trigger] old_ds[w]).global_id@ == ms[q].global_id@ && old_ds[w].inbox_id@ == ms[q].inbox_id@;
                    assert(ds[w] == old_ds[w]);
                }
                assert forall|d: int| 0 <= d < ds.len() implies has_record_for(ms, (#[trigger] ds[d]).global_id@, ds[d].inbox_id@) by {
                    if d < old_ds.len() {
                        assert(ds[d] == old_ds[d]);
                    } else {
                        let w = choose|w: int| 0 <= w < old_ds.len() && (#[trigger] old_ds[w]).global_id@ == global_id@ && old_ds[w].inbox_id@ == inbox_id@;
                        assert(has_record_for(ms, old_ds[w].global_id@, old_ds[w].inbox_id@));
                    }
                }
            }
            let extended = match known {
                None => true,
                Some(m) => expiration_time > m,
            };
            if extended {
                return Some(Event::MessageExpirationTimeExtended { global_id, inbox_id, expiration_time });
            }
            return None;
        }
        let message = match parse(plaintext.as_slice()) {
            Some(m) => m,
            None => return None,
        };
        let ghost old_ms = self.messages@;
        let ghost old_ds = self.derivations@;
        let gid_slice: &[u8] = global_id.as_slice();
        self.remove_messages(Some(gid_slice), inbox_id.as_slice());
        proof {
            let some_id: Option<&[u8]> = Some(gid_slice);
            let f1 = |m: MessageRecord|
                !(m.inbox_id@ == inbox_id@ && (some_id is None || m.global_id@ == some_id->0@));
            assert forall|i: int, j: int|
                #![trigger old_ms[i], old_ds[j]]
                0 <= i < old_ms.len() && 0 <= j < old_ds.len() && old_ms[i].global_id@ == old_ds[j].global_id@
                    && old_ms[i].inbox_id@ == old_ds[j].inbox_id@ implies f1(old_ms[i]) == (|d: Derivation| true)(old_ds[j]) by {
                if !f1(old_ms[i]) {
                    assert(has_derivation_for(old_ds, global_id@, inbox_id@));
                }
            }
            lemma_accounting_filtered(old_ms, old_ds, f1, |d: Derivation| true);
            lemma_filter_all(old_ds);
            let f2 = |m: MessageRecord| !(m.global_id@ == global_id@ && m.inbox_id@ == inbox_id@);
            assert(f1 =~= f2);
            assert(self.messages@ == old_ms.filter(f2));
            lemma_messages_filtered(old_ms, f2);
            assert forall|q: int| 0 <= q < self.messages@.len() implies !(#[trigger] self.messages@[q].global_id@
                == global_id@ && self.messages@[q].inbox_id@ == inbox_id@) by {
                lemma_filter_member(old_ms, f2, q);
            }
        }
        let ghost mid_ms = self.messages@;
        self.messages.push(
            MessageRecord {
                global_id: clone_bytes(&global_id),
                inbox_id: clone_bytes(&inbox_id),
                message_type,
                plaintext,
            },
        );
        self.derivations.push(
            Derivation {
                inventory_item: copy_range(hash, 0, hash.len()),
                global_id: clone_bytes(&global_id),
                inbox_id: clone_bytes(&inbox_id),
            },
        );
        assert(hash@.subrange(0, hash@.len() as int) =~= hash@);
        assert(self.derivations@ =~= old_ds.push(self.derivations@.last()));
        proof {
            let ms = self.messages@;
            let ds = self.derivations@;
            assert forall|q: int| 0 <= q < ms.len() && (#[trigger] ms[q]).message_type == MessageType::Unsaved
                implies has_derivation_for(ds, ms[q].global_id@, ms[q].inbox_id@) by {
                if q < mid_ms.len() {
                    assert(ms[q] == mid_ms[q]);
                    let w = choose|w: int| 0 <= w < old_ds.len() && (#[trigger] old_ds[w]).global_id@ == ms[q].global_id@ && old_ds[w].inbox_id@ == ms[q].inbox_id@;
                    assert(ds[w] == old_ds[w]);
                } else {
                    assert(ds[old_ds.len() as int].global_id@ == global_id@);
                }
            }
            assert forall|d: int| 0 <= d < ds.len() implies has_record_for(ms, (#[trigger] ds[d]).global_id@, ds[d].inbox_id@) by {
                if d < old_ds.len() {
                    assert(ds[d] == old_ds[d]);
                    let w = choose|w: int| 0 <= w < mid_ms.len() && (#[trigger] mid_ms[w]).global_id@ == ds[d].global_id@ && mid_ms[w].inbox_id@ == ds[d].inbox_id@;
                    assert(ms[w] == mid_ms[w]);
                } else {
                    assert(ms[mid_ms.len() as int].global_id@ == global_id@);
                }
            }
        }
        assert(self.messages@.drop_last() =~= mid_ms);
        proof {
            let gid = message_id(self.messages@.last().plaintext@);
            let iid = old(self).inboxes@[index as int].global_id@;
            let f2 = |m: MessageRecord| !(m.global_id@ == global_id@ && m.inbox_id@ == inbox_id@);
            let f3 = |m: MessageRecord| !(m.global_id@ == gid && m.inbox_id@ == iid);
            assert(f3 =~= f2);
        }
        Some(Event::Message { message, message_type, global_id, inbox_id, expiration_time })
    }

    /// Derives what a newly inserted inventory item means for every inbox, in order,
    /// and returns the events in that order. Nothing happens for an item that is no
    /// longer stored.
    pub fn on_insert(&mut self, inventory: &Inventory, hash: &[u8]) -> (r: Vec<Event>)
        requires
            old(self).wf(),
            inventory.wf(),
        ensures
            final(self).wf(),
            final(self).inboxes == old(self).inboxes,
            final(self).contacts == old(self).contacts,
            insert_post(*old(self), *final(self), r@, inventory@, hash@),
    {
        let message = match inventory.get_message(hash) {
            Some(m) => m,
            None => return Vec::new(),
        };
        let ghost e = choose|e: int|
            0 <= e < inventory@.len() && (#[trigger] inventory@[e]).hash == hash@ && inventory@[e].payload
                == message.payload@ && inventory@[e].nonce == message.nonce && inventory@[e].expiration_time
                == message.expiration_time;
        let ghost mut states: Seq<DerivedState> = seq![*self];
        let ghost mut outs: Seq<Option<Event>> = Seq::empty();
        let mut events: Vec<Event> = Vec::new();
        let mut i: usize = 0;
        while i < self.inboxes.len()
            invariant
                self.wf(),
                inventory.wf(),
                self.inboxes == old(self).inboxes,
                self.contacts == old(self).contacts,
                i <= self.inboxes@.len(),
                0 <= e < inventory@.len(),
                inventory@[e].hash == hash@,
                inventory@[e].payload == message.payload@,
                inventory@[e].expiration_time == message.expiration_time,
                outs.len() == i,
                states.len() == i + 1,
                states[0] == *old(self),
                states.last() == *self,
                derive_fold(states, outs, inventory@, hash@, message.payload@, message.expiration_time),
                events@ == reported(outs),
            decreases self.inboxes@.len() - i,
        {
            let ghost before_states = states;
            let ghost before_outs = outs;
            let out = self.derive_for_inbox(inventory, hash, message.payload.as_slice(), message.expiration_time, i);
            proof {
                states = states.push(*self);
                outs = outs.push(out);
                assert(outs.drop_last() =~= before_outs);
                assert forall|k: int| 0 <= k < outs.len() implies #[trigger] derive_step(
                    states[k],
                    states[k + 1],
                    outs[k],
                    inventory@,
                    hash@,
                    message.payload@,
                    message.expiration_time,
                    k,
                ) by {
                    if k < i {
                        assert(states[k] == before_states[k] && states[k + 1] == before_states[k + 1]);
                        assert(outs[k] == before_outs[k]);
                    } else {
                        assert(states[k] == before_states.last());
                    }
                }
            }
            match out {
                Some(ev) => events.push(ev),
                None => {},
            }
            i = i + 1;
        }
        assert(states.last() == *self);
        events
    }

    fn find_inbox(&self, inbox_id: &[u8]) -> (r: Option<usize>)
        ensures
            r matches Some(i) ==> i < self.inboxes@.len() && self.inboxes@[i as int].global_id@ == inbox_id@,
            r is None ==> forall|i: int| 0 <= i < self.inboxes@.len() ==> (#[trigger] self.inboxes@[i]).global_id@ != inbox_id@,
    {
        let mut i: usize = 0;
        while i < self.inboxes.len()
            invariant
                i <= self.inboxes@.len(),
                forall|k: int| 0 <= k < i ==> (#[trigger] self.inboxes@[k]).global_id@ != inbox_id@,
            decreases self.inboxes@.len() - i,
        {
            if bytes_eq(self.inboxes[i].global_id.as_slice(), inbox_id) {
                return Some(i);
            }
            i = i + 1;
        }
        None
    }

    /// Builds the payload that announces the public half of inbox `inbox_id`: a fresh
    /// nonce, then the public-half record sealed under the key of the id's first ten
    /// bytes. `None` when there is no such inbox.
    pub fn get_public_half_entry(&self, inbox_id: &[u8]) -> (r: Option<Vec<u8>>)
        requires
            self.wf(),
        ensures
            r is None <==> forall|i: int| 0 <= i < self.inboxes@.len() ==> (#[trigger] self.inboxes@[i]).global_id@ != inbox_id@,
            r matches Some(b) ==> exists|i: int|
                0 <= i < self.inboxes@.len() && (#[trigger] self.inboxes@[i]).global_id@ == inbox_id@
                    && announces(b@, self.inboxes@[i]) && b@.len() >= 24 && b@.subrange(24, b@.len() as int)
                    == secretbox_seal_of(
                    public_key_bytes(
                        PublicHalfView {
                            encryption: self.inboxes@[i].public_encryption_key@,
                            signing: self.inboxes@[i].public_signing_key@,
                        },
                    ),
                    b@.subrange(0, 24),
                    obfuscation_key(self.inboxes@[i].global_id@.subrange(0, 10)),
                ),
    {
        let index = match self.find_inbox(inbox_id) {
            Some(i) => i,
            None => return None,
        };
        let inbox = &self.inboxes[index];
        assert(inbox_keys_ok(self.inboxes@[index as int]));
        let record = encode_public_key(
            inbox.public_encryption_key.as_slice(),
            inbox.public_signing_key.as_slice(),
        );
        let first_ten = copy_range(inbox.global_id.as_slice(), 0, 10);
        let key = derive_public_half_encryption_key(first_ten.as_slice());
        let nonce = random_bytes(24);
        let sealed = secretbox_seal(record.as_slice(), nonce.as_slice(), key.as_slice());
        let mut blob: Vec<u8> = Vec::new();
        extend_bytes(&mut blob, nonce.as_slice());
        extend_bytes(&mut blob, sealed.as_slice());
        assert(blob@.subrange(0, 24) =~= nonce@);
        assert(blob@.subrange(24, blob@.len() as int) =~= sealed@);
        assert(announces(blob@, self.inboxes@[index as int]));
        Some(blob)
    }

    /// Encodes a message from inbox `inbox_id`: the inner message with a fresh 10-byte
    /// nonce, signed with the inbox's signing key, wrapped with the inbox's public keys,
    /// and sealed for the hidden recipients, the disclosed recipients and the inbox
    /// itself. `None` when there is no such inbox or a recipient key is unacceptable.
    pub fn encode_message(
        &self,
        in_reply_to: Option<Vec<u8>>,
        disclosed_recipients: Vec<PublicHalf>,
        rich_text_format: RichTextFormat,
        content: String,
        attachments: Vec<Attachment>,
        hidden_recipients: Vec<Vec<u8>>,
        inbox_id: &[u8],
    ) -> (r: Option<Vec<u8>>)
        requires
            self.wf(),
        ensures
            (forall|i: int| 0 <= i < self.inboxes@.len() ==> (#[trigger] self.inboxes@[i]).global_id@ != inbox_id@) ==> r is None,
            (exists|i: int| 0 <= i < self.inboxes@.len() && (#[trigger] self.inboxes@[i]).global_id@ == inbox_id@)
                ==> exists|i: int, n: Seq<u8>|
                #![trigger self.inboxes@[i], n.len()]
                0 <= i < self.inboxes@.len() && self.inboxes@[i].global_id@ == inbox_id@ && n.len() == 10
                    && sealed_exactly(
                    opt_bytes(r),
                    unverified_bytes(
                        self.inboxes@[i].public_encryption_key@,
                        self.inboxes@[i].public_signing_key@,
                        ed25519_sign_of(
                            body_bytes(
                                MessageBodyView {
                                    in_reply_to: opt_bytes(in_reply_to),
                                    nonce: n,
                                    content: content@,
                                    rich_text_format,
                                    disclosed_recipients: public_half_views(disclosed_recipients@),
                                    attachments: attachment_views(attachments@),
                                },
                            ),
                            self.inboxes@[i].private_signing_key@,
                        ),
                    ),
                    recipient_keys(
                        hidden_recipients@,
                        disclosed_recipients@,
                        self.inboxes@[i].public_encryption_key@,
                    ),
                ),
            r matches Some(ct) ==> exists|i: int, n: Seq<u8>|
                #![trigger self.inboxes@[i], n.len()]
                0 <= i < self.inboxes@.len() && self.inboxes@[i].global_id@ == inbox_id@ && n.len() == 10
                    && sealed_for(
                    ct@,
                    unverified_bytes(
                        self.inboxes@[i].public_encryption_key@,
                        self.inboxes@[i].public_signing_key@,
                        ed25519_sign_of(
                            body_bytes(
                                MessageBodyView {
                                    in_reply_to: opt_bytes(in_reply_to),
                                    nonce: n,
                                    content: content@,
                                    rich_text_format,
                                    disclosed_recipients: public_half_views(disclosed_recipients@),
                                    attachments: attachment_views(attachments@),
                                },
                            ),
                            self.inboxes@[i].private_signing_key@,
                        ),
                    ),
                    recipient_keys(
                        hidden_recipients@,
                        disclosed_recipients@,
                        self.inboxes@[i].public_encryption_key@,
                    ),
                ),
    {
        let index = match self.find_inbox(inbox_id) {
            Some(i) => i,
            None => return None,
        };
        let inbox = &self.inboxes[index];
        assert(inbox_keys_ok(self.inboxes@[index as int]));
        let ghost reply_view = opt_bytes(in_reply_to);
        let ghost disclosed_view = disclosed_recipients@;
        let ghost attachments_view = attachment_views(attachments@);
        let ghost content_view = content@;
        let nonce = random_bytes(10);
        let body = MessageBody {
            in_reply_to,
            nonce,
            content,
            rich_text_format,
            disclosed_recipients,
            attachments,
        };
        let encoded = encode_body(&body);
        let signed = sign(encoded.as_slice(), inbox.private_signing_key.as_slice());
        let plaintext = encode_unverified(
            inbox.public_encryption_key.as_slice(),
            inbox.public_signing_key.as_slice(),
            signed.as_slice(),
        );
        let mut recipients: Vec<&[u8]> = Vec::new();
        let mut i: usize = 0;
        while i < hidden_recipients.len()
            invariant
                i <= hidden_recipients@.len(),
                recipients@.len() == i,
                forall|k: int| 0 <= k < i ==> (#[trigger] recipients@[k])@ == hidden_recipients@[k]@,
            decreases hidden_recipients@.len() - i,
        {
            recipients.push(hidden_recipients[i].as_slice());
            i = i + 1;
        }
        let mut j: usize = 0;
        while j < body.disclosed_recipients.len()
            invariant
                j <= body.disclosed_recipients@.len(),
                recipients@.len() == hidden_recipients@.len() + j,
                forall|k: int| 0 <= k < hidden_recipients@.len() ==> (#[trigger] recipients@[k])@ == hidden_recipients@[k]@,
                forall|k: int| 0 <= k < j ==> (#[trigger] recipients@[hidden_recipients@.len() + k])@
                    == body.disclosed_recipients@[k].public_encryption_key@,
            decreases body.disclosed_recipients@.len() - j,
        {
            recipients.push(body.disclosed_recipients[j].public_encryption_key.as_slice());
            j = j + 1;
        }
        let ghost listed = recipients@;
        recipients.push(inbox.public_encryption_key.as_slice());
        let ghost keys = recipient_keys(hidden_recipients@, body.disclosed_recipients@, inbox.public_encryption_key@);
        assert(crate::private_box::key_views(recipients@) =~= keys) by {
            assert forall|k: int| 0 <= k < keys.len() implies crate::private_box::key_views(recipients@)[k] == keys[k] by {
                let h = hidden_recipients@.len() as int;
                if k < h {
                    assert(recipients@[k] == listed[k]);
                } else if k < h + j {
                    let k2 = k - h;
                    assert(listed[h + k2]@ == body.disclosed_recipients@[k2].public_encryption_key@);
                    assert(recipients@[k] == listed[k]);
                }
            }
        }
        let r = encrypt(plaintext.as_slice(), recipients.as_slice());
        proof {
            assert(body.view() == MessageBodyView {
                in_reply_to: reply_view,
                nonce: body.nonce@,
                content: content_view,
                rich_text_format,
                disclosed_recipients: public_half_views(disclosed_view),
                attachments: attachments_view,
            });
            assert(self.inboxes@[index as int].global_id@ == inbox_id@ && body.nonce@.len() == 10);
            if r is Some {
                assert(body.view() == MessageBodyView {
                    in_reply_to: reply_view,
                    nonce: body.nonce@,
                    content: content_view,
                    rich_text_format,
                    disclosed_recipients: public_half_views(disclosed_view),
                    attachments: attachments_view,
                });
                assert(self.inboxes@[index as int].global_id@ == inbox_id@ && body.nonce@.len() == 10);
            }
        }
        r
    }

    /// Scans the inventory in insertion order for announcements under the key of
    /// `first_ten` and returns, in that order, each announced public half with 32-byte
    /// keys whose id starts with `first_ten`.
    pub fn lookup_public_half(&self, inventory: &Inventory, first_ten: &[u8]) -> (r: Vec<PublicHalf>)
        requires
            inventory.wf(),
            first_ten@.len() == 10,
        ensures
            public_half_views(r@) == announced_halves(inventory@, first_ten@),
            lookup_sound(inventory@, first_ten@, r@),
    {
        let ghost inv = inventory@;
        let mut found: Vec<PublicHalf> = Vec::new();
        let mut counter: u128 = 0;
        let ghost mut m: int = 0;
        assert(inv.subrange(0, 0) =~= Seq::<EntryView>::empty());
        loop
            invariant
                inventory.wf(),
                inv == inventory@,
                first_ten@.len() == 10,
                0 <= m <= inv.len(),
                forall|j: int| 0 <= j < m ==> (#[trigger] inv[j]).counter <= counter,
                forall|j: int| m <= j < inv.len() ==> (#[trigger] inv[j]).counter > counter,
                public_half_views(found@) == announced_halves(inv.subrange(0, m), first_ten@),
                lookup_sound(inv, first_ten@, found@),
            decreases u128::MAX - counter,
        {
            let (hash, next) = match inventory.get_one_after_counter(counter) {
                Some(x) => x,
                None => {
                    assert(m == inv.len()) by {
                        if m < inv.len() {
                            assert(inv[m].counter > counter);
                        }
                    }
                    assert(inv.subrange(0, m) =~= inv);
                    return found;
                },
            };
            let ghost e = choose|e: int|
                0 <= e < inv.len() && (#[trigger] inv[e]).counter == next && inv[e].hash == hash@ && next > counter
                    && forall|j: int| 0 <= j < e ==> (#[trigger] inv[j]).counter <= counter;
            assert(e == m) by {
                if e < m {
                    assert(inv[e].counter <= counter);
                } else if e > m {
                    assert(inv[m].counter <= counter);
                }
            }
            let message = match inventory.get_message(hash.as_slice()) {
                Some(msg) => msg,
                None => {
                    // The hash was just handed out by the same inventory.
                    assert(false);
                    return found;
                },
            };
            proof {
                let w = choose|w: int|
                    0 <= w < inv.len() && (#[trigger] inv[w]).hash == hash@ && inv[w].payload == message.payload@
                        && inv[w].nonce == message.nonce && inv[w].expiration_time == message.expiration_time;
                if w < e {
                    assert(inv[w].hash != inv[e].hash);
                } else if w > e {
                    assert(inv[e].hash != inv[w].hash);
                }
            }
            let ghost before = found@;
            let ghost payload = inv[e].payload;
            let ghost prefix = inv.subrange(0, m + 1);
            assert(prefix.drop_last() =~= inv.subrange(0, m));
            assert(prefix.last() == inv[e]);
            let mut added = false;
            if let Some(plaintext) = deobfuscate_public_half(message.payload.as_slice(), first_ten) {
                if let Some(public_half) = parse_public_half(plaintext.as_slice()) {
                    let id = calculate_public_half_id(
                        public_half.public_encryption_key.as_slice(),
                        public_half.public_signing_key.as_slice(),
                    );
                    let id_prefix = copy_range(id.as_slice(), 0, 10);
                    if bytes_eq(id_prefix.as_slice(), first_ten) {
                        assert(announces_prefix(payload, first_ten@, public_half.view()));
                        proof {
                            let c = choose|v: PublicHalfView| announces_prefix(payload, first_ten@, v);
                            assert(public_key_bytes(c) == plaintext@);
                        }
                        found.push(public_half);
                        added = true;
                    } else {
                        assert forall|v: PublicHalfView| !announces_prefix(payload, first_ten@, v) by {
                            if announces_prefix(payload, first_ten@, v) {
                                assert(public_key_bytes(v) == plaintext@);
                            }
                        }
                    }
                } else {
                    assert forall|v: PublicHalfView| !announces_prefix(payload, first_ten@, v) by {
                        if announces_prefix(payload, first_ten@, v) {
                            assert(public_key_bytes(v) == plaintext@);
                        }
                    }
                }
            }
            proof {
                assert(public_half_views(found@) =~= announced_halves(prefix, first_ten@));
                assert forall|k: int| 0 <= k < found@.len() implies #[trigger] announced_in(inv, first_ten@, found@[k].view()) by {
                    if k < before.len() {
                        assert(found@[k] == before[k]);
                        assert(announced_in(inv, first_ten@, before[k].view()));
                    } else {
                        assert(announces_prefix(inv[e].payload, first_ten@, found@[k].view()));
                    }
                }
                assert forall|j: int| 0 <= j < m + 1 implies (#[trigger] inv[j]).counter <= next by {
                    if j < e {
                        assert(inv[j].counter <= counter);
                    }
                }
                assert forall|j: int| m + 1 <= j < inv.len() implies (#[trigger] inv[j]).counter > next by {
                    assert(inv[e].counter < inv[j].counter);
                }
                m = m + 1;
            }
            counter = next;
        }
    }

    /// Lists the inboxes, the stored messages whose plaintext parses (with the latest
    /// expiration among their stored witnesses), the contacts, and the latest
    /// announcement expiration of each inbox.
    pub fn request_state_dump(&self, inventory: &Inventory) -> (r: StateDump)
        requires
            self.wf(),
            inventory.wf(),
        ensures
            r.inboxes@.len() == self.inboxes@.len(),
            forall|i: int|
                0 <= i < self.inboxes@.len() ==> {
                    let o = #[trigger] self.inboxes@[i];
                    let n = r.inboxes@[i];
                    &&& n.global_id@ == o.global_id@
                    &&& n.label@ == o.label@
                    &&& n.public_half.public_encryption_key@ == o.public_encryption_key@
                    &&& n.public_half.public_signing_key@ == o.public_signing_key@
                    &&& n.autosave_preference == o.autosave_preference
                },
            r.contacts@.len() == self.contacts@.len(),
            forall|i: int|
                0 <= i < self.contacts@.len() ==> {
                    let o = #[trigger] self.contacts@[i];
                    let n = r.contacts@[i];
                    &&& n.global_id@ == o.global_id@
                    &&& n.contact.label@ == o.label@
                    &&& n.contact.public_half.public_encryption_key@ == o.public_encryption_key@
                    &&& n.contact.public_half.public_signing_key@ == o.public_signing_key@
                },
            r.stored_messages@.len() == self.messages@.filter(|m: MessageRecord| parseable(m)).len(),
            forall|k: int|
                #![trigger r.stored_messages@[k]]
                0 <= k < r.stored_messages@.len() ==> dump_matches(
                    r.stored_messages@[k],
                    self.messages@.filter(|m: MessageRecord| parseable(m))[k],
                    inventory@,
                    self.derivations@,
                ),
            r.stored_messages@.len() == self.messages@.len(),
            forall|k: int|
                #![trigger r.stored_messages@[k]]
                0 <= k < r.stored_messages@.len() ==> dump_matches(
                    r.stored_messages@[k],
                    self.messages@[k],
                    inventory@,
                    self.derivations@,
                ),
            r.inbox_expiration_times@.len() == self.inbox_expiration_times@.len(),
            forall|i: int|
                0 <= i < self.inbox_expiration_times@.len() ==> (#[trigger] r.inbox_expiration_times@[i]).inbox_id@
                    == self.inbox_expiration_times@[i].0@ && r.inbox_expiration_times@[i].expiration_time
                    == self.inbox_expiration_times@[i].1,
    {
        let mut inboxes: Vec<Inbox> = Vec::new();
        let mut i: usize = 0;
        while i < self.inboxes.len()
            invariant
                i <= self.inboxes@.len(),
                inboxes@.len() == i,
                forall|k: int|
                    0 <= k < i ==> {
                        let o = #[trigger] self.inboxes@[k];
                        let n = inboxes@[k];
                        &&& n.global_id@ == o.global_id@
                        &&& n.label@ == o.label@
                        &&& n.public_half.public_encryption_key@ == o.public_encryption_key@
                        &&& n.public_half.public_signing_key@ == o.public_signing_key@
                        &&& n.autosave_preference == o.autosave_preference
                    },
            decreases self.inboxes@.len() - i,
        {
            let o = &self.inboxes[i];
            inboxes.push(
                Inbox {
                    global_id: clone_bytes(&o.global_id),
                    label: o.label.clone(),
                    public_half: PublicHalf {
                        public_encryption_key: clone_bytes(&o.public_encryption_key),
                        public_signing_key: clone_bytes(&o.public_signing_key),
                    },
                    autosave_preference: o.autosave_preference,
                },
            );
            i = i + 1;
        }
        let mut stored_messages: Vec<StoredMessage> = Vec::new();
        let mut j: usize = 0;
        while j < self.messages.len()
            invariant
                inventory.wf(),
                j <= self.messages@.len(),
                stored_messages@.len() == self.messages@.subrange(0, j as int).filter(|m: MessageRecord| parseable(m)).len(),
                forall|k: int|
                    #![trigger stored_messages@[k]]
                    0 <= k < stored_messages@.len() ==> dump_matches(
                        stored_messages@[k],
                        self.messages@.subrange(0, j as int).filter(|m: MessageRecord| parseable(m))[k],
                        inventory@,
                        self.derivations@,
                    ),
            decreases self.messages@.len() - j,
        {
            let o = &self.messages[j];
            let ghost prefix = self.messages@.subrange(0, j + 1);
            let ghost fp = self.messages@.subrange(0, j as int).filter(|m: MessageRecord| parseable(m));
            assert(prefix.drop_last() =~= self.messages@.subrange(0, j as int));
            assert(prefix.last() == *o);
            proof {
                reveal(Seq::filter);
                let f = |m: MessageRecord| parseable(m);
                assert(prefix.filter(f) == (if f(*o) { fp.push(*o) } else { fp }));
            }
            let parsed = parse(o.plaintext.as_slice());
            assert(parsed is None ==> !parseable(*o));
            if let Some(message) = parsed {
                let expiration_time = self.stored_message_expiration_time(
                    inventory,
                    o.global_id.as_slice(),
                    o.inbox_id.as_slice(),
                );
                let ghost before = stored_messages@;
                stored_messages.push(
                    StoredMessage {
                        message,
                        expiration_time,
                        inbox_id: clone_bytes(&o.inbox_id),
                        global_id: clone_bytes(&o.global_id),
                        message_type: o.message_type,
                    },
                );
                assert(parseable(*o));
                assert forall|k: int|
                    #![trigger stored_messages@[k]]
                    0 <= k < stored_messages@.len() implies dump_matches(
                        stored_messages@[k],
                        prefix.filter(|m: MessageRecord| parseable(m))[k],
                        inventory@,
                        self.derivations@,
                    ) by {
                    if k < before.len() {
                        assert(stored_messages@[k] == before[k]);
                    }
                }
            }
            j = j + 1;
        }
        assert(self.messages@.subrange(0, j as int) =~= self.messages@);
        proof {
            lemma_filter_keeps_all(self.messages@, |m: MessageRecord| parseable(m));
        }
        let mut contacts: Vec<StoredContact> = Vec::new();
        let mut c: usize = 0;
        while c < self.contacts.len()
            invariant
                c <= self.contacts@.len(),
                contacts@.len() == c,
                forall|k: int|
                    0 <= k < c ==> {
                        let o = #[trigger] self.contacts@[k];
                        let n = contacts@[k];
                        &&& n.global_id@ == o.global_id@
                        &&& n.contact.label@ == o.label@
                        &&& n.contact.public_half.public_encryption_key@ == o.public_encryption_key@
                        &&& n.contact.public_half.public_signing_key@ == o.public_signing_key@
                    },
            decreases self.contacts@.len() - c,
        {
            let o = &self.contacts[c];
            contacts.push(
                StoredContact {
                    contact: Contact {
                        label: o.label.clone(),
                        public_half: PublicHalf {
                            public_encryption_key: clone_bytes(&o.public_encryption_key),
                            public_signing_key: clone_bytes(&o.public_signing_key),
                        },
                    },
                    global_id: clone_bytes(&o.global_id),
                },
            );
            c = c + 1;
        }
        let mut inbox_expiration_times: Vec<InboxExpirationTime> = Vec::new();
        let mut e: usize = 0;
        while e < self.inbox_expiration_times.len()
            invariant
                e <= self.inbox_expiration_times@.len(),
                inbox_expiration_times@.len() == e,
                forall|k: int|
                    0 <= k < e ==> (#[trigger] inbox_expiration_times@[k]).inbox_id@
                        == self.inbox_expiration_times@[k].0@ && inbox_expiration_times@[k].expiration_time
                        == self.inbox_expiration_times@[k].1,
            decreases self.inbox_expiration_times@.len() - e,
        {
            inbox_expiration_times.push(
                InboxExpirationTime {
                    inbox_id: clone_bytes(&self.inbox_expiration_times[e].0),
                    expiration_time: self.inbox_expiration_times[e].1,
                },
            );
            e = e + 1;
        }
        StateDump { inboxes, stored_messages, contacts, inbox_expiration_times }
    }

    /// Applies one inventory mutation and returns the events it causes.
    pub fn on_mutation(&mut self, inventory: &Inventory, mutation: &Mutation) -> (r: Vec<Event>)
        requires
            old(self).wf(),
            inventory.wf(),
        ensures
            final(self).wf(),
            final(self).inboxes == old(self).inboxes,
            final(self).contacts == old(self).contacts,
            mutation matches Mutation::Insert(h) ==> insert_post(*old(self), *final(self), r@, inventory@, h@),
            mutation matches Mutation::Purge(h) ==> purge_post(*old(self), *final(self), r@, h@),
    {
        match mutation {
            Mutation::Insert(h) => self.on_insert(inventory, h.as_slice()),
            Mutation::Purge(h) => self.on_purge(h.as_slice()),
        }
    }

    fn set_message_type(&mut self, global_id: &[u8], inbox_id: &[u8], message_type: MessageType)
        requires
            old(self).wf(),
            message_type == MessageType::Unsaved ==> has_derivation_for(old(self).derivations@, global_id@, inbox_id@),
        ensures
            final(self).wf(),
            final(self).messages@.len() == old(self).messages@.len(),
            forall|k: int|
                0 <= k < old(self).messages@.len() ==> {
                    let m = #[trigger] old(self).messages@[k];
                    let n = final(self).messages@[k];
                    &&& n.global_id@ == m.global_id@
                    &&& n.inbox_id@ == m.inbox_id@
                    &&& n.plaintext@ == m.plaintext@
                    &&& n.message_type == (if m.global_id@ == global_id@ && m.inbox_id@ == inbox_id@ {
                        message_type
                    } else {
                        m.message_type
                    })
                },
            final(self).derivations == old(self).derivations,
            final(self).inboxes == old(self).inboxes,
            final(self).contacts == old(self).contacts,
            final(self).inbox_expiration_times == old(self).inbox_expiration_times,
    {
        let ghost old_ms = self.messages@;
        let mut i: usize = 0;
        while i < self.messages.len()
            invariant
                i <= self.messages@.len() == old_ms.len(),
                old_ms == old(self).messages@,
                self.derivations == old(self).derivations,
                self.inboxes == old(self).inboxes,
                self.contacts == old(self).contacts,
                self.inbox_expiration_times == old(self).inbox_expiration_times,
                message_type == MessageType::Unsaved ==> has_derivation_for(self.derivations@, global_id@, inbox_id@),
                forall|k: int|
                    0 <= k < old_ms.len() ==> {
                        let m = #[trigger] old_ms[k];
                        let n = self.messages@[k];
                        &&& n.global_id@ == m.global_id@
                        &&& n.inbox_id@ == m.inbox_id@
                        &&& n.plaintext@ == m.plaintext@
                        &&& n.message_type == (if k < i && m.global_id@ == global_id@ && m.inbox_id@ == inbox_id@ {
                            message_type
                        } else {
                            m.message_type
                        })
                    },
            decreases old_ms.len() - i,
        {
            if bytes_eq(self.messages[i].global_id.as_slice(), global_id) && bytes_eq(
                self.messages[i].inbox_id.as_slice(),
                inbox_id,
            ) {
                let mut m = self.messages.remove(i);
                m.message_type = message_type;
                self.messages.insert(i, m);
            }
            i = i + 1;
        }
        proof {
            let ms = self.messages@;
            let ds = self.derivations@;
            assert forall|q: int| 0 <= q < ms.len() && (#[trigger] ms[q]).message_type == MessageType::Unsaved
                implies has_derivation_for(ds, ms[q].global_id@, ms[q].inbox_id@) by {
                let m = old_ms[q];
                if m.global_id@ == global_id@ && m.inbox_id@ == inbox_id@ {
                    assert(message_type == MessageType::Unsaved);
                } else {
                    assert(m.message_type == MessageType::Unsaved);
                    assert(accounting(old(self).messages@, old(self).derivations@));
                    assert(has_derivation_for(old(self).derivations@, m.global_id@, m.inbox_id@));
                }
            }
            assert forall|d: int| 0 <= d < ds.len() implies has_record_for(ms, (#[trigger] ds[d]).global_id@, ds[d].inbox_id@) by {
                assert(has_record_for(old_ms, ds[d].global_id@, ds[d].inbox_id@));
                let w = choose|w: int| 0 <= w < old_ms.len() && (#[trigger] old_ms[w]).global_id@ == ds[d].global_id@ && old_ms[w].inbox_id@ == ds[d].inbox_id@;
                assert(ms[w].global_id@ == ds[d].global_id@);
            }
            assert forall|a: int, b: int| #![trigger ms[a], ms[b]] 0 <= a < b < ms.len() implies !(ms[a].global_id@
                == ms[b].global_id@ && ms[a].inbox_id@ == ms[b].inbox_id@) by {
                assert(!(old_ms[a].global_id@ == old_ms[b].global_id@ && old_ms[a].inbox_id@ == old_ms[b].inbox_id@));
            }
            assert forall|k: int| 0 <= k < ms.len() implies parseable(#[trigger] ms[k]) by {
                assert(parseable(old_ms[k]));
                assert(ms[k].plaintext@ == old_ms[k].plaintext@);
            }
        }
    }
}

/// Derivation accounting: in a well-formed state, an unsaved stored message
/// `(global_id, inbox_id)` exists exactly when at least one derivation references
/// that pair.
pub proof fn lemma_derivation_accounting(state: &DerivedState, global_id: Seq<u8>, inbox_id: Seq<u8>)
    requires
        state.wf(),
        forall|k: int|
            0 <= k < state.messages@.len() && (#[trigger] state.messages@[k]).global_id@ == global_id
                && state.messages@[k].inbox_id@ == inbox_id ==> state.messages@[k].message_type
                == MessageType::Unsaved,
    ensures
        has_record_for(state.messages@, global_id, inbox_id) <==> has_derivation_for(
            state.derivations@,
            global_id,
            inbox_id,
        ),
{
    if has_record_for(state.messages@, global_id, inbox_id) {
        let k = choose|k: int|
            0 <= k < state.messages@.len() && (#[trigger] state.messages@[k]).global_id@ == global_id
                && state.messages@[k].inbox_id@ == inbox_id;
        assert(state.messages@[k].message_type == MessageType::Unsaved);
    }
    if has_derivation_for(state.derivations@, global_id, inbox_id) {
        let d = choose|d: int|
            0 <= d < state.derivations@.len() && (#[trigger] state.derivations@[d]).global_id@ == global_id
                && state.derivations@[d].inbox_id@ == inbox_id;
        assert(has_record_for(state.messages@, state.derivations@[d].global_id@, state.derivations@[d].inbox_id@));
    }
}

proof fn lemma_inbox_filter_member(s: Seq<InboxRecord>, p: spec_fn(InboxRecord) -> bool, a: int)
    requires
        0 <= a < s.filter(p).len(),
        forall|i: int| 0 <= i < s.len() ==> inbox_keys_ok(#[trigger] s[i]),
    ensures
        inbox_keys_ok(s.filter(p)[a]),
{
    lemma_filter_member(s, p, a);
}

/// A message that inbox `i` signs and wraps with its public keys parses back, from that
/// inbox, as the inner message it signed.
pub proof fn lemma_encoded_message_verifies(state: &DerivedState, i: int, v: MessageBodyView)
    requires
        state.wf(),
        0 <= i < state.inboxes@.len(),
        recipients_ok(v.disclosed_recipients),
    ensures
        signs_body(
            unverified_bytes(
                state.inboxes@[i].public_encryption_key@,
                state.inboxes@[i].public_signing_key@,
                ed25519_sign_of(body_bytes(v), state.inboxes@[i].private_signing_key@),
            ),
            PublicHalfView {
                encryption: state.inboxes@[i].public_encryption_key@,
                signing: state.inboxes@[i].public_signing_key@,
            },
            v,
        ),
{
    let inbox = state.inboxes@[i];
    assert(inbox_keys_ok(inbox));
    let sender = PublicHalfView {
        encryption: inbox.public_encryption_key@,
        signing: inbox.public_signing_key@,
    };
    let payload = ed25519_sign_of(body_bytes(v), inbox.private_signing_key@);
    assert(ed25519_open_of(payload, sender.signing) == Some(body_bytes(v)));
    assert(unverified_bytes(sender.encryption, sender.signing, payload) == unverified_bytes(
        inbox.public_encryption_key@,
        inbox.public_signing_key@,
        payload,
    ));
}

/// Keeping some stored messages keeps their pairs unique and their plaintexts parseable.
proof fn lemma_messages_filtered(ms: Seq<MessageRecord>, p: spec_fn(MessageRecord) -> bool)
    requires
        pairs_unique(ms),
        forall|k: int| 0 <= k < ms.len() ==> parseable(#[trigger] ms[k]),
    ensures
        pairs_unique(ms.filter(p)),
        forall|k: int| 0 <= k < ms.filter(p).len() ==> parseable(#[trigger] ms.filter(p)[k]),
{
    lemma_filter_pairwise(
        ms,
        p,
        |a: MessageRecord, b: MessageRecord| !(a.global_id@ == b.global_id@ && a.inbox_id@ == b.inbox_id@),
    );
    assert forall|k: int| 0 <= k < ms.filter(p).len() implies parseable(#[trigger] ms.filter(p)[k]) by {
        lemma_filter_member(ms, p, k);
    }
}

proof fn lemma_filter_all(s: Seq<Derivation>)
    ensures
        s.filter(|d: Derivation| true) == s,
    decreases s.len(),
{
    reveal(Seq::filter);
    if s.len() > 0 {
        lemma_filter_all(s.drop_last());
        assert(s.drop_last().push(s.last()) =~= s);
    }
}

/// Removing stored messages and derivations together, so that a message and a
/// derivation of the same pair are kept or removed alike, keeps derivation accounting.
proof fn lemma_accounting_filtered(
    ms: Seq<MessageRecord>,
    ds: Seq<Derivation>,
    fm: spec_fn(MessageRecord) -> bool,
    fd: spec_fn(Derivation) -> bool,
)
    requires
        accounting(ms, ds),
        forall|i: int, j: int|
            #![trigger ms[i], ds[j]]
            0 <= i < ms.len() && 0 <= j < ds.len() && ms[i].global_id@ == ds[j].global_id@
                && ms[i].inbox_id@ == ds[j].inbox_id@ ==> (fm(ms[i]) == fd(ds[j])),
    ensures
        accounting(ms.filter(fm), ds.filter(fd)),
{
    broadcast use vstd::seq_lib::group_filter_ensures;

    let ms2 = ms.filter(fm);
    let ds2 = ds.filter(fd);
    assert forall|q: int| 0 <= q < ms2.len() && (#[trigger] ms2[q]).message_type == MessageType::Unsaved
        implies has_derivation_for(ds2, ms2[q].global_id@, ms2[q].inbox_id@) by {
        lemma_filter_member(ms, fm, q);
        let a = choose|a: int| 0 <= a < ms.len() && ms[a] == ms2[q];
        assert(ms[a].message_type == MessageType::Unsaved);
        let w = choose|w: int|
            0 <= w < ds.len() && (#[trigger] ds[w]).global_id@ == ms[a].global_id@ && ds[w].inbox_id@
                == ms[a].inbox_id@;
        assert(fm(ms[a]) == fd(ds[w]));
        ds.lemma_filter_contains(fd, w);
        let x = choose|x: int| 0 <= x < ds2.len() && ds2[x] == ds[w];
    }
    assert forall|d: int| 0 <= d < ds2.len() implies has_record_for(
        ms2,
        (#[trigger] ds2[d]).global_id@,
        ds2[d].inbox_id@,
    ) by {
        lemma_filter_member(ds, fd, d);
        let a = choose|a: int| 0 <= a < ds.len() && ds[a] == ds2[d];
        assert(has_record_for(ms, ds[a].global_id@, ds[a].inbox_id@));
        let w = choose|w: int|
            0 <= w < ms.len() && (#[trigger] ms[w]).global_id@ == ds[a].global_id@ && ms[w].inbox_id@
                == ds[a].inbox_id@;
        assert(fm(ms[w]) == fd(ds[a]));
        ms.lemma_filter_contains(fm, w);
        let x = choose|x: int| 0 <= x < ms2.len() && ms2[x] == ms[w];
    }
}

} // verus!
