use vstd::prelude::*;
use vstd::string::StringSliceAdditionalSpecFns;
use vstd::utf8::{decode_utf8, encode_utf8, valid_utf8};

use crate::bytes::{
    be_bytes_u64, be_u64, copy_range, opt_bytes, extend_bytes, lemma_be_bytes_of_u64, lemma_be_u64_of_bytes,
    u64_to_be_bytes,
};
use crate::derive_state::{
    attachment_views, public_half_views, Attachment, AttachmentView, PublicHalf, PublicHalfView,
    RichTextFormat,
};

verus! {

/// A length-prefixed field: the length as eight big-endian bytes, then the bytes.
pub open spec fn field(x: Seq<u8>) -> Seq<u8> {
    be_bytes_u64(x.len() as u64) + x
}

/// The encoding of a public half: its encryption key, then its signing key.
pub open spec fn public_key_bytes(v: PublicHalfView) -> Seq<u8> {
    field(v.encryption) + field(v.signing)
}

/// The encoding of an attachment: its MIME type as UTF-8, then its bytes.
pub open spec fn attachment_bytes(v: AttachmentView) -> Seq<u8> {
    field(encode_utf8(v.mime_type)) + field(v.blob)
}

/// The encodings of a list of public halves, first first.
pub open spec fn recipients_bytes(s: Seq<PublicHalfView>) -> Seq<u8>
    decreases s.len(),
{
    if s.len() == 0 {
        Seq::empty()
    } else {
        public_key_bytes(s[0]) + recipients_bytes(s.drop_first())
    }
}

/// The encodings of a list of attachments, first first.
pub open spec fn attachments_bytes(s: Seq<AttachmentView>) -> Seq<u8>
    decreases s.len(),
{
    if s.len() == 0 {
        Seq::empty()
    } else {
        attachment_bytes(s[0]) + attachments_bytes(s.drop_first())
    }
}

proof fn lemma_recipients_push(s: Seq<PublicHalfView>, x: PublicHalfView)
    ensures
        recipients_bytes(s.push(x)) == recipients_bytes(s) + public_key_bytes(x),
    decreases s.len(),
{
    if s.len() == 0 {
        assert(s.push(x).drop_first() =~= Seq::<PublicHalfView>::empty());
        assert(recipients_bytes(Seq::<PublicHalfView>::empty()) == Seq::<u8>::empty());
        assert(recipients_bytes(s.push(x)) =~= public_key_bytes(x));
    } else {
        assert(s.push(x).drop_first() =~= s.drop_first().push(x));
        lemma_recipients_push(s.drop_first(), x);
        assert(recipients_bytes(s.push(x)) =~= recipients_bytes(s) + public_key_bytes(x));
    }
}

proof fn lemma_attachments_push(s: Seq<AttachmentView>, x: AttachmentView)
    ensures
        attachments_bytes(s.push(x)) == attachments_bytes(s) + attachment_bytes(x),
    decreases s.len(),
{
    if s.len() == 0 {
        assert(s.push(x).drop_first() =~= Seq::<AttachmentView>::empty());
        assert(attachments_bytes(Seq::<AttachmentView>::empty()) == Seq::<u8>::empty());
        assert(attachments_bytes(s.push(x)) =~= attachment_bytes(x));
    } else {
        assert(s.push(x).drop_first() =~= s.drop_first().push(x));
        lemma_attachments_push(s.drop_first(), x);
        assert(attachments_bytes(s.push(x)) =~= attachments_bytes(s) + attachment_bytes(x));
    }
}

/// The encoding of a signed envelope: the sender's encryption key, signing key, and
/// the signed payload.
pub open spec fn unverified_bytes(encryption: Seq<u8>, signing: Seq<u8>, payload: Seq<u8>) -> Seq<u8> {
    field(encryption) + field(signing) + field(payload)
}

/// The inner message before signing.
pub struct MessageBody {
    pub in_reply_to: Option<Vec<u8>>,
    pub nonce: Vec<u8>,
    pub content: String,
    pub rich_text_format: RichTextFormat,
    pub disclosed_recipients: Vec<PublicHalf>,
    pub attachments: Vec<Attachment>,
}

/// The inner message, as plain values.
pub ghost struct MessageBodyView {
    pub in_reply_to: Option<Seq<u8>>,
    pub nonce: Seq<u8>,
    pub content: Seq<char>,
    pub rich_text_format: RichTextFormat,
    pub disclosed_recipients: Seq<PublicHalfView>,
    pub attachments: Seq<AttachmentView>,
}

impl MessageBody {
    pub open spec fn view(&self) -> MessageBodyView {
        MessageBodyView {
            in_reply_to: opt_bytes(self.in_reply_to),
            nonce: self.nonce@,
            content: self.content@,
            rich_text_format: self.rich_text_format,
            disclosed_recipients: public_half_views(self.disclosed_recipients@),
            attachments: attachment_views(self.attachments@),
        }
    }
}

/// The encoding of an optional reply target: a zero byte, or a one byte and the id.
pub open spec fn reply_bytes(r: Option<Seq<u8>>) -> Seq<u8> {
    match r {
        None => seq![0u8],
        Some(id) => seq![1u8] + field(id),
    }
}

/// The byte that stands for a rich-text format.
pub open spec fn format_byte(f: RichTextFormat) -> u8 {
    match f {
        RichTextFormat::Plaintext => 0u8,
        RichTextFormat::Markdown => 1u8,
    }
}

/// A counted list of public halves: the count as eight big-endian bytes, then each.
pub open spec fn recipient_list_bytes(s: Seq<PublicHalfView>) -> Seq<u8> {
    be_bytes_u64(s.len() as u64) + recipients_bytes(s)
}

/// A counted list of attachments: the count as eight big-endian bytes, then each.
pub open spec fn attachment_list_bytes(s: Seq<AttachmentView>) -> Seq<u8> {
    be_bytes_u64(s.len() as u64) + attachments_bytes(s)
}

/// What follows the reply target in an inner message's encoding.
pub open spec fn body_after_reply(v: MessageBodyView) -> Seq<u8> {
    field(v.nonce) + body_after_nonce(v)
}

/// What follows the nonce in an inner message's encoding.
pub open spec fn body_after_nonce(v: MessageBodyView) -> Seq<u8> {
    field(encode_utf8(v.content)) + body_after_content(v)
}

/// What follows the content in an inner message's encoding.
pub open spec fn body_after_content(v: MessageBodyView) -> Seq<u8> {
    seq![format_byte(v.rich_text_format)] + body_after_format(v)
}

/// What follows the format byte in an inner message's encoding.
pub open spec fn body_after_format(v: MessageBodyView) -> Seq<u8> {
    recipient_list_bytes(v.disclosed_recipients) + attachment_list_bytes(v.attachments)
}

/// The encoding of the inner message: reply target, nonce, content, format, the
/// disclosed recipients with their count, and the attachments with their count.
pub open spec fn body_bytes(v: MessageBodyView) -> Seq<u8> {
    reply_bytes(v.in_reply_to) + body_after_reply(v)
}

/// Relies on `std::str::from_utf8`: it accepts exactly the valid UTF-8 byte strings
/// and gives the characters they encode.
#[verifier::external_body]
fn utf8_to_string(b: &[u8]) -> (r: Option<String>)
    ensures
        r is Some <==> valid_utf8(b@),
        r matches Some(s) ==> s@ == decode_utf8(b@),
{
    match std::str::from_utf8(b) {
        Ok(s) => Some(s.to_string()),
        Err(_) => None,
    }
}

/// The UTF-8 bytes of a string.
pub fn text_bytes(s: &String) -> (r: Vec<u8>)
    ensures
        r@ == encode_utf8(s@),
{
    let mut r: Vec<u8> = Vec::new();
    extend_bytes(&mut r, s.as_str().as_bytes());
    r
}

/// Appends eight big-endian bytes of `x`.
pub fn write_u64(out: &mut Vec<u8>, x: u64)
    ensures
        final(out)@ == old(out)@ + be_bytes_u64(x),
{
    let b = u64_to_be_bytes(x);
    extend_bytes(out, b.as_slice());
}

/// Appends `x` as a length-prefixed field.
pub fn write_field(out: &mut Vec<u8>, x: &[u8])
    ensures
        final(out)@ == old(out)@ + field(x@),
{
    write_u64(out, x.len() as u64);
    extend_bytes(out, x);
    assert(final(out)@ =~= old(out)@ + field(x@));
}

/// Reads the byte at `pos`.
pub fn read_byte(b: &[u8], pos: usize) -> (r: Option<(u8, usize)>)
    requires
        pos <= b@.len(),
    ensures
        r matches Some((x, next)) ==> next == pos + 1 && next <= b@.len() && b@.subrange(
            pos as int,
            next as int,
        ) == seq![x],
        forall|x: u8, rest: Seq<u8>|
            #![trigger seq![x] + rest]
            b@.subrange(pos as int, b@.len() as int) == seq![x] + rest ==> r == Some((x, (pos + 1) as usize)),
{
    if pos >= b.len() {
        assert forall|x: u8, rest: Seq<u8>|
            #![trigger seq![x] + rest]
            b@.subrange(pos as int, b@.len() as int) != seq![x] + rest by {
            assert((seq![x] + rest).len() >= 1);
        }
        return None;
    }
    assert(b@.subrange(pos as int, pos + 1) =~= seq![b@[pos as int]]);
    assert forall|x: u8, rest: Seq<u8>|
        #![trigger seq![x] + rest]
        b@.subrange(pos as int, b@.len() as int) == seq![x] + rest implies x == b@[pos as int] by {
        assert(b@.subrange(pos as int, b@.len() as int)[0] == (seq![x] + rest)[0]);
    }
    Some((b[pos], pos + 1))
}

/// Reads eight big-endian bytes at `pos`.
pub fn read_u64(b: &[u8], pos: usize) -> (r: Option<(u64, usize)>)
    requires
        pos <= b@.len(),
    ensures
        r matches Some((x, next)) ==> next == pos + 8 && next <= b@.len() && b@.subrange(
            pos as int,
            next as int,
        ) == be_bytes_u64(x),
        forall|x: u64, rest: Seq<u8>|
            #![trigger be_bytes_u64(x) + rest]
            b@.subrange(pos as int, b@.len() as int) == be_bytes_u64(x) + rest ==> r == Some(
                (x, (pos + 8) as usize),
            ),
{
    if b.len() - pos < 8 {
        assert forall|x: u64, rest: Seq<u8>|
            #![trigger be_bytes_u64(x) + rest]
            b@.subrange(pos as int, b@.len() as int) != be_bytes_u64(x) + rest by {
            assert((be_bytes_u64(x) + rest).len() >= 8);
        }
        return None;
    }
    let x: u64 = (b[pos] as u64) << 56u64 | (b[pos + 1] as u64) << 48u64 | (b[pos + 2] as u64)
        << 40u64 | (b[pos + 3] as u64) << 32u64 | (b[pos + 4] as u64) << 24u64 | (b[pos + 5] as u64)
        << 16u64 | (b[pos + 6] as u64) << 8u64 | (b[pos + 7] as u64);
    let ghost s = b@.subrange(pos as int, pos + 8);
    assert(x == be_u64(s));
    proof {
        lemma_be_bytes_of_u64(s);
    }
    assert forall|y: u64, rest: Seq<u8>|
        #![trigger be_bytes_u64(y) + rest]
        b@.subrange(pos as int, b@.len() as int) == be_bytes_u64(y) + rest implies y == x by {
        assert(s =~= (be_bytes_u64(y) + rest).subrange(0, 8));
        assert((be_bytes_u64(y) + rest).subrange(0, 8) =~= be_bytes_u64(y));
        lemma_be_u64_of_bytes(y);
    }
    Some((x, pos + 8))
}

/// Reads a length-prefixed field at `pos`.
pub fn read_field(b: &[u8], pos: usize) -> (r: Option<(Vec<u8>, usize)>)
    requires
        pos <= b@.len(),
    ensures
        r matches Some((f, next)) ==> pos <= next <= b@.len() && b@.subrange(pos as int, next as int)
            == field(f@),
        forall|x: Seq<u8>, rest: Seq<u8>|
            #![trigger field(x) + rest]
            b@.subrange(pos as int, b@.len() as int) == field(x) + rest ==> (r matches Some((f, next))
                && f@ == x && next == pos + 8 + x.len()),
{
    let (len, start) = match read_u64(b, pos) {
        Some(v) => v,
        None => {
            assert forall|x: Seq<u8>, rest: Seq<u8>|
                #![trigger field(x) + rest]
                b@.subrange(pos as int, b@.len() as int) != field(x) + rest by {
                if b@.subrange(pos as int, b@.len() as int) == field(x) + rest {
                    assert(field(x) + rest =~= be_bytes_u64(x.len() as u64) + (x + rest));
                }
            }
            return None;
        },
    };
    if len > (b.len() - start) as u64 {
        assert forall|x: Seq<u8>, rest: Seq<u8>|
            #![trigger field(x) + rest]
            b@.subrange(pos as int, b@.len() as int) != field(x) + rest by {
            if b@.subrange(pos as int, b@.len() as int) == field(x) + rest {
                assert(field(x) + rest =~= be_bytes_u64(x.len() as u64) + (x + rest));
                lemma_be_u64_of_bytes(x.len() as u64);
            }
        }
        return None;
    }
    let next = start + len as usize;
    let f = copy_range(b, start, next);
    assert(b@.subrange(pos as int, next as int) =~= b@.subrange(pos as int, start as int) + f@);
    assert forall|x: Seq<u8>, rest: Seq<u8>|
        #![trigger field(x) + rest]
        b@.subrange(pos as int, b@.len() as int) == field(x) + rest implies f@ == x && next == pos
        + 8 + x.len() by {
        assert(field(x) + rest =~= be_bytes_u64(x.len() as u64) + (x + rest));
        lemma_be_u64_of_bytes(x.len() as u64);
        assert(x.len() <= b@.len());
        assert(f@ =~= (field(x) + rest).subrange(8, 8 + x.len() as int));
    }
    Some((f, next))
}

/// Reads a length-prefixed UTF-8 field at `pos` as a string.
pub fn read_text(b: &[u8], pos: usize) -> (r: Option<(String, usize)>)
    requires
        pos <= b@.len(),
    ensures
        r matches Some((s, next)) ==> pos <= next <= b@.len() && b@.subrange(pos as int, next as int)
            == field(encode_utf8(s@)),
        forall|c: Seq<char>, rest: Seq<u8>|
            #![trigger field(encode_utf8(c)) + rest]
            b@.subrange(pos as int, b@.len() as int) == field(encode_utf8(c)) + rest ==> (r matches Some(
                (s, next),
            ) && s@ == c && next == pos + 8 + encode_utf8(c).len()),
{
    broadcast use vstd::utf8::group_utf8_lib;

    let (f, next) = match read_field(b, pos) {
        Some(v) => v,
        None => return None,
    };
    match utf8_to_string(f.as_slice()) {
        Some(s) => {
            assert(encode_utf8(decode_utf8(f@)) == f@);
            Some((s, next))
        },
        None => {
            assert forall|c: Seq<char>, rest: Seq<u8>|
                #![trigger field(encode_utf8(c)) + rest]
                b@.subrange(pos as int, b@.len() as int) != field(encode_utf8(c)) + rest by {
                assert(valid_utf8(encode_utf8(c)));
            }
            None
        },
    }
}

/// Encodes a public half.
pub fn encode_public_key(encryption: &[u8], signing: &[u8]) -> (r: Vec<u8>)
    ensures
        r@ == public_key_bytes(PublicHalfView { encryption: encryption@, signing: signing@ }),
{
    let mut out: Vec<u8> = Vec::new();
    write_field(&mut out, encryption);
    write_field(&mut out, signing);
    assert(out@ =~= public_key_bytes(PublicHalfView { encryption: encryption@, signing: signing@ }));
    out
}

/// Reads a public half at `pos`.
fn read_public_key(b: &[u8], pos: usize) -> (r: Option<(PublicHalf, usize)>)
    requires
        pos <= b@.len(),
    ensures
        r matches Some((p, next)) ==> pos <= next <= b@.len() && b@.subrange(pos as int, next as int)
            == public_key_bytes(p.view()),
        forall|v: PublicHalfView, rest: Seq<u8>|
            #![trigger public_key_bytes(v) + rest]
            b@.subrange(pos as int, b@.len() as int) == public_key_bytes(v) + rest ==> (r matches Some(
                (p, next),
            ) && p.view() == v && next == pos + public_key_bytes(v).len()),
{
    let (encryption, mid) = match read_field(b, pos) {
        Some(v) => v,
        None => {
            assert forall|v: PublicHalfView, rest: Seq<u8>|
                #![trigger public_key_bytes(v) + rest]
                b@.subrange(pos as int, b@.len() as int) != public_key_bytes(v) + rest by {
                assert(public_key_bytes(v) + rest =~= field(v.encryption) + (field(v.signing) + rest));
            }
            return None;
        },
    };
    let (signing, next) = match read_field(b, mid) {
        Some(v) => v,
        None => {
            assert forall|v: PublicHalfView, rest: Seq<u8>|
                #![trigger public_key_bytes(v) + rest]
                b@.subrange(pos as int, b@.len() as int) != public_key_bytes(v) + rest by {
                if b@.subrange(pos as int, b@.len() as int) == public_key_bytes(v) + rest {
                    let tail = field(v.signing) + rest;
                    assert(public_key_bytes(v) + rest =~= field(v.encryption) + tail);
                    assert(mid == pos + field(v.encryption).len());
                    assert(b@.subrange(mid as int, b@.len() as int) =~= (field(v.encryption) + tail).subrange(field(v.encryption).len() as int, (field(v.encryption) + tail).len() as int));
                    assert(b@.subrange(mid as int, b@.len() as int) =~= field(v.signing) + rest);
                }
            }
            return None;
        },
    };
    let p = PublicHalf { public_encryption_key: encryption, public_signing_key: signing };
    assert(b@.subrange(pos as int, next as int) =~= b@.subrange(pos as int, mid as int) + b@.subrange(
        mid as int,
        next as int,
    ));
    assert forall|v: PublicHalfView, rest: Seq<u8>|
        #![trigger public_key_bytes(v) + rest]
        b@.subrange(pos as int, b@.len() as int) == public_key_bytes(v) + rest implies p.view() == v
        && next == pos + public_key_bytes(v).len() by {
        let tail = field(v.signing) + rest;
        assert(public_key_bytes(v) + rest =~= field(v.encryption) + tail);
        assert(mid == pos + field(v.encryption).len());
        assert(b@.subrange(mid as int, b@.len() as int) =~= (field(v.encryption) + tail).subrange(field(v.encryption).len() as int, (field(v.encryption) + tail).len() as int));
        assert(b@.subrange(mid as int, b@.len() as int) =~= field(v.signing) + rest);
    }
    Some((p, next))
}

/// Decodes a public half that fills `b` exactly.
pub fn decode_public_key(b: &[u8]) -> (r: Option<PublicHalf>)
    ensures
        r matches Some(p) ==> public_key_bytes(p.view()) == b@,
        forall|v: PublicHalfView| #![trigger public_key_bytes(v)] public_key_bytes(v) == b@ ==> (r matches Some(p) && p.view() == v),
{
    let (p, next) = match read_public_key(b, 0) {
        Some(v) => v,
        None => {
            assert forall|v: PublicHalfView| #![trigger public_key_bytes(v)] public_key_bytes(v) != b@ by {
                assert(public_key_bytes(v) + Seq::empty() =~= public_key_bytes(v));
                assert(b@.subrange(0, b@.len() as int) =~= b@);
            }
            return None;
        },
    };
    if next != b.len() {
        assert forall|v: PublicHalfView| #![trigger public_key_bytes(v)] public_key_bytes(v) != b@ by {
            if public_key_bytes(v) == b@ {
                assert(public_key_bytes(v) + Seq::empty() =~= public_key_bytes(v));
                assert(b@.subrange(0, b@.len() as int) =~= b@);
            }
        }
        return None;
    }
    assert(b@.subrange(0, b@.len() as int) =~= b@);
    assert forall|v: PublicHalfView| #![trigger public_key_bytes(v)] public_key_bytes(v) == b@ implies p.view() == v by {
        assert(public_key_bytes(v) + Seq::empty() =~= public_key_bytes(v));
    }
    Some(p)
}

/// Encodes a signed envelope.
pub fn encode_unverified(encryption: &[u8], signing: &[u8], payload: &[u8]) -> (r: Vec<u8>)
    ensures
        r@ == unverified_bytes(encryption@, signing@, payload@),
{
    let mut out: Vec<u8> = Vec::new();
    write_field(&mut out, encryption);
    write_field(&mut out, signing);
    write_field(&mut out, payload);
    assert(out@ =~= unverified_bytes(encryption@, signing@, payload@));
    out
}

/// Decodes a signed envelope that fills `b` exactly, as the sender's encryption
/// key, signing key and signed payload.
pub fn decode_unverified(b: &[u8]) -> (r: Option<(Vec<u8>, Vec<u8>, Vec<u8>)>)
    ensures
        r matches Some((e, s, p)) ==> unverified_bytes(e@, s@, p@) == b@,
        forall|e: Seq<u8>, s: Seq<u8>, p: Seq<u8>|
            #![trigger unverified_bytes(e, s, p)]
            unverified_bytes(e, s, p) == b@ ==> (r matches Some((e2, s2, q2)) && e2@ == e && s2@
                == s && q2@ == p),
{
    assert(b@.subrange(0, b@.len() as int) =~= b@);
    let (e, at_signing) = match read_field(b, 0) {
        Some(v) => v,
        None => {
            assert forall|e: Seq<u8>, s: Seq<u8>, p: Seq<u8>|
                #![trigger unverified_bytes(e, s, p)]
                unverified_bytes(e, s, p) != b@ by {
                assert(unverified_bytes(e, s, p) =~= field(e) + (field(s) + field(p)));
            }
            return None;
        },
    };
    let (sg, at_payload) = match read_field(b, at_signing) {
        Some(v) => v,
        None => {
            assert forall|e: Seq<u8>, s: Seq<u8>, p: Seq<u8>|
                #![trigger unverified_bytes(e, s, p)]
                unverified_bytes(e, s, p) != b@ by {
                if unverified_bytes(e, s, p) == b@ {
                    let t = field(s) + field(p);
                    assert(unverified_bytes(e, s, p) =~= field(e) + t);
                    assert(b@.subrange(at_signing as int, b@.len() as int) =~= t);
                    assert(t =~= field(s) + (field(p) + Seq::empty()));
                }
            }
            return None;
        },
    };
    let (pl, at_end) = match read_field(b, at_payload) {
        Some(v) => v,
        None => {
            assert forall|e: Seq<u8>, s: Seq<u8>, p: Seq<u8>|
                #![trigger unverified_bytes(e, s, p)]
                unverified_bytes(e, s, p) != b@ by {
                if unverified_bytes(e, s, p) == b@ {
                    let t = field(s) + field(p);
                    assert(unverified_bytes(e, s, p) =~= field(e) + t);
                    assert(b@.subrange(at_signing as int, b@.len() as int) =~= t);
                    assert(t =~= field(s) + (field(p) + Seq::empty()));
                    assert(b@.subrange(at_payload as int, b@.len() as int) =~= field(p) + Seq::empty());
                }
            }
            return None;
        },
    };
    if at_end != b.len() {
        assert forall|e: Seq<u8>, s: Seq<u8>, p: Seq<u8>|
            #![trigger unverified_bytes(e, s, p)]
            unverified_bytes(e, s, p) != b@ by {
            if unverified_bytes(e, s, p) == b@ {
                let t = field(s) + field(p);
                assert(unverified_bytes(e, s, p) =~= field(e) + t);
                assert(b@.subrange(at_signing as int, b@.len() as int) =~= t);
                assert(t =~= field(s) + (field(p) + Seq::empty()));
                assert(b@.subrange(at_payload as int, b@.len() as int) =~= field(p) + Seq::empty());
            }
        }
        return None;
    }
    assert(b@ =~= b@.subrange(0, at_signing as int) + b@.subrange(at_signing as int, at_payload as int) + b@.subrange(
        at_payload as int,
        at_end as int,
    ));
    assert forall|e2: Seq<u8>, s2: Seq<u8>, q2: Seq<u8>|
        #![trigger unverified_bytes(e2, s2, q2)]
        unverified_bytes(e2, s2, q2) == b@ implies e@ == e2 && sg@ == s2 && pl@ == q2 by {
        let t = field(s2) + field(q2);
        assert(unverified_bytes(e2, s2, q2) =~= field(e2) + t);
        assert(b@.subrange(at_signing as int, b@.len() as int) =~= t);
        assert(t =~= field(s2) + (field(q2) + Seq::empty()));
        assert(b@.subrange(at_payload as int, b@.len() as int) =~= field(q2) + Seq::empty());
    }
    Some((e, sg, pl))
}

/// Reads an attachment at `pos`.
fn read_attachment(b: &[u8], pos: usize) -> (r: Option<(Attachment, usize)>)
    requires
        pos <= b@.len(),
    ensures
        r matches Some((a, next)) ==> pos <= next <= b@.len() && b@.subrange(pos as int, next as int)
            == attachment_bytes(a.view()),
        forall|v: AttachmentView, rest: Seq<u8>|
            #![trigger attachment_bytes(v) + rest]
            b@.subrange(pos as int, b@.len() as int) == attachment_bytes(v) + rest ==> (r matches Some(
                (a, next),
            ) && a.view() == v && next == pos + attachment_bytes(v).len()),
{
    let (mime_type, mid) = match read_text(b, pos) {
        Some(v) => v,
        None => {
            assert forall|v: AttachmentView, rest: Seq<u8>|
                #![trigger attachment_bytes(v) + rest]
                b@.subrange(pos as int, b@.len() as int) != attachment_bytes(v) + rest by {
                assert(attachment_bytes(v) + rest =~= field(encode_utf8(v.mime_type)) + (field(
                    v.blob,
                ) + rest));
            }
            return None;
        },
    };
    let (blob, next) = match read_field(b, mid) {
        Some(v) => v,
        None => {
            assert forall|v: AttachmentView, rest: Seq<u8>|
                #![trigger attachment_bytes(v) + rest]
                b@.subrange(pos as int, b@.len() as int) != attachment_bytes(v) + rest by {
                if b@.subrange(pos as int, b@.len() as int) == attachment_bytes(v) + rest {
                    let head = field(encode_utf8(v.mime_type));
                    let tail = field(v.blob) + rest;
                    assert(attachment_bytes(v) + rest =~= head + tail);
                    assert(b@.subrange(mid as int, b@.len() as int) =~= (head + tail).subrange(
                        head.len() as int,
                        (head + tail).len() as int,
                    ));
                    assert(b@.subrange(mid as int, b@.len() as int) =~= tail);
                }
            }
            return None;
        },
    };
    let a = Attachment { mime_type, blob };
    assert(b@.subrange(pos as int, next as int) =~= b@.subrange(pos as int, mid as int) + b@.subrange(
        mid as int,
        next as int,
    ));
    assert forall|v: AttachmentView, rest: Seq<u8>|
        #![trigger attachment_bytes(v) + rest]
        b@.subrange(pos as int, b@.len() as int) == attachment_bytes(v) + rest implies a.view() == v
        && next == pos + attachment_bytes(v).len() by {
        let head = field(encode_utf8(v.mime_type));
        let tail = field(v.blob) + rest;
        assert(attachment_bytes(v) + rest =~= head + tail);
        assert(b@.subrange(mid as int, b@.len() as int) =~= (head + tail).subrange(
            head.len() as int,
            (head + tail).len() as int,
        ));
        assert(b@.subrange(mid as int, b@.len() as int) =~= tail);
    }
    Some((a, next))
}

/// Appends a counted list of public halves.
fn write_recipient_list(out: &mut Vec<u8>, list: &Vec<PublicHalf>)
    ensures
        final(out)@ == old(out)@ + recipient_list_bytes(public_half_views(list@)),
{
    let ghost vs = public_half_views(list@);
    write_u64(out, list.len() as u64);
    let ghost start = out@;
    let mut i: usize = 0;
    while i < list.len()
        invariant
            vs == public_half_views(list@),
            i <= vs.len(),
            out@ == start + recipients_bytes(vs.subrange(0, i as int)),
        decreases vs.len() - i,
    {
        let p = &list[i];
        write_field(out, p.public_encryption_key.as_slice());
        write_field(out, p.public_signing_key.as_slice());
        proof {
            let s = vs.subrange(0, i as int);
            assert(vs.subrange(0, i + 1) =~= s.push(p.view()));
            lemma_recipients_push(s, p.view());
        }
        assert(out@ =~= start + recipients_bytes(vs.subrange(0, i + 1)));
        i = i + 1;
    }
    assert(vs.subrange(0, i as int) =~= vs);
    assert(out@ =~= old(out)@ + recipient_list_bytes(vs));
}

/// Appends a counted list of attachments.
fn write_attachment_list(out: &mut Vec<u8>, list: &Vec<Attachment>)
    ensures
        final(out)@ == old(out)@ + attachment_list_bytes(attachment_views(list@)),
{
    let ghost vs = attachment_views(list@);
    write_u64(out, list.len() as u64);
    let ghost start = out@;
    let mut i: usize = 0;
    while i < list.len()
        invariant
            vs == attachment_views(list@),
            i <= vs.len(),
            out@ == start + attachments_bytes(vs.subrange(0, i as int)),
        decreases vs.len() - i,
    {
        let a = &list[i];
        let mime = text_bytes(&a.mime_type);
        write_field(out, mime.as_slice());
        write_field(out, a.blob.as_slice());
        proof {
            let s = vs.subrange(0, i as int);
            assert(vs.subrange(0, i + 1) =~= s.push(a.view()));
            lemma_attachments_push(s, a.view());
        }
        assert(out@ =~= start + attachments_bytes(vs.subrange(0, i + 1)));
        i = i + 1;
    }
    assert(vs.subrange(0, i as int) =~= vs);
    assert(out@ =~= old(out)@ + attachment_list_bytes(vs));
}

/// Encodes the inner message.
pub fn encode_body(body: &MessageBody) -> (r: Vec<u8>)
    ensures
        r@ == body_bytes(body.view()),
{
    let ghost v = body.view();
    let mut out: Vec<u8> = Vec::new();
    match &body.in_reply_to {
        None => out.push(0u8),
        Some(id) => {
            out.push(1u8);
            write_field(&mut out, id.as_slice());
        },
    }
    assert(out@ =~= reply_bytes(v.in_reply_to));
    let ghost a = out@;
    write_field(&mut out, body.nonce.as_slice());
    let ghost b = out@;
    let content = text_bytes(&body.content);
    write_field(&mut out, content.as_slice());
    let ghost c = out@;
    match body.rich_text_format {
        RichTextFormat::Plaintext => out.push(0u8),
        RichTextFormat::Markdown => out.push(1u8),
    }
    assert(out@ =~= c + seq![format_byte(v.rich_text_format)]);
    let ghost d = out@;
    write_recipient_list(&mut out, &body.disclosed_recipients);
    let ghost e = out@;
    write_attachment_list(&mut out, &body.attachments);
    assert(out@ =~= d + body_after_format(v));
    assert(out@ =~= c + body_after_content(v));
    assert(out@ =~= b + body_after_nonce(v));
    assert(out@ =~= a + body_after_reply(v));
    out
}

proof fn lemma_recipients_len(s: Seq<PublicHalfView>)
    ensures
        recipients_bytes(s).len() >= 16 * s.len(),
    decreases s.len(),
{
    if s.len() > 0 {
        lemma_recipients_len(s.drop_first());
    }
}

proof fn lemma_attachments_len(s: Seq<AttachmentView>)
    ensures
        attachments_bytes(s).len() >= 16 * s.len(),
    decreases s.len(),
{
    if s.len() > 0 {
        lemma_attachments_len(s.drop_first());
    }
}

/// Reads a reply target at `pos`.
fn read_reply(b: &[u8], pos: usize) -> (r: Option<(Option<Vec<u8>>, usize)>)
    requires
        pos <= b@.len(),
    ensures
        r matches Some((x, next)) ==> pos <= next <= b@.len() && b@.subrange(pos as int, next as int)
            == reply_bytes(opt_bytes(x)),
        forall|v: Option<Seq<u8>>, rest: Seq<u8>|
            #![trigger reply_bytes(v) + rest]
            b@.subrange(pos as int, b@.len() as int) == reply_bytes(v) + rest ==> (r matches Some(
                (x, next),
            ) && opt_bytes(x) == v && next == pos + reply_bytes(v).len()),
{
    let (tag, p0) = match read_byte(b, pos) {
        Some(x) => x,
        None => {
            assert forall|v: Option<Seq<u8>>, rest: Seq<u8>|
                #![trigger reply_bytes(v) + rest]
                b@.subrange(pos as int, b@.len() as int) != reply_bytes(v) + rest by {
                let c = reply_bytes(v);
                assert(c + rest =~= seq![c[0]] + (c.drop_first() + rest));
            }
            return None;
        },
    };
    if tag == 0u8 {
        assert forall|v: Option<Seq<u8>>, rest: Seq<u8>|
            #![trigger reply_bytes(v) + rest]
            b@.subrange(pos as int, b@.len() as int) == reply_bytes(v) + rest implies v is None by {
            let c = reply_bytes(v);
            assert(c + rest =~= seq![c[0]] + (c.drop_first() + rest));
        }
        assert(b@.subrange(pos as int, p0 as int) =~= reply_bytes(None));
        return Some((None, p0));
    }
    if tag != 1u8 {
        assert forall|v: Option<Seq<u8>>, rest: Seq<u8>|
            #![trigger reply_bytes(v) + rest]
            b@.subrange(pos as int, b@.len() as int) != reply_bytes(v) + rest by {
            let c = reply_bytes(v);
            assert(c + rest =~= seq![c[0]] + (c.drop_first() + rest));
        }
        return None;
    }
    let (id, next) = match read_field(b, p0) {
        Some(x) => x,
        None => {
            assert forall|v: Option<Seq<u8>>, rest: Seq<u8>|
                #![trigger reply_bytes(v) + rest]
                b@.subrange(pos as int, b@.len() as int) != reply_bytes(v) + rest by {
                let c = reply_bytes(v);
                if b@.subrange(pos as int, b@.len() as int) == c + rest {
                    assert(c + rest =~= seq![c[0]] + (c.drop_first() + rest));
                    assert(v is Some);
                    let y = field(v->0) + rest;
                    assert(c + rest =~= seq![1u8] + y);
                    assert(b@.subrange(p0 as int, b@.len() as int) =~= (seq![1u8] + y).subrange(1, (seq![1u8] + y).len() as int));
                    assert(b@.subrange(p0 as int, b@.len() as int) =~= field(v->0) + rest);
                }
            }
            return None;
        },
    };
    assert(b@.subrange(pos as int, next as int) =~= seq![1u8] + field(id@));
    assert forall|v: Option<Seq<u8>>, rest: Seq<u8>|
        #![trigger reply_bytes(v) + rest]
        b@.subrange(pos as int, b@.len() as int) == reply_bytes(v) + rest implies opt_bytes(
        Some(id),
    ) == v && next == pos + reply_bytes(v).len() by {
        let c = reply_bytes(v);
        assert(c + rest =~= seq![c[0]] + (c.drop_first() + rest));
        assert(v is Some);
        let y = field(v->0) + rest;
        assert(c + rest =~= seq![1u8] + y);
        assert(b@.subrange(p0 as int, b@.len() as int) =~= (seq![1u8] + y).subrange(1, (seq![1u8] + y).len() as int));
        assert(b@.subrange(p0 as int, b@.len() as int) =~= field(v->0) + rest);
    }
    Some((Some(id), next))
}

/// Reads a counted list of public halves at `pos`.
fn read_recipient_list(b: &[u8], pos: usize) -> (r: Option<(Vec<PublicHalf>, usize)>)
    requires
        pos <= b@.len(),
    ensures
        r matches Some((l, next)) ==> pos <= next <= b@.len() && b@.subrange(pos as int, next as int)
            == recipient_list_bytes(public_half_views(l@)),
        forall|vs: Seq<PublicHalfView>, rest: Seq<u8>|
            #![trigger recipient_list_bytes(vs) + rest]
            b@.subrange(pos as int, b@.len() as int) == recipient_list_bytes(vs) + rest ==> (r matches Some(
                (l, next),
            ) && public_half_views(l@) == vs && next == pos + recipient_list_bytes(vs).len()),
{
    let len = b.len();
    let (count, start) = match read_u64(b, pos) {
        Some(x) => x,
        None => {
            assert forall|vs: Seq<PublicHalfView>, rest: Seq<u8>|
                #![trigger recipient_list_bytes(vs) + rest]
                b@.subrange(pos as int, b@.len() as int) != recipient_list_bytes(vs) + rest by {
                assert(recipient_list_bytes(vs) + rest =~= be_bytes_u64(vs.len() as u64) + (
                recipients_bytes(vs) + rest));
            }
            return None;
        },
    };
    assert forall|vs: Seq<PublicHalfView>, rest: Seq<u8>|
        #![trigger recipient_list_bytes(vs) + rest]
        b@.subrange(pos as int, b@.len() as int) == recipient_list_bytes(vs) + rest implies count
        == vs.len() && b@.subrange(start as int, len as int) == recipients_bytes(vs.subrange(0, vs.len() as int)) + rest by {
        lemma_recipients_len(vs);
        let e = be_bytes_u64(vs.len() as u64);
        let y = recipients_bytes(vs) + rest;
        assert(recipient_list_bytes(vs) + rest =~= e + y);
        assert(start == pos + 8);
        assert(b@.subrange(start as int, len as int) =~= (e + y).subrange(8, (e + y).len() as int));
        lemma_be_u64_of_bytes(vs.len() as u64);
        assert(vs.subrange(0, vs.len() as int) =~= vs);
        assert(b@.subrange(start as int, len as int) =~= recipients_bytes(vs) + rest);
    }
    let mut list: Vec<PublicHalf> = Vec::new();
    let mut cur: usize = start;
    let mut i: u64 = 0;
    assert(b@.subrange(pos as int, cur as int) =~= be_bytes_u64(count) + recipients_bytes(
        public_half_views(list@),
    ));
    while i < count
        invariant
            pos <= cur <= len == b@.len(),
            i <= count,
            list@.len() == i,
            b@.subrange(pos as int, cur as int) == be_bytes_u64(count) + recipients_bytes(
                public_half_views(list@),
            ),
            forall|vs: Seq<PublicHalfView>, rest: Seq<u8>|
                #![trigger recipient_list_bytes(vs) + rest]
                b@.subrange(pos as int, b@.len() as int) == recipient_list_bytes(vs) + rest ==> (
                count == vs.len() && public_half_views(list@) == vs.subrange(0, i as int)
                    && b@.subrange(cur as int, len as int) == recipients_bytes(
                    vs.subrange(i as int, vs.len() as int),
                ) + rest),
        decreases count - i,
    {
        let (p, next) = match read_public_key(b, cur) {
            Some(x) => x,
            None => {
                assert forall|vs: Seq<PublicHalfView>, rest: Seq<u8>|
                    #![trigger recipient_list_bytes(vs) + rest]
                    b@.subrange(pos as int, b@.len() as int) != recipient_list_bytes(vs) + rest by {
                    if b@.subrange(pos as int, b@.len() as int) == recipient_list_bytes(vs) + rest {
                        let tail = vs.subrange(i as int, vs.len() as int);
                        assert(tail.drop_first() =~= vs.subrange(i + 1, vs.len() as int));
                        assert(recipients_bytes(tail) + rest =~= public_key_bytes(tail[0]) + (
                        recipients_bytes(tail.drop_first()) + rest));
                    }
                }
                return None;
            },
        };
        proof {
            lemma_recipients_push(public_half_views(list@), p.view());
            assert(b@.subrange(pos as int, next as int) =~= b@.subrange(pos as int, cur as int)
                + b@.subrange(cur as int, next as int));
        }
        let ghost old_list = list@;
        list.push(p);
        assert(public_half_views(list@) =~= public_half_views(old_list).push(p.view()));
        assert forall|vs: Seq<PublicHalfView>, rest: Seq<u8>|
            #![trigger recipient_list_bytes(vs) + rest]
            b@.subrange(pos as int, b@.len() as int) == recipient_list_bytes(vs) + rest implies
            public_half_views(list@) == vs.subrange(0, i + 1) && b@.subrange(next as int, len as int)
            == recipients_bytes(vs.subrange(i + 1, vs.len() as int)) + rest by {
            let tail = vs.subrange(i as int, vs.len() as int);
            assert(tail.drop_first() =~= vs.subrange(i + 1, vs.len() as int));
            let f = public_key_bytes(tail[0]);
            let after = recipients_bytes(tail.drop_first()) + rest;
            assert(recipients_bytes(tail) + rest =~= f + after);
            assert(b@.subrange(next as int, len as int) =~= (f + after).subrange(
                f.len() as int,
                (f + after).len() as int,
            ));
            assert(public_half_views(old_list).push(p.view()) =~= vs.subrange(0, i + 1));
        }
        cur = next;
        i = i + 1;
    }
    assert forall|vs: Seq<PublicHalfView>, rest: Seq<u8>|
        #![trigger recipient_list_bytes(vs) + rest]
        b@.subrange(pos as int, b@.len() as int) == recipient_list_bytes(vs) + rest implies
        public_half_views(list@) == vs && cur == pos + recipient_list_bytes(vs).len() by {
        assert(vs.subrange(0, i as int) =~= vs);
        assert(vs.subrange(i as int, vs.len() as int) =~= Seq::<PublicHalfView>::empty());
        assert(b@.subrange(cur as int, len as int) =~= rest);
    }
    Some((list, cur))
}

/// Reads a counted list of attachments at `pos`.
#[verifier::rlimit(40)]
fn read_attachment_list(b: &[u8], pos: usize) -> (r: Option<(Vec<Attachment>, usize)>)
    requires
        pos <= b@.len(),
    ensures
        r matches Some((l, next)) ==> pos <= next <= b@.len() && b@.subrange(pos as int, next as int)
            == attachment_list_bytes(attachment_views(l@)),
        forall|vs: Seq<AttachmentView>, rest: Seq<u8>|
            #![trigger attachment_list_bytes(vs) + rest]
            b@.subrange(pos as int, b@.len() as int) == attachment_list_bytes(vs) + rest ==> (r matches Some(
                (l, next),
            ) && attachment_views(l@) == vs && next == pos + attachment_list_bytes(vs).len()),
{
    let len = b.len();
    let (count, start) = match read_u64(b, pos) {
        Some(x) => x,
        None => {
            assert forall|vs: Seq<AttachmentView>, rest: Seq<u8>|
                #![trigger attachment_list_bytes(vs) + rest]
                b@.subrange(pos as int, b@.len() as int) != attachment_list_bytes(vs) + rest by {
                assert(attachment_list_bytes(vs) + rest =~= be_bytes_u64(vs.len() as u64) + (
                attachments_bytes(vs) + rest));
            }
            return None;
        },
    };
    assert forall|vs: Seq<AttachmentView>, rest: Seq<u8>|
        #![trigger attachment_list_bytes(vs) + rest]
        b@.subrange(pos as int, b@.len() as int) == attachment_list_bytes(vs) + rest implies count
        == vs.len() && b@.subrange(start as int, len as int) == attachments_bytes(vs.subrange(0, vs.len() as int)) + rest by {
        lemma_attachments_len(vs);
        let e = be_bytes_u64(vs.len() as u64);
        let y = attachments_bytes(vs) + rest;
        assert(attachment_list_bytes(vs) + rest =~= e + y);
        assert(start == pos + 8);
        assert(b@.subrange(start as int, len as int) =~= (e + y).subrange(8, (e + y).len() as int));
        lemma_be_u64_of_bytes(vs.len() as u64);
        assert(vs.subrange(0, vs.len() as int) =~= vs);
        assert(b@.subrange(start as int, len as int) =~= attachments_bytes(vs) + rest);
    }
    let mut list: Vec<Attachment> = Vec::new();
    let mut cur: usize = start;
    let mut i: u64 = 0;
    assert(b@.subrange(pos as int, cur as int) =~= be_bytes_u64(count) + attachments_bytes(
        attachment_views(list@),
    ));
    while i < count
        invariant
            pos <= cur <= len == b@.len(),
            i <= count,
            list@.len() == i,
            b@.subrange(pos as int, cur as int) == be_bytes_u64(count) + attachments_bytes(
                attachment_views(list@),
            ),
            forall|vs: Seq<AttachmentView>, rest: Seq<u8>|
                #![trigger attachment_list_bytes(vs) + rest]
                b@.subrange(pos as int, b@.len() as int) == attachment_list_bytes(vs) + rest ==> (
                count == vs.len() && attachment_views(list@) == vs.subrange(0, i as int)
                    && b@.subrange(cur as int, len as int) == attachments_bytes(
                    vs.subrange(i as int, vs.len() as int),
                ) + rest),
        decreases count - i,
    {
        let (a, next) = match read_attachment(b, cur) {
            Some(x) => x,
            None => {
                assert forall|vs: Seq<AttachmentView>, rest: Seq<u8>|
                    #![trigger attachment_list_bytes(vs) + rest]
                    b@.subrange(pos as int, b@.len() as int) != attachment_list_bytes(vs) + rest by {
                    if b@.subrange(pos as int, b@.len() as int) == attachment_list_bytes(vs) + rest {
                        let tail = vs.subrange(i as int, vs.len() as int);
                        assert(tail.drop_first() =~= vs.subrange(i + 1, vs.len() as int));
                        assert(attachments_bytes(tail) + rest =~= attachment_bytes(tail[0]) + (
                        attachments_bytes(tail.drop_first()) + rest));
                    }
                }
                return None;
            },
        };
        proof {
            lemma_attachments_push(attachment_views(list@), a.view());
            assert(b@.subrange(pos as int, next as int) =~= b@.subrange(pos as int, cur as int)
                + b@.subrange(cur as int, next as int));
        }
        let ghost old_list = list@;
        list.push(a);
        assert(attachment_views(list@) =~= attachment_views(old_list).push(a.view()));
        assert forall|vs: Seq<AttachmentView>, rest: Seq<u8>|
            #![trigger attachment_list_bytes(vs) + rest]
            b@.subrange(pos as int, b@.len() as int) == attachment_list_bytes(vs) + rest implies
            attachment_views(list@) == vs.subrange(0, i + 1) && b@.subrange(next as int, len as int)
            == attachments_bytes(vs.subrange(i + 1, vs.len() as int)) + rest by {
            let tail = vs.subrange(i as int, vs.len() as int);
            assert(tail.drop_first() =~= vs.subrange(i + 1, vs.len() as int));
            let f = attachment_bytes(tail[0]);
            let after = attachments_bytes(tail.drop_first()) + rest;
            assert(attachments_bytes(tail) + rest =~= f + after);
            assert(b@.subrange(next as int, len as int) =~= (f + after).subrange(
                f.len() as int,
                (f + after).len() as int,
            ));
            assert(attachment_views(old_list).push(a.view()) =~= vs.subrange(0, i + 1));
        }
        cur = next;
        i = i + 1;
    }
    assert forall|vs: Seq<AttachmentView>, rest: Seq<u8>|
        #![trigger attachment_list_bytes(vs) + rest]
        b@.subrange(pos as int, b@.len() as int) == attachment_list_bytes(vs) + rest implies
        attachment_views(list@) == vs && cur == pos + attachment_list_bytes(vs).len() by {
        assert(vs.subrange(0, i as int) =~= vs);
        assert(vs.subrange(i as int, vs.len() as int) =~= Seq::<AttachmentView>::empty());
        assert(b@.subrange(cur as int, len as int) =~= rest);
    }
    Some((list, cur))
}

/// Reads the reply target, nonce, content and format of an inner message that fills
/// `b`, and where its disclosed recipients start.
#[verifier::rlimit(60)]
fn read_body_head(b: &[u8]) -> (r: Option<(Option<Vec<u8>>, Vec<u8>, String, u8, usize)>)
    ensures
        r matches Some((reply, nonce, content, format, at)) ==> at <= b@.len() && b@.subrange(0, at as int)
            == reply_bytes(opt_bytes(reply)) + field(nonce@) + field(encode_utf8(content@)) + seq![format],
        forall|v: MessageBodyView|
            #![trigger body_bytes(v)]
            body_bytes(v) == b@ ==> (r matches Some((reply, nonce, content, format, at)) && opt_bytes(reply)
                == v.in_reply_to && nonce@ == v.nonce && content@ == v.content && format == format_byte(
                v.rich_text_format,
            ) && b@.subrange(at as int, b@.len() as int) == body_after_format(v)),
{
    let len = b.len();
    assert(b@.subrange(0, len as int) =~= b@);
    let (in_reply_to, at_nonce) = match read_reply(b, 0) {
        Some(x) => x,
        None => {
            assert forall|v: MessageBodyView| #![trigger body_bytes(v)] body_bytes(v) != b@ by {
                assert(body_bytes(v) == reply_bytes(v.in_reply_to) + body_after_reply(v));
            }
            return None;
        },
    };
    assert forall|v: MessageBodyView|
        #![trigger body_bytes(v)]
        body_bytes(v) == b@ implies opt_bytes(in_reply_to) == v.in_reply_to && b@.subrange(
        at_nonce as int,
        len as int,
    ) == body_after_reply(v) by {
        let x = reply_bytes(v.in_reply_to);
        let y = body_after_reply(v);
        assert(body_bytes(v) == x + y);
        assert(b@.subrange(at_nonce as int, len as int) =~= (x + y).subrange(
            x.len() as int,
            (x + y).len() as int,
        ));
    }
    let (nonce, at_content) = match read_field(b, at_nonce) {
        Some(x) => x,
        None => {
            assert forall|v: MessageBodyView| #![trigger body_bytes(v)] body_bytes(v) != b@ by {
                if body_bytes(v) == b@ {
                    assert(body_after_reply(v) == field(v.nonce) + body_after_nonce(v));
                }
            }
            return None;
        },
    };
    assert forall|v: MessageBodyView|
        #![trigger body_bytes(v)]
        body_bytes(v) == b@ implies nonce@ == v.nonce && b@.subrange(at_content as int, len as int)
        == body_after_nonce(v) by {
        let x = field(v.nonce);
        let y = body_after_nonce(v);
        assert(body_after_reply(v) == x + y);
        assert(b@.subrange(at_content as int, len as int) =~= (x + y).subrange(
            x.len() as int,
            (x + y).len() as int,
        ));
    }
    let (content, at_format) = match read_text(b, at_content) {
        Some(x) => x,
        None => {
            assert forall|v: MessageBodyView| #![trigger body_bytes(v)] body_bytes(v) != b@ by {
                if body_bytes(v) == b@ {
                    assert(body_after_nonce(v) == field(encode_utf8(v.content)) + body_after_content(
                        v,
                    ));
                }
            }
            return None;
        },
    };
    assert forall|v: MessageBodyView|
        #![trigger body_bytes(v)]
        body_bytes(v) == b@ implies content@ == v.content && b@.subrange(at_format as int, len as int)
        == body_after_content(v) by {
        let x = field(encode_utf8(v.content));
        let y = body_after_content(v);
        assert(body_after_nonce(v) == x + y);
        assert(b@.subrange(at_format as int, len as int) =~= (x + y).subrange(
            x.len() as int,
            (x + y).len() as int,
        ));
    }
    let (format, at_recipients) = match read_byte(b, at_format) {
        Some(x) => x,
        None => {
            assert forall|v: MessageBodyView| #![trigger body_bytes(v)] body_bytes(v) != b@ by {
                if body_bytes(v) == b@ {
                    assert(body_after_content(v) == seq![format_byte(v.rich_text_format)]
                        + body_after_format(v));
                }
            }
            return None;
        },
    };
    assert forall|v: MessageBodyView|
        #![trigger body_bytes(v)]
        body_bytes(v) == b@ implies format == format_byte(v.rich_text_format) && b@.subrange(
        at_recipients as int,
        len as int,
    ) == body_after_format(v) by {
        let x = seq![format_byte(v.rich_text_format)];
        let y = body_after_format(v);
        assert(body_after_content(v) == x + y);
        assert(b@.subrange(at_recipients as int, len as int) =~= (x + y).subrange(1, (x + y).len() as int));
    }
    assert(b@.subrange(0, at_recipients as int) =~= reply_bytes(opt_bytes(in_reply_to)) + field(nonce@) + field(
        encode_utf8(content@),
    ) + seq![format]);
    Some((in_reply_to, nonce, content, format, at_recipients))
}

/// Reads the disclosed recipients and the attachments that fill `b` from `at` on.
#[verifier::rlimit(60)]
fn read_body_lists(b: &[u8], at: usize) -> (r: Option<(Vec<PublicHalf>, Vec<Attachment>)>)
    requires
        at <= b@.len(),
    ensures
        r matches Some((ds, atts)) ==> b@.subrange(at as int, b@.len() as int) == recipient_list_bytes(
            public_half_views(ds@),
        ) + attachment_list_bytes(attachment_views(atts@)),
        forall|ds: Seq<PublicHalfView>, atts: Seq<AttachmentView>|
            #![trigger recipient_list_bytes(ds) + attachment_list_bytes(atts)]
            b@.subrange(at as int, b@.len() as int) == recipient_list_bytes(ds) + attachment_list_bytes(atts)
                ==> (r matches Some((d2, a2)) && public_half_views(d2@) == ds && attachment_views(a2@)
                == atts),
{
    let len = b.len();
    let (disclosed_recipients, at_attachments) = match read_recipient_list(b, at) {
        Some(x) => x,
        None => return None,
    };
    assert forall|ds: Seq<PublicHalfView>, atts: Seq<AttachmentView>|
        #![trigger recipient_list_bytes(ds) + attachment_list_bytes(atts)]
        b@.subrange(at as int, b@.len() as int) == recipient_list_bytes(ds) + attachment_list_bytes(atts)
            implies public_half_views(disclosed_recipients@) == ds && b@.subrange(at_attachments as int, len as int)
            == attachment_list_bytes(atts) + Seq::<u8>::empty() by {
        let x = recipient_list_bytes(ds);
        let y = attachment_list_bytes(atts);
        assert(b@.subrange(at_attachments as int, len as int) =~= (x + y).subrange(
            x.len() as int,
            (x + y).len() as int,
        ));
        assert(y + Seq::<u8>::empty() =~= y);
    }
    let (attachments, at_end) = match read_attachment_list(b, at_attachments) {
        Some(x) => x,
        None => return None,
    };
    if at_end != len {
        assert forall|ds: Seq<PublicHalfView>, atts: Seq<AttachmentView>|
            #![trigger recipient_list_bytes(ds) + attachment_list_bytes(atts)]
            b@.subrange(at as int, b@.len() as int) != recipient_list_bytes(ds) + attachment_list_bytes(atts) by {
            if b@.subrange(at as int, b@.len() as int) == recipient_list_bytes(ds) + attachment_list_bytes(atts) {
                let y = attachment_list_bytes(atts);
                assert(b@.subrange(at_attachments as int, len as int) == y + Seq::<u8>::empty());
                assert(at_end == at_attachments + y.len());
            }
        }
        return None;
    }
    assert(b@.subrange(at as int, len as int) =~= b@.subrange(at as int, at_attachments as int) + b@.subrange(
        at_attachments as int,
        len as int,
    ));
    Some((disclosed_recipients, attachments))
}

proof fn lemma_body_bytes_split(v: MessageBodyView)
    ensures
        body_bytes(v) == reply_bytes(v.in_reply_to) + field(v.nonce) + field(encode_utf8(v.content))
            + seq![format_byte(v.rich_text_format)] + body_after_format(v),
{
    assert(body_bytes(v) =~= reply_bytes(v.in_reply_to) + field(v.nonce) + field(encode_utf8(v.content))
        + seq![format_byte(v.rich_text_format)] + body_after_format(v));
}

/// Decodes the inner message from bytes that it fills exactly: exactly the
/// encodings of messages decode, each to the message it encodes.
#[verifier::rlimit(100)]
pub fn decode_body(b: &[u8]) -> (r: Option<MessageBody>)
    ensures
        r matches Some(m) ==> body_bytes(m.view()) == b@,
        forall|v: MessageBodyView|
            #![trigger body_bytes(v)]
            body_bytes(v) == b@ ==> (r matches Some(m) && m.view() == v),
{
    let len = b.len();
    let (in_reply_to, nonce, content, format, at_recipients) = match read_body_head(b) {
        Some(x) => x,
        None => return None,
    };
    let rich_text_format = if format == 0u8 {
        RichTextFormat::Plaintext
    } else if format == 1u8 {
        RichTextFormat::Markdown
    } else {
        assert forall|v: MessageBodyView| #![trigger body_bytes(v)] body_bytes(v) != b@ by {
            if body_bytes(v) == b@ {
                assert(format == format_byte(v.rich_text_format));
            }
        }
        return None;
    };
    let (disclosed_recipients, attachments) = match read_body_lists(b, at_recipients) {
        Some(x) => x,
        None => {
            assert forall|v: MessageBodyView| #![trigger body_bytes(v)] body_bytes(v) != b@ by {
                if body_bytes(v) == b@ {
                    assert(body_after_format(v) == recipient_list_bytes(v.disclosed_recipients)
                        + attachment_list_bytes(v.attachments));
                }
            }
            return None;
        },
    };
    let body = MessageBody {
        in_reply_to,
        nonce,
        content,
        rich_text_format,
        disclosed_recipients,
        attachments,
    };
    let ghost m = body.view();
    assert forall|v: MessageBodyView| #![trigger body_bytes(v)] body_bytes(v) == b@ implies m == v by {
        assert(format == format_byte(v.rich_text_format));
        assert(body_after_format(v) == recipient_list_bytes(v.disclosed_recipients)
            + attachment_list_bytes(v.attachments));
    }
    assert(b@ =~= b@.subrange(0, at_recipients as int) + b@.subrange(at_recipients as int, len as int));
    proof {
        lemma_body_bytes_split(m);
    }
    Some(body)
}

} // verus!
