use contrasleuth::codec::{
    decode_body, decode_public_key, decode_unverified, encode_body, encode_public_key,
    encode_unverified, MessageBody,
};
use contrasleuth::derive_state::{Attachment, PublicHalf, RichTextFormat};

fn sample_body() -> MessageBody {
    MessageBody {
        in_reply_to: Some(vec![9u8; 32]),
        nonce: vec![1u8; 10],
        content: "héllo wörld".to_string(),
        rich_text_format: RichTextFormat::Markdown,
        disclosed_recipients: vec![PublicHalf {
            public_encryption_key: vec![2u8; 32],
            public_signing_key: vec![3u8; 32],
        }],
        attachments: vec![Attachment { mime_type: "text/plain".to_string(), blob: b"abc".to_vec() }],
    }
}

#[test]
fn body_round_trip() {
    let body = sample_body();
    let bytes = encode_body(&body);
    let decoded = decode_body(&bytes).unwrap();
    assert_eq!(decoded.in_reply_to, body.in_reply_to);
    assert_eq!(decoded.nonce, body.nonce);
    assert_eq!(decoded.content, body.content);
    assert_eq!(decoded.rich_text_format, RichTextFormat::Markdown);
    assert_eq!(decoded.disclosed_recipients.len(), 1);
    assert_eq!(decoded.disclosed_recipients[0].public_signing_key, vec![3u8; 32]);
    assert_eq!(decoded.attachments[0].mime_type, "text/plain".to_string());
    assert_eq!(decoded.attachments[0].blob, b"abc".to_vec());
    assert_eq!(encode_body(&decoded), bytes);
}

#[test]
fn body_rejects_trailing_and_truncated_bytes() {
    let mut bytes = encode_body(&sample_body());
    bytes.push(0);
    assert!(decode_body(&bytes).is_none());
    bytes.pop();
    bytes.pop();
    assert!(decode_body(&bytes).is_none());
    assert!(decode_body(&[]).is_none());
    assert!(decode_body(&[2u8]).is_none());
}

#[test]
fn public_key_record_round_trip() {
    let bytes = encode_public_key(&[1u8; 32], &[2u8; 32]);
    assert_eq!(bytes.len(), 8 + 32 + 8 + 32);
    assert_eq!(&bytes[..8], &[0, 0, 0, 0, 0, 0, 0, 32]);
    let p = decode_public_key(&bytes).unwrap();
    assert_eq!(p.public_encryption_key, vec![1u8; 32]);
    assert_eq!(p.public_signing_key, vec![2u8; 32]);
    let mut longer = bytes.clone();
    longer.push(5);
    assert!(decode_public_key(&longer).is_none());
}

#[test]
fn signed_envelope_round_trip() {
    let bytes = encode_unverified(b"enc", b"sign", b"payload");
    let (e, s, p) = decode_unverified(&bytes).unwrap();
    assert_eq!((e, s, p), (b"enc".to_vec(), b"sign".to_vec(), b"payload".to_vec()));
    assert!(decode_unverified(&bytes[..bytes.len() - 1]).is_none());
}
