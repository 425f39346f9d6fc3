use vstd::prelude::*;

use crate::bytes::{copy_range, extend_bytes, opt_bytes};
use crate::sodium::{
    agrees, box_gen_keypair, curve25519_base_of, curve25519_of, gen_key, gen_nonce, scalarmult, secretbox_open,
    secretbox_open_of, secretbox_seal, secretbox_seal_of, KEYBYTES, MACBYTES, NONCEBYTES,
    PUBLICKEYBYTES,
};

verus! {

/// Bytes of one header slot: a sealed content key followed by the recipient count.
pub const HEADER_BLOCK_BYTES: usize = 49;

/// Bytes before the first header slot: the nonce and the ephemeral public key.
pub const PREFIX_BYTES: usize = 56;

/// Most recipients an envelope can name, and most header slots a reader tries.
pub const MAX_RECIPIENTS: usize = 255;

/// The header slot `j` of an envelope.
pub open spec fn block_at(ct: Seq<u8>, j: int) -> Seq<u8> {
    ct.subrange(56 + 49 * j, 56 + 49 * j + 49)
}

/// The Curve25519 secret that the sender shares with a recipient's public key.
pub open spec fn shared_secret(ephemeral_secret: Seq<u8>, public_key: Seq<u8>) -> Seq<u8> {
    match curve25519_of(ephemeral_secret, public_key) {
        Some(q) => q,
        None => Seq::empty(),
    }
}

/// Whether every public key is 32 bytes long and gives a nonzero shared point.
pub open spec fn keys_acceptable(ephemeral_secret: Seq<u8>, public_keys: Seq<Seq<u8>>) -> bool {
    forall|i: int|
        0 <= i < public_keys.len() ==> #[trigger] public_keys[i].len() == 32 && curve25519_of(
            ephemeral_secret,
            public_keys[i],
        ) is Some
}

/// The secrets that the sender shares with each recipient, in order.
pub open spec fn shared_secrets(ephemeral_secret: Seq<u8>, public_keys: Seq<Seq<u8>>) -> Seq<
    Seq<u8>,
> {
    public_keys.map_values(|pk: Seq<u8>| shared_secret(ephemeral_secret, pk))
}

/// The header slots: `plain` sealed under each shared secret in turn.
pub open spec fn header_blocks(plain: Seq<u8>, nonce: Seq<u8>, shared: Seq<Seq<u8>>) -> Seq<u8>
    decreases shared.len(),
{
    if shared.len() == 0 {
        Seq::empty()
    } else {
        header_blocks(plain, nonce, shared.drop_last()) + secretbox_seal_of(
            plain,
            nonce,
            shared.last(),
        )
    }
}

/// The envelope of `plaintext` for `public_keys` under the given nonce, ephemeral
/// keypair and content key: the nonce, the ephemeral public key, one slot per
/// recipient holding the content key and the recipient count, then the sealed
/// plaintext. `None` for more than 255 recipients or an unacceptable key.
pub open spec fn seal_envelope(
    plaintext: Seq<u8>,
    public_keys: Seq<Seq<u8>>,
    nonce: Seq<u8>,
    ephemeral_public: Seq<u8>,
    ephemeral_secret: Seq<u8>,
    key: Seq<u8>,
) -> Option<Seq<u8>> {
    if public_keys.len() > 255 || !keys_acceptable(ephemeral_secret, public_keys) {
        None
    } else {
        Some(
            nonce + ephemeral_public + header_blocks(
                key.push(public_keys.len() as u8),
                nonce,
                shared_secrets(ephemeral_secret, public_keys),
            ) + secretbox_seal_of(plaintext, nonce, key),
        )
    }
}

/// Whether `ct` opens as an envelope should: it starts with `nonce`, slot `j` opens
/// under `shared[j]` to `key` followed by the recipient count, and what follows the
/// last slot opens under `key` to `plaintext`.
pub open spec fn envelope_opens(
    ct: Seq<u8>,
    plaintext: Seq<u8>,
    nonce: Seq<u8>,
    shared: Seq<Seq<u8>>,
    key: Seq<u8>,
) -> bool {
    let n = shared.len();
    &&& ct.len() >= 56 + 49 * n
    &&& ct.subrange(0, 24) == nonce
    &&& forall|j: int|
        0 <= j < n ==> secretbox_open_of(#[trigger] block_at(ct, j), nonce, shared[j]) == Some(
            key.push(n as u8),
        )
    &&& secretbox_open_of(ct.subrange(56 + 49 * n as int, ct.len() as int), nonce, key) == Some(
        plaintext,
    )
}

/// What a reader holding shared secret `shared` recovers when it scans the header
/// from byte `pos`, having tried `iteration` slots: the first slot that opens names
/// the content key and the recipient count, the remaining slots are skipped, and the
/// rest opens under the content key.
pub open spec fn scan_header(
    ct: Seq<u8>,
    nonce: Seq<u8>,
    shared: Seq<u8>,
    pos: nat,
    iteration: nat,
) -> Option<Seq<u8>>
    decreases 255 - iteration,
{
    if pos + 49 > ct.len() || iteration >= 255 {
        None
    } else {
        let next = pos + 49;
        match secretbox_open_of(ct.subrange(pos as int, next as int), nonce, shared) {
            None => scan_header(ct, nonce, shared, next, iteration + 1),
            Some(d) => {
                let tried = iteration + 1;
                if d.len() != 33 || (d[32] as nat) < tried {
                    None
                } else {
                    let body_start = next + (d[32] as nat - tried) * 49;
                    if body_start > ct.len() {
                        None
                    } else {
                        secretbox_open_of(
                            ct.subrange(body_start as int, ct.len() as int),
                            nonce,
                            d.subrange(0, 32),
                        )
                    }
                }
            },
        }
    }
}

/// What the holder of `private_key` recovers from envelope `ct`.
pub open spec fn open_envelope(ct: Seq<u8>, private_key: Seq<u8>) -> Option<Seq<u8>> {
    if ct.len() < 56 || private_key.len() != 32 {
        None
    } else {
        match curve25519_of(private_key, ct.subrange(24, 56)) {
            None => None,
            Some(shared) => scan_header(ct, ct.subrange(0, 24), shared, 56, 0),
        }
    }
}

/// Whether `ct` is the envelope of `plaintext` for `public_keys` under some nonce,
/// ephemeral keypair and content key of the right lengths.
pub open spec fn sealed_for(ct: Seq<u8>, plaintext: Seq<u8>, public_keys: Seq<Seq<u8>>) -> bool {
    exists|nonce: Seq<u8>, ephemeral_public: Seq<u8>, ephemeral_secret: Seq<u8>, key: Seq<u8>|
        nonce.len() == NONCEBYTES && ephemeral_public.len() == PUBLICKEYBYTES
            && ephemeral_secret.len() == PUBLICKEYBYTES && key.len() == KEYBYTES && #[trigger] seal_envelope(
            plaintext,
            public_keys,
            nonce,
            ephemeral_public,
            ephemeral_secret,
            key,
        ) == Some(ct)
}

/// Whether `r` is what sealing `plaintext` for `public_keys` gives under some nonce,
/// agreeing ephemeral keypair and content key of the right lengths, with every slot
/// and the body opening as an envelope should.
pub open spec fn sealed_exactly(r: Option<Seq<u8>>, plaintext: Seq<u8>, public_keys: Seq<Seq<u8>>) -> bool {
    exists|nonce: Seq<u8>, ephemeral_public: Seq<u8>, ephemeral_secret: Seq<u8>, key: Seq<u8>|
        nonce.len() == NONCEBYTES && ephemeral_public.len() == PUBLICKEYBYTES
            && ephemeral_secret.len() == PUBLICKEYBYTES && key.len() == KEYBYTES && r == #[trigger] seal_envelope(
            plaintext,
            public_keys,
            nonce,
            ephemeral_public,
            ephemeral_secret,
            key,
        ) && agrees(ephemeral_public, ephemeral_secret) && (r matches Some(ct) ==> envelope_opens(
            ct,
            plaintext,
            nonce,
            shared_secrets(ephemeral_secret, public_keys),
            key,
        ))
}

/// The byte strings that a list of keys holds.
pub open spec fn key_views(public_keys: Seq<&[u8]>) -> Seq<Seq<u8>> {
    public_keys.map_values(|pk: &[u8]| pk@)
}

/// Builds the envelope of `plaintext` for `public_keys` from a given nonce, ephemeral
/// keypair and content key.
pub fn encrypt_with(
    plaintext: &[u8],
    public_keys: &[&[u8]],
    nonce: &[u8],
    ephemeral_public: &[u8],
    ephemeral_secret: &[u8],
    key: &[u8],
) -> (r: Option<Vec<u8>>)
    requires
        nonce@.len() == NONCEBYTES,
        ephemeral_public@.len() == PUBLICKEYBYTES,
        ephemeral_secret@.len() == PUBLICKEYBYTES,
        key@.len() == KEYBYTES,
    ensures
        opt_bytes(r) == seal_envelope(
            plaintext@,
            key_views(public_keys@),
            nonce@,
            ephemeral_public@,
            ephemeral_secret@,
            key@,
        ),
        r matches Some(ct) ==> envelope_opens(
            ct@,
            plaintext@,
            nonce@,
            shared_secrets(ephemeral_secret@, key_views(public_keys@)),
            key@,
        ),
        r matches Some(ct) ==> ct@.len() == 56 + 49 * public_keys@.len() + plaintext@.len() + 16,
{
    let ghost pks = key_views(public_keys@);
    let ghost shared = shared_secrets(ephemeral_secret@, pks);
    if public_keys.len() > MAX_RECIPIENTS {
        return None;
    }
    let count: u8 = public_keys.len() as u8;
    let mut header_plain: Vec<u8> = Vec::new();
    extend_bytes(&mut header_plain, key);
    header_plain.push(count);
    let ghost hp = header_plain@;
    assert(hp == key@.push(count));
    let mut ct: Vec<u8> = Vec::new();
    extend_bytes(&mut ct, nonce);
    extend_bytes(&mut ct, ephemeral_public);
    assert(ct@.subrange(0, 24) =~= nonce@);
    assert(shared.subrange(0, 0) =~= Seq::<Seq<u8>>::empty());
    let mut i: usize = 0;
    while i < public_keys.len()
        invariant
            i <= public_keys@.len() <= 255,
            pks == key_views(public_keys@),
            shared == shared_secrets(ephemeral_secret@, pks),
            count as nat == public_keys@.len(),
            hp == header_plain@,
            hp == key@.push(count),
            header_plain@.len() == 33,
            nonce@.len() == NONCEBYTES,
            ephemeral_public@.len() == PUBLICKEYBYTES,
            ephemeral_secret@.len() == PUBLICKEYBYTES,
            forall|j: int| 0 <= j < i ==> #[trigger] pks[j].len() == 32 && curve25519_of(
                ephemeral_secret@,
                pks[j],
            ) is Some,
            ct@ == nonce@ + ephemeral_public@ + header_blocks(hp, nonce@, shared.subrange(0, i as int)),
            ct@.len() == 56 + 49 * i,
            ct@.subrange(0, 24) == nonce@,
            forall|j: int|
                0 <= j < i ==> secretbox_open_of(#[trigger] block_at(ct@, j), nonce@, shared[j])
                    == Some(hp),
        decreases public_keys@.len() - i,
    {
        let pk: &[u8] = public_keys[i];
        assert(pks[i as int] == pk@);
        if pk.len() != PUBLICKEYBYTES {
            assert(!keys_acceptable(ephemeral_secret@, pks));
            return None;
        }
        let point = match scalarmult(ephemeral_secret, pk) {
            Some(q) => q,
            None => {
                assert(!keys_acceptable(ephemeral_secret@, pks));
                return None;
            },
        };
        assert(curve25519_of(ephemeral_secret@, pks[i as int]) == Some(point@));
        assert(shared[i as int] == point@);
        let block = secretbox_seal(header_plain.as_slice(), nonce, point.as_slice());
        let ghost before = ct@;
        extend_bytes(&mut ct, block.as_slice());
        assert(shared.subrange(0, i + 1).drop_last() =~= shared.subrange(0, i as int));
        assert(shared.subrange(0, i + 1).last() == point@);
        assert(ct@ =~= nonce@ + ephemeral_public@ + header_blocks(hp, nonce@, shared.subrange(0, i + 1)));
        assert(block_at(ct@, i as int) =~= block@);
        assert forall|j: int| 0 <= j < i + 1 implies secretbox_open_of(
            #[trigger] block_at(ct@, j),
            nonce@,
            shared[j],
        ) == Some(hp) by {
            if j < i {
                assert(block_at(ct@, j) =~= block_at(before, j));
            }
        }
        assert(ct@.subrange(0, 24) =~= before.subrange(0, 24));
        assert(pks[i as int].len() == 32);
        assert(curve25519_of(ephemeral_secret@, pks[i as int]) is Some);
        i = i + 1;
    }
    assert(shared.subrange(0, i as int) =~= shared);
    assert(keys_acceptable(ephemeral_secret@, pks));
    let body = secretbox_seal(plaintext, nonce, key);
    let ghost before = ct@;
    extend_bytes(&mut ct, body.as_slice());
    assert(ct@.subrange(56 + 49 * i, ct@.len() as int) =~= body@);
    assert forall|j: int| 0 <= j < i implies secretbox_open_of(
        #[trigger] block_at(ct@, j),
        nonce@,
        shared[j],
    ) == Some(key@.push(pks.len() as u8)) by {
        assert(block_at(ct@, j) =~= block_at(before, j));
    }
    assert(ct@.subrange(0, 24) =~= before.subrange(0, 24));
    Some(ct)
}

/// Seals `plaintext` for every key of `public_keys` under a fresh nonce, ephemeral
/// keypair and content key. `None` for more than 255 recipients or an unacceptable
/// key.
pub fn encrypt(plaintext: &[u8], public_keys: &[&[u8]]) -> (r: Option<Vec<u8>>)
    ensures
        exists|nonce: Seq<u8>, ephemeral_public: Seq<u8>, ephemeral_secret: Seq<u8>, key: Seq<u8>|
            {
                &&& nonce.len() == NONCEBYTES
                &&& ephemeral_public.len() == PUBLICKEYBYTES
                &&& ephemeral_secret.len() == PUBLICKEYBYTES
                &&& key.len() == KEYBYTES
                &&& opt_bytes(r) == seal_envelope(
                    plaintext@,
                    key_views(public_keys@),
                    nonce,
                    ephemeral_public,
                    ephemeral_secret,
                    key,
                )
                &&& r matches Some(ct) ==> envelope_opens(
                    ct@,
                    plaintext@,
                    nonce,
                    shared_secrets(ephemeral_secret, key_views(public_keys@)),
                    key,
                )
                &&& agrees(ephemeral_public, ephemeral_secret)
            },
        r matches Some(ct) ==> sealed_for(ct@, plaintext@, key_views(public_keys@)),
        sealed_exactly(opt_bytes(r), plaintext@, key_views(public_keys@)),
        r matches Some(ct) ==> ct@.len() == 56 + 49 * public_keys@.len() + plaintext@.len() + 16,
{
    let nonce = gen_nonce();
    let (ephemeral_public, ephemeral_secret) = box_gen_keypair();
    let key = gen_key();
    let r = encrypt_with(
        plaintext,
        public_keys,
        nonce.as_slice(),
        ephemeral_public.as_slice(),
        ephemeral_secret.as_slice(),
        key.as_slice(),
    );
    proof {
        if r is Some {
            assert(seal_envelope(
                plaintext@,
                key_views(public_keys@),
                nonce@,
                ephemeral_public@,
                ephemeral_secret@,
                key@,
            ) == Some(r->0@));
        }
    }
    r
}

/// Opens envelope `ct` with `private_key`: derives the secret shared with the
/// ephemeral key, tries at most 255 header slots in order, and opens the rest with the
/// content key of the first slot that opens. `None` when nothing opens, the recipient
/// count is smaller than the slot's position, the envelope is short, or the private
/// key is not 32 bytes long.
pub fn decrypt(ciphertext: &[u8], private_key: &[u8]) -> (r: Option<Vec<u8>>)
    ensures
        opt_bytes(r) == open_envelope(ciphertext@, private_key@),
{
    if ciphertext.len() < PREFIX_BYTES || private_key.len() != PUBLICKEYBYTES {
        return None;
    }
    let nonce = copy_range(ciphertext, 0, NONCEBYTES);
    let ephemeral_public = copy_range(ciphertext, NONCEBYTES, PREFIX_BYTES);
    let shared = match scalarmult(private_key, ephemeral_public.as_slice()) {
        Some(q) => q,
        None => return None,
    };
    let ghost ct = ciphertext@;
    let mut pos: usize = PREFIX_BYTES;
    let mut iteration: u8 = 0;
    loop
        invariant
            ct == ciphertext@,
            ct.len() >= 56,
            nonce@ == ct.subrange(0, 24),
            shared@.len() == 32,
            open_envelope(ct, private_key@) == scan_header(ct, nonce@, shared@, pos as nat, iteration as nat),
            pos == 56 + 49 * iteration,
            iteration <= 255,
        decreases 255 - iteration,
    {
        if pos + HEADER_BLOCK_BYTES > ciphertext.len() || iteration == 255 {
            return None;
        }
        iteration = iteration + 1;
        let block = copy_range(ciphertext, pos, pos + HEADER_BLOCK_BYTES);
        pos = pos + HEADER_BLOCK_BYTES;
        match secretbox_open(block.as_slice(), nonce.as_slice(), shared.as_slice()) {
            None => {},
            Some(decrypted) => {
                if decrypted.len() != KEYBYTES + 1 {
                    return None;
                }
                let count: u8 = decrypted[KEYBYTES];
                if count < iteration {
                    return None;
                }
                let remaining: usize = (count - iteration) as usize * HEADER_BLOCK_BYTES;
                if remaining > ciphertext.len() - pos {
                    return None;
                }
                let body = copy_range(ciphertext, pos + remaining, ciphertext.len());
                let key = copy_range(decrypted.as_slice(), 0, KEYBYTES);
                return secretbox_open(body.as_slice(), nonce.as_slice(), key.as_slice());
            },
        }
    }
}

proof fn lemma_scan_from(
    ct: Seq<u8>,
    plaintext: Seq<u8>,
    nonce: Seq<u8>,
    shared: Seq<Seq<u8>>,
    key: Seq<u8>,
    i: int,
    t: int,
)
    requires
        envelope_opens(ct, plaintext, nonce, shared, key),
        key.len() == 32,
        shared.len() <= 255,
        0 <= t <= i < shared.len(),
        forall|j: int|
            0 <= j < i ==> {
                let d = secretbox_open_of(#[trigger] block_at(ct, j), nonce, shared[i]);
                d is None || d == Some(key.push(shared.len() as u8))
            },
    ensures
        scan_header(ct, nonce, shared[i], (56 + 49 * t) as nat, t as nat) == Some(plaintext),
    decreases i - t,
{
    let n = shared.len();
    let pos = 56 + 49 * t;
    assert(pos + 49 <= 56 + 49 * n) by (nonlinear_arith)
        requires
            pos == 56 + 49 * t,
            t < n,
    ;
    assert(ct.subrange(pos, pos + 49) == block_at(ct, t));
    let hp = key.push(n as u8);
    let opened = secretbox_open_of(block_at(ct, t), nonce, shared[i]);
    if t == i {
        assert(opened == Some(hp));
    }
    if opened is None {
        lemma_scan_from(ct, plaintext, nonce, shared, key, i, t + 1);
        assert(56 + 49 * (t + 1) == pos + 49);
    } else {
        assert(opened == Some(hp));
        assert(hp[32] == n as u8);
        assert(hp.subrange(0, 32) =~= key);
        let body_start = pos + 49 + (n - (t + 1)) * 49;
        assert(body_start == 56 + 49 * n) by (nonlinear_arith)
            requires
                body_start == pos + 49 + (n - (t + 1)) * 49,
                pos == 56 + 49 * t,
        ;
    }
}

/// Every recipient of an envelope recovers the plaintext: when the private key's
/// secret shared with the envelope's ephemeral key is the one the envelope was
/// sealed under for recipient `i`, and no earlier slot opens under that secret to
/// anything but the same content key and count, opening gives the plaintext back.
pub proof fn lemma_private_box_round_trip(
    ct: Seq<u8>,
    plaintext: Seq<u8>,
    nonce: Seq<u8>,
    shared: Seq<Seq<u8>>,
    key: Seq<u8>,
    private_key: Seq<u8>,
    i: int,
)
    requires
        envelope_opens(ct, plaintext, nonce, shared, key),
        key.len() == 32,
        nonce.len() == 24,
        1 <= shared.len() <= 255,
        0 <= i < shared.len(),
        private_key.len() == 32,
        curve25519_of(private_key, ct.subrange(24, 56)) == Some(shared[i]),
        forall|j: int|
            0 <= j < i ==> {
                let d = secretbox_open_of(#[trigger] block_at(ct, j), nonce, shared[i]);
                d is None || d == Some(key.push(shared.len() as u8))
            },
    ensures
        open_envelope(ct, private_key) == Some(plaintext),
{
    lemma_scan_from(ct, plaintext, nonce, shared, key, i, 0);
}

/// A keypair's holder recovers the plaintext of an envelope sealed for its public
/// key at position `i` by an agreeing ephemeral keypair, when no earlier slot opens
/// under the shared secret to anything but the same content key and count; for the
/// first recipient, and so for a single recipient, that always holds.
pub proof fn lemma_keypair_round_trip(
    ct: Seq<u8>,
    plaintext: Seq<u8>,
    public_keys: Seq<Seq<u8>>,
    nonce: Seq<u8>,
    ephemeral_public: Seq<u8>,
    ephemeral_secret: Seq<u8>,
    key: Seq<u8>,
    private_key: Seq<u8>,
    i: int,
)
    requires
        nonce.len() == 24,
        ephemeral_public.len() == 32,
        key.len() == 32,
        private_key.len() == 32,
        seal_envelope(plaintext, public_keys, nonce, ephemeral_public, ephemeral_secret, key) == Some(ct),
        envelope_opens(ct, plaintext, nonce, shared_secrets(ephemeral_secret, public_keys), key),
        agrees(ephemeral_public, ephemeral_secret),
        1 <= public_keys.len(),
        0 <= i < public_keys.len(),
        public_keys[i] == curve25519_base_of(private_key),
        forall|j: int|
            0 <= j < i ==> {
                let d = secretbox_open_of(
                    #[trigger] block_at(ct, j),
                    nonce,
                    shared_secrets(ephemeral_secret, public_keys)[i],
                );
                d is None || d == Some(key.push(public_keys.len() as u8))
            },
    ensures
        open_envelope(ct, private_key) == Some(plaintext),
{
    let shared = shared_secrets(ephemeral_secret, public_keys);
    assert(keys_acceptable(ephemeral_secret, public_keys));
    assert(public_keys[i].len() == 32);
    assert(ct.subrange(24, 56) =~= ephemeral_public);
    assert(curve25519_of(ephemeral_secret, curve25519_base_of(private_key)) == curve25519_of(
        private_key,
        ephemeral_public,
    ));
    assert(shared[i] == shared_secret(ephemeral_secret, public_keys[i]));
    lemma_private_box_round_trip(ct, plaintext, nonce, shared, key, private_key, i);
}

/// The holder of the first recipient key's secret opens anything sealed for that list
/// of keys: an envelope that `encrypt` (or an encoded message) returns opens for it.
pub proof fn lemma_first_recipient_opens(
    ct: Seq<u8>,
    plaintext: Seq<u8>,
    public_keys: Seq<Seq<u8>>,
    private_key: Seq<u8>,
)
    requires
        sealed_exactly(Some(ct), plaintext, public_keys),
        1 <= public_keys.len(),
        private_key.len() == 32,
        public_keys[0] == curve25519_base_of(private_key),
    ensures
        open_envelope(ct, private_key) == Some(plaintext),
{
    let (nonce, ephemeral_public, ephemeral_secret, key) = choose|
        nonce: Seq<u8>,
        ephemeral_public: Seq<u8>,
        ephemeral_secret: Seq<u8>,
        key: Seq<u8>,
    |
        nonce.len() == NONCEBYTES && ephemeral_public.len() == PUBLICKEYBYTES
            && ephemeral_secret.len() == PUBLICKEYBYTES && key.len() == KEYBYTES && Some(ct) == #[trigger] seal_envelope(
            plaintext,
            public_keys,
            nonce,
            ephemeral_public,
            ephemeral_secret,
            key,
        ) && agrees(ephemeral_public, ephemeral_secret) && envelope_opens(
            ct,
            plaintext,
            nonce,
            shared_secrets(ephemeral_secret, public_keys),
            key,
        );
    lemma_keypair_round_trip(
        ct,
        plaintext,
        public_keys,
        nonce,
        ephemeral_public,
        ephemeral_secret,
        key,
        private_key,
        0,
    );
}

} // verus!
