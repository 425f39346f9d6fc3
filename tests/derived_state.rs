use contrasleuth::derive_state::{
    calculate_public_half_id, parse, Attachment, AutosavePreference, Contact, DerivedState,
    Event, Message, MessageType, PublicHalf, RichTextFormat,
};
use contrasleuth::inventory::{self, Inventory, Mutation};
use contrasleuth::private_box::decrypt;
use sodiumoxide::crypto::{box_, sign};

fn insert(
    inventory: &mut Inventory,
    state: &mut DerivedState,
    payload: &[u8],
    expiration_time: i64,
) -> Vec<Event> {
    let nonce = 0xdeadbeefi64;
    match inventory.insert_message(inventory::Message {
        payload: payload.to_vec(),
        nonce,
        expiration_time,
    }) {
        Some(mutation) => state.on_mutation(inventory, &mutation),
        None => Vec::new(),
    }
}

fn sweep(inventory: &mut Inventory, state: &mut DerivedState, now: i64) -> Vec<Event> {
    let mut events = Vec::new();
    for mutation in inventory.purge_expired(now) {
        events.extend(state.on_mutation(inventory, &mutation));
    }
    events
}

fn assert_message_content(message: &Message, inbox_id: &[u8]) {
    let sender_id = calculate_public_half_id(
        &message.sender.public_encryption_key,
        &message.sender.public_signing_key,
    );
    assert_eq!(sender_id, inbox_id.to_vec());
    assert!(message.in_reply_to.is_none());
    assert_eq!(message.disclosed_recipients.len(), 1);
    assert_eq!(message.rich_text_format, RichTextFormat::Plaintext);
    assert_eq!(message.content, "some content".to_string());
    assert_eq!(message.attachments[0].mime_type, "text/plain".to_string());
    assert_eq!(message.attachments[0].blob, b"some content".to_vec());
}

#[test]
fn works_as_expected() {
    sodiumoxide::init().unwrap();
    let now = 1_700_000_000i64;
    let mut inventory = Inventory::new();
    let mut state = DerivedState::new();

    let (inbox_id, _) = state.new_inbox("Hello, World!".to_string());
    let (hidden_public_key, hidden_private_key) = box_::gen_keypair();
    let message = state
        .encode_message(
            None,
            vec![PublicHalf {
                public_encryption_key: box_::gen_keypair().0.as_ref().to_vec(),
                public_signing_key: sign::gen_keypair().0.as_ref().to_vec(),
            }],
            RichTextFormat::Plaintext,
            "some content".to_string(),
            vec![Attachment { mime_type: "text/plain".to_string(), blob: b"some content".to_vec() }],
            vec![hidden_public_key.as_ref().to_vec()],
            &inbox_id,
        )
        .unwrap();
    assert!(decrypt(&message, hidden_private_key.as_ref()).is_some());

    // A new message.
    let events = insert(&mut inventory, &mut state, &message, now + 2);
    assert_eq!(events.len(), 1);
    let global_id = match &events[0] {
        Event::Message { message, message_type, global_id, inbox_id: this_inbox_id, .. } => {
            assert_message_content(message, &inbox_id);
            assert_eq!(this_inbox_id, &inbox_id);
            assert_eq!(*message_type, MessageType::Unsaved);
            global_id.clone()
        }
        _ => panic!(),
    };

    // A shorter-lived copy changes nothing visible.
    assert!(insert(&mut inventory, &mut state, &message, now + 1).is_empty());

    // A longer-lived copy extends the message.
    let events = insert(&mut inventory, &mut state, &message, now + 3);
    assert_eq!(events.len(), 1);
    match &events[0] {
        Event::MessageExpirationTimeExtended { global_id: g, inbox_id: i, expiration_time } => {
            assert_eq!(g, &global_id);
            assert_eq!(i, &inbox_id);
            assert_eq!(*expiration_time, now + 3);
        }
        _ => panic!(),
    }

    // The same item again is a no-op.
    assert!(insert(&mut inventory, &mut state, &message, now + 2).is_empty());

    let dump = state.request_state_dump(&inventory);
    assert_eq!(dump.stored_messages.len(), 1);
    let stored = &dump.stored_messages[0];
    assert_message_content(&stored.message, &inbox_id);
    assert_eq!(stored.expiration_time, Some(now + 3));
    assert_eq!(stored.inbox_id, inbox_id);
    assert_eq!(stored.message_type, MessageType::Unsaved);

    // Once every copy has expired the message goes.
    let events = sweep(&mut inventory, &mut state, now + 3);
    assert_eq!(events.len(), 1);
    assert!(matches!(&events[0], Event::MessageExpired { global_id: g, .. } if g == &global_id));
    assert!(state.request_state_dump(&inventory).stored_messages.is_empty());

    // Autosave keeps a message past its expiry.
    let now = now + 10;
    state.set_autosave_preference(&inbox_id, AutosavePreference::Autosave);
    let events = insert(&mut inventory, &mut state, &message, now + 1);
    let (global_id, this_inbox_id) = match &events[0] {
        Event::Message { message_type, global_id, inbox_id, .. } => {
            assert_eq!(*message_type, MessageType::Saved);
            (global_id.clone(), inbox_id.clone())
        }
        _ => panic!(),
    };
    assert!(state.unsave_message(&global_id, &this_inbox_id).is_empty());
    state.save_message(&global_id, &this_inbox_id);
    assert!(sweep(&mut inventory, &mut state, now + 1).is_empty());
    assert_eq!(state.request_state_dump(&inventory).stored_messages.len(), 1);
    let events = state.unsave_message(&global_id, &this_inbox_id);
    assert_eq!(events.len(), 1);
    match &events[0] {
        Event::MessageExpired { global_id: g, inbox_id: i } => {
            assert_eq!(g, &global_id);
            assert_eq!(i, &this_inbox_id);
        }
        _ => panic!(),
    }
    assert!(state.request_state_dump(&inventory).stored_messages.is_empty());

    // Labels, deletion.
    let events = insert(&mut inventory, &mut state, &message, now + 3600);
    assert_eq!(events.len(), 1);
    state.set_inbox_label(&inbox_id, "Lorem Ipsum".to_string());
    let dump = state.request_state_dump(&inventory);
    assert_eq!(dump.inboxes[0].label, "Lorem Ipsum".to_string());
    state.delete_inbox(&inbox_id);
    let dump = state.request_state_dump(&inventory);
    assert!(dump.inboxes.is_empty());
    assert!(dump.stored_messages.is_empty());

    // Contacts.
    let publichalf1 = PublicHalf {
        public_encryption_key: box_::gen_keypair().0.as_ref().to_vec(),
        public_signing_key: sign::gen_keypair().0.as_ref().to_vec(),
    };
    let publichalf2 = PublicHalf {
        public_encryption_key: box_::gen_keypair().0.as_ref().to_vec(),
        public_signing_key: sign::gen_keypair().0.as_ref().to_vec(),
    };
    let id = state
        .new_contact(Contact { label: "Hello, World!".to_string(), public_half: publichalf1 })
        .unwrap();
    let id = state.set_contact_public_half(&id, publichalf2).unwrap();
    state.set_contact_label(&id, "New Label".to_string());
    let dump = state.request_state_dump(&inventory);
    assert_eq!(dump.contacts[0].global_id, id);
    assert_eq!(dump.contacts[0].contact.label, "New Label".to_string());
    state.delete_contact(&id);
    assert!(state.request_state_dump(&inventory).contacts.is_empty());

    // Public-half announcements.
    let (inbox_id, _) = state.new_inbox("Hello, World!".to_string());
    let entry = state.get_public_half_entry(&inbox_id).unwrap();
    let events = insert(&mut inventory, &mut state, &entry, now + 1);
    assert_eq!(events.len(), 1);
    match &events[0] {
        Event::Inbox { global_id, expiration_time } => {
            assert_eq!(global_id, &inbox_id);
            assert_eq!(*expiration_time, now + 1);
        }
        _ => panic!(),
    }
    let dump = state.request_state_dump(&inventory);
    assert_eq!(dump.inbox_expiration_times[0].inbox_id, inbox_id);
    assert_eq!(dump.inbox_expiration_times[0].expiration_time, now + 1);
    let events = insert(&mut inventory, &mut state, &entry, now + 3);
    match &events[0] {
        Event::Inbox { global_id, expiration_time } => {
            assert_eq!(global_id, &inbox_id);
            assert_eq!(*expiration_time, now + 3);
        }
        _ => panic!(),
    }
    let found = state.lookup_public_half(&inventory, &inbox_id[..10]);
    assert!(!found.is_empty());
    assert_eq!(
        calculate_public_half_id(&found[0].public_encryption_key, &found[0].public_signing_key),
        inbox_id
    );
}

#[test]
fn unparsable_plaintext_is_dropped() {
    assert!(parse(b"not a message").is_none());
}

#[test]
fn duplicate_contact_ids_are_refused() {
    let mut state = DerivedState::new();
    let half = || PublicHalf { public_encryption_key: vec![1u8; 32], public_signing_key: vec![2u8; 32] };
    let first = state.new_contact(Contact { label: "a".to_string(), public_half: half() });
    assert!(first.is_some());
    assert!(state.new_contact(Contact { label: "b".to_string(), public_half: half() }).is_none());
    let other = state
        .new_contact(Contact {
            label: "c".to_string(),
            public_half: PublicHalf { public_encryption_key: vec![3u8; 32], public_signing_key: vec![4u8; 32] },
        })
        .unwrap();
    assert!(state.set_contact_public_half(&other, half()).is_none());
}

#[test]
fn purge_of_unknown_item_changes_nothing() {
    let mut state = DerivedState::new();
    assert!(state.on_mutation(&Inventory::new(), &Mutation::Purge(vec![1, 2, 3])).is_empty());
}

#[test]
fn ids_are_domain_separated_digests() {
    let id = calculate_public_half_id(&[1u8; 32], &[2u8; 32]);
    assert_eq!(id.len(), 32);
    assert_ne!(id, vec![1u8; 32]);
    assert_ne!(id, calculate_public_half_id(&[2u8; 32], &[1u8; 32]));
    let message_id = contrasleuth::derive_state::calculate_message_id(b"plaintext");
    assert_eq!(message_id.len(), 32);
    assert_ne!(message_id, calculate_public_half_id(b"plaintext", b""));
}

#[test]
fn missing_inbox_yields_nothing() {
    let state = DerivedState::new();
    assert!(state.get_public_half_entry(&[0u8; 32]).is_none());
    assert!(state
        .encode_message(None, vec![], RichTextFormat::Markdown, "x".to_string(), vec![], vec![], &[0u8; 32])
        .is_none());
}

#[test]
fn bad_hidden_recipient_key_yields_nothing() {
    sodiumoxide::init().unwrap();
    let mut state = DerivedState::new();
    let (inbox_id, _) = state.new_inbox("a".to_string());
    assert!(state
        .encode_message(None, vec![], RichTextFormat::Plaintext, "x".to_string(), vec![], vec![vec![1u8; 5]], &inbox_id)
        .is_none());
}
