use chronos_vfs::aura_bridge::{to_lower_hex, AuraIntentTranslator};
use chronos_vfs::workspace::{AgentWorkspace, DefaultNode};

#[test]
fn tokenize_intent_hashes_the_intent() {
    let meta = [7u8; 16];
    let node = AuraIntentTranslator::tokenize_intent(3, 10, 11, "hello", meta);
    assert_eq!(node.opcode, 3);
    assert_eq!(node.parent_id, 10);
    assert_eq!(node.node_id, 11);
    assert_eq!(node.intent, "hello");
    assert_eq!(node.content_hash, "5d41402abc4b2a76b9719d911017c592");
    assert_eq!(node.meta, meta);
}

#[test]
fn tokenize_empty_intent() {
    let node = AuraIntentTranslator::tokenize_intent(0, 0, 0, "", [0u8; 16]);
    assert_eq!(node.content_hash, "d41d8cd98f00b204e9800998ecf8427e");
}

#[test]
fn lower_hex_two_digits_per_byte() {
    assert_eq!(to_lower_hex(&[0x00, 0x0f, 0xa0, 0xff]), "000fa0ff");
    assert_eq!(to_lower_hex(&[]), "");
}

#[test]
fn workspace_accepts_up_to_max_size() {
    let mut ws: AgentWorkspace<u32> = AgentWorkspace::new(2).unwrap();
    assert_eq!(ws.push_node(1), Ok(()));
    assert_eq!(ws.push_node(2), Ok(()));
    assert_eq!(ws.push_node(3), Err("Buffer full".to_string()));
    assert_eq!(ws.push_node(4), Err("Buffer full".to_string()));
}

#[test]
fn workspace_of_size_zero_is_always_full() {
    let mut ws: AgentWorkspace<DefaultNode> = AgentWorkspace::new(0).unwrap();
    let node = AuraIntentTranslator::tokenize_intent(0, 0, 0, "x", [0u8; 16]);
    assert_eq!(ws.push_node(node), Err("Buffer full".to_string()));
}

#[test]
fn workspace_first_max_size_pushes_succeed() {
    let mut ws: AgentWorkspace<u32> = AgentWorkspace::new(3).unwrap();
    let outcomes: Vec<bool> = (0..7u32).map(|i| ws.push_node(i).is_ok()).collect();
    assert_eq!(outcomes, vec![true, true, true, false, false, false, false]);
}
