use metashrew::rpc::{
    decode_hex_param, height_to_hash_key, hex_result, latest_block, lookup_state_root, method_of, parse_block_number,
    parse_preview_params, parse_u32, parse_view_params, resolve_view_height, snapshot_info, stateroot_height,
    plan_request, view_server_refusal, HeightParam, ParamError, ParamValue, RpcMethod, RpcPlan, StateRootAnswer, ViewServerRefusal,
};
use metashrew::store::{KeyValueStoreLike, MemStore};

fn s(x: &str) -> ParamValue {
    ParamValue::Str(x.as_bytes().to_vec())
}

#[test]
fn methods_are_recognised() {
    assert_eq!(method_of(b"metashrew_view"), RpcMethod::View);
    assert_eq!(method_of(b"metashrew_preview"), RpcMethod::Preview);
    assert_eq!(method_of(b"metashrew_height"), RpcMethod::Height);
    assert_eq!(method_of(b"metashrew_getblockhash"), RpcMethod::GetBlockHash);
    assert_eq!(method_of(b"metashrew_stateroot"), RpcMethod::StateRoot);
    assert_eq!(method_of(b"metashrew_snapshot"), RpcMethod::Snapshot);
    assert_eq!(method_of(b"other"), RpcMethod::Unknown);
}

#[test]
fn view_params_are_checked_in_order() {
    assert_eq!(parse_view_params(&[s("a"), s("00")], false).err(), Some(ParamError::RequiresViewParams));
    assert_eq!(parse_view_params(&[ParamValue::Other, s("00"), s("latest")], false).err(), Some(ParamError::ViewNameNotString));
    assert_eq!(parse_view_params(&[s("v"), ParamValue::Num(Some(1)), s("latest")], false).err(), Some(ParamError::InputNotString));
    assert_eq!(parse_view_params(&[s("v"), s("00"), s("later")], false).err(), Some(ParamError::HeightNotNumberOrLatest));
    assert_eq!(parse_view_params(&[s("v"), s("0g"), s("latest")], false).err(), Some(ParamError::InvalidHexInput));
    let call = parse_view_params(&[s("balance"), s("0x0102"), ParamValue::Num(Some(7))], false).unwrap();
    assert_eq!(call.view_name, b"balance".to_vec());
    assert_eq!(call.input, vec![1, 2]);
    assert_eq!(call.height, HeightParam::At(7));
    // Only the view server reads decimal text as a height.
    assert_eq!(parse_view_params(&[s("v"), s(""), s("12")], false).err(), Some(ParamError::HeightNotNumberOrLatest));
    assert_eq!(parse_view_params(&[s("v"), s(""), s("12")], true).unwrap().height, HeightParam::At(12));
}

#[test]
fn preview_params() {
    assert_eq!(parse_preview_params(&[s("00"), s("v"), s("00")], false).err(), Some(ParamError::RequiresPreviewParams));
    assert_eq!(parse_preview_params(&[s("zz"), s("v"), s("00"), s("latest")], false).err(), Some(ParamError::InvalidHexBlock));
    let call = parse_preview_params(&[s("ff"), s("v"), s("0x0x10"), s("latest")], false).unwrap();
    assert_eq!(call.block, vec![255]);
    assert_eq!(call.input, vec![16]);
    assert_eq!(call.height, HeightParam::Latest);
}

#[test]
fn numbers_and_text() {
    assert_eq!(parse_u32(b"42"), Some(42));
    assert_eq!(parse_u32(b"+7"), Some(7));
    assert_eq!(parse_u32(b"4294967295"), Some(u32::MAX));
    assert_eq!(parse_u32(b"4294967296"), None);
    assert_eq!(parse_u32(b""), None);
    assert_eq!(parse_u32(b"+"), None);
    assert_eq!(parse_u32(b"-1"), None);
    assert_eq!(parse_block_number(&[ParamValue::Num(Some(5))]), Ok(5));
    assert_eq!(parse_block_number(&[ParamValue::Num(None)]), Ok(0));
    assert_eq!(parse_block_number(&[ParamValue::Num(Some(4294967296 + 3))]), Ok(3));
    assert_eq!(parse_block_number(&[s("5")]), Err(ParamError::BlockNumberNotNumber));
    assert_eq!(parse_block_number(&[]), Err(ParamError::RequiresBlockNumber));
    assert_eq!(ParamError::RequiresBlockNumber.code(), -32602);
}

#[test]
fn hex_helpers() {
    assert_eq!(decode_hex_param(b"0x0x0A"), Some(vec![10]));
    assert_eq!(decode_hex_param(b"abc"), None);
    assert_eq!(hex_result(&[1, 171]), b"0x01ab".to_vec());
    assert_eq!(height_to_hash_key(3), b"/__INTERNAL/height-to-hash/3".to_vec());
}

#[test]
fn heights() {
    assert_eq!(latest_block(0), 0);
    assert_eq!(latest_block(9), 8);
    assert_eq!(resolve_view_height(HeightParam::Latest, 5), None);
    assert_eq!(resolve_view_height(HeightParam::At(6), 5), None);
    assert_eq!(resolve_view_height(HeightParam::At(5), 5), Some(5));
    assert_eq!(stateroot_height(&s("latest"), 10), Some(9));
    assert_eq!(stateroot_height(&ParamValue::Num(Some(3)), 10), Some(3));
    assert_eq!(stateroot_height(&ParamValue::Other, 10), None);
}

#[test]
fn state_root_lookup_order() {
    let mut db = MemStore::new();
    db.put(b"smt:root:::4", &[1, 2]).unwrap();
    match lookup_state_root(&mut db, 4) {
        StateRootAnswer::Root(v) => assert_eq!(v, vec![1, 2]),
        StateRootAnswer::Failed(_) => panic!("store failed"),
    }
    db.put(b"smt:root::4", &[3]).unwrap();
    match lookup_state_root(&mut db, 4) {
        StateRootAnswer::Root(v) => assert_eq!(v, vec![3]),
        StateRootAnswer::Failed(_) => panic!("store failed"),
    }
    match lookup_state_root(&mut db, 0) {
        StateRootAnswer::Root(v) => assert_eq!(v, vec![0u8; 32]),
        StateRootAnswer::Failed(_) => panic!("store failed"),
    }
}

#[test]
fn snapshot_information() {
    let mut db = MemStore::new();
    let info = snapshot_info(&mut db, 10);
    assert!(info.enabled);
    assert_eq!(info.last_snapshot_height, 10);
    assert_eq!(info.estimated_interval, 1);
    assert_eq!(info.next_snapshot_at, Some(11));
    assert_eq!(info.latest_root, Some([0u8; 32]));
    let info = snapshot_info(&mut db, 0);
    assert!(!info.enabled);
    assert_eq!(info.estimated_interval, 1000);
    assert_eq!(info.next_snapshot_at, None);
}

#[test]
fn requests_are_planned_by_method() {
    match plan_request(b"metashrew_view", &[s("balance"), s("0x0102"), s("latest")], 100) {
        RpcPlan::View(call, height) => {
            assert_eq!(call.view_name, b"balance".to_vec());
            assert_eq!(call.input, vec![1, 2]);
            assert_eq!(height, 100);
        }
        other => panic!("{:?}", other),
    }
    assert!(matches!(plan_request(b"metashrew_view", &[s("balance")], 100), RpcPlan::Invalid(ParamError::RequiresViewParams)));
    match plan_request(b"metashrew_view", &[s("f"), s("0x00"), s("100")], 7) {
        RpcPlan::View(call, height) => {
            assert_eq!(call.input, vec![0]);
            assert_eq!(height, 100);
        }
        other => panic!("{:?}", other),
    }
    assert!(matches!(
        plan_request(b"metashrew_view", &[s("v"), s("zz"), ParamValue::Num(Some(5))], 100),
        RpcPlan::Invalid(ParamError::InvalidHexInput)
    ));
    assert!(matches!(plan_request(b"metashrew_height", &[], 100), RpcPlan::Height(99)));
    assert!(matches!(plan_request(b"metashrew_height", &[], 0), RpcPlan::Height(0)));
    match plan_request(b"metashrew_getblockhash", &[ParamValue::Num(Some(12))], 100) {
        RpcPlan::BlockHash(k) => assert_eq!(k, b"/__INTERNAL/height-to-hash/12".to_vec()),
        other => panic!("{:?}", other),
    }
    assert!(matches!(plan_request(b"metashrew_stateroot", &[s("latest")], 100), RpcPlan::StateRoot(99)));
    assert!(matches!(plan_request(b"metashrew_stateroot", &[s("x")], 100), RpcPlan::Invalid(ParamError::HeightNotNumberOrLatest)));
    assert!(matches!(plan_request(b"metashrew_snapshot", &[], 100), RpcPlan::Snapshot));
    assert!(matches!(plan_request(b"nope", &[], 100), RpcPlan::NotFound));
    match plan_request(b"metashrew_preview", &[s("0xaa"), s("v"), s("0x"), ParamValue::Num(Some(3))], 100) {
        RpcPlan::Preview(call, height) => {
            assert_eq!(call.block, vec![0xaa]);
            assert_eq!(call.input, Vec::<u8>::new());
            assert_eq!(height, 3);
        }
        other => panic!("{:?}", other),
    }
}

#[test]
fn preview_heights_are_not_read_as_decimal_text() {
    assert!(matches!(
        plan_request(b"metashrew_preview", &[s("0xaa"), s("v"), s("0x"), s("3")], 100),
        RpcPlan::Invalid(ParamError::HeightNotNumberOrLatest)
    ));
    assert!(matches!(
        plan_request(b"metashrew_view", &[s("v"), s("0x"), s("3")], 100),
        RpcPlan::View(_, 3)
    ));
}

#[test]
fn view_server_refuses_bad_hex_input_as_bad_request() {
    assert_eq!(view_server_refusal(ParamError::InvalidHexInput), ViewServerRefusal::BadRequest);
    assert_eq!(view_server_refusal(ParamError::InvalidHexBlock), ViewServerRefusal::JsonRpc(-32602));
    assert_eq!(view_server_refusal(ParamError::RequiresViewParams), ViewServerRefusal::JsonRpc(-32602));
}
