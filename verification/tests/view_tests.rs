use metashrew::indexer::IndexerError;
use metashrew::view::{
    execute_view_function, parse_proto_view_input, stdout, MetashrewProtoView, MetashrewView, MinimalIndexer,
    ProtoViewFunction, ViewFunction,
};

struct Reverse;

impl ViewFunction<Vec<u8>, Vec<u8>> for Reverse {
    fn execute(&self, input: Vec<u8>) -> Result<Vec<u8>, IndexerError> {
        let mut v = input;
        v.reverse();
        Ok(v)
    }
}

impl ProtoViewFunction<Vec<u8>, Vec<u8>> for Reverse {
    fn execute_proto(&self, input: Vec<u8>) -> Result<Vec<u8>, IndexerError> {
        Ok(input)
    }
}

#[test]
fn view_input_drops_the_height() {
    assert_eq!(parse_proto_view_input(&[1, 0, 0, 0, 7, 8]).unwrap(), vec![7, 8]);
    let err = parse_proto_view_input(&[1, 0, 0, 0]).unwrap_err();
    assert_eq!(err.message, "Invalid input length");
}

#[test]
fn process_view_runs_the_view_on_the_query() {
    let view = MetashrewView::new(Reverse);
    assert_eq!(view.process_view(&[5, 0, 0, 0, 1, 2, 3]).unwrap(), vec![3, 2, 1]);
    assert!(view.process_view(&[5, 0]).is_err());
    let proto = MetashrewProtoView::new(Reverse);
    assert_eq!(proto.process_view(&[5, 0, 0, 0, 1, 2]).unwrap(), vec![1, 2]);
}

#[test]
fn execute_by_name_answers_empty() {
    assert_eq!(execute_view_function(&Reverse, "anything", &[1, 2]).unwrap(), Vec::<u8>::new());
}

#[test]
fn log_frames_are_length_prefixed() {
    assert_eq!(stdout().log_frame("hi"), vec![2, 0, 0, 0, b'h', b'i']);
}

#[test]
fn minimal_indexer_keys_blocks_by_decimal_height() {
    assert_eq!(MinimalIndexer::block_key(0), b"/blocks/0".to_vec());
    assert_eq!(MinimalIndexer::block_key(840000), b"/blocks/840000".to_vec());
    assert_eq!(MinimalIndexer::query_height(&[0, 0, 1, 2]), Some(258));
    assert_eq!(MinimalIndexer::query_height(&[0, 1, 2]), None);
}
