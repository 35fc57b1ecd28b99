//! The guest side of view functions: the traits an indexer implements to
//! answer queries, the glue that hands them the host input, the text a
//! guest prints, and the block store of the smallest indexer.

use vstd::prelude::*;
use vstd::string::StringSliceAdditionalSpecFns;
use crate::bytes::append_bytes;
use crate::codec::{decimal, encode_string, length_prefixed, push_decimal};
use crate::indexer::{parse_host_input, IndexerError};

verus! {

/// A view function: answers a query about the indexed state.
pub trait ViewFunction<Input, Output> {
    /// Answers the query `input`.
    fn execute(&self, input: Input) -> Result<Output, IndexerError>;
}

/// A view function whose query and answer are protocol buffer messages.
pub trait ProtoViewFunction<Input, Output> {
    /// Answers the query `input`.
    fn execute_proto(&self, input: Input) -> Result<Output, IndexerError>;
}

/// A view function on serialized queries and answers.
pub trait ViewFunctionWrapper {
    /// Answers the serialized query `input`.
    fn execute(&self, input: &[u8]) -> Result<Vec<u8>, IndexerError>;
}

/// The error of a host input of four bytes or fewer.
pub(crate) fn invalid_input_length() -> (e: IndexerError)
    ensures e.message@ == "Invalid input length"@,
{
    IndexerError { message: "Invalid input length".to_owned() }
}

/// The query part of a host input: everything after the four bytes of the
/// height. An input of four bytes or fewer is refused.
pub fn parse_proto_view_input(host_input: &[u8]) -> (r: Result<Vec<u8>, IndexerError>)
    ensures
        host_input@.len() <= 4 ==> (r matches Err(e) && e.message@ == "Invalid input length"@),
        host_input@.len() > 4 ==> (r matches Ok(q) && q@ == host_input@.subrange(4, host_input@.len() as int)),
{
    match parse_host_input(host_input) {
        Ok((_height, input)) => Ok(input),
        Err(_) => Err(invalid_input_length()),
    }
}

/// A view function over serialized queries, run on host input.
pub struct MetashrewView<T> {
    view: T,
}

impl<T> MetashrewView<T> {
    /// The view function it runs.
    pub closed spec fn spec_view(&self) -> T {
        self.view
    }

    pub fn new(view: T) -> (r: Self)
        ensures r.spec_view() == view,
    {
        MetashrewView { view }
    }
}

impl<T: ViewFunction<Vec<u8>, Vec<u8>>> MetashrewView<T> {
    /// Runs the view function on the query part of the host input, and
    /// refuses an input of four bytes or fewer without running it.
    pub fn process_view(&self, host_input: &[u8]) -> (r: Result<Vec<u8>, IndexerError>)
        ensures
            host_input@.len() <= 4 ==> (r matches Err(e) && e.message@ == "Invalid input length"@),
            host_input@.len() > 4 ==> exists|q: Vec<u8>| #![auto] q@ == host_input@.subrange(4, host_input@.len() as int)
                && call_ensures(T::execute, (&self.spec_view(), q), r),
    {
        let input = parse_proto_view_input(host_input)?;
        let ghost q = input;
        let r = self.view.execute(input);
        assert(call_ensures(T::execute, (&self.view, q), r));
        r
    }
}

/// A view function over protocol buffer messages, run on host input.
pub struct MetashrewProtoView<T> {
    view: T,
}

impl<T> MetashrewProtoView<T> {
    /// The view function it runs.
    pub closed spec fn spec_view(&self) -> T {
        self.view
    }

    pub fn new(view: T) -> (r: Self)
        ensures r.spec_view() == view,
    {
        MetashrewProtoView { view }
    }
}

impl<T: ProtoViewFunction<Vec<u8>, Vec<u8>>> MetashrewProtoView<T> {
    /// Runs the view function on the query part of the host input, and
    /// refuses an input of four bytes or fewer without running it.
    pub fn process_view(&self, host_input: &[u8]) -> (r: Result<Vec<u8>, IndexerError>)
        ensures
            host_input@.len() <= 4 ==> (r matches Err(e) && e.message@ == "Invalid input length"@),
            host_input@.len() > 4 ==> exists|q: Vec<u8>| #![auto] q@ == host_input@.subrange(4, host_input@.len() as int)
                && call_ensures(T::execute_proto, (&self.spec_view(), q), r),
    {
        let input = parse_proto_view_input(host_input)?;
        let ghost q = input;
        let r = self.view.execute_proto(input);
        assert(call_ensures(T::execute_proto, (&self.view, q), r));
        r
    }
}

/// Runs the view function `function_name` of an indexer; no view function
/// is dispatched by name, so the answer is always empty.
pub fn execute_view_function<T>(indexer: &T, function_name: &str, input_bytes: &[u8]) -> (r: Result<Vec<u8>, IndexerError>)
    ensures r matches Ok(v) && v@ == Seq::<u8>::empty(),
{
    Ok(Vec::new())
}

/// The guest's standard output: what is written goes to the host's log.
pub struct Stdout(());

/// The guest's standard output.
pub fn stdout() -> Stdout {
    Stdout(())
}

impl Stdout {
    /// The frame that carries `s` to the host's log: its UTF-8 bytes
    /// preceded by their count.
    pub fn log_frame(&self, s: &str) -> (frame: Vec<u8>)
        ensures frame@ == length_prefixed(s.spec_bytes()),
    {
        encode_string(s)
    }
}

/// The smallest indexer: it stores each block under its height.
pub struct MinimalIndexer;

/// The key of the block at `height`: `/blocks/` and the height in decimal.
pub open spec fn minimal_block_key(height: u32) -> Seq<u8> {
    seq![47u8, 98u8, 108u8, 111u8, 99u8, 107u8, 115u8, 47u8] + decimal(height as nat)
}

impl MinimalIndexer {
    /// The key the block at `height` is stored under.
    pub fn block_key(height: u32) -> (k: Vec<u8>)
        ensures k@ == minimal_block_key(height),
    {
        let prefix: [u8; 8] = [47, 98, 108, 111, 99, 107, 115, 47];
        let mut k: Vec<u8> = Vec::new();
        append_bytes(&mut k, prefix.as_slice());
        push_decimal(&mut k, height);
        assert(prefix@ =~= seq![47u8, 98u8, 108u8, 111u8, 99u8, 107u8, 115u8, 47u8]);
        k
    }

    /// The height a block query asks for: exactly four bytes, most
    /// significant first; anything else is refused.
    pub fn query_height(input: &[u8]) -> (r: Option<u32>)
        ensures
            input@.len() != 4 ==> r is None,
            input@.len() == 4 ==> (r matches Some(h) && h == input@[0] * 0x1000000 + input@[1] * 0x10000
                + input@[2] * 0x100 + input@[3]),
    {
        if input.len() != 4 {
            return None;
        }
        let h: u32 = (input[0] as u32) * 0x1000000 + (input[1] as u32) * 0x10000 + (input[2] as u32) * 0x100 + (input[3] as u32);
        Some(h)
    }
}

} // verus!
