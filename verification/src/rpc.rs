//! The JSON-RPC view interface: which method a request names, how its
//! parameters are checked and read, and how results are written.
//!
//! Parameters arrive as [`ParamValue`]s: a string (as its UTF-8 bytes), a
//! number (its value when it is a non-negative integer that fits 64 bits),
//! or anything else.

use vstd::prelude::*;
use crate::byte_map::{lookup, opt_view};
use crate::bytes::{append_bytes, bytes_eq, copy_bytes, sub_bytes};
use crate::codec::{decimal, push_decimal};
use crate::hashing::{hex_bytes, hex_decode, hex_encode, hex_text, is_hex_text};
use crate::smt_helper::{possible_root, root_at, root_key, smt_root_at_height};
use crate::store::KeyValueStoreLike;

verus! {

/// A request parameter.
#[derive(Debug, Clone)]
pub enum ParamValue {
    Str(Vec<u8>),
    Num(Option<u64>),
    Other,
}

/// The methods served.
#[derive(Debug, Clone, Copy, PartialEq, Eq)]
pub enum RpcMethod {
    View,
    Preview,
    Height,
    GetBlockHash,
    StateRoot,
    Snapshot,
    Unknown,
}

/// Why the parameters of a request were refused; each has the code -32602.
#[derive(Debug, Clone, Copy, PartialEq, Eq)]
pub enum ParamError {
    RequiresViewParams,
    RequiresPreviewParams,
    RequiresBlockNumber,
    ViewNameNotString,
    InputNotString,
    BlockNotString,
    HeightNotNumberOrLatest,
    BlockNumberNotNumber,
    InvalidHexInput,
    InvalidHexBlock,
}

impl ParamError {
    /// The JSON-RPC error code for invalid parameters.
    pub fn code(&self) -> (c: i32)
        ensures c == -32602,
    {
        -32602
    }
}

/// How the view server refuses a parameter list.
#[derive(Debug, Clone, Copy, PartialEq, Eq)]
pub enum ViewServerRefusal {
    /// An HTTP 400 answer.
    BadRequest,
    /// A JSON-RPC error with this code.
    JsonRpc(i32),
}

/// How the view server answers a refused parameter list: input that is not
/// hex is refused with an HTTP 400, anything else with the JSON-RPC code for
/// invalid parameters.
pub fn view_server_refusal(e: ParamError) -> (r: ViewServerRefusal)
    ensures r == (if e is InvalidHexInput { ViewServerRefusal::BadRequest } else { ViewServerRefusal::JsonRpc(-32602i32) }),
{
    match e {
        ParamError::InvalidHexInput => ViewServerRefusal::BadRequest,
        _ => ViewServerRefusal::JsonRpc(e.code()),
    }
}

/// A height parameter: the latest height, or a given one.
#[derive(Debug, Clone, Copy, PartialEq, Eq)]
pub enum HeightParam {
    Latest,
    At(u32),
}

/// A view call.
#[derive(Debug, Clone)]
pub struct ViewCall {
    pub view_name: Vec<u8>,
    pub input: Vec<u8>,
    pub height: HeightParam,
}

/// A preview call: a view run after indexing `block`.
#[derive(Debug, Clone)]
pub struct PreviewCall {
    pub block: Vec<u8>,
    pub view_name: Vec<u8>,
    pub input: Vec<u8>,
    pub height: HeightParam,
}

pub open spec fn name_view() -> Seq<u8> {
    seq![109u8, 101u8, 116u8, 97u8, 115u8, 104u8, 114u8, 101u8, 119u8, 95u8, 118u8, 105u8, 101u8, 119u8]
}

pub open spec fn name_preview() -> Seq<u8> {
    seq![109u8, 101u8, 116u8, 97u8, 115u8, 104u8, 114u8, 101u8, 119u8, 95u8, 112u8, 114u8, 101u8, 118u8, 105u8, 101u8, 119u8]
}

pub open spec fn name_height() -> Seq<u8> {
    seq![109u8, 101u8, 116u8, 97u8, 115u8, 104u8, 114u8, 101u8, 119u8, 95u8, 104u8, 101u8, 105u8, 103u8, 104u8, 116u8]
}

pub open spec fn name_getblockhash() -> Seq<u8> {
    seq![109u8, 101u8, 116u8, 97u8, 115u8, 104u8, 114u8, 101u8, 119u8, 95u8, 103u8, 101u8, 116u8, 98u8, 108u8, 111u8,
        99u8, 107u8, 104u8, 97u8, 115u8, 104u8]
}

pub open spec fn name_stateroot() -> Seq<u8> {
    seq![109u8, 101u8, 116u8, 97u8, 115u8, 104u8, 114u8, 101u8, 119u8, 95u8, 115u8, 116u8, 97u8, 116u8, 101u8, 114u8,
        111u8, 111u8, 116u8]
}

pub open spec fn name_snapshot() -> Seq<u8> {
    seq![109u8, 101u8, 116u8, 97u8, 115u8, 104u8, 114u8, 101u8, 119u8, 95u8, 115u8, 110u8, 97u8, 112u8, 115u8, 104u8,
        111u8, 116u8]
}

/// `latest`
pub open spec fn latest_word() -> Seq<u8> {
    seq![108u8, 97u8, 116u8, 101u8, 115u8, 116u8]
}

/// The method a request names.
pub open spec fn method_spec(name: Seq<u8>) -> RpcMethod {
    if name == name_view() {
        RpcMethod::View
    } else if name == name_preview() {
        RpcMethod::Preview
    } else if name == name_height() {
        RpcMethod::Height
    } else if name == name_getblockhash() {
        RpcMethod::GetBlockHash
    } else if name == name_stateroot() {
        RpcMethod::StateRoot
    } else if name == name_snapshot() {
        RpcMethod::Snapshot
    } else {
        RpcMethod::Unknown
    }
}

/// `s` without its leading `0x` prefixes.
pub open spec fn strip_0x(s: Seq<u8>) -> Seq<u8>
    decreases s.len(),
{
    if s.len() >= 2 && s[0] == 48u8 && s[1] == 120u8 {
        strip_0x(s.subrange(2, s.len() as int))
    } else {
        s
    }
}

/// The bytes a hex parameter spells, after its leading `0x` prefixes.
pub open spec fn hex_param(s: Seq<u8>) -> Option<Seq<u8>> {
    if is_hex_text(strip_0x(s)) { Some(hex_bytes(strip_0x(s))) } else { None }
}

/// Whether every byte is an ASCII digit.
pub open spec fn all_digits(s: Seq<u8>) -> bool {
    forall|i: int| 0 <= i < s.len() ==> 48 <= #[trigger] s[i] <= 57
}

/// The value of a run of ASCII digits.
pub open spec fn digits_value(s: Seq<u8>) -> nat
    decreases s.len(),
{
    if s.len() == 0 { 0 } else { 10 * digits_value(s.drop_last()) + (s.last() - 48) as nat }
}

/// The `u32` that decimal text denotes, as `u32::from_str` reads it: an
/// optional `+`, then at least one digit, with a value that fits.
pub open spec fn parse_u32_spec(s: Seq<u8>) -> Option<u32> {
    let d = if s.len() > 0 && s[0] == 43u8 { s.drop_first() } else { s };
    if d.len() == 0 || !all_digits(d) || digits_value(d) > u32::MAX {
        None
    } else {
        Some(digits_value(d) as u32)
    }
}

/// A height parameter as the indexer's server reads it: `latest`, or a
/// number (taken as 0 when not a non-negative integer, cut to 32 bits).
pub open spec fn height_param_spec(p: ParamValue) -> Option<HeightParam> {
    match p {
        ParamValue::Str(s) => if s@ == latest_word() { Some(HeightParam::Latest) } else { None },
        ParamValue::Num(n) => Some(HeightParam::At((match n { Some(v) => v, None => 0u64 }) as u32)),
        ParamValue::Other => None,
    }
}

/// A height parameter as the view server reads it: as above, and decimal
/// text too.
pub open spec fn view_height_param_spec(p: ParamValue) -> Option<HeightParam> {
    match p {
        ParamValue::Str(s) => if s@ == latest_word() {
            Some(HeightParam::Latest)
        } else {
            match parse_u32_spec(s@) {
                Some(h) => Some(HeightParam::At(h)),
                None => None,
            }
        },
        _ => height_param_spec(p),
    }
}

/// The string content of a parameter.
pub open spec fn str_of(p: ParamValue) -> Option<Seq<u8>> {
    match p {
        ParamValue::Str(s) => Some(s@),
        _ => None,
    }
}

/// Which method a request names.
pub fn method_of(name: &[u8]) -> (m: RpcMethod)
    ensures m == method_spec(name@),
{
    let view: [u8; 14] = [109, 101, 116, 97, 115, 104, 114, 101, 119, 95, 118, 105, 101, 119];
    let preview: [u8; 17] = [109, 101, 116, 97, 115, 104, 114, 101, 119, 95, 112, 114, 101, 118, 105, 101, 119];
    let height: [u8; 16] = [109, 101, 116, 97, 115, 104, 114, 101, 119, 95, 104, 101, 105, 103, 104, 116];
    let getblockhash: [u8; 22] = [109, 101, 116, 97, 115, 104, 114, 101, 119, 95, 103, 101, 116, 98, 108, 111, 99, 107, 104, 97, 115, 104];
    let stateroot: [u8; 19] = [109, 101, 116, 97, 115, 104, 114, 101, 119, 95, 115, 116, 97, 116, 101, 114, 111, 111, 116];
    let snapshot: [u8; 18] = [109, 101, 116, 97, 115, 104, 114, 101, 119, 95, 115, 110, 97, 112, 115, 104, 111, 116];
    assert(view@ =~= name_view());
    assert(preview@ =~= name_preview());
    assert(height@ =~= name_height());
    assert(getblockhash@ =~= name_getblockhash());
    assert(stateroot@ =~= name_stateroot());
    assert(snapshot@ =~= name_snapshot());
    if bytes_eq(name, view.as_slice()) {
        RpcMethod::View
    } else if bytes_eq(name, preview.as_slice()) {
        RpcMethod::Preview
    } else if bytes_eq(name, height.as_slice()) {
        RpcMethod::Height
    } else if bytes_eq(name, getblockhash.as_slice()) {
        RpcMethod::GetBlockHash
    } else if bytes_eq(name, stateroot.as_slice()) {
        RpcMethod::StateRoot
    } else if bytes_eq(name, snapshot.as_slice()) {
        RpcMethod::Snapshot
    } else {
        RpcMethod::Unknown
    }
}

/// Whether `s` is the word `latest`.
fn is_latest(s: &Vec<u8>) -> (r: bool)
    ensures r == (s@ == latest_word()),
{
    let w: [u8; 6] = [108, 97, 116, 101, 115, 116];
    assert(w@ =~= latest_word());
    bytes_eq(s.as_slice(), w.as_slice())
}

/// A height parameter as the indexer's server reads it.
pub fn height_param(p: &ParamValue) -> (r: Option<HeightParam>)
    ensures r == height_param_spec(*p),
{
    match p {
        ParamValue::Str(s) => if is_latest(s) { Some(HeightParam::Latest) } else { None },
        ParamValue::Num(n) => {
            let v: u64 = match n {
                Some(v) => *v,
                None => 0,
            };
            Some(HeightParam::At(v as u32))
        },
        ParamValue::Other => None,
    }
}

/// A height parameter as the view server reads it.
pub fn view_height_param(p: &ParamValue) -> (r: Option<HeightParam>)
    ensures r == view_height_param_spec(*p),
{
    match p {
        ParamValue::Str(s) => {
            if is_latest(s) {
                Some(HeightParam::Latest)
            } else {
                match parse_u32(s.as_slice()) {
                    Some(h) => Some(HeightParam::At(h)),
                    None => None,
                }
            }
        },
        _ => height_param(p),
    }
}

/// Decimal text read as `u32::from_str` reads it.
pub fn parse_u32(s: &[u8]) -> (r: Option<u32>)
    ensures r == parse_u32_spec(s@),
{
    let start: usize = if s.len() > 0 && s[0] == 43 { 1 } else { 0 };
    let ghost d = if s@.len() > 0 && s@[0] == 43u8 { s@.drop_first() } else { s@ };
    assert(d =~= s@.subrange(start as int, s@.len() as int));
    if start == s.len() {
        return None;
    }
    let mut acc: u64 = 0;
    let mut i: usize = start;
    while i < s.len()
        invariant
            start <= i <= s@.len(),
            d == s@.subrange(start as int, s@.len() as int),
            d == (if s@.len() > 0 && s@[0] == 43u8 { s@.drop_first() } else { s@ }),
            all_digits(s@.subrange(start as int, i as int)),
            acc as nat == digits_value(s@.subrange(start as int, i as int)),
            acc <= u32::MAX,
        decreases s@.len() - i,
    {
        let c = s[i];
        if c < 48 || c > 57 {
            assert(d[i - start] == c);
            assert(!all_digits(d));
            return None;
        }
        let next = acc * 10 + (c - 48) as u64;
        assert(s@.subrange(start as int, i + 1).drop_last() =~= s@.subrange(start as int, i as int));
        if next > 4294967295 {
            assert(d.subrange(0, (i + 1 - start) as int) =~= s@.subrange(start as int, i + 1));
            proof {
                if all_digits(d) {
                    lemma_digits_value_prefix(d, (i + 1 - start) as nat);
                }
            }
            return None;
        }
        acc = next;
        i = i + 1;
    }
    assert(s@.subrange(start as int, i as int) =~= d);
    Some(acc as u32)
}

/// A prefix of a run of digits denotes no more than the run.
proof fn lemma_digits_value_prefix(d: Seq<u8>, n: nat)
    requires n <= d.len(), all_digits(d),
    ensures digits_value(d.subrange(0, n as int)) <= digits_value(d),
    decreases d.len(),
{
    if n < d.len() {
        assert(d.drop_last().subrange(0, n as int) =~= d.subrange(0, n as int));
        assert(all_digits(d.drop_last()));
        lemma_digits_value_prefix(d.drop_last(), n);
    } else {
        assert(d.subrange(0, n as int) =~= d);
    }
}

/// `s` without its leading `0x` prefixes.
pub fn strip_hex_prefix(s: &[u8]) -> (r: Vec<u8>)
    ensures r@ == strip_0x(s@),
{
    let mut i: usize = 0;
    assert(s@.subrange(0, s@.len() as int) =~= s@);
    while s.len() - i >= 2 && s[i] == 48 && s[i + 1] == 120
        invariant
            i <= s@.len(),
            strip_0x(s@.subrange(i as int, s@.len() as int)) == strip_0x(s@),
        decreases s@.len() - i,
    {
        let ghost t = s@.subrange(i as int, s@.len() as int);
        assert(t.subrange(2, t.len() as int) =~= s@.subrange(i + 2, s@.len() as int));
        i = i + 2;
    }
    let r = sub_bytes(s, i, s.len());
    proof {
        let t = s@.subrange(i as int, s@.len() as int);
        assert(!(t.len() >= 2 && t[0] == 48u8 && t[1] == 120u8));
    }
    r
}

/// The bytes a hex parameter spells, after its leading `0x` prefixes.
pub fn decode_hex_param(s: &[u8]) -> (r: Option<Vec<u8>>)
    ensures opt_view(r) == hex_param(s@),
{
    let stripped = strip_hex_prefix(s);
    hex_decode(&stripped)
}

/// `0x` followed by the bytes in lowercase hex.
pub fn hex_result(bytes: &[u8]) -> (r: Vec<u8>)
    ensures r@ == seq![48u8, 120u8] + hex_text(bytes@),
{
    let mut r: Vec<u8> = vec![48, 120];
    let hex = hex_encode(bytes);
    append_bytes(&mut r, &hex);
    r
}

/// The latest indexed block for a next height to index.
pub fn latest_block(current_height: u32) -> (h: u32)
    ensures h == (if current_height > 0 { current_height - 1 } else { 0 }),
{
    if current_height > 0 { current_height - 1 } else { 0 }
}

/// For the view server: the height to read at, or `None` when the tip has
/// to be fetched first (for `latest`, or a height above the known tip).
pub fn resolve_view_height(h: HeightParam, known_tip: u32) -> (r: Option<u32>)
    ensures r == (match h {
        HeightParam::Latest => None,
        HeightParam::At(v) => if v > known_tip { None } else { Some(v) },
    }),
{
    match h {
        HeightParam::Latest => None,
        HeightParam::At(v) => if v > known_tip { None } else { Some(v) },
    }
}

/// What the parameters of a view call read as: its view name, input and
/// height, or the first thing wrong with them.
pub open spec fn view_params_spec(params: Seq<ParamValue>, decimal_heights: bool) -> Result<(Seq<u8>, Seq<u8>, HeightParam), ParamError> {
    if params.len() < 3 {
        Err(ParamError::RequiresViewParams)
    } else {
        let hp = if decimal_heights { view_height_param_spec(params[2]) } else { height_param_spec(params[2]) };
        if str_of(params[0]) is None {
            Err(ParamError::ViewNameNotString)
        } else if str_of(params[1]) is None {
            Err(ParamError::InputNotString)
        } else if hp is None {
            Err(ParamError::HeightNotNumberOrLatest)
        } else if hex_param(str_of(params[1])->0) is None {
            Err(ParamError::InvalidHexInput)
        } else {
            Ok((str_of(params[0])->0, hex_param(str_of(params[1])->0)->0, hp->0))
        }
    }
}

/// The parts of a parsed view call.
pub open spec fn view_call_parts(r: Result<ViewCall, ParamError>) -> Result<(Seq<u8>, Seq<u8>, HeightParam), ParamError> {
    match r {
        Ok(call) => Ok((call.view_name@, call.input@, call.height)),
        Err(e) => Err(e),
    }
}

/// What the parameters of a preview call read as: its block, view name,
/// input and height, or the first thing wrong with them.
pub open spec fn preview_params_spec(params: Seq<ParamValue>, decimal_heights: bool)
    -> Result<(Seq<u8>, Seq<u8>, Seq<u8>, HeightParam), ParamError>
{
    if params.len() < 4 {
        Err(ParamError::RequiresPreviewParams)
    } else {
        let hp = if decimal_heights { view_height_param_spec(params[3]) } else { height_param_spec(params[3]) };
        if str_of(params[0]) is None {
            Err(ParamError::BlockNotString)
        } else if str_of(params[1]) is None {
            Err(ParamError::ViewNameNotString)
        } else if str_of(params[2]) is None {
            Err(ParamError::InputNotString)
        } else if hp is None {
            Err(ParamError::HeightNotNumberOrLatest)
        } else if hex_param(str_of(params[0])->0) is None {
            Err(ParamError::InvalidHexBlock)
        } else if hex_param(str_of(params[2])->0) is None {
            Err(ParamError::InvalidHexInput)
        } else {
            Ok((hex_param(str_of(params[0])->0)->0, str_of(params[1])->0, hex_param(str_of(params[2])->0)->0, hp->0))
        }
    }
}

/// The parts of a parsed preview call.
pub open spec fn preview_call_parts(r: Result<PreviewCall, ParamError>) -> Result<(Seq<u8>, Seq<u8>, Seq<u8>, HeightParam), ParamError> {
    match r {
        Ok(call) => Ok((call.block@, call.view_name@, call.input@, call.height)),
        Err(e) => Err(e),
    }
}

/// The parameters of a view call: view name, hex input and height, each
/// checked in that order. With `decimal_heights`, a height may also be
/// decimal text (the view server's reading).
pub fn parse_view_params(params: &[ParamValue], decimal_heights: bool) -> (r: Result<ViewCall, ParamError>)
    ensures
        view_call_parts(r) == view_params_spec(params@, decimal_heights),
        params@.len() < 3 ==> r == Err::<ViewCall, ParamError>(ParamError::RequiresViewParams),
        params@.len() >= 3 ==> {
            let hp = if decimal_heights { view_height_param_spec(params@[2]) } else { height_param_spec(params@[2]) };
            if str_of(params@[0]) is None {
                r == Err::<ViewCall, ParamError>(ParamError::ViewNameNotString)
            } else if str_of(params@[1]) is None {
                r == Err::<ViewCall, ParamError>(ParamError::InputNotString)
            } else if hp is None {
                r == Err::<ViewCall, ParamError>(ParamError::HeightNotNumberOrLatest)
            } else if hex_param(str_of(params@[1])->0) is None {
                r == Err::<ViewCall, ParamError>(ParamError::InvalidHexInput)
            } else {
                r matches Ok(call) && call.view_name@ == str_of(params@[0])->0
                    && call.input@ == hex_param(str_of(params@[1])->0)->0
                    && call.height == hp->0
            }
        },
{
    if params.len() < 3 {
        return Err(ParamError::RequiresViewParams);
    }
    let view_name = match &params[0] {
        ParamValue::Str(s) => copy_bytes(s),
        _ => return Err(ParamError::ViewNameNotString),
    };
    let input_hex = match &params[1] {
        ParamValue::Str(s) => s,
        _ => return Err(ParamError::InputNotString),
    };
    let height = if decimal_heights { view_height_param(&params[2]) } else { height_param(&params[2]) };
    let height = match height {
        Some(h) => h,
        None => return Err(ParamError::HeightNotNumberOrLatest),
    };
    let input = match decode_hex_param(input_hex) {
        Some(v) => v,
        None => return Err(ParamError::InvalidHexInput),
    };
    Ok(ViewCall { view_name, input, height })
}

/// The parameters of a preview call: hex block, view name, hex input and
/// height, checked in that order, then the block's hex and the input's.
pub fn parse_preview_params(params: &[ParamValue], decimal_heights: bool) -> (r: Result<PreviewCall, ParamError>)
    ensures
        preview_call_parts(r) == preview_params_spec(params@, decimal_heights),
        params@.len() < 4 ==> r == Err::<PreviewCall, ParamError>(ParamError::RequiresPreviewParams),
        params@.len() >= 4 ==> {
            let hp = if decimal_heights { view_height_param_spec(params@[3]) } else { height_param_spec(params@[3]) };
            if str_of(params@[0]) is None {
                r == Err::<PreviewCall, ParamError>(ParamError::BlockNotString)
            } else if str_of(params@[1]) is None {
                r == Err::<PreviewCall, ParamError>(ParamError::ViewNameNotString)
            } else if str_of(params@[2]) is None {
                r == Err::<PreviewCall, ParamError>(ParamError::InputNotString)
            } else if hp is None {
                r == Err::<PreviewCall, ParamError>(ParamError::HeightNotNumberOrLatest)
            } else if hex_param(str_of(params@[0])->0) is None {
                r == Err::<PreviewCall, ParamError>(ParamError::InvalidHexBlock)
            } else if hex_param(str_of(params@[2])->0) is None {
                r == Err::<PreviewCall, ParamError>(ParamError::InvalidHexInput)
            } else {
                r matches Ok(call) && call.block@ == hex_param(str_of(params@[0])->0)->0
                    && call.view_name@ == str_of(params@[1])->0
                    && call.input@ == hex_param(str_of(params@[2])->0)->0
                    && call.height == hp->0
            }
        },
{
    if params.len() < 4 {
        return Err(ParamError::RequiresPreviewParams);
    }
    let block_hex = match &params[0] {
        ParamValue::Str(s) => s,
        _ => return Err(ParamError::BlockNotString),
    };
    let view_name = match &params[1] {
        ParamValue::Str(s) => copy_bytes(s),
        _ => return Err(ParamError::ViewNameNotString),
    };
    let input_hex = match &params[2] {
        ParamValue::Str(s) => s,
        _ => return Err(ParamError::InputNotString),
    };
    let height = if decimal_heights { view_height_param(&params[3]) } else { height_param(&params[3]) };
    let height = match height {
        Some(h) => h,
        None => return Err(ParamError::HeightNotNumberOrLatest),
    };
    let block = match decode_hex_param(block_hex) {
        Some(v) => v,
        None => return Err(ParamError::InvalidHexBlock),
    };
    let input = match decode_hex_param(input_hex) {
        Some(v) => v,
        None => return Err(ParamError::InvalidHexInput),
    };
    Ok(PreviewCall { block, view_name, input, height })
}

/// The block number of a block hash request: exactly one parameter, a
/// number (taken as 0 when not a non-negative integer, cut to 32 bits).
pub fn parse_block_number(params: &[ParamValue]) -> (r: Result<u32, ParamError>)
    ensures
        params@.len() != 1 ==> r == Err::<u32, ParamError>(ParamError::RequiresBlockNumber),
        params@.len() == 1 ==> r == (match params@[0] {
            ParamValue::Num(n) => Ok::<u32, ParamError>((match n { Some(v) => v, None => 0u64 }) as u32),
            _ => Err(ParamError::BlockNumberNotNumber),
        }),
{
    if params.len() != 1 {
        return Err(ParamError::RequiresBlockNumber);
    }
    match &params[0] {
        ParamValue::Num(n) => {
            let v: u64 = match n {
                Some(v) => *v,
                None => 0,
            };
            Ok(v as u32)
        },
        _ => Err(ParamError::BlockNumberNotNumber),
    }
}

/// The height a state root request asks for: `latest` is the latest
/// indexed block.
pub fn stateroot_height(p: &ParamValue, current_height: u32) -> (r: Option<u32>)
    ensures r == (match height_param_spec(*p) {
        Some(HeightParam::Latest) => Some(if current_height > 0 { (current_height - 1) as u32 } else { 0u32 }),
        Some(HeightParam::At(h)) => Some(h),
        None => None,
    }),
{
    match height_param(p) {
        Some(HeightParam::Latest) => Some(latest_block(current_height)),
        Some(HeightParam::At(h)) => Some(h),
        None => None,
    }
}

/// `/__INTERNAL/height-to-hash/`
pub open spec fn height_to_hash_prefix() -> Seq<u8> {
    seq![47u8, 95u8, 95u8, 73u8, 78u8, 84u8, 69u8, 82u8, 78u8, 65u8, 76u8, 47u8, 104u8, 101u8, 105u8, 103u8, 104u8,
        116u8, 45u8, 116u8, 111u8, 45u8, 104u8, 97u8, 115u8, 104u8, 47u8]
}

/// The key a block hash request reads.
pub fn height_to_hash_key(height: u32) -> (k: Vec<u8>)
    ensures k@ == height_to_hash_prefix() + decimal(height as nat),
{
    let mut k: Vec<u8> = vec![47, 95, 95, 73, 78, 84, 69, 82, 78, 65, 76, 47, 104, 101, 105, 103, 104, 116, 45, 116,
        111, 45, 104, 97, 115, 104, 47];
    let ghost head = k@;
    push_decimal(&mut k, height);
    assert(head =~= height_to_hash_prefix());
    k
}

/// The answer to a state root request.
#[derive(Debug)]
pub enum StateRootAnswer<E> {
    /// The root bytes found.
    Root(Vec<u8>),
    /// The store failed.
    Failed(E),
}

/// The state root of `height` for a request: the value stored under the
/// height's key with two colons, else the one with three colons, else the
/// state root that the height-indexed lookup gives. A failed first read is
/// passed over; a failed second read is reported.
pub fn lookup_state_root<S: KeyValueStoreLike>(db: &mut S, height: u32) -> (r: StateRootAnswer<S::Error>)
    ensures
        final(db).kv() == old(db).kv(),
        S::never_fails() ==> (r matches StateRootAnswer::Root(v) && v@ == (
            if lookup(old(db).kv(), root_key(height, 1)) is Some {
                lookup(old(db).kv(), root_key(height, 1))->0
            } else if lookup(old(db).kv(), root_key(height, 2)) is Some {
                lookup(old(db).kv(), root_key(height, 2))->0
            } else {
                root_at(old(db).kv(), height)
            })),
        r matches StateRootAnswer::Root(v) ==> (lookup(old(db).kv(), root_key(height, 1)) == Some(v@)
            || lookup(old(db).kv(), root_key(height, 2)) == Some(v@)
            || possible_root(old(db).kv(), height, v@)),
{
    let k1 = crate::smt_helper::root_key_bytes(height, 1);
    match db.get(&k1) {
        Ok(Some(v)) => return StateRootAnswer::Root(v),
        _ => {},
    }
    let k2 = crate::smt_helper::root_key_bytes(height, 2);
    match db.get(&k2) {
        Ok(Some(v)) => StateRootAnswer::Root(v),
        Ok(None) => {
            let root = smt_root_at_height(db, height);
            StateRootAnswer::Root(copy_bytes(root.as_slice()))
        },
        Err(e) => StateRootAnswer::Failed(e),
    }
}

/// What a snapshot information request answers.
#[derive(Debug, Clone, PartialEq, Eq)]
pub struct SnapshotInfo {
    pub enabled: bool,
    pub current_height: u32,
    pub last_snapshot_height: u32,
    pub latest_root: Option<[u8; 32]>,
    pub estimated_interval: u32,
    pub next_snapshot_at: Option<u32>,
}

/// Snapshot information derived from the stored state roots. The state
/// root lookup always yields a root, so the latest snapshot is taken to be
/// at the current height and, above height 0, the interval is estimated as
/// 1.
pub fn snapshot_info<S: KeyValueStoreLike>(db: &mut S, current_height: u32) -> (info: SnapshotInfo)
    requires current_height < u32::MAX,
    ensures
        final(db).kv() == old(db).kv(),
        info.current_height == current_height,
        info.last_snapshot_height == current_height,
        info.latest_root is Some,
        S::never_fails() ==> info.latest_root->0@ == root_at(old(db).kv(), current_height),
        info.enabled == (current_height > 0),
        info.estimated_interval == (if current_height > 0 { 1u32 } else { 1000u32 }),
        info.next_snapshot_at == (if current_height > 0 { Some((current_height + 1) as u32) } else { None }),
{
    let root = smt_root_at_height(db, current_height);
    let latest_snapshot_height = current_height;
    let mut snapshot_interval: u32 = 1000;
    let mut snapshot_enabled = false;
    if latest_snapshot_height > 0 {
        snapshot_enabled = true;
        let _ = smt_root_at_height(db, latest_snapshot_height - 1);
        snapshot_interval = 1;
    }
    let next_snapshot_at = if snapshot_enabled && snapshot_interval > 0 {
        Some(current_height + (snapshot_interval - current_height % snapshot_interval))
    } else {
        None
    };
    SnapshotInfo {
        enabled: snapshot_enabled,
        current_height,
        last_snapshot_height: latest_snapshot_height,
        latest_root: Some(root),
        estimated_interval: snapshot_interval,
        next_snapshot_at,
    }
}

/// What the indexer's server does with a request.
#[derive(Debug)]
pub enum RpcPlan {
    /// Run a view at a height.
    View(ViewCall, u32),
    /// Run a view at a height after indexing a block.
    Preview(PreviewCall, u32),
    /// Answer with this height.
    Height(u32),
    /// Answer with the block hash stored under this key.
    BlockHash(Vec<u8>),
    /// Answer with the state root of this height.
    StateRoot(u32),
    /// Answer with what is known of the snapshots.
    Snapshot,
    /// Refuse the parameters.
    Invalid(ParamError),
    /// Refuse the method.
    NotFound,
}

/// The height a view or preview runs at: `latest` is the next height to
/// index.
pub open spec fn run_height(h: HeightParam, current_height: u32) -> u32 {
    match h {
        HeightParam::Latest => current_height,
        HeightParam::At(v) => v,
    }
}

/// Decides what the indexer's server does with a request for `method`
/// with `params`, when `current_height` is the next height to index. The
/// height of a view may be a number, `latest` or decimal text; that of a
/// preview a number or `latest`.
/// A state root request must carry a parameter.
pub fn plan_request(method: &[u8], params: &[ParamValue], current_height: u32) -> (p: RpcPlan)
    requires method_spec(method@) == RpcMethod::StateRoot ==> params@.len() >= 1,
    ensures
        method_spec(method@) == RpcMethod::View ==> match view_params_spec(params@, true) {
            Err(e) => p == RpcPlan::Invalid(e),
            Ok((name, input, h)) => p matches RpcPlan::View(call, height) && call.view_name@ == name && call.input@ == input
                && call.height == h && height == run_height(h, current_height),
        },
        method_spec(method@) == RpcMethod::Preview ==> match preview_params_spec(params@, false) {
            Err(e) => p == RpcPlan::Invalid(e),
            Ok((block, name, input, h)) => p matches RpcPlan::Preview(call, height) && call.block@ == block
                && call.view_name@ == name && call.input@ == input && call.height == h
                && height == run_height(h, current_height),
        },
        method_spec(method@) == RpcMethod::Height ==>
            p == RpcPlan::Height(if current_height > 0 { (current_height - 1) as u32 } else { 0u32 }),
        method_spec(method@) == RpcMethod::GetBlockHash ==> (
            params@.len() != 1 ==> p == RpcPlan::Invalid(ParamError::RequiresBlockNumber))
            && (params@.len() == 1 ==> match params@[0] {
                ParamValue::Num(n) => p matches RpcPlan::BlockHash(k)
                    && k@ == height_to_hash_prefix() + decimal(((match n { Some(v) => v, None => 0u64 }) as u32) as nat),
                _ => p == RpcPlan::Invalid(ParamError::BlockNumberNotNumber),
            }),
        method_spec(method@) == RpcMethod::StateRoot ==> match height_param_spec(params@[0]) {
            Some(HeightParam::Latest) => p == RpcPlan::StateRoot(if current_height > 0 { (current_height - 1) as u32 } else { 0u32 }),
            Some(HeightParam::At(h)) => p == RpcPlan::StateRoot(h),
            None => p == RpcPlan::Invalid(ParamError::HeightNotNumberOrLatest),
        },
        method_spec(method@) == RpcMethod::Snapshot ==> p == RpcPlan::Snapshot,
        method_spec(method@) == RpcMethod::Unknown ==> p == RpcPlan::NotFound,
{
    match method_of(method) {
        RpcMethod::View => match parse_view_params(params, true) {
            Ok(call) => {
                let height = match call.height {
                    HeightParam::Latest => current_height,
                    HeightParam::At(v) => v,
                };
                RpcPlan::View(call, height)
            },
            Err(e) => RpcPlan::Invalid(e),
        },
        RpcMethod::Preview => match parse_preview_params(params, false) {
            Ok(call) => {
                let height = match call.height {
                    HeightParam::Latest => current_height,
                    HeightParam::At(v) => v,
                };
                RpcPlan::Preview(call, height)
            },
            Err(e) => RpcPlan::Invalid(e),
        },
        RpcMethod::Height => RpcPlan::Height(latest_block(current_height)),
        RpcMethod::GetBlockHash => match parse_block_number(params) {
            Ok(h) => RpcPlan::BlockHash(height_to_hash_key(h)),
            Err(e) => RpcPlan::Invalid(e),
        },
        RpcMethod::StateRoot => match stateroot_height(&params[0], current_height) {
            Some(h) => RpcPlan::StateRoot(h),
            None => RpcPlan::Invalid(ParamError::HeightNotNumberOrLatest),
        },
        RpcMethod::Snapshot => RpcPlan::Snapshot,
        RpcMethod::Unknown => RpcPlan::NotFound,
    }
}

} // verus!
