use vstd::prelude::*;
use vstd::string::*;

verus! {

/// The text of a successful operation.
pub open spec fn success_text() -> Seq<char> {
    "操作成功"@
}

/// The uniform response envelope: `code` 0 on success, 1 on a refusal.
#[derive(Debug)]
pub struct BaseResponse<T> {
    pub code: i32,
    pub msg: String,
    pub data: Option<T>,
}

/// The envelope of one page of a listing.
#[derive(Debug)]
pub struct ResponsePage<T> {
    pub code: i32,
    pub msg: String,
    pub total: u64,
    pub success: bool,
    pub data: Option<T>,
}

fn success_msg() -> (r: String)
    ensures
        r@ == success_text(),
{
    String::from_str("操作成功")
}

/// A success without data.
pub fn ok_result() -> (r: BaseResponse<String>)
    ensures
        r.code == 0,
        r.msg@ == success_text(),
        r.data is None,
{
    BaseResponse { code: 0, msg: success_msg(), data: None }
}

/// A success with the given message.
pub fn ok_result_msg(msg: &str) -> (r: BaseResponse<String>)
    ensures
        r.code == 0,
        r.msg@ == msg@,
        r.data is None,
{
    BaseResponse { code: 0, msg: msg.to_owned(), data: None }
}

/// A refusal with the given message.
pub fn err_result_msg(msg: &str) -> (r: BaseResponse<String>)
    ensures
        r.code == 1,
        r.msg@ == msg@,
        r.data is None,
{
    BaseResponse { code: 1, msg: msg.to_owned(), data: None }
}

/// A success carrying `data`.
pub fn ok_result_data<T>(data: T) -> (r: BaseResponse<T>)
    ensures
        r.code == 0,
        r.msg@ == success_text(),
        r.data == Some(data),
{
    BaseResponse { code: 0, msg: success_msg(), data: Some(data) }
}

/// A successful page carrying `data`, out of `total` records.
pub fn ok_result_page<T>(data: T, total: u64) -> (r: ResponsePage<T>)
    ensures
        r.code == 0,
        r.msg@ == success_text(),
        r.success,
        r.total == total,
        r.data == Some(data),
{
    ResponsePage { code: 0, msg: success_msg(), total, success: true, data: Some(data) }
}

impl<T> ResponsePage<T> {
    /// A successful page carrying `data`, out of `total` records.
    pub fn ok_result_page(data: T, total: u64) -> (r: ResponsePage<T>)
        ensures
            r.code == 0,
            r.msg@ == success_text(),
            r.success,
            r.total == total,
            r.data == Some(data),
    {
        ok_result_page(data, total)
    }

    /// A success carrying `data`, with no total.
    pub fn ok_result(data: T) -> (r: ResponsePage<T>)
        ensures
            r.code == 0,
            r.msg@ == success_text(),
            r.success,
            r.total == 0,
            r.data == Some(data),
    {
        ResponsePage { code: 0, msg: success_msg(), total: 0, success: true, data: Some(data) }
    }

    /// A refusal carrying `data` and the message `msg`.
    pub fn err_result_page(data: T, msg: String) -> (r: ResponsePage<T>)
        ensures
            r.code == 1,
            r.msg@ == msg@,
            !r.success,
            r.total == 0,
            r.data == Some(data),
    {
        ResponsePage { code: 1, msg, total: 0, success: false, data: Some(data) }
    }
}

} // verus!
