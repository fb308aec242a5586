//! The library's error type.
use crate::text::concat_str;
use vstd::prelude::*;
use vstd::string::StringExecFns;

verus! {

/// `std::io::Error`, carried through unchanged from the file system.
#[verifier::external_type_specification]
#[verifier::external_body]
pub struct ExIoError(std::io::Error);

/// Every way an operation of the library can fail. Paths are held as
/// strings.
#[derive(Debug)]
pub enum AppError {
    FeishuNotFound(Vec<String>),
    FeishuRunning,
    AsarLocked(String),
    AsarMalformed(String),
    BackupExists(String),
    BackupMissing(String),
    PatchNoHit { patch_id: String },
    PatchVersionIncompatible { required: String, current: String },
    RemoteFetchFailed(String),
    RemoteSignatureInvalid,
    RemoteVersionRegression,
    PermissionDenied(String),
    UpdaterFailed(String),
    Io(std::io::Error),
    Internal(String),
}

/// The name under which an error is reported to the user interface.
pub open spec fn error_kind(e: AppError) -> Seq<char> {
    match e {
        AppError::FeishuNotFound(_) => "FeishuNotFound"@,
        AppError::FeishuRunning => "FeishuRunning"@,
        AppError::AsarLocked(_) => "AsarLocked"@,
        AppError::AsarMalformed(_) => "AsarMalformed"@,
        AppError::BackupExists(_) => "BackupExists"@,
        AppError::BackupMissing(_) => "BackupMissing"@,
        AppError::PatchNoHit { .. } => "PatchNoHit"@,
        AppError::PatchVersionIncompatible { .. } => "PatchVersionIncompatible"@,
        AppError::RemoteFetchFailed(_) => "RemoteFetchFailed"@,
        AppError::RemoteSignatureInvalid => "RemoteSignatureInvalid"@,
        AppError::RemoteVersionRegression => "RemoteVersionRegression"@,
        AppError::PermissionDenied(_) => "PermissionDenied"@,
        AppError::UpdaterFailed(_) => "UpdaterFailed"@,
        AppError::Io(_) => "Io"@,
        AppError::Internal(_) => "Internal"@,
    }
}

impl AppError {
    /// The variant's name, as the user interface receives it beside the
    /// message.
    pub fn kind(&self) -> (k: &'static str)
        ensures
            k@ == error_kind(*self),
    {
        match self {
            AppError::FeishuNotFound(_) => "FeishuNotFound",
            AppError::FeishuRunning => "FeishuRunning",
            AppError::AsarLocked(_) => "AsarLocked",
            AppError::AsarMalformed(_) => "AsarMalformed",
            AppError::BackupExists(_) => "BackupExists",
            AppError::BackupMissing(_) => "BackupMissing",
            AppError::PatchNoHit { .. } => "PatchNoHit",
            AppError::PatchVersionIncompatible { .. } => "PatchVersionIncompatible",
            AppError::RemoteFetchFailed(_) => "RemoteFetchFailed",
            AppError::RemoteSignatureInvalid => "RemoteSignatureInvalid",
            AppError::RemoteVersionRegression => "RemoteVersionRegression",
            AppError::PermissionDenied(_) => "PermissionDenied",
            AppError::UpdaterFailed(_) => "UpdaterFailed",
            AppError::Io(_) => "Io",
            AppError::Internal(_) => "Internal",
        }
    }
}

/// `Debug` of the paths as a vector of `PathBuf`s, through `format!`. How
/// a path is escaped differs between platforms (the Windows rendering of a
/// path does not escape `'`, the Unix one does), so nothing is promised of
/// the text.
#[verifier::external_body]
fn debug_paths(v: &Vec<String>) -> String {
    format!("{:?}", v.iter().map(std::path::PathBuf::from).collect::<Vec<_>>())
}

/// `Display` of an I/O error (`e.to_string()`). The text depends on the
/// platform's error messages; nothing is promised of it.
#[verifier::external_body]
fn io_error_text(e: &std::io::Error) -> String {
    e.to_string()
}

/// The message shown for an error, where it is fixed by the error's
/// fields alone.
pub open spec fn message_of(e: AppError) -> Option<Seq<char>> {
    match e {
        AppError::FeishuNotFound(_) => None,
        AppError::FeishuRunning => Some("飞书正在运行,请先退出飞书"@),
        AppError::AsarLocked(p) => Some("文件被占用,无法写入:"@ + p@),
        AppError::AsarMalformed(m) => Some("asar 文件解析失败:"@ + m@),
        AppError::BackupExists(p) => Some("备份文件已存在:"@ + p@),
        AppError::BackupMissing(p) => Some("找不到备份文件:"@ + p@),
        AppError::PatchNoHit { patch_id } => Some("补丁规则 "@ + patch_id@ + " 没有命中任何锚点"@),
        AppError::PatchVersionIncompatible { required, current } => Some(
            "补丁包需要 app ≥ "@ + required@ + ",当前 "@ + current@,
        ),
        AppError::RemoteFetchFailed(m) => Some("下载远程补丁失败:"@ + m@),
        AppError::RemoteSignatureInvalid => Some("远程补丁签名校验失败"@),
        AppError::RemoteVersionRegression => Some("远程补丁版本不能回退"@),
        AppError::PermissionDenied(p) => Some("没有写权限:"@ + p@),
        AppError::UpdaterFailed(m) => Some("应用更新失败:"@ + m@),
        AppError::Io(_) => None,
        AppError::Internal(m) => Some("内部错误:"@ + m@),
    }
}

/// The fixed start of the messages that `message_of` leaves open.
pub open spec fn message_head(e: AppError) -> Seq<char> {
    match e {
        AppError::FeishuNotFound(_) => "未在以下路径找到飞书安装:"@,
        _ => "IO 错误:"@,
    }
}

impl AppError {
    /// The message shown for the error. That of an I/O error is
    /// `IO 错误:` followed by the error's own text; that of an installation
    /// not found is `未在以下路径找到飞书安装:` followed by the `Debug`
    /// rendering of the paths tried.
    pub fn message(&self) -> (m: String)
        ensures
            match message_of(*self) {
                Some(t) => m@ == t,
                None => m@.len() >= message_head(*self).len() && m@.take(message_head(*self).len() as int)
                    == message_head(*self),
            },
    {
        match self {
            AppError::FeishuNotFound(v) => {
                let t = debug_paths(v);
                let m = concat_str("未在以下路径找到飞书安装:", t.as_str());
                proof {
                    assert(m@.take("未在以下路径找到飞书安装:"@.len() as int) =~= "未在以下路径找到飞书安装:"@);
                }
                m
            },
            AppError::FeishuRunning => String::from_str("飞书正在运行,请先退出飞书"),
            AppError::AsarLocked(p) => concat_str("文件被占用,无法写入:", p.as_str()),
            AppError::AsarMalformed(m) => concat_str("asar 文件解析失败:", m.as_str()),
            AppError::BackupExists(p) => concat_str("备份文件已存在:", p.as_str()),
            AppError::BackupMissing(p) => concat_str("找不到备份文件:", p.as_str()),
            AppError::PatchNoHit { patch_id } => {
                let head = concat_str("补丁规则 ", patch_id.as_str());
                concat_str(head.as_str(), " 没有命中任何锚点")
            },
            AppError::PatchVersionIncompatible { required, current } => {
                let a = concat_str("补丁包需要 app ≥ ", required.as_str());
                let b = concat_str(a.as_str(), ",当前 ");
                concat_str(b.as_str(), current.as_str())
            },
            AppError::RemoteFetchFailed(m) => concat_str("下载远程补丁失败:", m.as_str()),
            AppError::RemoteSignatureInvalid => String::from_str("远程补丁签名校验失败"),
            AppError::RemoteVersionRegression => String::from_str("远程补丁版本不能回退"),
            AppError::PermissionDenied(p) => concat_str("没有写权限:", p.as_str()),
            AppError::UpdaterFailed(m) => concat_str("应用更新失败:", m.as_str()),
            AppError::Io(e) => {
                let t = io_error_text(e);
                let m = concat_str("IO 错误:", t.as_str());
                proof {
                    assert(m@.take("IO 错误:"@.len() as int) =~= "IO 错误:"@);
                }
                m
            },
            AppError::Internal(m) => concat_str("内部错误:", m.as_str()),
        }
    }
}

/// The error that reading past the end of a file gives
/// (`std::io::Error::from(ErrorKind::UnexpectedEof)`).
#[verifier::external_body]
pub(crate) fn unexpected_eof() -> std::io::Error {
    std::io::Error::from(std::io::ErrorKind::UnexpectedEof)
}

} // verus!
