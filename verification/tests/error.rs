use feishu_unreadme_app::error::AppError;

#[test]
fn kind_names_the_variant() {
    assert_eq!(AppError::FeishuNotFound(vec![]).kind(), "FeishuNotFound");
    assert_eq!(AppError::BackupExists("x".into()).kind(), "BackupExists");
    assert_eq!(AppError::PatchNoHit { patch_id: "p".into() }.kind(), "PatchNoHit");
    assert_eq!(
        AppError::Io(std::io::Error::from(std::io::ErrorKind::NotFound)).kind(),
        "Io"
    );
    assert_eq!(AppError::Internal("x".into()).kind(), "Internal");
}

#[test]
fn message_follows_the_variant() {
    let paths = vec!["/a".to_string(), "/b \"x\" 'y'".to_string()];
    let rendered: Vec<std::path::PathBuf> = paths.iter().map(std::path::PathBuf::from).collect();
    assert_eq!(
        AppError::FeishuNotFound(paths).message(),
        format!("未在以下路径找到飞书安装:{:?}", rendered)
    );
    assert_eq!(AppError::PatchNoHit { patch_id: "p1".into() }.message(), "补丁规则 p1 没有命中任何锚点");
    assert_eq!(
        AppError::PatchVersionIncompatible { required: "0.2.0".into(), current: "0.1.0".into() }.message(),
        "补丁包需要 app ≥ 0.2.0,当前 0.1.0"
    );
    assert_eq!(AppError::BackupExists("/x.bak".into()).message(), "备份文件已存在:/x.bak");
    assert_eq!(AppError::RemoteSignatureInvalid.message(), "远程补丁签名校验失败");
    let io = AppError::Io(std::io::Error::from(std::io::ErrorKind::NotFound)).message();
    assert!(io.starts_with("IO 错误:"));
    assert!(io.len() > "IO 错误:".len());
}
