use cipher_kit::cipher::Operation;
use cipher_kit::naming::{result_file_name, split_file_name};

#[test]
fn result_names() {
    assert_eq!(
        result_file_name(b"notes", b"txt", Operation::Encrypt, 0),
        b"notes_encrypted.txt".to_vec()
    );
    assert_eq!(
        result_file_name(b"notes", b"txt", Operation::Decrypt, 1),
        b"notes_decrypted (1).txt".to_vec()
    );
    assert_eq!(
        result_file_name(b"a", b"", Operation::Encrypt, 99),
        b"a_encrypted (99).".to_vec()
    );
    assert_eq!(
        result_file_name(b"x", b"bin", Operation::Encrypt, 4_000_000_000),
        b"x_encrypted (4000000000).bin".to_vec()
    );
}

#[test]
fn file_name_split() {
    assert_eq!(
        split_file_name(b"report.pdf"),
        Some((b"report".to_vec(), b"pdf".to_vec()))
    );
    assert_eq!(split_file_name(b"a."), Some((b"a".to_vec(), Vec::new())));
    assert_eq!(split_file_name(b".rc"), Some((Vec::new(), b"rc".to_vec())));
    assert_eq!(split_file_name(b"archive.tar.gz"), None);
    assert_eq!(split_file_name(b"README"), None);
    assert_eq!(split_file_name(b""), None);
}
