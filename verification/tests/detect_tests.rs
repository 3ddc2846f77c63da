use rust_compressor::detect_best_algorithm;

#[test]
fn test_detect_text_files() {
    assert_eq!(detect_best_algorithm("test.txt"), "lz");
    assert_eq!(detect_best_algorithm("log.log"), "lz");
    assert_eq!(detect_best_algorithm("README.md"), "lz");
}

#[test]
fn test_detect_binary_files() {
    assert_eq!(detect_best_algorithm("program.exe"), "rle");
    assert_eq!(detect_best_algorithm("library.dll"), "rle");
    assert_eq!(detect_best_algorithm("data.bin"), "rle");
}

#[test]
fn test_detect_image_files() {
    assert_eq!(detect_best_algorithm("image.bmp"), "rle");
    assert_eq!(detect_best_algorithm("texture.tga"), "rle");
}

#[test]
fn test_detect_unknown_files() {
    assert_eq!(detect_best_algorithm("unknown.xyz"), "lz");
    assert_eq!(detect_best_algorithm("noextension"), "lz");
}

#[test]
fn test_detect_case_insensitive_extension() {
    assert_eq!(detect_best_algorithm("IMAGE.BMP"), "rle");
    assert_eq!(detect_best_algorithm("archive.Dat"), "rle");
}

#[test]
fn test_detect_path_and_hidden_files() {
    // the extension lives in the final path component
    assert_eq!(detect_best_algorithm("some/dir/file.exe"), "rle");
    // a dot in an earlier component is no extension
    assert_eq!(detect_best_algorithm("dir.bin/file"), "lz");
    // a hidden file's leading dot starts no extension
    assert_eq!(detect_best_algorithm(".bin"), "lz");
    // a trailing dot gives an empty extension
    assert_eq!(detect_best_algorithm("file."), "lz");
}
