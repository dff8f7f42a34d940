use fatass::FileData;
use fatass::FileDataTable;

fn size_string(size: u64) -> String {
    FileData::new("x".to_string(), size).get_str_size()
}

#[test]
fn formats_example_sizes() {
    assert_eq!(size_string(1536), "1.50 KB");
    assert_eq!(size_string(1024), "1 KB");
    assert_eq!(size_string(999), "999 Bytes");
}

#[test]
fn formats_byte_range() {
    assert_eq!(size_string(0), "0 Bytes");
    assert_eq!(size_string(1), "1 Bytes");
    assert_eq!(size_string(1023), "1023 Bytes");
}

#[test]
fn formats_exact_multiples() {
    assert_eq!(size_string(1024 * 1024), "1 MB");
    assert_eq!(size_string(5 * 1024 * 1024 * 1024), "5 GB");
    assert_eq!(size_string(1024u64.pow(4)), "1 TB");
    assert_eq!(size_string(3 * 1024u64.pow(5)), "3 PB");
    assert_eq!(size_string(1024u64.pow(6)), "1 EB");
}

#[test]
fn formats_fractional_values_with_two_decimals() {
    assert_eq!(size_string(1536 * 1024), "1.50 MB");
    assert_eq!(size_string(1025), "1.00 KB");
    assert_eq!(size_string(1535), "1.50 KB");
    assert_eq!(size_string(2560), "2.50 KB");
    assert_eq!(size_string(u64::MAX), "16.00 EB");
}

#[test]
fn rounds_exact_halves_to_even() {
    // 1152 / 1024 = 1.125: the hundredth below is even, so down.
    assert_eq!(size_string(1152), "1.12 KB");
    // 1408 / 1024 = 1.375: the hundredth below is odd, so up.
    assert_eq!(size_string(1408), "1.38 KB");
}

#[test]
fn file_data_holds_its_fields() {
    let fd = FileData::new("/tmp/big".to_string(), 42);
    assert_eq!(fd.path, "/tmp/big");
    assert_eq!(fd.size, 42);
}

#[test]
fn table_row_holds_its_fields() {
    let row = FileDataTable::new("/tmp/big".to_string(), "1 KB".to_string());
    assert_eq!(row.Path, "/tmp/big");
    assert_eq!(row.Size, "1 KB");
}
