use evm_extractor::archive::{
    archive_file_name, get_next_part, gzip_csv, part_file_name, upload_arguments, upload_failure,
    upload_outcome,
};
use flate2::read::GzDecoder;
use flate2::write::GzEncoder;
use flate2::Compression;
use std::io::Read;

fn list(items: &[&str]) -> Vec<String> {
    items.iter().map(|item| item.to_string()).collect()
}

fn unpacked(bytes: &[u8]) -> String {
    let mut text = String::new();
    GzDecoder::new(bytes).read_to_string(&mut text).unwrap();
    text
}

#[test]
fn files_are_named_by_chain_blocks_and_part() {
    assert_eq!(part_file_name("bnb", 1), "output/bnb_addresses_part_001.csv.gz");
    assert_eq!(part_file_name("base", 1234), "output/base_addresses_part_1234.csv.gz");
    assert_eq!(
        archive_file_name("bnb", 0, 999_999, 12),
        "output/bnb_blocks_0_to_999999_part_012.csv.gz"
    );
}

#[test]
fn different_parts_have_different_files() {
    assert_ne!(part_file_name("bnb", 1), part_file_name("bnb", 10));
    assert_ne!(archive_file_name("bnb", 1, 23, 4), archive_file_name("bnb", 12, 3, 4));
    assert_ne!(archive_file_name("bnb", 1, 2, 3), archive_file_name("bnb", 1, 2, 30));
}

#[test]
fn the_first_free_part_number_is_taken() {
    assert_eq!(get_next_part("bnb", |_name: &String| false), Some(1));
    let taken = list(&[
        "output/bnb_addresses_part_001.csv.gz",
        "output/bnb_addresses_part_002.csv.gz",
        "output/bnb_addresses_part_004.csv.gz",
        "output/base_addresses_part_003.csv.gz",
    ]);
    assert_eq!(get_next_part("bnb", |name: &String| taken.contains(name)), Some(3));
    assert_eq!(get_next_part("base", |name: &String| taken.contains(name)), Some(1));
}

#[test]
fn a_file_unpacks_to_a_table_of_the_addresses() {
    let bytes = gzip_csv(&list(&["0xb", "0xa"])).unwrap();
    assert_eq!(unpacked(&bytes), "address\n0xb\n0xa\n");
    assert_eq!(unpacked(&gzip_csv(&vec![]).unwrap()), "address\n");
}

#[test]
fn fields_are_quoted_where_they_need_it() {
    let bytes = gzip_csv(&list(&["", "a,b", "say \"x\"", "two\nlines", "cr\r", "é#'; "])).unwrap();
    assert_eq!(
        unpacked(&bytes),
        "address\n\"\"\n\"a,b\"\n\"say \"\"x\"\"\"\n\"two\nlines\"\n\"cr\r\"\né#'; \n"
    );
}

#[test]
fn many_addresses_survive_the_round_trip() {
    let addresses: Vec<String> = (0..20_000u64).map(|i| format!("0x{:040x}", i * 7919)).collect();
    let bytes = gzip_csv(&addresses).unwrap();
    let text = unpacked(&bytes);
    let mut lines = text.lines();
    assert_eq!(lines.next(), Some("address"));
    assert_eq!(lines.collect::<Vec<&str>>(), addresses);
    assert!(bytes.len() < text.len());
}

#[test]
fn a_file_holds_the_very_bytes_of_a_csv_writer_over_a_compressor() {
    let addresses: Vec<String> = (0..3_000u64).map(|i| format!("0x{:x}", i * i)).collect();
    let encoder = GzEncoder::new(Vec::new(), Compression::default());
    let mut writer = csv::Writer::from_writer(encoder);
    writer.write_record(["address"]).unwrap();
    for address in &addresses {
        writer.write_record([address]).unwrap();
    }
    writer.flush().unwrap();
    let expected = writer.into_inner().unwrap().finish().unwrap();
    assert_eq!(gzip_csv(&addresses), Ok(expected));
}

#[test]
fn the_release_tool_is_called_to_replace_the_file() {
    assert_eq!(
        upload_arguments("v1", "output/x.csv.gz"),
        ["release", "upload", "v1", "output/x.csv.gz", "--clobber"]
    );
    assert_eq!(upload_failure("x"), "GitHub release upload failed for x");
}

#[test]
fn different_lists_have_different_tables() {
    let lists = [
        list(&[]),
        list(&[""]),
        list(&["", ""]),
        list(&["a", "b"]),
        list(&["a\nb"]),
        list(&["\"a\""]),
        list(&["\"", "a", "\""]),
        list(&["b", "a"]),
    ];
    let tables: Vec<String> =
        lists.iter().map(|addresses| unpacked(&gzip_csv(addresses).unwrap())).collect();
    for i in 0..tables.len() {
        for j in 0..i {
            assert_ne!(tables[i], tables[j]);
        }
    }
}

#[test]
fn a_refused_upload_is_an_error() {
    assert_eq!(upload_outcome("x.csv.gz", true), Ok(()));
    assert_eq!(
        upload_outcome("x.csv.gz", false),
        Err("GitHub release upload failed for x.csv.gz".to_string())
    );
}

#[test]
fn incompressible_and_long_addresses_are_written_too() {
    let mut state = 1u64;
    let mut addresses: Vec<String> = Vec::new();
    for _ in 0..2_000 {
        let mut text = String::new();
        for _ in 0..300 {
            state = state.wrapping_mul(6364136223846793005).wrapping_add(1442695040888963407);
            text.push(char::from_u32((state >> 50) as u32).unwrap());
        }
        addresses.push(text);
    }
    addresses.push("\"".repeat(100_000));
    addresses.push("a".repeat(3_000_000));
    let mut expected = "address\n".to_string();
    for text in &addresses {
        let quoted = text.contains(|c: char| matches!(c, ',' | '"' | '\r' | '\n'));
        if quoted {
            expected.push_str(&format!("\"{}\"\n", text.replace('"', "\"\"")));
        } else {
            expected.push_str(&format!("{}\n", text));
        }
    }
    assert_eq!(unpacked(&gzip_csv(&addresses).unwrap()), expected);
}
