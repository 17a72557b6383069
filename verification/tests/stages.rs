use flate2::write::GzEncoder;
use flate2::Compression;
use rayon_ingest::framework::{
    route, FailureFlags, FlowFile, FromArgs, Junction, StartTransform, Transform,
};
use rayon_ingest::junctions::{extension_of, SplitByExt};
use rayon_ingest::text::{contains_text, ends_with, push_decimal};
use rayon_ingest::transformers::{
    archive_entry, split_lines, CheckContains, Contains, Csv, FileImage, Glob, Lines, Row,
    ToString, Unpack,
};
use std::io::Write;

fn gzip(bytes: &[u8]) -> Vec<u8> {
    let mut encoder = GzEncoder::new(Vec::new(), Compression::default());
    encoder.write_all(bytes).unwrap();
    encoder.finish().unwrap()
}

fn in_unit<T>(data: T, source: &str, flags: &mut FailureFlags) -> FlowFile<T> {
    let mut f = FlowFile::new(data);
    f.meta.add_source(source);
    f.meta.attach(flags.open_unit());
    f
}

fn row(fields: &[&str]) -> Row {
    Row { fields: fields.iter().map(|s| s.to_string()).collect() }
}

#[test]
fn lines_are_split_at_line_feeds() {
    let split = |s: &[u8]| split_lines(&s.to_vec());
    assert_eq!(split(b"a\nb\r\nc"), vec![b"a".to_vec(), b"b".to_vec(), b"c".to_vec()]);
    assert_eq!(split(b"a\n"), vec![b"a".to_vec()]);
    assert_eq!(split(b""), Vec::<Vec<u8>>::new());
    assert_eq!(split(b"\n\n"), vec![Vec::<u8>::new(), Vec::new()]);
    assert_eq!(split(b"a\r"), vec![b"a\r".to_vec()]);
    assert_eq!(split(b"a\r\r\n"), vec![b"a\r".to_vec()]);
    assert_eq!(split(b"\r\nx"), vec![Vec::new(), b"x".to_vec()]);
}

#[test]
fn lines_number_their_records() {
    let mut flags = FailureFlags::new();
    let input = in_unit(b"x\ny\n".to_vec(), "f", &mut flags);
    let out = Lines {}.transform(input, &mut flags);
    let got: Vec<_> =
        out.iter().map(|f| (f.data.as_str(), f.meta.source(), f.meta.failed())).collect();
    assert_eq!(got, vec![("x", "f:0", Some(0)), ("y", "f:1", Some(0))]);
    assert!(!flags.has_failed(0));
}

#[test]
fn lines_drop_undecodable_line_and_mark_unit() {
    let mut flags = FailureFlags::new();
    let input = in_unit(b"ok\n\xff\xfe\nfine \xc3\xa9\n".to_vec(), "f", &mut flags);
    let out = Lines::from(vec![]).transform(input, &mut flags);
    let got: Vec<_> = out.iter().map(|f| (f.data.as_str(), f.meta.source())).collect();
    assert_eq!(got, vec![("ok", "f:0"), ("fine \u{e9}", "f:2")]);
    assert!(flags.has_failed(0));
}

#[test]
fn lines_of_untracked_record_mark_nothing() {
    let mut flags = FailureFlags::new();
    flags.open_unit();
    let out = Lines {}.transform(FlowFile::new(b"\xff\n".to_vec()), &mut flags);
    assert!(out.is_empty());
    assert!(!flags.has_failed(0));
}

#[test]
fn positions_are_written_in_decimal() {
    let mut s = String::from("n=");
    push_decimal(&mut s, 0);
    push_decimal(&mut s, 9);
    push_decimal(&mut s, 10);
    push_decimal(&mut s, 1203);
    assert_eq!(s, "n=09101203");
    let mut flags = FailureFlags::new();
    let out = Lines {}.transform(FlowFile::new(b"\n".repeat(12)), &mut flags);
    assert_eq!(out[11].meta.source(), ":11");
}

#[test]
fn csv_rows_follow_the_header() {
    let mut flags = FailureFlags::new();
    let input = in_unit(b"h1,h2\n1,\"2,5\"\n3,4\n".to_vec(), "t.csv", &mut flags);
    let out = Csv {}.transform(input, &mut flags);
    let got: Vec<_> = out.iter().map(|f| (f.data.fields.clone(), f.meta.source())).collect();
    assert_eq!(
        got,
        vec![
            (vec!["1".to_string(), "2,5".to_string()], "t.csv:0"),
            (vec!["3".to_string(), "4".to_string()], "t.csv:1"),
        ]
    );
    assert!(!flags.has_failed(0));
}

#[test]
fn csv_drops_malformed_row_and_marks_unit() {
    let mut flags = FailureFlags::new();
    let input = in_unit(b"h1,h2\n1,2\n3\n5,6\n".to_vec(), "t", &mut flags);
    let out = Csv::from(vec![]).transform(input, &mut flags);
    let got: Vec<_> = out.iter().map(|f| (f.data.fields.join("|"), f.meta.source())).collect();
    assert_eq!(got, vec![("1|2".to_string(), "t:0"), ("5|6".to_string(), "t:2")]);
    assert!(flags.has_failed(0));
}

#[test]
fn to_string_prints_the_row() {
    let mut flags = FailureFlags::new();
    let stage: ToString<Row> = ToString::default();
    let out = stage.transform(in_unit(row(&["1", "b c"]), "s", &mut flags), &mut flags);
    assert_eq!(out.len(), 1);
    assert_eq!(out[0].data, "StringRecord([\"1\", \"b c\"])");
    assert_eq!(out[0].meta.source(), "s");
    assert_eq!(out[0].meta.failed(), Some(0));
}

#[test]
fn unpack_passes_plain_files_through() {
    let mut flags = FailureFlags::new();
    let file = FileImage { path: "dir/a.txt".to_string(), bytes: b"abc".to_vec() };
    let out = Unpack {}.transform(in_unit(file, "", &mut flags), &mut flags);
    assert_eq!(out.len(), 1);
    assert_eq!(out[0].data, b"abc".to_vec());
    assert_eq!(out[0].meta.source(), "dir/a.txt");
    assert!(!flags.has_failed(0));
}

#[test]
fn unpack_decompresses_gz_files() {
    let mut flags = FailureFlags::new();
    let file = FileImage { path: "a.txt.gz".to_string(), bytes: gzip(b"hello\nworld\n") };
    let out = Unpack::from(vec![]).transform(in_unit(file, "", &mut flags), &mut flags);
    assert_eq!(out.len(), 1);
    assert_eq!(out[0].data, b"hello\nworld\n".to_vec());
    assert_eq!(out[0].meta.source(), "a.txt.gz");
}

#[test]
fn unpack_drops_broken_gz_and_marks_unit() {
    let mut flags = FailureFlags::new();
    let file = FileImage { path: "a.gz".to_string(), bytes: b"not compressed".to_vec() };
    let out = Unpack {}.transform(in_unit(file, "", &mut flags), &mut flags);
    assert!(out.is_empty());
    assert!(flags.has_failed(0));
}

#[test]
fn suffix_test_is_exact() {
    assert!(ends_with("a.gz", ".gz"));
    assert!(ends_with(".gz", ".gz"));
    assert!(ends_with("a", ""));
    assert!(!ends_with("gz", ".gz"));
    assert!(!ends_with("a.gz.txt", ".gz"));
    assert!(!ends_with("a.GZ", ".gz"));
}

#[test]
fn glob_emits_found_paths_in_order() {
    let glob = Glob::from(vec!["*.txt".to_string(), "b/**/*.csv".to_string()]);
    assert_eq!(glob.patterns, vec!["*.txt".to_string(), "b/**/*.csv".to_string()]);
    assert!(glob.found.is_none());
    let glob = glob.resolve(vec![Some("a.txt".to_string()), None, Some("b/c.csv".to_string())]);
    let out = glob.start();
    let got: Vec<_> =
        out.iter().map(|f| (f.data.as_str(), f.meta.source(), f.meta.failed())).collect();
    assert_eq!(got, vec![("a.txt", "", None), ("b/c.csv", "", None)]);
}

#[test]
fn glob_does_not_start_before_expansion() {
    assert!(Glob::from(vec!["*.txt".to_string()]).try_start().is_none());
    let started = Glob::from(vec![]).resolve(vec![]).try_start();
    assert_eq!(started.map(|list| list.len()), Some(0));
    let started = Glob::from(vec!["*".to_string()]).resolve(vec![None, None]).try_start();
    assert_eq!(started.map(|list| list.len()), Some(0));
}

#[test]
fn substring_search_is_exact() {
    assert!(contains_text("hello", "ell"));
    assert!(contains_text("hello", "hello"));
    assert!(contains_text("hello", ""));
    assert!(contains_text("", ""));
    assert!(contains_text("aab", "ab"));
    assert!(contains_text("h\u{e9}llo", "\u{e9}l"));
    assert!(!contains_text("hello", "hellos"));
    assert!(!contains_text("hello", "lle"));
    assert!(!contains_text("", "a"));
}

#[test]
fn payloads_are_searched_by_kind() {
    assert!("abc".to_string().contains("bc"));
    assert!(b"abc".to_vec().contains("bc"));
    assert!(!b"abc\xff".to_vec().contains("bc"));
    assert!(row(&["x", "abc"]).contains("bc"));
    assert!(!row(&["ab", "c"]).contains("bc"));
    assert!(!row(&[]).contains(""));
}

#[test]
fn contains_lets_matching_records_through() {
    let mut flags = FailureFlags::new();
    let stage: Contains<String> = Contains::from_args(vec!["1".to_string(), "x".to_string()]).unwrap();
    assert_eq!(stage.needle, "1");
    let kept = stage.transform(in_unit("a1b".to_string(), "s", &mut flags), &mut flags);
    assert_eq!(kept.len(), 1);
    assert_eq!((kept[0].data.as_str(), kept[0].meta.source()), ("a1b", "s"));
    let dropped = stage.transform(in_unit("ab".to_string(), "s", &mut flags), &mut flags);
    assert!(dropped.is_empty());
    assert!(!flags.has_failed(0) && !flags.has_failed(1));
    assert!(Contains::<String>::from_args(Vec::new()).is_none());
}

#[test]
fn extension_follows_the_last_dot() {
    assert_eq!(extension_of("a.tar.gz"), "gz");
    assert_eq!(extension_of("dir/a.toml:3"), "toml:3");
    assert_eq!(extension_of("noext"), "noext");
    assert_eq!(extension_of("a."), "");
    assert_eq!(extension_of(""), "");
}

#[test]
fn split_by_ext_gives_position_or_255() {
    let junction: SplitByExt<u8> =
        SplitByExt::from(vec!["toml".to_string(), "csv".to_string(), "csv".to_string()]);
    let named = |source: &str| {
        let mut f = FlowFile::new(0u8);
        f.meta.add_source(source);
        f
    };
    assert_eq!(junction.split(&named("Cargo.toml")), 0);
    assert_eq!(junction.split(&named("a.csv")), 1);
    assert_eq!(junction.split(&named("a.txt")), 255);
    assert_eq!(junction.split(&named("csv")), 1);
    let many: SplitByExt<u8> = SplitByExt::from((0..300).map(|i| i.to_string()).collect::<Vec<String>>());
    assert_eq!(many.split(&named("x.1")), 1);
    assert_eq!(many.split(&named("x.254")), 254);
    assert_eq!(many.split(&named("x.255")), 255);
    assert_eq!(many.split(&named("x.256")), 255);
    assert_eq!(many.split(&named("x.257")), 255);
}

#[test]
fn position_that_does_not_fit_is_no_branch() {
    let mut exts: Vec<String> = (0..256).map(|i| i.to_string()).collect();
    exts.push("csv".to_string());
    let junction: SplitByExt<u8> = SplitByExt::from(exts);
    let mut f = FlowFile::new(0u8);
    f.meta.add_source("a.csv");
    assert_eq!(junction.split(&f), 255);
    assert_eq!(route(&junction, &f), None);
}

#[test]
fn stages_are_built_from_arguments() {
    let args = || vec!["a".to_string(), "b".to_string()];
    assert_eq!(Glob::from_args(args()).unwrap().patterns, args());
    assert!(Unpack::from_args(args()).is_some());
    assert!(Lines::from_args(Vec::new()).is_some());
    assert!(Csv::from_args(args()).is_some());
    assert!(<ToString<Row>>::from_args(args()).is_some());
    assert_eq!(<SplitByExt<u8>>::from_args(args()).unwrap().exts, args());
    assert_eq!(<Contains<String>>::from_args(args()).unwrap().needle, "a");
    assert!(<Contains<String>>::from_args(Vec::new()).is_none());
}

#[test]
fn to_string_prints_the_text() {
    let mut flags = FailureFlags::new();
    let stage: ToString<String> = ToString::default();
    let out = stage.transform(in_unit("a\"b\n".to_string(), "s", &mut flags), &mut flags);
    assert_eq!(out.len(), 1);
    assert_eq!(out[0].data, "\"a\\\"b\\n\"");
    assert_eq!((out[0].meta.source(), out[0].meta.failed()), ("s", Some(0)));
}

#[test]
fn split_is_pure() {
    let junction: SplitByExt<String> = SplitByExt::from(vec!["a".to_string(), "b".to_string()]);
    let mut f = FlowFile::new("payload".to_string());
    f.meta.add_source("x.b");
    let first = junction.split(&f);
    let second = junction.split(&f);
    assert_eq!((first, second), (1, 1));
    assert_eq!(f.data, "payload");
    assert_eq!(f.meta.source(), "x.b");
}

#[test]
fn archive_entry_is_named_by_provenance() {
    let mut f = FlowFile::new("h\u{e9}".to_string());
    f.meta.add_source("a.txt:3");
    let entry = archive_entry(f);
    assert_eq!(entry.name, "a.txt:3");
    assert_eq!(entry.data, vec![b'h', 0xc3, 0xa9]);
    assert_eq!(entry.size, 3);
    let empty = archive_entry(FlowFile::new(String::new()));
    assert_eq!((empty.name.as_str(), empty.size, empty.data.len()), ("", 0, 0));
}

#[test]
fn row_text_is_made_of_the_fields_texts() {
    let mut flags = FailureFlags::new();
    let texts: ToString<String> = ToString::default();
    let rows: ToString<Row> = ToString::default();
    let fields = ["a\"b", "", "c, d", "\u{e9}\n"];
    let mut parts = Vec::new();
    for field in fields {
        let out = texts.transform(FlowFile::new(field.to_string()), &mut flags);
        parts.push(out[0].data.clone());
    }
    let out = rows.transform(FlowFile::new(row(&fields)), &mut flags);
    assert_eq!(out[0].data, format!("StringRecord([{}])", parts.join(", ")));
    let out = rows.transform(FlowFile::new(row(&[])), &mut flags);
    assert_eq!(out[0].data, "StringRecord([])");
}
