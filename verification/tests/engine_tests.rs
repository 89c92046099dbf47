use dumbdb::command::{parse_command, split_words, trim, Command};
use dumbdb::engine::{
    create_engine_from_string, engine_kind, AppendOnlyLogEngine, AppendOnlyLogWithHashIndexEngine,
    Engine, EngineConfig, EngineKind, FILE_LIMIT, MAX_LOG_FILE_SIZE,
};
use dumbdb::error::EngineError;
use dumbdb::server::{carry_out, Outcome};
use dumbdb::store::WriteReceipt;
use dumbdb::text::{bytes_of, decimal_text, segment_file_path, text_of};

fn files(contents: &[&[u8]]) -> Vec<Vec<u8>> {
    contents.iter().map(|bytes| bytes.to_vec()).collect()
}

fn small(max_segment_bytes: u64, file_limit: usize) -> EngineConfig {
    EngineConfig { db_directory: String::from("data"), max_segment_bytes, file_limit }
}

fn text(s: &str) -> String {
    String::from(s)
}

#[test]
fn standard_config() {
    let config = EngineConfig::get_standard_config();
    assert_eq!(config.db_directory, "./dumbdb/data");
    assert_eq!(config.max_segment_bytes, 20);
    assert_eq!(config.file_limit, 2);
    assert_eq!(MAX_LOG_FILE_SIZE, 20);
    assert_eq!(FILE_LIMIT, 2);
}

#[test]
fn engine_names() {
    assert_eq!(engine_kind("aol"), Some(EngineKind::AppendOnlyLog));
    assert_eq!(engine_kind("AOL"), Some(EngineKind::AppendOnlyLog));
    assert_eq!(engine_kind("aol_index"), Some(EngineKind::AppendOnlyLogWithHashIndex));
    assert_eq!(engine_kind("Aol_Index"), Some(EngineKind::AppendOnlyLogWithHashIndex));
    assert_eq!(engine_kind("naive"), None);
    assert_eq!(engine_kind(""), None);
    assert_eq!(engine_kind("aol "), None);
    assert_eq!(engine_kind("aol_inde"), None);
}

#[test]
fn create_engine_from_string_chooses_by_name() {
    assert!(create_engine_from_string(text("aol"), Vec::new()).is_some());
    assert!(create_engine_from_string(text("AOL_INDEX"), Vec::new()).is_some());
    assert!(create_engine_from_string(text("naive"), Vec::new()).is_none());
    assert!(create_engine_from_string(text("btree"), files(&[b"a,1\n"])).is_none());
}

#[test]
fn created_engines_read_the_files_that_were_found() {
    for name in ["aol", "aol_index"] {
        let engine =
            create_engine_from_string(text(name), files(&[b"a,1\nb,2\n", b"a,3\n"])).unwrap();
        assert_eq!(engine.db_read(text("a")), Ok(Some(text("3"))));
        assert_eq!(engine.db_read(text("b")), Ok(Some(text("2"))));
        assert_eq!(engine.db_read(text("c")), Ok(None));
        assert_eq!(engine.contents(), files(&[b"a,1\nb,2\n", b"a,3\n"]));
        assert_eq!(engine.shutdown(), Ok(()));
    }
}

#[test]
fn engines_write_and_read_text() {
    for name in ["aol", "aol_index"] {
        let mut engine = create_engine_from_string(text(name), Vec::new()).unwrap();
        assert_eq!(
            engine.db_write(text("name"), text("Zoë")),
            Ok(WriteReceipt { segment: 0, offset: 0, created: true, compacted: false })
        );
        assert_eq!(
            engine.db_write(text("città"), text("Åre")),
            Ok(WriteReceipt { segment: 0, offset: 10, created: false, compacted: false })
        );
        assert_eq!(engine.db_read(text("name")), Ok(Some(text("Zoë"))));
        assert_eq!(engine.db_read(text("città")), Ok(Some(text("Åre"))));
        assert_eq!(engine.contents(), vec!["name,Zoë\ncittà,Åre\n".as_bytes().to_vec()]);
    }
}

#[test]
fn write_refuses_separator_and_line_feed() {
    for name in ["aol", "aol_index"] {
        let mut engine = create_engine_from_string(text(name), files(&[b"a,1\n"])).unwrap();
        assert_eq!(engine.db_write(text(""), text("v")), Err(EngineError::MalformedRecord));
        assert_eq!(engine.db_write(text("a,b"), text("v")), Err(EngineError::MalformedRecord));
        assert_eq!(engine.db_write(text("a"), text("v\nw")), Err(EngineError::MalformedRecord));
        assert_eq!(engine.contents(), files(&[b"a,1\n"]));
    }
}

#[test]
fn bytes_that_are_no_text_cannot_be_read() {
    for name in ["aol", "aol_index"] {
        let engine =
            create_engine_from_string(text(name), files(&[b"a,1\nk,\xff\xfe\n"])).unwrap();
        assert_eq!(engine.db_read(text("k")), Err(EngineError::IoFailure));
        assert_eq!(engine.db_read(text("a")), Ok(Some(text("1"))));
    }
}

#[test]
fn append_only_log_compacts_beyond_the_file_limit() {
    let mut engine = AppendOnlyLogEngine::with_config(small(7, 1), Vec::new());
    engine.db_write(text("a"), text("1")).unwrap();
    engine.db_write(text("b"), text("2")).unwrap();
    assert_eq!(
        engine.db_write(text("a"), text("3")),
        Ok(WriteReceipt { segment: 1, offset: 0, created: true, compacted: true })
    );
    assert_eq!(engine.contents(), files(&[b"b,2\na,3\n"]));
    assert_eq!(engine.db_read(text("a")), Ok(Some(text("3"))));
    assert_eq!(engine.db_read(text("b")), Ok(Some(text("2"))));
}

#[test]
fn append_only_log_with_standard_config_keeps_every_key() {
    let mut engine = AppendOnlyLogEngine::new(Vec::new());
    for i in 0..50u32 {
        engine.db_write(format!("key{}", i % 9), format!("{}", i)).unwrap();
    }
    for k in 0..9u32 {
        let last = 41 + (k + 9 - 41 % 9) % 9;
        assert_eq!(engine.db_read(format!("key{}", k)), Ok(Some(format!("{}", last))));
    }
    let fresh = AppendOnlyLogEngine::new(engine.contents());
    for k in 0..9u32 {
        assert_eq!(fresh.db_read(format!("key{}", k)), engine.db_read(format!("key{}", k)));
    }
}

#[test]
fn compactify_keeps_latest_values() {
    let mut engine =
        AppendOnlyLogEngine::with_config(small(1000, 1000), files(&[b"a,1\nb,2\na,3\n"]));
    assert_eq!(engine.compactify(), Ok(()));
    assert_eq!(engine.contents(), files(&[b"b,2\na,3\n"]));
    assert_eq!(engine.db_read(text("a")), Ok(Some(text("3"))));
}

#[test]
fn hash_index_engine_never_compacts() {
    let mut engine = AppendOnlyLogWithHashIndexEngine::with_config(small(0, 1), Vec::new());
    for i in 0..5u32 {
        let receipt = engine.db_write(text("k"), format!("{}", i)).unwrap();
        assert_eq!(
            receipt,
            WriteReceipt { segment: i as usize, offset: 0, created: true, compacted: false }
        );
    }
    assert_eq!(engine.contents().len(), 5);
    assert_eq!(engine.db_read(text("k")), Ok(Some(text("4"))));
    let again = AppendOnlyLogWithHashIndexEngine::new(engine.contents());
    assert_eq!(again.db_read(text("k")), Ok(Some(text("4"))));
}

#[test]
fn text_and_bytes() {
    assert_eq!(bytes_of("a,ü\n"), vec![97u8, 44, 195, 188, 10]);
    assert_eq!(bytes_of(""), Vec::<u8>::new());
    assert_eq!(text_of(vec![97u8, 195, 188]), Some(text("aü")));
    assert_eq!(text_of(Vec::new()), Some(String::new()));
    assert_eq!(text_of(vec![195u8]), None);
    assert_eq!(text_of(vec![0xffu8, 0x41]), None);
}

#[test]
fn decimal_digits() {
    assert_eq!(decimal_text(0), "0");
    assert_eq!(decimal_text(7), "7");
    assert_eq!(decimal_text(10), "10");
    assert_eq!(decimal_text(1234567890), "1234567890");
    assert_eq!(decimal_text(u64::MAX), "18446744073709551615");
}

#[test]
fn segment_files_are_named_by_their_numbers() {
    assert_eq!(segment_file_path("./dumbdb/data", 0), "./dumbdb/data/db0.log");
    assert_eq!(segment_file_path("./dumbdb/data", 12), "./dumbdb/data/db12.log");
    assert_eq!(segment_file_path("", 3), "/db3.log");
}

#[test]
fn trim_and_split() {
    assert_eq!(trim(b"  get a \r\n"), (2, 7));
    assert_eq!(trim(b"   "), (3, 3));
    assert_eq!(trim(b""), (0, 0));
    assert_eq!(trim(b"x"), (0, 1));
    assert_eq!(split_words(b"put k v", b' '), files(&[b"put", b"k", b"v"]));
    assert_eq!(split_words(b"a  b", b' '), files(&[b"a", b"", b"b"]));
    assert_eq!(split_words(b"", b' '), files(&[b""]));
    assert_eq!(split_words(b" ", b' '), files(&[b"", b""]));
}

#[test]
fn commands() {
    assert_eq!(parse_command("get a"), Command::Get(text("a")));
    assert_eq!(parse_command("  get key1\n"), Command::Get(text("key1")));
    assert_eq!(parse_command("put k v\n"), Command::Put(text("k"), text("v")));
    assert_eq!(parse_command("put  v"), Command::Put(text(""), text("v")));
    assert_eq!(parse_command("put k é\r\n"), Command::Put(text("k"), text("é")));
    assert_eq!(parse_command("quit\n"), Command::Quit);
    assert_eq!(parse_command("q"), Command::Quit);
    assert_eq!(parse_command("get"), Command::Unknown);
    assert_eq!(parse_command("get a b"), Command::Unknown);
    assert_eq!(parse_command("get  a"), Command::Unknown);
    assert_eq!(parse_command("put k"), Command::Unknown);
    assert_eq!(parse_command("GET a"), Command::Unknown);
    assert_eq!(parse_command("quit now"), Command::Unknown);
    assert_eq!(parse_command(""), Command::Unknown);
    assert_eq!(parse_command("\n"), Command::Unknown);
}

#[test]
fn commands_are_carried_out() {
    let mut engine = create_engine_from_string(text("aol_index"), Vec::new()).unwrap();
    assert_eq!(carry_out(&mut engine, parse_command("get a")), Outcome::Missing);
    assert_eq!(
        carry_out(&mut engine, parse_command("put a 1")),
        Outcome::Stored(WriteReceipt { segment: 0, offset: 0, created: true, compacted: false })
    );
    assert_eq!(carry_out(&mut engine, parse_command("get a")), Outcome::Found(text("1")));
    assert_eq!(
        carry_out(&mut engine, parse_command("put a, 1")),
        Outcome::Failed(EngineError::MalformedRecord)
    );
    assert_eq!(carry_out(&mut engine, parse_command("hello")), Outcome::Ignored);
    assert_eq!(carry_out(&mut engine, parse_command("q")), Outcome::Closed);
    assert_eq!(engine.contents(), files(&[b"a,1\n"]));
}

#[test]
fn reading_bytes_that_are_no_text_fails_the_command() {
    let mut engine =
        create_engine_from_string(text("aol"), files(&[b"k,\xff\n"])).unwrap();
    assert_eq!(
        carry_out(&mut engine, parse_command("get k")),
        Outcome::Failed(EngineError::IoFailure)
    );
}
