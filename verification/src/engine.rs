//! The engines: what a caller sees of the store. An engine reads and writes
//! text; it is chosen by name. The append-only log reads by scanning its
//! segments and compacts them when they are too many; the append-only log
//! with hash index reads through the indexes of its segments.

use vstd::prelude::*;
use vstd::string::*;
use vstd::utf8::encode_utf8;
use crate::bytes::same;
use crate::codec::{encode_record, is_key, is_token};
use crate::compaction::{compacted, lemma_compacted_lookup, written};
use crate::error::EngineError;
use crate::log::{contents_of, lemma_lookup_appended, lookup, SegmentLog};
use crate::scan::is_clean;
use crate::store::{
    initial, lemma_read_synced, receipt_for, SegmentStore, StoreView, WriteReceipt,
};
use crate::laws::{law_read_never_fails, law_read_your_write, law_write_keeps_other_keys};
use crate::text::{as_text, bytes_of, text_of, text_view};

verus! {

/// The size beyond which a segment of the standard configuration takes no
/// further record.
pub const MAX_LOG_FILE_SIZE: u64 = 20;

/// The number of segments beyond which the append-only log of the standard
/// configuration compacts.
pub const FILE_LIMIT: usize = 2;

/// What the engines are configured with.
pub struct EngineConfig {
    /// The directory of the segment files.
    pub db_directory: String,
    /// The size beyond which the active segment takes no further record.
    pub max_segment_bytes: u64,
    /// The number of segments beyond which a write compacts the log.
    pub file_limit: usize,
}

impl EngineConfig {
    /// The standard configuration.
    pub fn get_standard_config() -> (config: EngineConfig)
        ensures
            config.db_directory@ == "./dumbdb/data"@,
            config.max_segment_bytes == MAX_LOG_FILE_SIZE,
            config.file_limit == FILE_LIMIT,
    {
        EngineConfig {
            db_directory: String::from_str("./dumbdb/data"),
            max_segment_bytes: MAX_LOG_FILE_SIZE,
            file_limit: FILE_LIMIT,
        }
    }
}

/// What every engine offers: reads and writes of text, and the contents of
/// its segment files.
pub trait Engine {
    /// Whether the engine is in a state that its own operations produce.
    spec fn wf(&self) -> bool;

    /// The bytes of the segment files, oldest first.
    spec fn segments(&self) -> Seq<Seq<u8>>;

    /// The size beyond which the active segment takes no further record.
    spec fn limit(&self) -> u64;

    /// The number of segments beyond which a write compacts, if any.
    spec fn retention(&self) -> Option<usize>;

    /// What the engine finds for the bytes of a key.
    spec fn found(&self, key: Seq<u8>) -> Result<Option<Seq<u8>>, EngineError>;

    /// Reads the value of `key`. A key that was never written is absent,
    /// which is no error.
    fn db_read(&self, key: String) -> (r: Result<Option<String>, EngineError>)
        requires
            self.wf(),
        ensures
            self.found(encode_utf8(key@)) is Ok,
            text_view(r) == as_text(self.found(encode_utf8(key@))),
    ;

    /// Writes `val` for `key` and reports where the record went, so that the
    /// caller can bring the segment files up to date. An empty key, or a key
    /// or value with a comma or a line feed in it, is refused and changes
    /// nothing.
    fn db_write(&mut self, key: String, val: String) -> (r: Result<WriteReceipt, EngineError>)
        requires
            old(self).wf(),
        ensures
            final(self).wf(),
            final(self).limit() == old(self).limit(),
            final(self).retention() == old(self).retention(),
            match r {
                Ok(receipt) => {
                    &&& is_key(encode_utf8(key@)) && is_token(encode_utf8(val@))
                    &&& final(self).segments() == written(
                        old(self).segments(),
                        encode_utf8(key@),
                        encode_utf8(val@),
                        old(self).limit(),
                        old(self).retention(),
                    )
                    &&& receipt == receipt_for(
                        old(self).segments(),
                        encode_record(encode_utf8(key@), encode_utf8(val@)),
                        old(self).limit(),
                        old(self).retention(),
                    )
                    &&& (receipt.created || is_clean(old(self).segments().last())) ==> forall|
                        k: Seq<u8>,
                    | #[trigger]
                        final(self).found(k) == if k == encode_utf8(key@) {
                            Ok::<Option<Seq<u8>>, EngineError>(Some(encode_utf8(val@)))
                        } else {
                            old(self).found(k)
                        }
                },
                Err(e) => {
                    &&& e == EngineError::MalformedRecord
                    &&& !(is_key(encode_utf8(key@)) && is_token(encode_utf8(val@)))
                    &&& final(self).segments() == old(self).segments()
                    &&& forall|k: Seq<u8>| #[trigger] final(self).found(k) == old(self).found(k)
                },
            },
    ;

    /// Ends the use of the engine. Every write is complete when it returns,
    /// so nothing is left to do.
    fn shutdown(&self) -> (r: Result<(), EngineError>)
        ensures
            r is Ok,
    ;

    /// The contents of the segment files, oldest first.
    fn contents(&self) -> (files: Vec<Vec<u8>>)
        ensures
            contents_of(files@) == self.segments(),
    ;
}

/// The append-only log: it reads by scanning the segments from the newest to
/// the oldest, and compacts them when a write leaves more than the
/// configured number.
pub struct AppendOnlyLogEngine {
    config: EngineConfig,
    log: SegmentLog,
}

impl AppendOnlyLogEngine {
    /// The directory of the segment files.
    pub closed spec fn directory(&self) -> Seq<char> {
        self.config.db_directory@
    }

    /// The engine with the standard configuration over the segment files
    /// that were found, oldest first.
    pub fn new(files: Vec<Vec<u8>>) -> (engine: AppendOnlyLogEngine)
        ensures
            engine.wf(),
            engine.segments() == contents_of(files@),
            engine.limit() == MAX_LOG_FILE_SIZE,
            engine.retention() == Some(FILE_LIMIT),
            engine.directory() == "./dumbdb/data"@,
    {
        AppendOnlyLogEngine::with_config(EngineConfig::get_standard_config(), files)
    }

    /// The engine with the configuration `config` over the segment files
    /// that were found, oldest first.
    pub fn with_config(config: EngineConfig, files: Vec<Vec<u8>>) -> (engine: AppendOnlyLogEngine)
        ensures
            engine.wf(),
            engine.segments() == contents_of(files@),
            engine.limit() == config.max_segment_bytes,
            engine.retention() == Some(config.file_limit),
            engine.directory() == config.db_directory@,
    {
        let log = SegmentLog::open(files, config.max_segment_bytes);
        AppendOnlyLogEngine { config, log }
    }

    /// Compacts the segments: every key keeps its latest record.
    pub fn compactify(&mut self) -> (r: Result<(), EngineError>)
        requires
            old(self).wf(),
        ensures
            r is Ok,
            final(self).wf(),
            final(self).limit() == old(self).limit(),
            final(self).retention() == old(self).retention(),
            final(self).directory() == old(self).directory(),
            final(self).segments() == compacted(old(self).segments(), old(self).limit()),
    {
        self.log.compact();
        Ok(())
    }
}

impl Engine for AppendOnlyLogEngine {
    closed spec fn wf(&self) -> bool {
        self.log.limit() == self.config.max_segment_bytes
    }

    closed spec fn segments(&self) -> Seq<Seq<u8>> {
        self.log@
    }

    closed spec fn limit(&self) -> u64 {
        self.config.max_segment_bytes
    }

    closed spec fn retention(&self) -> Option<usize> {
        Some(self.config.file_limit)
    }

    open spec fn found(&self, key: Seq<u8>) -> Result<Option<Seq<u8>>, EngineError> {
        Ok(lookup(self.segments(), key))
    }

    fn db_read(&self, key: String) -> (r: Result<Option<String>, EngineError>) {
        let bytes = bytes_of(key.as_str());
        match self.log.find(bytes.as_slice()) {
            Some(value) => match text_of(value) {
                Some(text) => Ok(Some(text)),
                None => Err(EngineError::IoFailure),
            },
            None => Ok(None),
        }
    }

    fn db_write(&mut self, key: String, val: String) -> (r: Result<WriteReceipt, EngineError>) {
        let key_bytes = bytes_of(key.as_str());
        let value_bytes = bytes_of(val.as_str());
        let placement = match self.log.append_record(key_bytes.as_slice(), value_bytes.as_slice()) {
            Ok(placement) => placement,
            Err(e) => {
                return Err(e);
            },
        };
        let compacted = self.log.segment_count() > self.config.file_limit;
        proof {
            if placement.created || is_clean(old(self).segments().last()) {
                assert forall|k: Seq<u8>|
                    lookup(
                        written(
                            old(self).segments(),
                            key_bytes@,
                            value_bytes@,
                            old(self).limit(),
                            old(self).retention(),
                        ),
                        k,
                    ) == if k == key_bytes@ {
                        Some(value_bytes@)
                    } else {
                        lookup(old(self).segments(), k)
                    } by {
                    lemma_lookup_appended(
                        old(self).segments(),
                        key_bytes@,
                        value_bytes@,
                        old(self).limit(),
                        k,
                    );
                    lemma_compacted_lookup(self.log@, self.log.limit(), k);
                }
            }
        }
        if compacted {
            self.log.compact();
        }
        Ok(
            WriteReceipt {
                segment: placement.segment,
                offset: placement.offset,
                created: placement.created,
                compacted,
            },
        )
    }

    fn shutdown(&self) -> (r: Result<(), EngineError>) {
        Ok(())
    }

    fn contents(&self) -> (files: Vec<Vec<u8>>) {
        self.log.contents()
    }
}

/// The append-only log with hash index: every segment has an index from key
/// to offset, and a read asks the indexes from the newest to the oldest. It
/// never compacts.
pub struct AppendOnlyLogWithHashIndexEngine {
    config: EngineConfig,
    store: SegmentStore,
}

impl AppendOnlyLogWithHashIndexEngine {
    /// The directory of the segment files.
    pub closed spec fn directory(&self) -> Seq<char> {
        self.config.db_directory@
    }

    /// The segments and indexes of the engine.
    pub closed spec fn state(&self) -> StoreView {
        self.store@
    }

    /// The engine with the standard configuration over the segment files
    /// that were found, oldest first. Each segment gets the index that a scan
    /// of it gives.
    pub fn new(files: Vec<Vec<u8>>) -> (engine: AppendOnlyLogWithHashIndexEngine)
        ensures
            engine.wf(),
            engine.state() == initial(contents_of(files@), MAX_LOG_FILE_SIZE, None),
            engine.directory() == "./dumbdb/data"@,
    {
        AppendOnlyLogWithHashIndexEngine::with_config(EngineConfig::get_standard_config(), files)
    }

    /// The engine with the configuration `config` over the segment files
    /// that were found, oldest first.
    pub fn with_config(config: EngineConfig, files: Vec<Vec<u8>>) -> (engine:
        AppendOnlyLogWithHashIndexEngine)
        ensures
            engine.wf(),
            engine.state() == initial(contents_of(files@), config.max_segment_bytes, None),
            engine.directory() == config.db_directory@,
    {
        let store = SegmentStore::initialize(files, config.max_segment_bytes, None);
        AppendOnlyLogWithHashIndexEngine { config, store }
    }
}

impl Engine for AppendOnlyLogWithHashIndexEngine {
    open spec fn wf(&self) -> bool {
        self.state().wf() && self.state().retention is None
    }

    open spec fn segments(&self) -> Seq<Seq<u8>> {
        self.state().segments
    }

    open spec fn limit(&self) -> u64 {
        self.state().limit
    }

    open spec fn retention(&self) -> Option<usize> {
        self.state().retention
    }

    open spec fn found(&self, key: Seq<u8>) -> Result<Option<Seq<u8>>, EngineError> {
        self.state().read(key)
    }

    fn db_read(&self, key: String) -> (r: Result<Option<String>, EngineError>) {
        let bytes = bytes_of(key.as_str());
        proof {
            law_read_never_fails(self.state(), bytes@);
        }
        match self.store.read(bytes.as_slice()) {
            Ok(Some(value)) => match text_of(value) {
                Some(text) => Ok(Some(text)),
                None => Err(EngineError::IoFailure),
            },
            Ok(None) => Ok(None),
            Err(e) => Err(e),
        }
    }

    fn db_write(&mut self, key: String, val: String) -> (r: Result<WriteReceipt, EngineError>)
        ensures
            r is Ok ==> final(self).state() == old(self).state().written(
                encode_utf8(key@),
                encode_utf8(val@),
            ),
            r is Ok ==> final(self).found(encode_utf8(key@)) == Ok::<Option<Seq<u8>>, EngineError>(
                Some(encode_utf8(val@)),
            ),
    {
        let key_bytes = bytes_of(key.as_str());
        let value_bytes = bytes_of(val.as_str());
        proof {
            if is_key(key_bytes@) && is_token(value_bytes@) {
                law_read_your_write(old(self).state(), key_bytes@, value_bytes@);
                assert forall|k: Seq<u8>| k != key_bytes@ implies old(self).state().written(
                    key_bytes@,
                    value_bytes@,
                ).read(k) == old(self).state().read(k) by {
                    law_write_keeps_other_keys(old(self).state(), key_bytes@, value_bytes@, k);
                }
            }
        }
        self.store.write(key_bytes.as_slice(), value_bytes.as_slice())
    }

    fn shutdown(&self) -> (r: Result<(), EngineError>) {
        Ok(())
    }

    fn contents(&self) -> (files: Vec<Vec<u8>>) {
        self.store.contents()
    }
}

/// The engines that can be chosen by name.
#[derive(Clone, Copy, Debug, PartialEq, Eq, Structural)]
pub enum EngineKind {
    /// The append-only log, named `aol`.
    AppendOnlyLog,
    /// The append-only log with hash index, named `aol_index`.
    AppendOnlyLogWithHashIndex,
}

/// A byte with an upper-case letter of ASCII replaced by its lower-case
/// letter.
pub open spec fn lower_byte(b: u8) -> u8 {
    if 65 <= b <= 90 {
        (b + 32) as u8
    } else {
        b
    }
}

/// Bytes with the upper-case letters of ASCII replaced by lower-case ones.
pub open spec fn lowered(bytes: Seq<u8>) -> Seq<u8> {
    Seq::new(bytes.len(), |i: int| lower_byte(bytes[i]))
}

/// The bytes of the name `aol`.
pub open spec fn aol_name() -> Seq<u8> {
    seq![97u8, 111u8, 108u8]
}

/// The bytes of the name `aol_index`.
pub open spec fn aol_index_name() -> Seq<u8> {
    seq![97u8, 111u8, 108u8, 95u8, 105u8, 110u8, 100u8, 101u8, 120u8]
}

/// The engine that the bytes of a name choose, whatever the case of its
/// letters.
pub open spec fn kind_of(name: Seq<u8>) -> Option<EngineKind> {
    if lowered(name) == aol_name() {
        Some(EngineKind::AppendOnlyLog)
    } else if lowered(name) == aol_index_name() {
        Some(EngineKind::AppendOnlyLogWithHashIndex)
    } else {
        None
    }
}

/// The engine that a name chooses, whatever the case of its letters.
pub fn engine_kind(name: &str) -> (kind: Option<EngineKind>)
    ensures
        kind == kind_of(encode_utf8(name@)),
{
    let bytes = bytes_of(name);
    let n = bytes.len();
    let mut lower: Vec<u8> = Vec::new();
    let mut i: usize = 0;
    while i < n
        invariant
            i <= n,
            n == bytes@.len(),
            lower@ == lowered(bytes@.subrange(0, i as int)),
        decreases n - i,
    {
        let b = bytes[i];
        if 65 <= b && b <= 90 {
            lower.push(b + 32);
        } else {
            lower.push(b);
        }
        i = i + 1;
        assert(lower@ =~= lowered(bytes@.subrange(0, i as int)));
    }
    assert(bytes@.subrange(0, n as int) =~= bytes@);
    let mut aol: Vec<u8> = Vec::new();
    aol.push(97);
    aol.push(111);
    aol.push(108);
    assert(aol@ =~= aol_name());
    let mut aol_index: Vec<u8> = Vec::new();
    aol_index.push(97);
    aol_index.push(111);
    aol_index.push(108);
    aol_index.push(95);
    aol_index.push(105);
    aol_index.push(110);
    aol_index.push(100);
    aol_index.push(101);
    aol_index.push(120);
    assert(aol_index@ =~= aol_index_name());
    if same(lower.as_slice(), aol.as_slice()) {
        Some(EngineKind::AppendOnlyLog)
    } else if same(lower.as_slice(), aol_index.as_slice()) {
        Some(EngineKind::AppendOnlyLogWithHashIndex)
    } else {
        None
    }
}

/// Builds the engine that `engine_type` names over the segment files that
/// were found, oldest first: `aol` is the append-only log, `aol_index` the
/// append-only log with hash index. Any other name chooses no engine.
pub fn create_engine_from_string(engine_type: String, files: Vec<Vec<u8>>) -> (engine: Option<
    Box<dyn Engine>,
>)
    ensures
        match kind_of(encode_utf8(engine_type@)) {
            Some(EngineKind::AppendOnlyLog) => {
                &&& engine is Some
                &&& engine.unwrap().wf()
                &&& engine.unwrap().segments() == contents_of(files@)
                &&& engine.unwrap().limit() == MAX_LOG_FILE_SIZE
                &&& engine.unwrap().retention() == Some(FILE_LIMIT)
                &&& forall|key: Seq<u8>| #[trigger]
                    engine.unwrap().found(key) == Ok::<Option<Seq<u8>>, EngineError>(
                        lookup(contents_of(files@), key),
                    )
            },
            Some(EngineKind::AppendOnlyLogWithHashIndex) => {
                &&& engine is Some
                &&& engine.unwrap().wf()
                &&& engine.unwrap().segments() == contents_of(files@)
                &&& engine.unwrap().limit() == MAX_LOG_FILE_SIZE
                &&& engine.unwrap().retention() is None
                &&& forall|key: Seq<u8>| #[trigger]
                    engine.unwrap().found(key) == Ok::<Option<Seq<u8>>, EngineError>(
                        lookup(contents_of(files@), key),
                    )
            },
            None => engine is None,
        },
{
    match engine_kind(engine_type.as_str()) {
        Some(EngineKind::AppendOnlyLog) => {
            let engine = AppendOnlyLogEngine::new(files);
            Some(Box::new(engine))
        },
        Some(EngineKind::AppendOnlyLogWithHashIndex) => {
            let engine = AppendOnlyLogWithHashIndexEngine::new(files);
            proof {
                assert forall|key: Seq<u8>| #[trigger]
                    engine.found(key) == Ok::<Option<Seq<u8>>, EngineError>(
                        lookup(contents_of(files@), key),
                    ) by {
                    lemma_read_synced(engine.state(), key);
                }
            }
            Some(Box::new(engine))
        },
        None => None,
    }
}

} // verus!
