//! Reading a log back: its scan, its index, and its records from any decree on.

use vstd::prelude::*;

use super::image::law_scan_is_contiguous;
use super::index::indexed;
use super::scan::{scan, scanned};
use super::writer::{lemma_scan_total, log_path, LogError};
use super::{DecreeIndex, IndexError, IndexView, LogScanner, ScanResult, ScanView};
use crate::dir::log_file_name;
use crate::durability::{live_file, Durability, FilePath, OpenMode, PathView};
use crate::source::{beyond, SeekSource, Source};

verus! {

/// A log that was scanned and indexed.
pub struct LogReader {
    path: FilePath,
    file_decree: u64,
    scan: ScanResult,
    index: DecreeIndex,
}

impl LogReader {
    /// The log's path.
    pub closed spec fn log(self) -> PathView {
        self.path@
    }

    /// The decree in the log's name.
    pub closed spec fn decree(self) -> u64 {
        self.file_decree
    }

    /// What the scan found.
    pub closed spec fn found(self) -> ScanView {
        self.scan@
    }

    /// The log's index.
    pub closed spec fn entries(self) -> IndexView {
        self.index@
    }

    /// The reader has scanned `bytes`.
    pub open spec fn has_read(self, path: PathView, file_decree: u64, bytes: Seq<u8>) -> bool {
        &&& self.log() == path
        &&& self.decree() == file_decree
        &&& self.found() == scanned(bytes, 0)
        &&& indexed(IndexView::none(), scanned(bytes, 0).records) == Ok::<IndexView, IndexError>(
            self.entries(),
        )
    }

    /// What opening the log at `path` gives, whose contents are `file`. Only a
    /// file system that is not reliable fails on a file that is there.
    pub open spec fn opened<E>(
        path: PathView,
        file_decree: u64,
        file: Option<Seq<u8>>,
        reliable: bool,
        r: Result<LogReader, LogError<E>>,
    ) -> bool {
        match r {
            Ok(reader) => file is Some && reader.has_read(path, file_decree, file->Some_0),
            Err(LogError::Index(e)) => file is Some && indexed(
                IndexView::none(),
                scanned(file->Some_0, 0).records,
            ) == Err::<IndexView, IndexError>(e),
            Err(e) => e is Io && (file is None || !reliable),
        }
    }

    /// Scans and indexes a log. `file_decree` is the decree in its name.
    pub fn from_source<R: Source>(path: FilePath, file_decree: u64, source: R) -> (r: Result<
        LogReader,
        LogError<R::Error>,
    >)
        requires
            source.rest().len() <= u64::MAX,
        ensures
            match r {
                Ok(reader) => reader.has_read(path@, file_decree, source.rest()),
                Err(LogError::Index(e)) => indexed(
                    IndexView::none(),
                    scanned(source.rest(), 0).records,
                ) == Err::<IndexView, IndexError>(e),
                Err(e) => e is Io && !source.steady(),
            },
    {
        let ghost bytes = source.rest();
        let found = match scan(source) {
            Ok(found) => found,
            Err(e) => {
                return Err(LogError::Io(e));
            },
        };
        proof {
            lemma_scan_total(bytes, 0);
            law_scan_is_contiguous(bytes, 0);
        }
        match found.index() {
            Ok(index) => Ok(LogReader { path, file_decree, scan: found, index }),
            Err(e) => Err(LogError::Index(e)),
        }
    }

    /// Opens, scans and indexes the log of `dir` that starts at `decree`.
    pub fn open_with<D: Durability>(dir: &str, decree: u64, durability: &mut D) -> (r: Result<
        LogReader,
        LogError<D::Error>,
    >)
        requires
            old(durability).ok(),
        ensures
            final(durability).ok(),
            final(durability).reliable() == old(durability).reliable(),
            final(durability).history() == old(durability).history(),
            LogReader::opened(
                log_path(dir@, decree),
                decree,
                live_file(old(durability).history(), log_path(dir@, decree)),
                old(durability).reliable(),
                r,
            ),
    {
        let path = FilePath { dir: dir.to_owned(), name: log_file_name(decree) };
        LogReader::open_path(path, decree, durability)
    }

    /// Opens, scans and indexes a log. `file_decree` is the decree in its name.
    pub fn open_path<D: Durability>(path: FilePath, file_decree: u64, durability: &mut D) -> (r:
        Result<LogReader, LogError<D::Error>>)
        requires
            old(durability).ok(),
        ensures
            final(durability).ok(),
            final(durability).reliable() == old(durability).reliable(),
            final(durability).history() == old(durability).history(),
            LogReader::opened(
                path@,
                file_decree,
                live_file(old(durability).history(), path@),
                old(durability).reliable(),
                r,
            ),
    {
        let ghost h = durability.history();
        let file = match durability.open(&path, OpenMode::Read) {
            Ok(file) => file,
            Err(e) => {
                assert(durability.history() =~= h);
                return Err(LogError::Io(e));
            },
        };
        assert(durability.history() =~= h);
        let source = match durability.reader(&file) {
            Ok(source) => source,
            Err(e) => {
                return Err(LogError::Io(e));
            },
        };
        LogReader::from_source(path, file_decree, source)
    }

    /// The log's path.
    pub fn path(&self) -> (r: &FilePath)
        ensures
            r@ == self.log(),
    {
        &self.path
    }

    /// The decree in the log's name.
    pub fn file_decree(&self) -> (r: u64)
        ensures
            r == self.decree(),
    {
        self.file_decree
    }

    /// What the scan found.
    pub fn scan(&self) -> (r: &ScanResult)
        ensures
            r@ == self.found(),
    {
        &self.scan
    }

    /// The log's index.
    pub fn index(&self) -> (r: &DecreeIndex)
        ensures
            r@ == self.entries(),
    {
        &self.index
    }

    /// A scan of the log from the record of `decree` on, if the log holds it.
    /// `source` is the log's contents.
    pub fn replay_from<R: SeekSource>(&self, decree: u64, source: R) -> (r: Result<
        Option<LogScanner<R>>,
        R::Error,
    >)
        requires
            source.whole().len() <= u64::MAX,
        ensures
            source.steady() ==> r is Ok,
            r is Ok ==> (r->Ok_0 is Some <==> self.entries().has(decree as int)),
            r is Ok && r->Ok_0 is Some ==> {
                let offset = self.entries().offsets[decree - self.entries().min_decree];
                &&& r->Ok_0->Some_0.rest() == beyond(source.whole(), offset as int)
                &&& r->Ok_0->Some_0.ended() is None
                &&& r->Ok_0->Some_0.steady() == source.steady()
                &&& r->Ok_0->Some_0.wf()
                &&& r->Ok_0->Some_0.at() == offset
            },
    {
        match self.index.offset(decree) {
            Some(offset) => match self.replay_from_offset(offset, source) {
                Ok(scanner) => Ok(Some(scanner)),
                Err(e) => Err(e),
            },
            None => Ok(None),
        }
    }

    /// A scan of the log from `offset` on, where a record must start. Offsets
    /// are counted in the whole log.
    pub fn replay_from_offset<R: SeekSource>(&self, offset: u64, source: R) -> (r: Result<
        LogScanner<R>,
        R::Error,
    >)
        requires
            source.whole().len() <= u64::MAX,
        ensures
            source.steady() ==> r is Ok,
            r is Ok ==> {
                &&& r->Ok_0.rest() == beyond(source.whole(), offset as int)
                &&& r->Ok_0.ended() is None
                &&& r->Ok_0.steady() == source.steady()
                &&& r->Ok_0.wf()
                &&& r->Ok_0.at() == offset
            },
    {
        let mut source = source;
        match source.seek(offset) {
            Ok(_) => Ok(LogScanner::new(source).at_offset(offset)),
            Err(e) => Err(e),
        }
    }
}

} // verus!
