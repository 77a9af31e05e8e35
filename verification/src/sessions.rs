//! Viewing sessions: what has been indexed of each open log, and which logs
//! stay open.

use crate::lines;
use crate::lines::{detect_encoding, missing_bytes, LineScanner, LogLine, TextEncoding, MAX_LINE_BYTES};
use crate::text;
use crate::text::{push_decimal, same_text};
use vstd::prelude::*;
use vstd::slice::slice_subrange;

verus! {

pub const MAX_UNCOMPRESSED: u64 = 2_147_483_648;

pub const MAX_SESSIONS: usize = 5;

/// Milliseconds between two progress reports.
pub const PROGRESS_INTERVAL_MS: u64 = 50;

/// What opening a log answers.
#[derive(Debug, Clone, PartialEq, Eq)]
pub struct OpenResult {
    pub session_id: String,
    pub entry_path: String,
    pub size: u64,
    pub indexing: bool,
    pub encoding: String,
}

/// How far indexing has come.
#[derive(Debug, Clone, PartialEq, Eq)]
pub struct IndexProgress {
    pub session_id: String,
    pub percent: u8,
    pub indexed_lines: u64,
    pub done: bool,
    pub failed: bool,
    pub detected_encoding: String,
    pub effective_encoding: String,
    pub error: Option<String>,
}

/// How far a change of encoding has come.
#[derive(Debug, Clone, PartialEq, Eq)]
pub struct EncodingProgress {
    pub session_id: String,
    pub generation: u64,
    pub percent: u8,
    pub encoding: String,
    pub line_count: u64,
    pub done: bool,
    pub failed: bool,
    pub error: Option<String>,
}

/// Why a session could not serve.
#[derive(Debug, Clone, Copy, PartialEq, Eq)]
pub enum SessionError {
    /// More than 2 GiB.
    FileTooLarge,
    /// The content is larger than allowed.
    SizeLimitExceeded,
    NotFound,
    UnsupportedEncoding,
    /// The first index is not complete yet.
    StillIndexing,
    /// The cached content ends before a line does.
    CacheTooShort,
}

/// What a session knows.
#[verifier::ext_equal]
pub struct SessionModel {
    pub id: Seq<char>,
    /// The content that has been indexed.
    pub content: Seq<u8>,
    /// Nothing will be added to the content.
    pub complete: bool,
    pub indexing: bool,
    pub detected: Option<TextEncoding>,
    pub effective: TextEncoding,
    pub generation: u64,
}

impl SessionModel {
    /// Where lines start and end.
    pub open spec fn boundaries(self) -> Seq<u64> {
        if self.complete {
            lines::closed_boundaries(self.effective, self.content)
        } else {
            lines::open_boundaries(self.effective, self.content)
        }
    }

    pub open spec fn line_count(self) -> nat {
        (self.boundaries().len() - 1) as nat
    }
}

/// A session that has indexed nothing yet.
pub open spec fn fresh_session(id: Seq<char>) -> SessionModel {
    SessionModel {
        id,
        content: Seq::empty(),
        complete: false,
        indexing: true,
        detected: None,
        effective: TextEncoding::Utf8,
        generation: 0,
    }
}

/// One open log.
pub struct Session {
    id: String,
    /// Starts of lines, followed by the current readable boundary.
    offsets: Vec<u64>,
    detected: Option<TextEncoding>,
    effective: TextEncoding,
    indexing: bool,
    generation: u64,
    written: u64,
    scanner: LineScanner,
    content: Ghost<Seq<u8>>,
    complete: Ghost<bool>,
}

impl View for Session {
    type V = SessionModel;

    closed spec fn view(&self) -> SessionModel {
        SessionModel {
            id: self.id@,
            content: self.content@,
            complete: self.complete@,
            indexing: self.indexing,
            detected: self.detected,
            effective: self.effective,
            generation: self.generation,
        }
    }
}

impl Session {
    pub closed spec fn wf(self) -> bool {
        &&& self.offsets@ == self@.boundaries()
        &&& self.written == self.content@.len()
        &&& self.indexing ==> !self.complete@ && self.scanner.wf() && self.scanner.scanned()
            == self.content@ && self.scanner.encoding() == self.effective
    }

    fn new(id: String) -> (s: Self)
        ensures
            s.wf(),
            s@ == fresh_session(id@),
    {
        let mut offsets: Vec<u64> = Vec::new();
        offsets.push(0);
        let s = Session {
            id,
            offsets,
            detected: None,
            effective: TextEncoding::Utf8,
            indexing: true,
            generation: 0,
            written: 0,
            scanner: LineScanner::new(TextEncoding::Utf8),
            content: Ghost(Seq::empty()),
            complete: Ghost(false),
        };
        assert(s.offsets@ =~= s@.boundaries());
        s
    }

    pub fn line_count(&self) -> (n: u64)
        requires
            self.wf(),
        ensures
            n == self@.line_count(),
    {
        (self.offsets.len() - 1) as u64
    }

    /// Starts the index with the encoding that the first bytes suggest.
    fn detect(self, sample: &[u8]) -> (s: Self)
        requires
            self.wf(),
            self@.indexing,
            self@.content.len() == 0,
        ensures
            s.wf(),
            s@ == (SessionModel {
                detected: Some(lines::detected(sample@)),
                effective: lines::detected(sample@),
                ..self@
            }),
    {
        let encoding = detect_encoding(sample);
        let mut s = self;
        s.detected = Some(encoding);
        s.effective = encoding;
        s.scanner = LineScanner::new(encoding);
        assert(s.content@ =~= Seq::empty());
        assert(s.offsets@ =~= s@.boundaries());
        s
    }

    /// Publishes the lines of the next piece of content.
    fn append_index_chunk(self, bytes: &[u8]) -> (s: Self)
        requires
            self.wf(),
            self@.indexing,
            self@.content.len() + bytes@.len() <= u64::MAX,
        ensures
            s.wf(),
            s@ == (SessionModel { content: self@.content + bytes@, ..self@ }),
    {
        let mut s = self;
        let ghost before = s.offsets@;
        proof {
            lines::a_piece_adds_its_ends(s.effective, s.content@, bytes@);
        }
        let mut ends = s.scanner.scan(bytes, s.written);
        let ghost found = ends@;
        s.offsets.append(&mut ends);
        s.written = s.written + bytes.len() as u64;
        s.content = Ghost(s.content@ + bytes@);
        assert(s.offsets@ =~= lines::open_boundaries(s.effective, s.content@));
        s
    }

    /// Ends the index: a rest without line feed becomes the last line.
    fn finish(self) -> (s: Self)
        requires
            self.wf(),
            self@.indexing,
        ensures
            s.wf(),
            s@ == (SessionModel { complete: true, indexing: false, ..self@ }),
    {
        let mut s = self;
        let last: u64 = s.offsets[s.offsets.len() - 1];
        if last != s.written {
            s.offsets.push(s.written);
        }
        s.indexing = false;
        s.complete = Ghost(true);
        s
    }

    /// Stops the index where it is.
    fn abandon(self) -> (s: Self)
        requires
            self.wf(),
        ensures
            s.wf(),
            s@ == (SessionModel { indexing: false, ..self@ }),
    {
        let mut s = self;
        s.indexing = false;
        s
    }
}

/// What sessions know, least recently used first.
pub open spec fn session_models(s: Seq<Session>) -> Seq<SessionModel> {
    s.map_values(|x: Session| x@)
}

/// Whether there is a session with this name.
pub open spec fn is_listed(m: Seq<SessionModel>, id: Seq<char>) -> bool {
    exists|i: int| 0 <= i < m.len() && (#[trigger] m[i]).id == id
}

/// Where the session with this name is.
pub open spec fn place(m: Seq<SessionModel>, id: Seq<char>) -> int {
    choose|i: int| 0 <= i < m.len() && (#[trigger] m[i]).id == id
}

/// The sessions after the one at `i` was used.
pub open spec fn touched(m: Seq<SessionModel>, i: int) -> Seq<SessionModel> {
    m.remove(i).push(m[i])
}

/// No name twice, and no more sessions than allowed.
pub open spec fn is_session_list(m: Seq<SessionModel>) -> bool {
    &&& m.len() <= MAX_SESSIONS
    &&& forall|i: int, j: int|
        0 <= i < j < m.len() ==> (#[trigger] m[i]).id != (#[trigger] m[j]).id
}

/// Percentage of `size` that `done` is, short of completion.
pub open spec fn percent_of(done: int, size: int) -> int {
    if size == 0 {
        0
    } else {
        let hundredfold = if done * 100 > u64::MAX {
            u64::MAX as int
        } else {
            done * 100
        };
        if hundredfold / size > 99 {
            99
        } else {
            hundredfold / size
        }
    }
}

/// Percentage of `size` that `done` is, short of completion.
pub fn progress_percent(done: u64, size: u64) -> (p: u8)
    ensures
        p == percent_of(done as int, size as int),
{
    if size == 0 {
        return 0;
    }
    let hundredfold: u128 = done as u128 * 100;
    let bounded: u64 = if hundredfold > 0xffff_ffff_ffff_ffff {
        0xffff_ffff_ffff_ffff
    } else {
        hundredfold as u64
    };
    let p: u64 = bounded / size;
    if p > 99 {
        99
    } else {
        p as u8
    }
}

/// Whether it is time to report progress again.
pub open spec fn report_due(since_last_ms: Option<u64>) -> bool {
    match since_last_ms {
        None => true,
        Some(ms) => ms >= PROGRESS_INTERVAL_MS,
    }
}

/// Whether it is time to report progress again.
pub fn is_report_due(since_last_ms: Option<u64>) -> (r: bool)
    ensures
        r == report_due(since_last_ms),
{
    match since_last_ms {
        None => true,
        Some(ms) => ms >= PROGRESS_INTERVAL_MS,
    }
}

/// Whether `more` bytes still fit under `limit` behind `written` ones. No
/// size counts for more than the largest number.
pub open spec fn fits(written: int, more: int, limit: u64) -> bool {
    written + more <= limit || limit == u64::MAX
}

/// Whether a piece of content may be written.
pub fn chunk_fits(written: u64, more: usize, limit: u64) -> (r: bool)
    ensures
        r == fits(written as int, more as int, limit),
{
    written.saturating_add(more as u64) <= limit
}

/// The encoding cannot be told yet: a character at the end of the sample
/// lacks bytes, which may follow.
pub open spec fn undecided(sample: Seq<u8>, ended: bool, limit: u64) -> bool {
    !ended && lines::missing(sample) > 0 && fits(
        sample.len() as int,
        lines::missing(sample) as int,
        limit,
    )
}

/// What a progress report says.
#[verifier::ext_equal]
pub struct ProgressModel {
    pub session_id: Seq<char>,
    pub percent: int,
    pub indexed_lines: nat,
    pub done: bool,
    pub failed: bool,
    pub detected_encoding: Seq<char>,
    pub effective_encoding: Seq<char>,
    pub error: Option<Seq<char>>,
}

impl View for IndexProgress {
    type V = ProgressModel;

    open spec fn view(&self) -> ProgressModel {
        ProgressModel {
            session_id: self.session_id@,
            percent: self.percent as int,
            indexed_lines: self.indexed_lines as nat,
            done: self.done,
            failed: self.failed,
            detected_encoding: self.detected_encoding@,
            effective_encoding: self.effective_encoding@,
            error: match self.error {
                Some(s) => Some(s@),
                None => None,
            },
        }
    }
}

/// The report on a session.
pub open spec fn report(
    m: SessionModel,
    percent: int,
    done: bool,
    error: Option<Seq<char>>,
) -> ProgressModel {
    let detected = match m.detected {
        Some(e) => e,
        None => TextEncoding::Utf8,
    };
    ProgressModel {
        session_id: m.id,
        percent,
        indexed_lines: m.line_count(),
        done,
        failed: error is Some,
        detected_encoding: detected.label(),
        effective_encoding: m.effective.label(),
        error,
    }
}

fn report_on(s: &Session, percent: u8, done: bool, error: Option<String>) -> (p: IndexProgress)
    requires
        s.wf(),
    ensures
        p@ == report(
            s@,
            percent as int,
            done,
            match error {
                Some(e) => Some(e@),
                None => None,
            },
        ),
{
    let detected: TextEncoding = match s.detected {
        Some(e) => e,
        None => TextEncoding::Utf8,
    };
    let failed: bool = error.is_some();
    IndexProgress {
        session_id: s.id.clone(),
        percent,
        indexed_lines: s.line_count(),
        done,
        failed,
        detected_encoding: detected.encoding_name(),
        effective_encoding: s.effective.encoding_name(),
        error,
    }
}

/// What indexing does after an event.
#[derive(Debug, PartialEq, Eq)]
pub enum IndexReply {
    /// The session is gone.
    Stop,
    /// So many more bytes decide the encoding: hand the sample in with them.
    More(usize),
    /// Nothing to report.
    Quiet,
    Progress(IndexProgress),
    /// The last report.
    Finished(IndexProgress),
}

/// Where in a log a line is.
#[derive(Debug, Clone, Copy, PartialEq, Eq)]
pub struct LineSpan {
    pub index: u64,
    pub from: u64,
    /// The length of the line in the file.
    pub length: u64,
    /// How much of it is read.
    pub read: usize,
}

/// Where line `index` of a session is.
pub open spec fn line_span(m: SessionModel, index: int) -> LineSpan {
    let from = m.boundaries()[index];
    let length = (m.boundaries()[index + 1] - from) as u64;
    LineSpan {
        index: index as u64,
        from,
        length,
        read: if length > MAX_LINE_BYTES {
            MAX_LINE_BYTES
        } else {
            length as usize
        },
    }
}

/// The end of the lines asked for, within what is readable.
pub open spec fn window_end(m: SessionModel, start: u64, count: u64) -> int {
    if start >= m.line_count() {
        start as int
    } else if start + count > m.line_count() {
        m.line_count() as int
    } else {
        start + count
    }
}

/// Where the lines asked for are.
pub open spec fn window(m: SessionModel, start: u64, count: u64) -> Seq<LineSpan> {
    Seq::new(
        (window_end(m, start, count) - start) as nat,
        |k: int| line_span(m, start + k),
    )
}

/// The text of a line in the cached content.
pub open spec fn line_text(m: SessionModel, cache: Seq<u8>, index: int) -> Seq<char> {
    let span = line_span(m, index);
    lines::decoded(
        m.effective,
        lines::shown_bytes(
            m.effective,
            cache.subrange(span.from as int, span.from + span.read),
            index == 0,
        ),
    )
}

/// A new encoding for a session, and the lines found with it so far.
pub struct EncodingChange {
    session_id: String,
    encoding: TextEncoding,
    generation: u64,
    offsets: Vec<u64>,
    read: u64,
    scanner: LineScanner,
}

impl EncodingChange {
    pub closed spec fn id(self) -> Seq<char> {
        self.session_id@
    }

    pub closed spec fn encoding(self) -> TextEncoding {
        self.encoding
    }

    pub closed spec fn change_generation(self) -> u64 {
        self.generation
    }

    /// The content scanned so far.
    pub closed spec fn scanned(self) -> Seq<u8> {
        self.scanner.scanned()
    }

    pub closed spec fn wf(self) -> bool {
        &&& self.scanner.wf()
        &&& self.scanner.encoding() == self.encoding
        &&& self.read == self.scanned().len()
        &&& self.offsets@ == lines::open_boundaries(self.encoding, self.scanned())
    }

    pub fn generation(&self) -> (g: u64)
        ensures
            g == self.change_generation(),
    {
        self.generation
    }

    pub fn session_id(&self) -> (s: &str)
        ensures
            s@ == self.id(),
    {
        self.session_id.as_str()
    }

    /// Takes the next piece of the cached content.
    pub fn scan(&mut self, bytes: &[u8])
        requires
            old(self).wf(),
            old(self).scanned().len() + bytes@.len() <= u64::MAX,
        ensures
            final(self).wf(),
            final(self).scanned() == old(self).scanned() + bytes@,
            final(self).id() == old(self).id(),
            final(self).encoding() == old(self).encoding(),
            final(self).change_generation() == old(self).change_generation(),
    {
        proof {
            lines::a_piece_adds_its_ends(self.encoding, self.scanned(), bytes@);
        }
        let mut ends = self.scanner.scan(bytes, self.read);
        self.offsets.append(&mut ends);
        self.read = self.read + bytes.len() as u64;
        assert(self.offsets@ =~= lines::open_boundaries(self.encoding, self.scanned()));
    }

    /// A report while the content of `total` bytes is scanned.
    pub fn progress(&self, total: u64) -> (p: EncodingProgress)
        requires
            self.wf(),
        ensures
            p.session_id@ == self.id(),
            p.generation == self.change_generation(),
            p.percent == percent_of(self.scanned().len() as int, total as int),
            p.encoding@ == self.encoding().label(),
            p.line_count == lines::line_ends(self.encoding(), self.scanned()).len(),
            !p.done,
            !p.failed,
            p.error is None,
    {
        EncodingProgress {
            session_id: self.session_id.clone(),
            generation: self.generation,
            percent: progress_percent(self.read, total),
            encoding: self.encoding.encoding_name(),
            line_count: (self.offsets.len() - 1) as u64,
            done: false,
            failed: false,
            error: None,
        }
    }
}

/// The open logs, at most `MAX_SESSIONS`, least recently used first.
pub struct SessionManager {
    sessions: Vec<Session>,
    next: u64,
}

impl View for SessionManager {
    type V = Seq<SessionModel>;

    closed spec fn view(&self) -> Seq<SessionModel> {
        session_models(self.sessions@)
    }
}

impl SessionManager {
    pub closed spec fn wf(self) -> bool {
        &&& is_session_list(self@)
        &&& forall|i: int| 0 <= i < self.sessions@.len() ==> (#[trigger] self.sessions@[i]).wf()
    }

    /// No more sessions are open than may be, each under a name of its own.
    pub proof fn open_sessions_are_listed_once(self)
        requires
            self.wf(),
        ensures
            is_session_list(self@),
    {
    }

    /// Whether a session is open that has got no content yet.
    pub fn awaits_content(&self, session_id: &str) -> (r: bool)
        requires
            self.wf(),
        ensures
            r == (is_listed(self@, session_id@) && self@[place(self@, session_id@)].indexing
                && self@[place(self@, session_id@)].content.len() == 0),
    {
        match self.find(session_id) {
            Some(i) => {
                let session: &Session = &self.sessions[i];
                assert(self@[i as int] == session@);
                session.indexing && session.written == 0
            },
            None => false,
        }
    }

    /// The number of the next session.
    pub closed spec fn next_number(self) -> u64 {
        self.next
    }

    pub fn new() -> (m: Self)
        ensures
            m.wf(),
            m@ == Seq::<SessionModel>::empty(),
            m.next_number() == 1,
    {
        let m = SessionManager { sessions: Vec::new(), next: 1 };
        assert(m@ =~= Seq::empty());
        m
    }

    fn find(&self, session_id: &str) -> (r: Option<usize>)
        requires
            self.wf(),
        ensures
            r is Some <==> is_listed(self@, session_id@),
            r is Some ==> r->0 < self@.len() && r->0 == place(self@, session_id@)
                && self@[r->0 as int].id == session_id@,
    {
        for i in 0..self.sessions.len()
            invariant
                self.wf(),
                forall|j: int| 0 <= j < i ==> (#[trigger] self@[j]).id != session_id@,
        {
            if same_text(self.sessions[i].id.as_str(), session_id) {
                assert(self@[i as int].id == session_id@);
                return Some(i);
            }
        }
        None
    }

    /// Names a new session for content of the declared size.
    pub fn reserve_session_id(&mut self, declared_size: u64) -> (r: Result<String, SessionError>)
        requires
            old(self).wf(),
        ensures
            final(self).wf(),
            final(self)@ == old(self)@,
            declared_size > MAX_UNCOMPRESSED ==> r == Err::<String, SessionError>(
                SessionError::FileTooLarge,
            ) && final(self).next_number() == old(self).next_number(),
            declared_size <= MAX_UNCOMPRESSED ==> r is Ok && r->Ok_0@ == seq!['s'] + text::decimal(
                old(self).next_number() as nat,
            ) && final(self).next_number() == old(self).next_number().wrapping_add(1),
    {
        if declared_size > MAX_UNCOMPRESSED {
            return Err(SessionError::FileTooLarge);
        }
        let mut id = String::new();
        id.push('s');
        push_decimal(&mut id, self.next);
        assert(id@ =~= seq!['s'] + text::decimal(self.next as nat));
        self.next = self.next.wrapping_add(1);
        Ok(id)
    }

    /// Replaces the session at `i`.
    fn put(&mut self, i: usize, session: Session)
        requires
            old(self).wf(),
            i < old(self)@.len(),
            session.wf(),
            session@.id == old(self)@[i as int].id,
        ensures
            final(self).wf(),
            final(self)@ == old(self)@.update(i as int, session@),
            final(self).next_number() == old(self).next_number(),
    {
        let ghost before = self@;
        self.sessions.set(i, session);
        assert(self@ =~= before.update(i as int, session@));
    }

    /// Takes the session at `i` out.
    fn take(&mut self, i: usize) -> (session: Session)
        requires
            old(self).wf(),
            i < old(self)@.len(),
        ensures
            final(self).wf(),
            session.wf(),
            session@ == old(self)@[i as int],
            final(self)@ == old(self)@.remove(i as int),
            final(self).next_number() == old(self).next_number(),
    {
        let ghost before = self@;
        let ghost all = self.sessions@;
        let session = self.sessions.remove(i);
        proof {
            assert(self@ =~= before.remove(i as int));
            assert forall|j: int| 0 <= j < self.sessions@.len() implies (
            #[trigger] self.sessions@[j]).wf() by {
                assert(self.sessions@[j] == if j < i {
                    all[j]
                } else {
                    all[j + 1]
                });
            }
        }
        session
    }

    /// Marks the session at `i` as the one used last.
    fn touch_lru(&mut self, i: usize)
        requires
            old(self).wf(),
            i < old(self)@.len(),
        ensures
            final(self).wf(),
            final(self)@ == touched(old(self)@, i as int),
            final(self)@.last() == old(self)@[i as int],
            final(self)@.len() == old(self)@.len(),
            final(self).next_number() == old(self).next_number(),
    {
        let ghost before = self@;
        let session = self.take(i);
        let ghost rest = self@;
        self.sessions.push(session);
        proof {
            assert(self@ =~= rest.push(session@));
            assert forall|a: int, b: int| 0 <= a < b < self@.len() implies (
            #[trigger] self@[a]).id != (#[trigger] self@[b]).id by {
                let pa = if a < i {
                    a
                } else if a < rest.len() {
                    a + 1
                } else {
                    i as int
                };
                let pb = if b < rest.len() {
                    if b < i {
                        b
                    } else {
                        b + 1
                    }
                } else {
                    i as int
                };
                assert(self@[a] == before[pa]);
                assert(self@[b] == before[pb]);
                assert(pa != pb);
            }
        }
    }

    /// Opens a session under a reserved name, so that reading can start
    /// before indexing does. Names the session that had to make room.
    pub fn prepare(&mut self, session_id: String, entry_path: String, declared_size: u64) -> (r: (
        OpenResult,
        Option<String>,
    ))
        requires
            old(self).wf(),
        ensures
            final(self).wf(),
            final(self).next_number() == old(self).next_number(),
            r.0.session_id@ == session_id@,
            r.0.entry_path@ == entry_path@,
            r.0.size == declared_size,
            r.0.indexing,
            r.0.encoding@ == "Detecting"@,
            ({
                let others = if is_listed(old(self)@, session_id@) {
                    old(self)@.remove(place(old(self)@, session_id@))
                } else {
                    old(self)@
                };
                if others.len() < MAX_SESSIONS {
                    &&& final(self)@ == others.push(fresh_session(session_id@))
                    &&& r.1 is None
                } else {
                    &&& final(self)@ == others.drop_first().push(fresh_session(session_id@))
                    &&& r.1 is Some && r.1->0@ == others[0].id
                }
            }),
    {
        let known: Option<usize> = self.find(session_id.as_str());
        match known {
            Some(i) => {
                let _ = self.take(i);
                assert(self@.len() < MAX_SESSIONS);
            },
            None => {},
        }
        let ghost others = self@;
        assert(!is_listed(others, session_id@)) by {
            if is_listed(others, session_id@) {
                let j = place(others, session_id@);
                if known is Some {
                    let i = known->0 as int;
                    let k = if j < i {
                        j
                    } else {
                        j + 1
                    };
                    assert(others[j] == old(self)@[k]);
                    assert(old(self)@[i].id == session_id@);
                    assert(k != i);
                }
            }
        }
        let mut evicted: Option<String> = None;
        if self.sessions.len() >= MAX_SESSIONS {
            let oldest = self.take(0);
            evicted = Some(oldest.id);
            assert(self@ =~= others.drop_first());
        }
        let ghost room = self@;
        self.sessions.push(Session::new(session_id.clone()));
        proof {
            let fresh = fresh_session(session_id@);
            assert(self@ =~= room.push(fresh));
            assert forall|a: int, b: int| 0 <= a < b < self@.len() implies (
            #[trigger] self@[a]).id != (#[trigger] self@[b]).id by {
                if b == room.len() {
                    assert(self@[a] == room[a]);
                    let k = if room.len() == others.len() {
                        a
                    } else {
                        a + 1
                    };
                    assert(others[k].id != session_id@);
                }
            }
        }
        (
            OpenResult {
                session_id,
                entry_path,
                size: declared_size,
                indexing: true,
                encoding: "Detecting".to_owned(),
            },
            evicted,
        )
    }

    /// The first bytes of the content have been read: they decide the
    /// encoding, and are indexed as soon as they are stored. A sample that
    /// ends inside a character decides nothing, unless the content has `ended`
    /// with it or may not be longer.
    pub fn start_index(
        &mut self,
        session_id: &str,
        sample: &[u8],
        ended: bool,
        declared_size: u64,
        max_uncompressed: u64,
    ) -> (r: IndexReply)
        requires
            old(self).wf(),
            is_listed(old(self)@, session_id@) ==> old(self)@[place(old(self)@, session_id@)].indexing
                && old(self)@[place(old(self)@, session_id@)].content.len() == 0,
        ensures
            final(self).wf(),
            final(self).next_number() == old(self).next_number(),
            !is_listed(old(self)@, session_id@) ==> r == IndexReply::Stop && final(self)@ == old(self)@,
            is_listed(old(self)@, session_id@) && undecided(sample@, ended, max_uncompressed) ==> r
                == IndexReply::More(lines::missing(sample@) as usize) && final(self)@ == old(self)@,
            is_listed(old(self)@, session_id@) && !undecided(sample@, ended, max_uncompressed) ==> {
                let i = place(old(self)@, session_id@);
                let encoding = lines::detected(sample@);
                let started = SessionModel {
                    detected: Some(encoding),
                    effective: encoding,
                    ..old(self)@[i]
                };
                if fits(0, sample@.len() as int, max_uncompressed) {
                    let m = SessionModel { content: sample@, ..started };
                    &&& final(self)@ == old(self)@.update(i, m)
                    &&& if sample@.len() == 0 {
                        r == IndexReply::Quiet
                    } else {
                        r matches IndexReply::Progress(p) && p@ == report(
                            m,
                            percent_of(sample@.len() as int, declared_size as int),
                            false,
                            None,
                        )
                    }
                } else {
                    let m = SessionModel { indexing: false, ..started };
                    &&& final(self)@ == old(self)@.update(i, m)
                    &&& r matches IndexReply::Finished(p) && p@ == report(
                        m,
                        100,
                        true,
                        Some(size_limit_message()),
                    )
                }
            },
    {
        let i: usize = match self.find(session_id) {
            Some(i) => i,
            None => {
                return IndexReply::Stop;
            },
        };
        let lacking: usize = missing_bytes(sample);
        if !ended && lacking > 0 && chunk_fits(
            sample.len() as u64,
            lacking,
            max_uncompressed,
        ) {
            return IndexReply::More(lacking);
        }
        let ghost before = self@;
        let session = self.take(i);
        let session = session.detect(sample);
        let fits_limit: bool = chunk_fits(0, sample.len(), max_uncompressed);
        let (session, reply) = if !fits_limit {
            let session = session.abandon();
            let p = report_on(&session, 100, true, Some(size_limit_text()));
            (session, IndexReply::Finished(p))
        } else if sample.len() > 0 {
            let session = session.append_index_chunk(sample);
            assert(session@.content =~= sample@);
            let p = report_on(
                &session,
                progress_percent(session.written, declared_size),
                false,
                None,
            );
            (session, IndexReply::Progress(p))
        } else {
            assert(session@.content =~= sample@);
            (session, IndexReply::Quiet)
        };
        self.insert_back(i, session, Ghost(before));
        reply
    }

    /// Puts a session back where it was taken from.
    fn insert_back(&mut self, i: usize, session: Session, Ghost(before): Ghost<Seq<SessionModel>>)
        requires
            old(self).wf(),
            is_session_list(before),
            i < before.len(),
            old(self)@ == before.remove(i as int),
            session.wf(),
            session@.id == before[i as int].id,
        ensures
            final(self).wf(),
            final(self)@ == before.update(i as int, session@),
            final(self).next_number() == old(self).next_number(),
    {
        let ghost rest = self.sessions@;
        let ghost others = self@;
        self.sessions.insert(i, session);
        proof {
            assert forall|j: int| 0 <= j < before.len() implies self@[j] == #[trigger] before.update(
                i as int,
                session@,
            )[j] by {
                if j < i {
                    assert(self@[j] == others[j]);
                } else if j > i {
                    assert(self@[j] == others[j - 1]);
                }
            }
            assert(self@ =~= before.update(i as int, session@));
            assert forall|j: int| 0 <= j < self.sessions@.len() implies (
            #[trigger] self.sessions@[j]).wf() by {
                if j < i {
                    assert(self.sessions@[j] == rest[j]);
                } else if j > i {
                    assert(self.sessions@[j] == rest[j - 1]);
                }
            }
        }
    }

    /// A further piece of content has been stored: its lines are published.
    /// A report is due when none was made for a while.
    pub fn index_chunk(
        &mut self,
        session_id: &str,
        bytes: &[u8],
        declared_size: u64,
        max_uncompressed: u64,
        since_last_ms: Option<u64>,
    ) -> (r: IndexReply)
        requires
            old(self).wf(),
            is_listed(old(self)@, session_id@) ==> old(self)@[place(old(self)@, session_id@)].indexing,
            is_listed(old(self)@, session_id@) && max_uncompressed == u64::MAX ==> old(
                self,
            )@[place(old(self)@, session_id@)].content.len() + bytes@.len() <= u64::MAX,
        ensures
            final(self).wf(),
            final(self).next_number() == old(self).next_number(),
            !is_listed(old(self)@, session_id@) ==> r == IndexReply::Stop && final(self)@ == old(self)@,
            is_listed(old(self)@, session_id@) ==> {
                let i = place(old(self)@, session_id@);
                let was = old(self)@[i];
                if fits(was.content.len() as int, bytes@.len() as int, max_uncompressed) {
                    let m = SessionModel { content: was.content + bytes@, ..was };
                    &&& final(self)@ == old(self)@.update(i, m)
                    &&& if report_due(since_last_ms) {
                        r matches IndexReply::Progress(p) && p@ == report(
                            m,
                            percent_of(m.content.len() as int, declared_size as int),
                            false,
                            None,
                        )
                    } else {
                        r == IndexReply::Quiet
                    }
                } else {
                    let m = SessionModel { indexing: false, ..was };
                    &&& final(self)@ == old(self)@.update(i, m)
                    &&& r matches IndexReply::Finished(p) && p@ == report(
                        m,
                        100,
                        true,
                        Some(size_limit_message()),
                    )
                }
            },
    {
        let i: usize = match self.find(session_id) {
            Some(i) => i,
            None => {
                return IndexReply::Stop;
            },
        };
        let ghost before = self@;
        let session = self.take(i);
        let (session, reply) = if !chunk_fits(session.written, bytes.len(), max_uncompressed) {
            let session = session.abandon();
            let p = report_on(&session, 100, true, Some(size_limit_text()));
            (session, IndexReply::Finished(p))
        } else {
            let session = session.append_index_chunk(bytes);
            if is_report_due(since_last_ms) {
                let p = report_on(
                    &session,
                    progress_percent(session.written, declared_size),
                    false,
                    None,
                );
                (session, IndexReply::Progress(p))
            } else {
                (session, IndexReply::Quiet)
            }
        };
        self.insert_back(i, session, Ghost(before));
        reply
    }

    /// All content has been stored.
    pub fn finish_index(&mut self, session_id: &str) -> (r: IndexReply)
        requires
            old(self).wf(),
            is_listed(old(self)@, session_id@) ==> old(self)@[place(old(self)@, session_id@)].indexing,
        ensures
            final(self).wf(),
            final(self).next_number() == old(self).next_number(),
            !is_listed(old(self)@, session_id@) ==> r == IndexReply::Stop && final(self)@ == old(self)@,
            is_listed(old(self)@, session_id@) ==> {
                let i = place(old(self)@, session_id@);
                let m = SessionModel { complete: true, indexing: false, ..old(self)@[i] };
                &&& final(self)@ == old(self)@.update(i, m)
                &&& r matches IndexReply::Finished(p) && p@ == report(m, 100, true, None)
            },
    {
        let i: usize = match self.find(session_id) {
            Some(i) => i,
            None => {
                return IndexReply::Stop;
            },
        };
        let ghost before = self@;
        let session = self.take(i).finish();
        let p = report_on(&session, 100, true, None);
        self.insert_back(i, session, Ghost(before));
        IndexReply::Finished(p)
    }

    /// Reading or storing the content failed.
    pub fn fail_index(&mut self, session_id: &str, error: String) -> (r: IndexReply)
        requires
            old(self).wf(),
        ensures
            final(self).wf(),
            final(self).next_number() == old(self).next_number(),
            !is_listed(old(self)@, session_id@) ==> r == IndexReply::Stop && final(self)@ == old(self)@,
            is_listed(old(self)@, session_id@) ==> {
                let i = place(old(self)@, session_id@);
                let m = SessionModel { indexing: false, ..old(self)@[i] };
                &&& final(self)@ == old(self)@.update(i, m)
                &&& r matches IndexReply::Finished(p) && p@ == report(m, 100, true, Some(error@))
            },
    {
        let i: usize = match self.find(session_id) {
            Some(i) => i,
            None => {
                return IndexReply::Stop;
            },
        };
        let ghost before = self@;
        let session = self.take(i).abandon();
        let p = report_on(&session, 100, true, Some(error));
        self.insert_back(i, session, Ghost(before));
        IndexReply::Finished(p)
    }

    /// Whether the session is open; a closed one is not indexed any further.
    pub fn is_open(&self, session_id: &str) -> (r: bool)
        requires
            self.wf(),
        ensures
            r == is_listed(self@, session_id@),
    {
        self.find(session_id).is_some()
    }

    /// Asks for another encoding: every request makes the earlier ones stale.
    pub fn prepare_encoding_change(&mut self, session_id: &str, encoding_name: &str) -> (r: Result<
        EncodingChange,
        SessionError,
    >)
        requires
            old(self).wf(),
        ensures
            final(self).wf(),
            final(self).next_number() == old(self).next_number(),
            ({
                let encoding = lines::named_encoding(
                    text::ascii_uppercase(text::trimmed(encoding_name@)),
                );
                let i = place(old(self)@, session_id@);
                let was = old(self)@[i];
                let failed = |e: SessionError| r is Err && r->Err_0 == e;
                if encoding is None {
                    failed(SessionError::UnsupportedEncoding) && final(self)@ == old(self)@
                } else if !is_listed(old(self)@, session_id@) {
                    failed(SessionError::NotFound) && final(self)@ == old(self)@
                } else if was.indexing {
                    failed(SessionError::StillIndexing) && final(self)@ == touched(old(self)@, i)
                } else {
                    let m = SessionModel { generation: next_generation(was.generation), ..was };
                    &&& final(self)@ == touched(old(self)@.update(i, m), i)
                    &&& r is Ok
                    &&& r->Ok_0.wf()
                    &&& r->Ok_0.id() == session_id@
                    &&& r->Ok_0.encoding() == encoding->0
                    &&& r->Ok_0.change_generation() == m.generation
                    &&& r->Ok_0.scanned() == Seq::<u8>::empty()
                }
            }),
    {
        let encoding: TextEncoding = match TextEncoding::encoding_by_name(encoding_name) {
            Some(encoding) => encoding,
            None => {
                return Err(SessionError::UnsupportedEncoding);
            },
        };
        let i: usize = match self.find(session_id) {
            Some(i) => i,
            None => {
                return Err(SessionError::NotFound);
            },
        };
        let ghost before = self@;
        self.touch_lru(i);
        let last: usize = self.sessions.len() - 1;
        if self.sessions[last].indexing {
            return Err(SessionError::StillIndexing);
        }
        let ghost moved = self@;
        let mut session = self.take(last);
        let ghost rest = self@;
        session.generation = session.generation.saturating_add(1);
        let generation: u64 = session.generation;
        let ghost m = session@;
        assert(session.wf());
        self.insert_back(last, session, Ghost(moved));
        proof {
            assert(m == SessionModel {
                generation: next_generation(before[i as int].generation),
                ..before[i as int]
            });
            assert(self@ =~= touched(before.update(i as int, m), i as int));
        }
        let mut offsets: Vec<u64> = Vec::new();
        offsets.push(0);
        let change = EncodingChange {
            session_id: session_id.to_owned(),
            encoding,
            generation,
            offsets,
            read: 0,
            scanner: LineScanner::new(encoding),
        };
        assert(change.offsets@ =~= lines::open_boundaries(encoding, Seq::empty()));
        Ok(change)
    }

    /// Whether a change still is the latest one of an open session.
    pub fn is_current(&self, change: &EncodingChange) -> (r: bool)
        requires
            self.wf(),
        ensures
            r == current(self@, *change),
    {
        match self.find(change.session_id.as_str()) {
            Some(i) => self.sessions[i].generation == change.generation,
            None => false,
        }
    }

    /// The whole content has been scanned: encoding and lines are replaced at
    /// once, unless the change has become stale.
    pub fn apply_encoding_change(&mut self, change: EncodingChange) -> (r: Option<EncodingProgress>)
        requires
            old(self).wf(),
            change.wf(),
        ensures
            final(self).wf(),
            final(self).next_number() == old(self).next_number(),
            !current(old(self)@, change) ==> r is None && final(self)@ == old(self)@,
            current(old(self)@, change) ==> {
                let i = place(old(self)@, change.id());
                let m = SessionModel {
                    content: change.scanned(),
                    complete: true,
                    indexing: false,
                    effective: change.encoding(),
                    ..old(self)@[i]
                };
                &&& final(self)@ == old(self)@.update(i, m)
                &&& r is Some
                &&& r->0.session_id@ == change.id()
                &&& r->0.generation == change.change_generation()
                &&& r->0.percent == 100
                &&& r->0.encoding@ == change.encoding().label()
                &&& r->0.line_count == m.line_count()
                &&& r->0.done
                &&& !r->0.failed
                &&& r->0.error is None
            },
    {
        let i: usize = match self.find(change.session_id.as_str()) {
            Some(i) => i,
            None => {
                return None;
            },
        };
        if self.sessions[i].generation != change.generation {
            return None;
        }
        let ghost before = self@;
        let session = self.take(i);
        let mut offsets = change.offsets;
        let last: u64 = offsets[offsets.len() - 1];
        if last != change.read {
            offsets.push(change.read);
        }
        let session = Session {
            id: session.id,
            offsets,
            detected: session.detected,
            effective: change.encoding,
            indexing: false,
            generation: session.generation,
            written: change.read,
            scanner: change.scanner,
            content: Ghost(change.scanner.scanned()),
            complete: Ghost(true),
        };
        let line_count: u64 = session.line_count();
        self.insert_back(i, session, Ghost(before));
        Some(
            EncodingProgress {
                session_id: change.session_id,
                generation: change.generation,
                percent: 100,
                encoding: change.encoding.encoding_name(),
                line_count,
                done: true,
                failed: false,
                error: None,
            },
        )
    }

    /// The content could not be scanned; stale changes fail silently.
    pub fn fail_encoding_change(&self, change: &EncodingChange, error: String) -> (r: Option<
        EncodingProgress,
    >)
        requires
            self.wf(),
        ensures
            r is Some <==> current(self@, *change),
            r is Some ==> r->0.session_id@ == change.id() && r->0.generation
                == change.change_generation() && r->0.percent == 100 && r->0.encoding@
                == change.encoding().label() && r->0.line_count == 0 && r->0.done && r->0.failed
                && r->0.error == Some(error),
    {
        if !self.is_current(change) {
            return None;
        }
        Some(
            EncodingProgress {
                session_id: change.session_id.clone(),
                generation: change.generation,
                percent: 100,
                encoding: change.encoding.encoding_name(),
                line_count: 0,
                done: true,
                failed: true,
                error: Some(error),
            },
        )
    }

    /// Where the lines asked for are, as far as they are readable.
    pub fn line_spans(&mut self, session_id: &str, start: u64, count: u64) -> (r: Result<
        (TextEncoding, Vec<LineSpan>),
        SessionError,
    >)
        requires
            old(self).wf(),
        ensures
            final(self).wf(),
            final(self).next_number() == old(self).next_number(),
            !is_listed(old(self)@, session_id@) ==> r == Err::<
                (TextEncoding, Vec<LineSpan>),
                SessionError,
            >(SessionError::NotFound) && final(self)@ == old(self)@,
            is_listed(old(self)@, session_id@) ==> {
                let i = place(old(self)@, session_id@);
                let m = old(self)@[i];
                &&& final(self)@ == touched(old(self)@, i)
                &&& r is Ok
                &&& r->Ok_0.0 == m.effective
                &&& r->Ok_0.1@ == window(m, start, count)
                &&& m.line_count() <= u64::MAX
            },
    {
        let i: usize = match self.find(session_id) {
            Some(i) => i,
            None => {
                return Err(SessionError::NotFound);
            },
        };
        self.touch_lru(i);
        let session: &Session = &self.sessions[self.sessions.len() - 1];
        let ghost m = session@;
        let encoding: TextEncoding = session.effective;
        let total: usize = session.offsets.len() - 1;
        let mut spans: Vec<LineSpan> = Vec::new();
        if start >= total as u64 {
            assert(spans@ =~= window(m, start, count));
            return Ok((encoding, spans));
        }
        let end: usize = if count > total as u64 - start {
            total
        } else {
            (start + count) as usize
        };
        let mut index: usize = start as usize;
        proof {
            boundaries_increase(m);
            assert(session.content@.len() == session.written);
        }
        while index < end
            invariant
                start <= index <= end <= total < session.offsets.len(),
                total == m.line_count(),
                end == window_end(m, start, count),
                session.wf(),
                session@ == m,
                session.offsets@ == m.boundaries(),
                m.content.len() <= u64::MAX,
                forall|a: int, b: int|
                    0 <= a < b < m.boundaries().len() ==> (#[trigger] m.boundaries()[a]) < (
                    #[trigger] m.boundaries()[b]),
                spans@ =~= window(m, start, count).take(index - start),
            decreases end - index,
        {
            let from: u64 = session.offsets[index];
            let to: u64 = session.offsets[index + 1];
            assert(from < to);
            let length: u64 = to - from;
            let read: usize = if length > MAX_LINE_BYTES as u64 {
                MAX_LINE_BYTES
            } else {
                length as usize
            };
            spans.push(LineSpan { index: index as u64, from, length, read });
            assert(spans@.last() == line_span(m, index as int));
            index = index + 1;
        }
        assert(window(m, start, count).take(end - start) =~= window(m, start, count));
        Ok((encoding, spans))
    }

    /// Reads lines out of the cached content.
    #[verifier::loop_isolation(false)]
    pub fn read_lines(&mut self, session_id: &str, start: u64, count: u64, cache: &[u8]) -> (r:
        Result<Vec<LogLine>, SessionError>)
        requires
            old(self).wf(),
        ensures
            final(self).wf(),
            final(self).next_number() == old(self).next_number(),
            !is_listed(old(self)@, session_id@) ==> r == Err::<Vec<LogLine>, SessionError>(
                SessionError::NotFound,
            ) && final(self)@ == old(self)@,
            is_listed(old(self)@, session_id@) ==> {
                let i = place(old(self)@, session_id@);
                let m = old(self)@[i];
                let spans = window(m, start, count);
                &&& final(self)@ == touched(old(self)@, i)
                &&& if exists|k: int|
                    0 <= k < spans.len() && (#[trigger] spans[k]).from + spans[k].read
                        > cache@.len() {
                    r == Err::<Vec<LogLine>, SessionError>(SessionError::CacheTooShort)
                } else {
                    &&& r is Ok
                    &&& r->Ok_0@.len() == spans.len()
                    &&& forall|k: int|
                        0 <= k < spans.len() ==> {
                            let line = #[trigger] r->Ok_0@[k];
                            &&& line.line_no == start + k + 1
                            &&& line.content@ == line_text(m, cache@, start + k)
                            &&& line.truncated == (spans[k].length > MAX_LINE_BYTES)
                        }
                }
            },
    {
        let (encoding, spans) = match self.line_spans(session_id, start, count) {
            Ok(found) => found,
            Err(e) => {
                return Err(e);
            },
        };
        let ghost m = old(self)@[place(old(self)@, session_id@)];
        let mut found: Vec<LogLine> = Vec::new();
        for k in 0..spans.len()
            invariant
                encoding == m.effective,
                spans@ == window(m, start, count),
                found@.len() == k,
                forall|j: int|
                    0 <= j < k ==> (#[trigger] spans@[j]).from + spans@[j].read <= cache@.len(),
                forall|j: int|
                    0 <= j < k ==> {
                        let line = #[trigger] found@[j];
                        &&& line.line_no == start + j + 1
                        &&& line.content@ == line_text(m, cache@, start + j)
                        &&& line.truncated == (spans@[j].length > MAX_LINE_BYTES)
                    },
        {
            let span: LineSpan = spans[k];
            assert(span == line_span(m, start + k));
            if span.read > cache.len() || span.from > (cache.len() - span.read) as u64 {
                assert(spans@[k as int].from + spans@[k as int].read > cache@.len());
                return Err(SessionError::CacheTooShort);
            }
            let mut raw: Vec<u8> = Vec::new();
            let from: usize = span.from as usize;
            crate::bytes::push_all(&mut raw, slice_subrange(cache, from, from + span.read));
            assert(raw@ =~= cache@.subrange(span.from as int, span.from + span.read));
            assert(start + k < m.line_count());
            found.push(LogLine::decode(encoding, raw, span.index, span.length));
        }
        Ok(found)
    }

    /// How many lines of a session are readable; none of a closed one.
    pub fn line_count(&self, session_id: &str) -> (n: u64)
        requires
            self.wf(),
        ensures
            n == if is_listed(self@, session_id@) {
                self@[place(self@, session_id@)].line_count()
            } else {
                0
            },
    {
        match self.find(session_id) {
            Some(i) => self.sessions[i].line_count(),
            None => 0,
        }
    }

    /// Closes a session; tells whether it was open.
    pub fn close(&mut self, session_id: &str) -> (r: bool)
        requires
            old(self).wf(),
        ensures
            final(self).wf(),
            final(self).next_number() == old(self).next_number(),
            r == is_listed(old(self)@, session_id@),
            final(self)@ == if r {
                old(self)@.remove(place(old(self)@, session_id@))
            } else {
                old(self)@
            },
    {
        match self.find(session_id) {
            Some(i) => {
                let _ = self.take(i);
                true
            },
            None => false,
        }
    }

    /// Closes all sessions and names them.
    pub fn clear_all(&mut self) -> (ids: Vec<String>)
        requires
            old(self).wf(),
        ensures
            final(self).wf(),
            final(self).next_number() == old(self).next_number(),
            final(self)@ == Seq::<SessionModel>::empty(),
            ids@.len() == old(self)@.len(),
            forall|i: int| 0 <= i < ids@.len() ==> (#[trigger] ids@[i])@ == old(self)@[i].id,
    {
        let mut ids: Vec<String> = Vec::new();
        for i in 0..self.sessions.len()
            invariant
                self.wf(),
                *self == *old(self),
                ids@.len() == i,
                forall|j: int| 0 <= j < i ==> (#[trigger] ids@[j])@ == self@[j].id,
        {
            ids.push(self.sessions[i].id.clone());
        }
        self.sessions = Vec::new();
        assert(self@ =~= Seq::empty());
        ids
    }
}

/// The generation behind `g`.
pub open spec fn next_generation(g: u64) -> u64 {
    if g == u64::MAX {
        g
    } else {
        (g + 1) as u64
    }
}

/// Whether a change is the latest one of an open session.
pub open spec fn current(m: Seq<SessionModel>, change: EncodingChange) -> bool {
    is_listed(m, change.id()) && m[place(m, change.id())].generation == change.change_generation()
}

/// What is reported when content exceeds its limit.
pub open spec fn size_limit_message() -> Seq<char> {
    "uncompressed content exceeds the size limit"@
}

fn size_limit_text() -> (s: String)
    ensures
        s@ == size_limit_message(),
{
    "uncompressed content exceeds the size limit".to_owned()
}

/// Lines follow one another.
pub proof fn boundaries_increase(m: SessionModel)
    requires
        m.content.len() <= u64::MAX,
    ensures
        forall|a: int, b: int|
            0 <= a < b < m.boundaries().len() ==> (#[trigger] m.boundaries()[a]) < (
            #[trigger] m.boundaries()[b]),
        forall|a: int| 0 <= a < m.boundaries().len() ==> (#[trigger] m.boundaries()[a]) <= m.content.len(),
{
    lines::lines_partition_the_file(m.effective, m.content);
    let closed = lines::closed_boundaries(m.effective, m.content);
    assert forall|a: int, b: int| 0 <= a < b < m.boundaries().len() implies (
    #[trigger] m.boundaries()[a]) < (#[trigger] m.boundaries()[b]) by {
        assert(m.boundaries()[a] == closed[a]);
        assert(m.boundaries()[b] == closed[b]);
    }
    assert forall|a: int| 0 <= a < m.boundaries().len() implies (#[trigger] m.boundaries()[a])
        <= m.content.len() by {
        assert(m.boundaries()[a] == closed[a]);
        if a < closed.len() - 1 {
            assert(closed[a] < closed[closed.len() - 1]);
        }
    }
}

/// A request for another encoding makes every earlier one stale.
pub proof fn older_change_is_stale(m: Seq<SessionModel>, change: EncodingChange)
    requires
        is_session_list(m),
        is_listed(m, change.id()),
        change.change_generation() <= m[place(m, change.id())].generation,
        m[place(m, change.id())].generation < u64::MAX,
    ensures
        ({
            let i = place(m, change.id());
            let newer = SessionModel { generation: next_generation(m[i].generation), ..m[i] };
            !current(touched(m.update(i, newer), i), change)
        }),
{
    let i = place(m, change.id());
    let newer = SessionModel { generation: next_generation(m[i].generation), ..m[i] };
    let after = touched(m.update(i, newer), i);
    let j = place(after, change.id());
    assert(after[after.len() - 1] == newer);
    if j < after.len() - 1 {
        let k = if j < i {
            j
        } else {
            j + 1
        };
        assert(after[j] == m[k]);
        assert(m[k].id != m[i].id);
    }
}

/// The pieces in which content arrives do not matter.
pub proof fn pieces_do_not_matter(m: SessionModel, first: Seq<u8>, second: Seq<u8>)
    ensures
        ({
            let once = SessionModel { content: m.content + first, ..m };
            SessionModel { content: once.content + second, ..once }
        }) == (SessionModel { content: m.content + (first + second), ..m }),
{
    assert((m.content + first) + second =~= m.content + (first + second));
}

/// A line that is readable while content still arrives stays where it is,
/// whatever follows.
pub proof fn readable_line_stays(m: SessionModel, more: Seq<u8>, complete: bool, index: int)
    requires
        !m.complete,
        0 <= index < m.line_count(),
    ensures
        ({
            let later = SessionModel { content: m.content + more, complete, ..m };
            index < later.line_count() && line_span(later, index) == line_span(m, index)
        }),
{
    let later = SessionModel { content: m.content + more, complete, ..m };
    let now = m.boundaries();
    let open = lines::open_boundaries(m.effective, m.content + more);
    lines::published_lines_stay(m.effective, m.content, more);
    assert(now =~= open.take(now.len() as int));
    assert(now[index] == open[index]);
    assert(now[index + 1] == open[index + 1]);
    assert(later.boundaries()[index] == open[index]);
    assert(later.boundaries()[index + 1] == open[index + 1]);
}

/// Sessions with different numbers have different names.
pub proof fn names_differ(a: nat, b: nat)
    requires
        a != b,
    ensures
        seq!['s'] + text::decimal(a) != seq!['s'] + text::decimal(b),
{
    let x = seq!['s'] + text::decimal(a);
    let y = seq!['s'] + text::decimal(b);
    assert(x.skip(1) =~= text::decimal(a));
    assert(y.skip(1) =~= text::decimal(b));
    if x == y {
        text::decimal_is_injective(a, b);
    }
}

/// The lines of a log lie one behind the other without a gap: the first one
/// begins where the log does, and the last one of a complete log ends where
/// the log does. None is empty, and no more than 65536 bytes of one are read.
pub proof fn lines_follow_one_another(m: SessionModel, i: int)
    requires
        m.content.len() <= u64::MAX,
        0 <= i < m.line_count(),
    ensures
        line_span(m, i).index == i,
        line_span(m, i).length > 0,
        line_span(m, i).from + line_span(m, i).length <= m.content.len(),
        line_span(m, i).read == if line_span(m, i).length <= 65_536 {
            line_span(m, i).length as int
        } else {
            65_536
        },
        i == 0 ==> line_span(m, i).from == 0,
        i + 1 < m.line_count() ==> line_span(m, i).from + line_span(m, i).length == line_span(
            m,
            i + 1,
        ).from,
        i + 1 == m.line_count() && m.complete ==> line_span(m, i).from + line_span(m, i).length
            == m.content.len(),
{
    boundaries_increase(m);
    let b = m.boundaries();
    assert(b[i] < b[i + 1] <= m.content.len());
    lines::line_ends_are_line_feeds(m.effective, m.content);
    let open = lines::open_boundaries(m.effective, m.content);
    assert(open[0] == 0);
    assert(b[0] == 0);
    if i + 1 < m.line_count() {
        assert(b[i + 1] < b[i + 2]);
    }
    if m.complete {
        assert(b.last() == m.content.len());
    }
    if i < b.len() {
        lines::boundaries_are_lines(m.effective, m.content);
        assert(i < b.len() <= m.content.len() + 2);
    }
}

/// A line holds a line feed at its end and nowhere else; only the last line of
/// a complete log may lack it.
pub proof fn line_ends_with_its_first_line_feed(m: SessionModel, i: int, k: int)
    requires
        m.content.len() <= u64::MAX,
        0 <= i < m.line_count(),
        line_span(m, i).from < k <= line_span(m, i).from + line_span(m, i).length,
    ensures
        lines::line_feed_before(m.effective, m.content, k) ==> k == line_span(m, i).from
            + line_span(m, i).length,
        k == line_span(m, i).from + line_span(m, i).length ==> lines::line_feed_before(
            m.effective,
            m.content,
            k,
        ) || (m.complete && i + 1 == m.line_count()),
{
    lines_follow_one_another(m, i);
    boundaries_increase(m);
    let b = m.boundaries();
    let ends = lines::line_ends(m.effective, m.content);
    let open = lines::open_boundaries(m.effective, m.content);
    assert(b[i] < b[i + 1]);
    lines::every_line_feed_ends_a_line(m.effective, m.content, k);
    if lines::line_feed_before(m.effective, m.content, k) {
        let j = choose|j: int| 0 <= j < ends.len() && ends[j] == k as u64;
        assert(open[j + 1] == ends[j]);
        assert(b[j + 1] == open[j + 1]);
        if j + 1 < i {
            assert(b[j + 1] < b[i]);
        }
        if j + 1 > i + 1 {
            assert(b[i + 1] < b[j + 1]);
        }
    }
    if k == b[i + 1] {
        if i + 1 < open.len() {
            assert(b[i + 1] == open[i + 1]);
            assert(open[i + 1] == ends[i]);
            assert(ends.contains(k as u64));
        }
    }
}

/// Of the lines asked for all are shown that there are, from the first one
/// asked for on, and no more than were asked for.
pub proof fn window_shows_the_lines_asked_for(m: SessionModel, start: u64, count: u64, k: int)
    ensures
        start >= m.line_count() ==> window(m, start, count).len() == 0,
        start < m.line_count() && count <= m.line_count() - start ==> window(
            m,
            start,
            count,
        ).len() == count,
        start < m.line_count() && count > m.line_count() - start ==> window(m, start, count).len()
            == m.line_count() - start,
        0 <= k < window(m, start, count).len() ==> window(m, start, count)[k] == line_span(
            m,
            start + k,
        ),
{
}

/// A line is shown as what stands before its line end, decoded in the encoding
/// of the session; on the first line a byte order mark is left out.
pub proof fn line_is_read_without_its_end(
    m: SessionModel,
    cache: Seq<u8>,
    i: int,
    mark: Seq<u8>,
    shown: Seq<u8>,
    tail: Seq<u8>,
)
    requires
        m.content.len() <= u64::MAX,
        0 <= i < m.line_count(),
        line_span(m, i).length <= 65_536,
        line_span(m, i).from + line_span(m, i).length <= cache.len(),
        !lines::has_line_end(m.effective, shown),
        lines::only_line_ends(m.effective, tail),
        cache.subrange(
            line_span(m, i).from as int,
            line_span(m, i).from + line_span(m, i).length,
        ) == mark + shown + tail,
        mark == lines::order_mark(m.effective) && i == 0 || mark.len() == 0 && (i > 0
            || !lines::order_mark(m.effective).is_prefix_of(shown)),
    ensures
        line_text(m, cache, i) == lines::decoded(m.effective, shown),
{
    lines_follow_one_another(m, i);
    lines::content_is_shown_unchanged(m.effective, shown, tail);
    if mark.len() == 0 {
        assert(mark + shown + tail =~= shown + tail);
    }
}

/// The percentage shown is what has been done, rounded down; the last percent
/// is kept for completion.
pub proof fn percentage_is_rounded_down(done: u64, size: u64)
    requires
        size > 0,
        done * 100 <= u64::MAX,
    ensures
        0 <= percent_of(done as int, size as int) <= 99,
        100 * done < 99 * size ==> percent_of(done as int, size as int) * size <= 100 * done < (
        percent_of(done as int, size as int) + 1) * size,
        100 * done >= 99 * size ==> percent_of(done as int, size as int) == 99,
        percent_of(done as int, 0) == 0,
{
    let n: int = 100 * done;
    let s: int = size as int;
    let q = n / s;
    assert(q * s <= n < (q + 1) * s && q >= 0) by (nonlinear_arith)
        requires
            q == n / s,
            s > 0,
            n >= 0,
    ;
    if n < 99 * s {
        assert(q < 99) by (nonlinear_arith)
            requires
                q * s <= n,
                n < 99 * s,
                s > 0,
        ;
    } else {
        assert(q >= 99) by (nonlinear_arith)
            requires
                n < (q + 1) * s,
                n >= 99 * s,
                s > 0,
        ;
    }
}

/// Using a session makes it the one used last; the others keep their order.
pub proof fn used_session_is_last(m: Seq<SessionModel>, i: int, j: int)
    requires
        0 <= i < m.len(),
        0 <= j < m.len(),
    ensures
        touched(m, i).len() == m.len(),
        touched(m, i).last() == m[i],
        j < i ==> touched(m, i)[j] == m[j],
        j > i ==> touched(m, i)[j - 1] == m[j],
{
}

/// A report tells how many lines can be read and in which encoding, whether
/// indexing has ended and whether it failed.
pub proof fn report_tells_the_state(
    m: SessionModel,
    percent: int,
    done: bool,
    error: Option<Seq<char>>,
)
    requires
        m.content.len() <= u64::MAX,
    ensures
        ({
            let r = report(m, percent, done, error);
            &&& r.session_id == m.id
            &&& r.percent == percent
            &&& r.done == done
            &&& r.failed == (error is Some)
            &&& r.error == error
            &&& r.effective_encoding == m.effective.label()
            &&& m.detected matches Some(e) ==> r.detected_encoding == e.label()
            &&& !m.complete ==> r.indexed_lines == lines::line_ends(m.effective, m.content).len()
            &&& m.complete ==> r.indexed_lines == lines::line_ends(m.effective, m.content).len()
                + if m.content.len() > 0 && !lines::line_feed_before(
                m.effective,
                m.content,
                m.content.len() as int,
            ) {
                1int
            } else {
                0
            }
        }),
{
    let c = m.content;
    let ends = lines::line_ends(m.effective, c);
    let open = lines::open_boundaries(m.effective, c);
    lines::line_ends_are_line_feeds(m.effective, c);
    if c.len() > 0 {
        lines::every_line_feed_ends_a_line(m.effective, c, c.len() as int);
        if ends.len() > 0 {
            assert(open.last() == ends.last());
            if ends.contains(c.len() as u64) {
                let j = choose|j: int| 0 <= j < ends.len() && ends[j] == c.len() as u64;
                if j < ends.len() - 1 {
                    assert(ends[j] < ends[ends.len() - 1]);
                }
            }
        }
    } else {
        if ends.len() > 0 {
            assert(0 < ends[0] <= c.len());
        }
    }
}

/// A report is due when none was made yet, or fifty milliseconds ago.
pub proof fn reports_are_fifty_milliseconds_apart(since_last_ms: u64)
    ensures
        report_due(None),
        report_due(Some(since_last_ms)) <==> since_last_ms >= 50,
{
}

/// Content fits up to its limit and not beyond; the largest limit is none.
pub proof fn content_fits_up_to_its_limit(written: int, more: int, limit: u64)
    ensures
        limit < u64::MAX ==> (fits(written, more, limit) <==> written + more <= limit),
        fits(written, more, u64::MAX),
{
}

/// The encoding stays open only while more may come that decides it: never at
/// the end of the content, nor where nothing is missing, nor where what is
/// missing may not be read any more.
pub proof fn encoding_is_decided_in_time(sample: Seq<u8>, limit: u64)
    ensures
        !undecided(sample, true, limit),
        lines::missing(sample) == 0 ==> !undecided(sample, false, limit),
        sample.len() + lines::missing(sample) > limit && limit < u64::MAX ==> !undecided(
            sample,
            false,
            limit,
        ),
        lines::missing(sample) > 0 && sample.len() + lines::missing(sample) <= limit ==> undecided(
            sample,
            false,
            limit,
        ),
{
}

/// A change of encoding is applied only to an open session, and only the last
/// one that was asked for.
pub proof fn only_the_last_change_is_current(m: Seq<SessionModel>, change: EncodingChange, i: int)
    requires
        is_session_list(m),
    ensures
        current(m, change) ==> exists|k: int|
            0 <= k < m.len() && (#[trigger] m[k]).id == change.id() && m[k].generation
                == change.change_generation(),
        0 <= i < m.len() && m[i].id == change.id() ==> (current(m, change) <==> m[i].generation
            == change.change_generation()),
        (forall|k: int| 0 <= k < m.len() ==> (#[trigger] m[k]).id != change.id()) ==> !current(
            m,
            change,
        ),
{
    if is_listed(m, change.id()) {
        let k = place(m, change.id());
        assert(0 <= k < m.len() && m[k].id == change.id());
        if 0 <= i < m.len() && m[i].id == change.id() {
            if i < k {
                assert(m[i].id != m[k].id);
            } else if k < i {
                assert(m[k].id != m[i].id);
            }
        }
    }
}

/// Up to five logs stay open, whatever they hold, as long as their names
/// differ.
pub proof fn five_logs_stay_open(m: Seq<SessionModel>)
    requires
        forall|i: int, j: int|
            0 <= i < j < m.len() ==> (#[trigger] m[i]).id != (#[trigger] m[j]).id,
    ensures
        is_session_list(m) <==> m.len() <= 5,
{
}

} // verus!
