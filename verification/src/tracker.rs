//! The descriptor tracker: a sequential state machine that replays syscall
//! events and keeps the live descriptor table and the closed-descriptor list.

use vstd::prelude::*;

use crate::strutil::{str_eq, starts_with_char, trim_char, trim_char_spec};
use crate::numparse::{parse_usize, parse_i64, parse_usize_spec, parse_i64_spec};

verus! {

/// One parsed trace line: the syscall's name, its raw argument strings, and
/// its raw return-value string.
#[derive(Debug)]
pub struct StraceEvent<'a> {
    pub syscall: &'a str,
    pub args: Vec<&'a str>,
    pub result: &'a str,
}

/// Mathematical view of a trace event.
pub struct EventV {
    pub syscall: Seq<char>,
    pub args: Seq<Seq<char>>,
    pub result: Seq<char>,
}

impl View for StraceEvent<'_> {
    type V = EventV;

    open spec fn view(&self) -> EventV {
        EventV {
            syscall: self.syscall@,
            args: Seq::new(self.args@.len(), |i: int| self.args@[i]@),
            result: self.result@,
        }
    }
}

/// What is known about one open descriptor.
#[derive(Debug, Clone, PartialEq)]
pub enum FDInfo {
    File { path: String, flags: String },
    Stdio { name: String },
    Pipe { flags: String },
    Socket,
    Other,
}

/// Mathematical view of a descriptor description.
pub enum FDInfoV {
    File { path: Seq<char>, flags: Seq<char> },
    Stdio { name: Seq<char> },
    Pipe { flags: Seq<char> },
    Socket,
    Other,
}

impl View for FDInfo {
    type V = FDInfoV;

    open spec fn view(&self) -> FDInfoV {
        match self {
            FDInfo::File { path, flags } => FDInfoV::File { path: path@, flags: flags@ },
            FDInfo::Stdio { name } => FDInfoV::Stdio { name: name@ },
            FDInfo::Pipe { flags } => FDInfoV::Pipe { flags: flags@ },
            FDInfo::Socket => FDInfoV::Socket,
            FDInfo::Other => FDInfoV::Other,
        }
    }
}

/// The views of a sequence of descriptor descriptions.
pub open spec fn fds_view(s: Seq<FDInfo>) -> Seq<FDInfoV> {
    s.map_values(|f: FDInfo| f@)
}

/// The display name of a descriptor: the file's path, the stream's name, or
/// a fixed placeholder.
pub open spec fn fd_name_spec(f: FDInfoV) -> Seq<char> {
    match f {
        FDInfoV::File { path, .. } => path,
        FDInfoV::Stdio { name } => name,
        FDInfoV::Pipe { .. } => "(pipe)"@,
        FDInfoV::Socket => "(socket)"@,
        FDInfoV::Other => "(unknown)"@,
    }
}

impl FDInfo {
    /// A regular-file description: the path text with surrounding quote
    /// characters removed, plus the raw open-flags text. The caller hands in
    /// canonical absolute paths; canonicalization itself is its concern.
    pub fn new_file(name: &str, flags: &str) -> (f: FDInfo)
        ensures
            f@ == (FDInfoV::File { path: trim_char_spec(name@, '"'), flags: flags@ }),
    {
        FDInfo::File { path: trim_char(name, '"'), flags: flags.to_owned() }
    }

    /// The descriptor's display name.
    pub fn name(&self) -> (r: &str)
        ensures
            r@ == fd_name_spec(self@),
    {
        match self {
            FDInfo::File { path, .. } => path.as_str(),
            FDInfo::Stdio { name } => name.as_str(),
            FDInfo::Pipe { .. } => "(pipe)",
            FDInfo::Socket => "(socket)",
            FDInfo::Other => "(unknown)",
        }
    }
}

/// A recoverable fault in one trace event.
#[derive(Debug, Clone, Copy, PartialEq, Eq, Structural)]
pub enum ProcessError {
    /// A numeric field did not parse as an integer.
    BadResult,
    /// Fewer argument strings than the syscall's shape requires: expected,
    /// then actual count.
    TooShort(usize, usize),
    /// A close or access named a descriptor id that is not open.
    UseEmptyFD(usize),
    /// An open registered onto a descriptor id that is still open.
    OverwriteFD(usize),
}

impl ProcessError {
    /// Checks that at least `req` arguments are present.
    pub fn check_len<T>(req: usize, args: &[T]) -> (r: Result<(), ProcessError>)
        ensures
            r == (if args@.len() < req {
                Err::<(), ProcessError>(ProcessError::TooShort(req, args@.len() as usize))
            } else {
                Ok::<(), ProcessError>(())
            }),
    {
        let len = args.len();
        if len < req {
            Err(ProcessError::TooShort(req, len))
        } else {
            Ok(())
        }
    }
}

/// Mathematical view of the tracker's whole state.
pub struct EventerV {
    /// Every syscall name seen so far, first occurrences in order.
    pub syscalls: Seq<Seq<char>>,
    /// The live descriptor table: id and description, in registration order.
    pub open_fds: Seq<(usize, FDInfoV)>,
    /// Descriptions that have left the live table, in leaving order.
    pub closed_fds: Seq<FDInfoV>,
    /// The observation lines emitted so far.
    pub log: Seq<Seq<char>>,
}

/// Index of the first live entry for `id`, or -1 if `id` is not open.
pub open spec fn assoc_index(es: Seq<(usize, FDInfoV)>, id: usize) -> int
    decreases es.len(),
{
    if es.len() == 0 {
        -1
    } else if es[0].0 == id {
        0
    } else {
        let r = assoc_index(es.drop_first(), id);
        if r < 0 {
            -1
        } else {
            r + 1
        }
    }
}

/// `assoc_index` returns -1 exactly when the id is absent, and otherwise the
/// least index carrying it.
pub proof fn lemma_assoc_index(es: Seq<(usize, FDInfoV)>, id: usize)
    ensures
        assoc_index(es, id) >= -1,
        assoc_index(es, id) == -1 <==> (forall|i: int| 0 <= i < es.len() ==> es[i].0 != id),
        assoc_index(es, id) >= 0 ==> {
            &&& assoc_index(es, id) < es.len()
            &&& es[assoc_index(es, id)].0 == id
            &&& forall|i: int| 0 <= i < assoc_index(es, id) ==> es[i].0 != id
        },
    decreases es.len(),
{
    if es.len() > 0 && es[0].0 != id {
        lemma_assoc_index(es.drop_first(), id);
        assert forall|i: int| 0 <= i < es.len() && es[i].0 == id implies assoc_index(es, id)
            != -1 by {
            if i > 0 {
                assert(es.drop_first()[i - 1].0 == id);
            }
        }
        assert forall|i: int| 0 <= i < assoc_index(es, id) implies es[i].0 != id by {
            if i > 0 {
                assert(es.drop_first()[i - 1] == es[i]);
            }
        }
    }
}

/// Whether `x` occurs among `s`.
pub open spec fn contains_str(s: Seq<Seq<char>>, x: Seq<char>) -> bool {
    exists|i: int| 0 <= i < s.len() && s[i] == x
}

/// The state with `name` recorded in the seen-syscalls list.
pub open spec fn note_syscall(s: EventerV, name: Seq<char>) -> EventerV {
    if contains_str(s.syscalls, name) {
        s
    } else {
        EventerV { syscalls: s.syscalls.push(name), ..s }
    }
}

/// One observation line: the action column followed by the resource name.
pub open spec fn obs_line(action: Seq<char>, f: FDInfoV) -> Seq<char> {
    action + fd_name_spec(f)
}

/// Registering a new descriptor: the observation is logged; a live entry at
/// the same id is dislodged into the closed list (a reported conflict), and
/// the new description takes its slot; otherwise the entry is appended.
pub open spec fn new_fd_spec(s: EventerV, id: usize, f: FDInfoV) -> (EventerV, Result<
    (),
    ProcessError,
>) {
    let log = s.log.push(obs_line("OPEN    "@, f));
    let j = assoc_index(s.open_fds, id);
    if j >= 0 {
        (
            EventerV {
                open_fds: s.open_fds.update(j, (id, f)),
                closed_fds: s.closed_fds.push(s.open_fds[j].1),
                log,
                ..s
            },
            Err(ProcessError::OverwriteFD(id)),
        )
    } else {
        (EventerV { open_fds: s.open_fds.push((id, f)), log, ..s }, Ok(()))
    }
}

/// Closing a descriptor: a live entry moves to the closed list; closing an
/// id that is not open is a reported inconsistency and changes nothing.
pub open spec fn close_fd_spec(s: EventerV, id: usize) -> (EventerV, Result<(), ProcessError>) {
    let j = assoc_index(s.open_fds, id);
    if j >= 0 {
        (
            EventerV {
                open_fds: s.open_fds.remove(j),
                closed_fds: s.closed_fds.push(s.open_fds[j].1),
                log: s.log.push(obs_line("CLOSE   "@, s.open_fds[j].1)),
                ..s
            },
            Ok(()),
        )
    } else {
        (s, Err(ProcessError::UseEmptyFD(id)))
    }
}

/// An access observation: logged against a live descriptor; an id that is
/// not open is a reported inconsistency and changes nothing.
pub open spec fn fd_event_spec(s: EventerV, id: usize, action: Seq<char>) -> (EventerV, Result<
    (),
    ProcessError,
>) {
    let j = assoc_index(s.open_fds, id);
    if j >= 0 {
        (EventerV { log: s.log.push(obs_line(action, s.open_fds[j].1)), ..s }, Ok(()))
    } else {
        (s, Err(ProcessError::UseEmptyFD(id)))
    }
}

/// A successful open or openat: a negative return value registers nothing; a
/// well-formed one registers a regular file under the returned id.
pub open spec fn step_open_file(
    s: EventerV,
    rawpath: Seq<char>,
    flags: Seq<char>,
    result: Seq<char>,
) -> (EventerV, Result<(), ProcessError>) {
    if result.len() > 0 && result[0] == '-' {
        (s, Ok(()))
    } else {
        match parse_usize_spec(result) {
            None => (s, Err(ProcessError::BadResult)),
            Some(fd) => new_fd_spec(
                s,
                fd,
                FDInfoV::File { path: trim_char_spec(rawpath, '"'), flags },
            ),
        }
    }
}

/// The tracker's transition function: the state after one event, and what
/// `process` reports for it.
pub open spec fn step(s: EventerV, ev: EventV) -> (EventerV, Result<(), ProcessError>) {
    let s1 = note_syscall(s, ev.syscall);
    if ev.syscall == "openat"@ {
        if ev.args.len() < 3 {
            (s1, Err(ProcessError::TooShort(3, ev.args.len() as usize)))
        } else {
            step_open_file(s1, ev.args[1], ev.args[2], ev.result)
        }
    } else if ev.syscall == "open"@ {
        if ev.args.len() < 3 {
            (s1, Err(ProcessError::TooShort(3, ev.args.len() as usize)))
        } else {
            step_open_file(s1, ev.args[0], ev.args[1], ev.result)
        }
    } else if ev.syscall == "close"@ {
        if ev.args.len() < 1 {
            (s1, Err(ProcessError::TooShort(1, ev.args.len() as usize)))
        } else {
            match parse_usize_spec(ev.args[0]) {
                None => (s1, Err(ProcessError::BadResult)),
                Some(fd) => match parse_i64_spec(ev.result) {
                    None => (s1, Err(ProcessError::BadResult)),
                    Some(res) => if res == 0 {
                        close_fd_spec(s1, fd)
                    } else {
                        (s1, Ok(()))
                    },
                },
            }
        }
    } else if ev.syscall == "read"@ || ev.syscall == "write"@ {
        if ev.args.len() < 1 {
            (s1, Err(ProcessError::TooShort(1, ev.args.len() as usize)))
        } else {
            match parse_usize_spec(ev.args[0]) {
                None => (s1, Err(ProcessError::BadResult)),
                Some(fd) => fd_event_spec(
                    s1,
                    fd,
                    if ev.syscall == "read"@ {
                        "READ    "@
                    } else {
                        "WRITE   "@
                    },
                ),
            }
        }
    } else if ev.syscall == "pipe"@ || ev.syscall == "pipe2"@ {
        if ev.args.len() < 3 {
            (s1, Err(ProcessError::TooShort(3, ev.args.len() as usize)))
        } else {
            match parse_usize_spec(trim_char_spec(ev.args[0], '[')) {
                None => (s1, Err(ProcessError::BadResult)),
                Some(read_end) => match parse_usize_spec(trim_char_spec(ev.args[1], ']')) {
                    None => (s1, Err(ProcessError::BadResult)),
                    Some(write_end) => {
                        let (s2, r1) = new_fd_spec(
                            s1,
                            read_end,
                            FDInfoV::Pipe { flags: "O_RDONLY"@ },
                        );
                        if r1 is Err {
                            (s2, r1)
                        } else {
                            new_fd_spec(s2, write_end, FDInfoV::Pipe { flags: "O_WRONLY"@ })
                        }
                    },
                },
            }
        }
    } else if ev.syscall == "socket"@ {
        if ev.args.len() < 3 {
            (s1, Err(ProcessError::TooShort(3, ev.args.len() as usize)))
        } else {
            match parse_usize_spec(ev.result) {
                None => (s1, Err(ProcessError::BadResult)),
                Some(fd) => new_fd_spec(s1, fd, FDInfoV::Socket),
            }
        }
    } else {
        (s1, Ok(()))
    }
}

/// The tracker accepts an event unless it is an `openat` whose relative-to
/// flag is not the current-working-directory constant; such a trace is
/// outside the supported format and the caller must refuse it.
pub open spec fn ev_supported(ev: EventV) -> bool {
    (ev.syscall == "openat"@ && ev.args.len() >= 3) ==> ev.args[0] == "AT_FDCWD"@
}

/// The tracker's state before any event: the three standard streams are
/// live at ids 0, 1 and 2, and nothing else.
pub open spec fn initial_eventer() -> EventerV {
    EventerV {
        syscalls: Seq::empty(),
        open_fds: seq![
            (0usize, FDInfoV::Stdio { name: "stdin"@ }),
            (1usize, FDInfoV::Stdio { name: "stdout"@ }),
            (2usize, FDInfoV::Stdio { name: "stderr"@ }),
        ],
        closed_fds: Seq::empty(),
        log: Seq::empty(),
    }
}

/// The state after the end-of-stream flush: nothing stays open, and every
/// live description has moved to the closed list, in table order.
pub open spec fn close_all_spec(s: EventerV) -> EventerV {
    EventerV {
        open_fds: Seq::empty(),
        closed_fds: s.closed_fds + s.open_fds.map_values(|p: (usize, FDInfoV)| p.1),
        ..s
    }
}

/// The views of the live descriptor table.
pub open spec fn open_fds_view(s: Seq<(usize, FDInfo)>) -> Seq<(usize, FDInfoV)> {
    Seq::new(s.len(), |i: int| (s[i].0, s[i].1@))
}

/// Which access a read or write event records.
enum EventType {
    Read,
    Write,
}

/// The descriptor tracker: replays trace events one at a time, keeping the
/// live descriptor table and the closed-descriptor list.
#[derive(Debug)]
pub struct Eventer {
    /// Every syscall name seen so far (for diagnostics).
    pub syscalls: Vec<String>,
    /// The live descriptor table.
    pub open_fds: Vec<(usize, FDInfo)>,
    /// Descriptions that have left the live table, in leaving order.
    pub closed_fds: Vec<FDInfo>,
    /// Observation lines, one per logged action, in event order.
    pub log: Vec<String>,
}

impl View for Eventer {
    type V = EventerV;

    open spec fn view(&self) -> EventerV {
        EventerV {
            syscalls: crate::strutil::strs_view(self.syscalls@),
            open_fds: open_fds_view(self.open_fds@),
            closed_fds: fds_view(self.closed_fds@),
            log: crate::strutil::strs_view(self.log@),
        }
    }
}

/// Whether some element of `v` equals `x`.
fn contains_string(v: &Vec<String>, x: &str) -> (r: bool)
    ensures
        r == contains_str(crate::strutil::strs_view(v@), x@),
{
    let ghost sv = crate::strutil::strs_view(v@);
    let mut k: usize = 0;
    while k < v.len()
        invariant
            sv == crate::strutil::strs_view(v@),
            sv.len() == v@.len(),
            k <= v@.len(),
            forall|i: int| 0 <= i < k ==> sv[i] != x@,
        decreases v@.len() - k,
    {
        let s = &v[k];
        if str_eq(s.as_str(), x) {
            proof {
                assert(sv[k as int] == v@[k as int]@);
                let w = k as int;
                assert(contains_str(sv, x@)) by {
                    assert(0 <= w < sv.len() && sv[w] == x@);
                }
            }
            return true;
        }
        proof {
            assert(sv[k as int] == v@[k as int]@);
        }
        k = k + 1;
    }
    false
}

/// Finds the first live entry for `id`.
fn find_fd(open_fds: &Vec<(usize, FDInfo)>, id: usize) -> (r: Option<usize>)
    ensures
        ({
            let j = assoc_index(open_fds_view(open_fds@), id);
            match r {
                Some(k) => 0 <= k < open_fds@.len() && j == k,
                None => j == -1,
            }
        }),
{
    proof {
        lemma_assoc_index(open_fds_view(open_fds@), id);
    }
    let mut k: usize = 0;
    while k < open_fds.len()
        invariant
            k <= open_fds@.len(),
            forall|i: int| 0 <= i < k ==> open_fds@[i].0 != id,
        decreases open_fds@.len() - k,
    {
        let pair = &open_fds[k];
        if pair.0 == id {
            proof {
                lemma_assoc_index(open_fds_view(open_fds@), id);
                assert(open_fds_view(open_fds@)[k as int].0 == id);
                assert(forall|i: int|
                    0 <= i < k ==> open_fds_view(open_fds@)[i].0 != id);
            }
            return Some(k);
        }
        k = k + 1;
    }
    proof {
        assert(forall|i: int|
            0 <= i < open_fds_view(open_fds@).len() ==> open_fds_view(open_fds@)[i].0 != id);
    }
    None
}

impl Eventer {
    /// A tracker with the three standard streams pre-registered.
    pub fn new() -> (e: Eventer)
        ensures
            e@ == initial_eventer(),
    {
        let mut open_fds: Vec<(usize, FDInfo)> = Vec::new();
        open_fds.push((0, FDInfo::Stdio { name: "stdin".to_owned() }));
        open_fds.push((1, FDInfo::Stdio { name: "stdout".to_owned() }));
        open_fds.push((2, FDInfo::Stdio { name: "stderr".to_owned() }));
        let e = Eventer { syscalls: Vec::new(), open_fds, closed_fds: Vec::new(), log: Vec::new() };
        proof {
            assert(e@.open_fds =~= initial_eventer().open_fds);
            assert(e@.syscalls =~= initial_eventer().syscalls);
            assert(e@.closed_fds =~= initial_eventer().closed_fds);
            assert(e@.log =~= initial_eventer().log);
        }
        e
    }

    /// Registers a new live descriptor, reporting a conflict when the id was
    /// still open; the dislodged description moves to the closed list.
    fn new_fd(&mut self, id: usize, info: FDInfo) -> (r: Result<(), ProcessError>)
        ensures
            final(self)@ == new_fd_spec(old(self)@, id, info@).0,
            r == new_fd_spec(old(self)@, id, info@).1,
    {
        let mut line = "OPEN    ".to_owned();
        line.append(info.name());
        self.log.push(line);
        proof {
            assert(crate::strutil::strs_view(self.log@) =~= old(self)@.log.push(
                obs_line("OPEN    "@, info@),
            ));
        }
        match find_fd(&self.open_fds, id) {
            Some(j) => {
                let (_, prev) = self.open_fds.remove(j);
                self.open_fds.insert(j, (id, info));
                self.closed_fds.push(prev);
                proof {
                    assert(open_fds_view(self.open_fds@) =~= old(self)@.open_fds.update(
                        j as int,
                        (id, info@),
                    ));
                    assert(fds_view(self.closed_fds@) =~= old(self)@.closed_fds.push(
                        old(self)@.open_fds[j as int].1,
                    ));
                }
                Err(ProcessError::OverwriteFD(id))
            },
            None => {
                self.open_fds.push((id, info));
                proof {
                    assert(open_fds_view(self.open_fds@) =~= old(self)@.open_fds.push(
                        (id, info@),
                    ));
                }
                Ok(())
            },
        }
    }

    /// Moves a live descriptor to the closed list; an id that is not open is
    /// a reported inconsistency.
    fn close_fd(&mut self, id: usize) -> (r: Result<(), ProcessError>)
        ensures
            final(self)@ == close_fd_spec(old(self)@, id).0,
            r == close_fd_spec(old(self)@, id).1,
    {
        match find_fd(&self.open_fds, id) {
            Some(j) => {
                let (_, info) = self.open_fds.remove(j);
                let mut line = "CLOSE   ".to_owned();
                line.append(info.name());
                self.log.push(line);
                self.closed_fds.push(info);
                proof {
                    assert(open_fds_view(self.open_fds@) =~= old(self)@.open_fds.remove(j as int));
                    assert(fds_view(self.closed_fds@) =~= old(self)@.closed_fds.push(
                        old(self)@.open_fds[j as int].1,
                    ));
                    assert(crate::strutil::strs_view(self.log@) =~= old(self)@.log.push(
                        obs_line("CLOSE   "@, old(self)@.open_fds[j as int].1),
                    ));
                }
                Ok(())
            },
            None => Err(ProcessError::UseEmptyFD(id)),
        }
    }

    /// Logs an access observation against a live descriptor; an id that is
    /// not open is a reported inconsistency.
    fn fd_event(&mut self, fd: usize, etype: EventType) -> (r: Result<(), ProcessError>)
        ensures
            ({
                let action = match etype {
                    EventType::Read => "READ    "@,
                    EventType::Write => "WRITE   "@,
                };
                &&& final(self)@ == fd_event_spec(old(self)@, fd, action).0
                &&& r == fd_event_spec(old(self)@, fd, action).1
            }),
    {
        let ghost action = match etype {
            EventType::Read => "READ    "@,
            EventType::Write => "WRITE   "@,
        };
        match find_fd(&self.open_fds, fd) {
            Some(j) => {
                let mut line = match etype {
                    EventType::Read => "READ    ".to_owned(),
                    EventType::Write => "WRITE   ".to_owned(),
                };
                let pair = &self.open_fds[j];
                line.append(pair.1.name());
                self.log.push(line);
                proof {
                    assert(old(self)@.open_fds[j as int].1 == pair.1@);
                    assert(crate::strutil::strs_view(self.log@) =~= old(self)@.log.push(
                        obs_line(action, old(self)@.open_fds[j as int].1),
                    ));
                }
                Ok(())
            },
            None => Err(ProcessError::UseEmptyFD(fd)),
        }
    }

    /// Registers a regular file for a successful open or openat; a negative
    /// return value means the call failed and nothing is registered.
    fn open_file(&mut self, rawpath: &str, flags: &str, result: &str) -> (r: Result<
        (),
        ProcessError,
    >)
        ensures
            final(self)@ == step_open_file(old(self)@, rawpath@, flags@, result@).0,
            r == step_open_file(old(self)@, rawpath@, flags@, result@).1,
    {
        if starts_with_char(result, '-') {
            return Ok(());
        }
        match parse_usize(result) {
            None => Err(ProcessError::BadResult),
            Some(fd) => self.new_fd(fd, FDInfo::new_file(rawpath, flags)),
        }
    }

    /// Replays one trace event: dispatches on the syscall name, reports any
    /// fault in the event, and leaves the state as far as the event got.
    pub fn process(&mut self, ev: StraceEvent<'_>) -> (r: Result<(), ProcessError>)
        requires
            ev_supported(ev@),
        ensures
            final(self)@ == step(old(self)@, ev@).0,
            r == step(old(self)@, ev@).1,
    {
        let ghost s0 = self@;
        if !contains_string(&self.syscalls, ev.syscall) {
            self.syscalls.push(ev.syscall.to_owned());
            proof {
                assert(crate::strutil::strs_view(self.syscalls@) =~= s0.syscalls.push(
                    ev.syscall@,
                ));
            }
        }
        proof {
            assert(self@ == note_syscall(s0, ev@.syscall));
        }
        if str_eq(ev.syscall, "openat") {
            if let Err(e) = ProcessError::check_len(3, ev.args.as_slice()) {
                return Err(e);
            }
            self.open_file(ev.args[1], ev.args[2], ev.result)
        } else if str_eq(ev.syscall, "open") {
            if let Err(e) = ProcessError::check_len(3, ev.args.as_slice()) {
                return Err(e);
            }
            self.open_file(ev.args[0], ev.args[1], ev.result)
        } else if str_eq(ev.syscall, "close") {
            if let Err(e) = ProcessError::check_len(1, ev.args.as_slice()) {
                return Err(e);
            }
            let fd = match parse_usize(ev.args[0]) {
                Some(v) => v,
                None => {
                    return Err(ProcessError::BadResult);
                },
            };
            let res = match parse_i64(ev.result) {
                Some(v) => v,
                None => {
                    return Err(ProcessError::BadResult);
                },
            };
            if res == 0 {
                self.close_fd(fd)
            } else {
                Ok(())
            }
        } else if str_eq(ev.syscall, "read") || str_eq(ev.syscall, "write") {
            if let Err(e) = ProcessError::check_len(1, ev.args.as_slice()) {
                return Err(e);
            }
            let fd = match parse_usize(ev.args[0]) {
                Some(v) => v,
                None => {
                    return Err(ProcessError::BadResult);
                },
            };
            let etype = if str_eq(ev.syscall, "read") {
                EventType::Read
            } else {
                EventType::Write
            };
            self.fd_event(fd, etype)
        } else if str_eq(ev.syscall, "pipe") || str_eq(ev.syscall, "pipe2") {
            if let Err(e) = ProcessError::check_len(3, ev.args.as_slice()) {
                return Err(e);
            }
            let read_text = trim_char(ev.args[0], '[');
            let read_end = match parse_usize(read_text.as_str()) {
                Some(v) => v,
                None => {
                    return Err(ProcessError::BadResult);
                },
            };
            let write_text = trim_char(ev.args[1], ']');
            let write_end = match parse_usize(write_text.as_str()) {
                Some(v) => v,
                None => {
                    return Err(ProcessError::BadResult);
                },
            };
            if let Err(e) = self.new_fd(read_end, FDInfo::Pipe { flags: "O_RDONLY".to_owned() }) {
                return Err(e);
            }
            self.new_fd(write_end, FDInfo::Pipe { flags: "O_WRONLY".to_owned() })
        } else if str_eq(ev.syscall, "socket") {
            if let Err(e) = ProcessError::check_len(3, ev.args.as_slice()) {
                return Err(e);
            }
            let fd = match parse_usize(ev.result) {
                Some(v) => v,
                None => {
                    return Err(ProcessError::BadResult);
                },
            };
            self.new_fd(fd, FDInfo::Socket)
        } else {
            Ok(())
        }
    }

    /// Flushes every still-open descriptor into the closed list, modeling
    /// the implicit close at process exit.
    pub fn close_all_fds(&mut self)
        ensures
            final(self)@ == close_all_spec(old(self)@),
    {
        let ghost target = close_all_spec(old(self)@);
        while self.open_fds.len() > 0
            invariant
                self@.syscalls == target.syscalls,
                self@.log == target.log,
                target.closed_fds == self@.closed_fds + self@.open_fds.map_values(
                    |p: (usize, FDInfoV)| p.1,
                ),
            decreases self.open_fds@.len(),
        {
            let ghost closed0 = self@.closed_fds;
            let ghost open0 = self@.open_fds;
            let (_, info) = self.open_fds.remove(0);
            self.closed_fds.push(info);
            proof {
                assert(fds_view(self.closed_fds@) =~= closed0.push(open0[0].1));
                assert(open_fds_view(self.open_fds@) =~= open0.drop_first());
                assert(closed0 + open0.map_values(|p: (usize, FDInfoV)| p.1) =~= closed0.push(
                    open0[0].1,
                ) + open0.drop_first().map_values(|p: (usize, FDInfoV)| p.1));
            }
        }
        proof {
            assert(self@.closed_fds + self@.open_fds.map_values(|p: (usize, FDInfoV)| p.1)
                =~= self@.closed_fds);
            assert(self@.open_fds =~= Seq::<(usize, FDInfoV)>::empty());
        }
    }
}

} // verus!
