//! Laws of the descriptor tracker: the live-id invariant, and how the live
//! id set tracks well-formed open/close event sequences.

use vstd::prelude::*;

use crate::tracker::{EventerV, EventV, FDInfoV, step, close_all_spec, new_fd_spec,
    close_fd_spec, note_syscall, assoc_index, lemma_assoc_index, initial_eventer};
use crate::numparse::{parse_usize_spec, parse_i64_spec};

verus! {

/// The set of descriptor ids that are live in the table.
pub open spec fn open_ids(es: Seq<(usize, FDInfoV)>) -> Set<usize> {
    Set::new(|id: usize| exists|i: int| 0 <= i < es.len() && es[i].0 == id)
}

/// The tracker's structural invariant: a live id names exactly one entry.
pub open spec fn tracker_wf(s: EventerV) -> bool {
    forall|i: int, j: int|
        0 <= i < j < s.open_fds.len() ==> s.open_fds[i].0 != s.open_fds[j].0
}

/// The freshly seeded tracker satisfies the invariant.
pub proof fn lemma_initial_wf()
    ensures
        tracker_wf(initial_eventer()),
{
}

/// Registering any descriptor keeps ids unique: a conflicting id is replaced
/// in its slot, a fresh id is appended.
proof fn lemma_new_fd_wf(s: EventerV, id: usize, f: FDInfoV)
    requires
        tracker_wf(s),
    ensures
        tracker_wf(new_fd_spec(s, id, f).0),
        open_ids(new_fd_spec(s, id, f).0.open_fds) =~= open_ids(s.open_fds).insert(id),
{
    lemma_assoc_index(s.open_fds, id);
    let es2 = new_fd_spec(s, id, f).0.open_fds;
    let j = assoc_index(s.open_fds, id);
    if j >= 0 {
        assert forall|x: usize| open_ids(es2).contains(x) implies open_ids(s.open_fds).insert(
            id,
        ).contains(x) by {
            let i = choose|i: int| 0 <= i < es2.len() && es2[i].0 == x;
            if i != j {
                assert(s.open_fds[i].0 == x);
            }
        }
        assert forall|x: usize| open_ids(s.open_fds).insert(id).contains(x) implies open_ids(
            es2,
        ).contains(x) by {
            if x == id {
                assert(es2[j].0 == x);
            } else {
                let i = choose|i: int| 0 <= i < s.open_fds.len() && s.open_fds[i].0 == x;
                assert(es2[i].0 == x);
            }
        }
    } else {
        assert forall|x: usize| open_ids(s.open_fds).insert(id).contains(x) implies open_ids(
            es2,
        ).contains(x) by {
            if x == id {
                assert(es2[es2.len() - 1].0 == x);
            } else {
                let i = choose|i: int| 0 <= i < s.open_fds.len() && s.open_fds[i].0 == x;
                assert(es2[i].0 == x);
            }
        }
    }
}

/// Closing any id keeps ids unique; a live id leaves the set, a dead one
/// changes nothing.
proof fn lemma_close_fd_wf(s: EventerV, id: usize)
    requires
        tracker_wf(s),
    ensures
        tracker_wf(close_fd_spec(s, id).0),
        assoc_index(s.open_fds, id) >= 0 ==> open_ids(close_fd_spec(s, id).0.open_fds)
            =~= open_ids(s.open_fds).remove(id),
        assoc_index(s.open_fds, id) < 0 ==> close_fd_spec(s, id).0 == s,
{
    lemma_assoc_index(s.open_fds, id);
    let j = assoc_index(s.open_fds, id);
    if j >= 0 {
        let es2 = close_fd_spec(s, id).0.open_fds;
        assert forall|x: usize| open_ids(es2).contains(x) implies open_ids(s.open_fds).remove(
            id,
        ).contains(x) by {
            let i = choose|i: int| 0 <= i < es2.len() && es2[i].0 == x;
            if i < j {
                assert(s.open_fds[i].0 == x);
            } else {
                assert(s.open_fds[i + 1].0 == x);
            }
        }
        assert forall|x: usize| open_ids(s.open_fds).remove(id).contains(x) implies open_ids(
            es2,
        ).contains(x) by {
            let i = choose|i: int| 0 <= i < s.open_fds.len() && s.open_fds[i].0 == x;
            assert(s.open_fds[j].0 == id);
            assert(i != j);
            if i < j {
                assert(es2[i].0 == x);
            } else {
                assert(es2[i - 1].0 == x);
            }
        }
    }
}

/// Every event, well-formed or not, preserves the live-id invariant: this is
/// the tracker's structural invariant over any trace.
pub proof fn lemma_step_preserves_wf(s: EventerV, ev: EventV)
    requires
        tracker_wf(s),
    ensures
        tracker_wf(step(s, ev).0),
{
    let s1 = note_syscall(s, ev.syscall);
    assert(s1.open_fds == s.open_fds);
    if ev.syscall == "openat"@ || ev.syscall == "open"@ {
        if ev.args.len() >= 3 {
            let raw = if ev.syscall == "openat"@ {
                ev.args[1]
            } else {
                ev.args[0]
            };
            let fl = if ev.syscall == "openat"@ {
                ev.args[2]
            } else {
                ev.args[1]
            };
            if !(ev.result.len() > 0 && ev.result[0] == '-') {
                match parse_usize_spec(ev.result) {
                    Some(fd) => {
                        lemma_new_fd_wf(
                            s1,
                            fd,
                            FDInfoV::File {
                                path: crate::strutil::trim_char_spec(raw, '"'),
                                flags: fl,
                            },
                        );
                    },
                    None => {},
                }
            }
        }
    } else if ev.syscall == "close"@ {
        if ev.args.len() >= 1 {
            match parse_usize_spec(ev.args[0]) {
                Some(fd) => {
                    lemma_close_fd_wf(s1, fd);
                },
                None => {},
            }
        }
    } else if ev.syscall == "pipe"@ || ev.syscall == "pipe2"@ {
        if ev.args.len() >= 3 {
            match parse_usize_spec(crate::strutil::trim_char_spec(ev.args[0], '[')) {
                Some(read_end) => {
                    match parse_usize_spec(crate::strutil::trim_char_spec(ev.args[1], ']')) {
                        Some(write_end) => {
                            let f1 = FDInfoV::Pipe { flags: "O_RDONLY"@ };
                            let f2 = FDInfoV::Pipe { flags: "O_WRONLY"@ };
                            lemma_new_fd_wf(s1, read_end, f1);
                            let (s2, r1) = new_fd_spec(s1, read_end, f1);
                            if !(r1 is Err) {
                                lemma_new_fd_wf(s2, write_end, f2);
                            }
                        },
                        None => {},
                    }
                },
                None => {},
            }
        }
    } else if ev.syscall == "socket"@ {
        if ev.args.len() >= 3 {
            match parse_usize_spec(ev.result) {
                Some(fd) => {
                    lemma_new_fd_wf(s1, fd, FDInfoV::Socket);
                },
                None => {},
            }
        }
    }
}

/// The tracker's state after replaying a whole event sequence.
pub open spec fn replay(s: EventerV, evs: Seq<EventV>) -> EventerV
    decreases evs.len(),
{
    if evs.len() == 0 {
        s
    } else {
        replay(step(s, evs[0]).0, evs.drop_first())
    }
}

/// A well-formed open: enough arguments, a supported relative-to flag, a
/// non-negative return value that parses, and an id not currently live.
pub open spec fn wf_open_event(s: EventerV, ev: EventV) -> bool {
    &&& (ev.syscall == "open"@ || ev.syscall == "openat"@)
    &&& ev.args.len() >= 3
    &&& (ev.syscall == "openat"@ ==> ev.args[0] == "AT_FDCWD"@)
    &&& !(ev.result.len() > 0 && ev.result[0] == '-')
    &&& match parse_usize_spec(ev.result) {
        Some(fd) => !open_ids(s.open_fds).contains(fd),
        None => false,
    }
}

/// A well-formed close: an id argument that parses to a live id, and a zero
/// return value.
pub open spec fn wf_close_event(s: EventerV, ev: EventV) -> bool {
    &&& ev.syscall == "close"@
    &&& ev.args.len() >= 1
    &&& match parse_usize_spec(ev.args[0]) {
        Some(fd) => open_ids(s.open_fds).contains(fd),
        None => false,
    }
    &&& parse_i64_spec(ev.result) == Some(0i64)
}

/// Every event of the sequence is a well-formed open or close for the state
/// it meets.
pub open spec fn wf_open_close_seq(s: EventerV, evs: Seq<EventV>) -> bool
    decreases evs.len(),
{
    evs.len() == 0 || {
        &&& (wf_open_event(s, evs[0]) || wf_close_event(s, evs[0]))
        &&& wf_open_close_seq(step(s, evs[0]).0, evs.drop_first())
    }
}

/// The ids opened but not since closed: each open event adds its returned
/// id, each close event removes its argument id.
pub open spec fn expected_ids(ids: Set<usize>, evs: Seq<EventV>) -> Set<usize>
    decreases evs.len(),
{
    if evs.len() == 0 {
        ids
    } else {
        let ev = evs[0];
        let ids1 = if ev.syscall == "close"@ {
            match parse_usize_spec(ev.args[0]) {
                Some(fd) => ids.remove(fd),
                None => ids,
            }
        } else {
            match parse_usize_spec(ev.result) {
                Some(fd) => ids.insert(fd),
                None => ids,
            }
        };
        expected_ids(ids1, evs.drop_first())
    }
}

/// Law: over any well-formed sequence of open and close events the live id
/// set is exactly the ids opened and not since closed, no id names two live
/// entries, and the end-of-stream flush empties the table into the closed
/// list, appending exactly one description per live entry, in table order.
pub proof fn lemma_open_close_tracking(s: EventerV, evs: Seq<EventV>)
    requires
        tracker_wf(s),
        wf_open_close_seq(s, evs),
    ensures
        ({
            let t = replay(s, evs);
            &&& tracker_wf(t)
            &&& open_ids(t.open_fds) == expected_ids(open_ids(s.open_fds), evs)
            &&& close_all_spec(t).open_fds.len() == 0
            &&& close_all_spec(t).closed_fds == t.closed_fds + t.open_fds.map_values(
                |p: (usize, FDInfoV)| p.1,
            )
        }),
    decreases evs.len(),
{
    reveal_strlit("open");
    reveal_strlit("openat");
    reveal_strlit("close");
    assert("open"@.len() == 4);
    assert("openat"@.len() == 6);
    assert("close"@.len() == 5);
    if evs.len() > 0 {
        let ev = evs[0];
        let s1 = note_syscall(s, ev.syscall);
        lemma_step_preserves_wf(s, ev);
        if wf_open_event(s, ev) {
            let fd = parse_usize_spec(ev.result).unwrap();
            let raw = if ev.syscall == "openat"@ {
                ev.args[1]
            } else {
                ev.args[0]
            };
            let fl = if ev.syscall == "openat"@ {
                ev.args[2]
            } else {
                ev.args[1]
            };
            lemma_new_fd_wf(
                s1,
                fd,
                FDInfoV::File { path: crate::strutil::trim_char_spec(raw, '"'), flags: fl },
            );
            assert(open_ids(step(s, ev).0.open_fds) == open_ids(s.open_fds).insert(fd));
        } else {
            let fd = parse_usize_spec(ev.args[0]).unwrap();
            assert(wf_close_event(s, ev));
            assert(ev.syscall != "openat"@ && ev.syscall != "open"@);
            assert(step(s, ev).0 == close_fd_spec(s1, fd).0);
            assert(open_ids(s1.open_fds).contains(fd));
            lemma_assoc_index(s1.open_fds, fd);
            assert(assoc_index(s1.open_fds, fd) >= 0);
            lemma_close_fd_wf(s1, fd);
            assert(open_ids(step(s, ev).0.open_fds) == open_ids(s.open_fds).remove(fd));
        }
        lemma_open_close_tracking(step(s, ev).0, evs.drop_first());
    }
}

} // verus!
