use taproot::maps::{
    dladdr_lookup, hexval, parse_line, path_eq, phdr_callback_step, phdr_objects, Line, PathRef,
};

const MAPS: &[u8] = b"00400000-00452000 r-xp 00000000 08:02 173521 /usr/bin/dbus-daemon\n\
00651000-00652000 r--p 00051000 08:02 173521 /usr/bin/dbus-daemon\n\
00652000-00655000 rw-p 00052000 08:02 173521 /usr/bin/dbus-daemon\n\
00e03000-00e24000 rw-p 00000000 00:00 0 [heap]\n\
7f0000000000-7f0000001000 ---p 00000000 08:02 99 /lib/libc.so\n\
7f0000001000-7f0000002000 r--p 00001000 08:02 99 /lib/libc.so\n";

/// The path of the line that starts at `line_start`.
fn path_of(d: &[u8], line_start: usize) -> PathRef {
    let end = line_start + d[line_start..].iter().position(|&b| b == b'\n').unwrap_or(d.len() - line_start);
    let slash = line_start + d[line_start..end].iter().position(|&b| b == b'/').unwrap();
    PathRef { offset: slash, len: end - slash }
}

fn line_starts(d: &[u8]) -> Vec<usize> {
    let mut v = vec![0];
    for (i, &b) in d.iter().enumerate() {
        if b == b'\n' && i + 1 < d.len() {
            v.push(i + 1);
        }
    }
    v
}

#[test]
fn hex_digits() {
    assert_eq!(hexval(b'0'), Some(0));
    assert_eq!(hexval(b'9'), Some(9));
    assert_eq!(hexval(b'a'), Some(10));
    assert_eq!(hexval(b'F'), Some(15));
    assert_eq!(hexval(b'g'), None);
    assert_eq!(hexval(b'-'), None);
}

#[test]
fn parses_a_maps_line() {
    let starts = line_starts(MAPS);
    let (l, next) = parse_line(MAPS, 0).unwrap();
    assert_eq!(
        l,
        Line { start: 0x400000, end: 0x452000, readable: true, path: Some(path_of(MAPS, 0)) }
    );
    assert_eq!(next, starts[1]);
    assert_eq!(&MAPS[path_of(MAPS, 0).offset..][..20], b"/usr/bin/dbus-daemon");
    // The heap line has no path.
    let (heap, _) = parse_line(MAPS, starts[3]).unwrap();
    assert_eq!(heap, Line { start: 0xe03000, end: 0xe24000, readable: true, path: None });
    // A line without read permission.
    let (libc_line, _) = parse_line(MAPS, starts[4]).unwrap();
    assert!(!libc_line.readable);
    assert_eq!(libc_line.start, 0x7f0000000000);
    // Past the end there is no line.
    assert_eq!(parse_line(MAPS, MAPS.len()), None);
}

#[test]
fn malformed_line_reads_as_empty_and_resyncs() {
    let d = b"garbage here\n1000-2000 r-xp 0 0:0 1 /x\n";
    let (l, next) = parse_line(d, 0).unwrap();
    assert_eq!(l, Line { start: 0, end: 0, readable: false, path: None });
    assert_eq!(next, 13);
    let (l2, next2) = parse_line(d, next).unwrap();
    assert_eq!(l2.start, 0x1000);
    assert_eq!(l2.end, 0x2000);
    assert_eq!(l2.path, Some(PathRef { offset: 36, len: 2 }));
    assert_eq!(next2, d.len());
}

#[test]
fn last_line_without_newline() {
    let d = b"10-20 r-xp 0 0:0 1 /a/b";
    let (l, next) = parse_line(d, 0).unwrap();
    assert_eq!(l.path, Some(PathRef { offset: 19, len: 4 }));
    assert_eq!(next, d.len());
}

#[test]
fn dladdr_finds_object_and_base() {
    let starts = line_starts(MAPS);
    // An address in the second mapping of dbus-daemon: the base is its
    // lowest mapping.
    assert_eq!(dladdr_lookup(MAPS, 0x651500), Some((path_of(MAPS, starts[1]), 0x400000)));
    assert_eq!(dladdr_lookup(MAPS, 0x400000), Some((path_of(MAPS, 0), 0x400000)));
    assert_eq!(
        dladdr_lookup(MAPS, 0x7f0000001800),
        Some((path_of(MAPS, starts[5]), 0x7f0000000000))
    );
    // Anonymous mappings and unmapped addresses have no object.
    assert_eq!(dladdr_lookup(MAPS, 0xe03100), None);
    assert_eq!(dladdr_lookup(MAPS, 0x10), None);
    // The end of a range is outside it.
    assert_eq!(dladdr_lookup(MAPS, 0x452000), None);
}

#[test]
fn phdr_objects_reports_each_object_once() {
    let starts = line_starts(MAPS);
    let all = phdr_objects(MAPS, false);
    assert_eq!(all.len(), 2);
    assert_eq!(all[0], parse_line(MAPS, 0).unwrap().0);
    assert_eq!(all[1], parse_line(MAPS, starts[4]).unwrap().0);
    // The first mapping of libc is not readable, and only the first mapping
    // of an object is offered.
    let readable = phdr_objects(MAPS, true);
    assert_eq!(readable, vec![parse_line(MAPS, 0).unwrap().0]);
    assert_eq!(phdr_objects(b"", true), vec![]);
}

#[test]
fn paths_compare_by_bytes() {
    let starts = line_starts(MAPS);
    assert!(path_eq(MAPS, path_of(MAPS, 0), path_of(MAPS, starts[2])));
    assert!(!path_eq(MAPS, path_of(MAPS, 0), path_of(MAPS, starts[4])));
}

#[test]
fn phdr_objects_remembers_every_path() {
    // More distinct objects than any fixed table would hold, then the first
    // one mapped again: it is not offered a second time.
    let mut d: Vec<u8> = Vec::new();
    for k in 0..600u32 {
        d.extend_from_slice(format!("{:x}000-{:x}000 r--p 00000000 08:02 1 /lib/o{}.so\n", k + 1, k + 2, k).as_bytes());
    }
    d.extend_from_slice(b"fff000-fff100 r--p 00000000 08:02 1 /lib/o0.so\n");
    let all = phdr_objects(&d, true);
    assert_eq!(all.len(), 600);
    assert_eq!(all[0], parse_line(&d, 0).unwrap().0);
}

/// Offer `n` objects to a callback answering `answers`, the way
/// `dl_iterate_phdr` does: the result and the number of calls made.
fn walk(answers: &[i32]) -> (i32, usize) {
    for (k, &a) in answers.iter().enumerate() {
        if let Some(r) = phdr_callback_step(a) {
            return (r, k + 1);
        }
    }
    (0, answers.len())
}

#[test]
fn callback_walk_stops_at_the_first_nonzero_answer() {
    assert_eq!(phdr_callback_step(0), None);
    assert_eq!(phdr_callback_step(-3), Some(-3));
    assert_eq!(walk(&[0, 0, 7, 9]), (7, 3));
    assert_eq!(walk(&[0, 0]), (0, 2));
    assert_eq!(walk(&[]), (0, 0));
}
