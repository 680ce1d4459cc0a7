use dusk::format::cpio::find_file;

fn entry(name: &str, data: &[u8]) -> Vec<u8> {
    let mut out = Vec::new();
    let namesize = name.len() + 1;
    let fields = [0usize, 0o100644, 0, 0, 1, 0, data.len(), 0, 0, 0, 0, namesize, 0];
    out.extend_from_slice(b"070701");
    for f in fields {
        out.extend_from_slice(format!("{:08x}", f).as_bytes());
    }
    out.extend_from_slice(name.as_bytes());
    out.push(0);
    while out.len() % 4 != 0 {
        out.push(0);
    }
    out.extend_from_slice(data);
    while out.len() % 4 != 0 {
        out.push(0);
    }
    out
}

fn archive() -> Vec<u8> {
    let mut a = Vec::new();
    a.extend(entry("init", b"init program"));
    a.extend(entry("echo", b"echo!"));
    a.extend(entry("TRAILER!!!", b""));
    a.extend(entry("after", b"hidden"));
    a
}

#[test]
fn find_file_finds_each_file_by_name() {
    let a = archive();
    assert_eq!(find_file(&a, "init"), Some(&b"init program"[..]));
    assert_eq!(find_file(&a, "echo"), Some(&b"echo!"[..]));
}

#[test]
fn find_file_stops_at_the_trailer() {
    let a = archive();
    assert_eq!(find_file(&a, "after"), None);
    assert_eq!(find_file(&a, "missing"), None);
}

#[test]
fn find_file_refuses_a_bad_magic_or_a_truncated_archive() {
    let mut a = archive();
    a[5] = b'2';
    assert_eq!(find_file(&a, "init"), None);
    let a = archive();
    assert_eq!(find_file(&a[..100], "init"), None);
    assert_eq!(find_file(&a[..120], "init"), None);
}

#[test]
fn find_file_accepts_upper_case_hex() {
    let mut a = entry("big", b"0123456789");
    // The file size field, written in upper case.
    a[54..62].copy_from_slice(b"0000000A");
    a.extend(entry("TRAILER!!!", b""));
    assert_eq!(find_file(&a, "big"), Some(&b"0123456789"[..]));
}
