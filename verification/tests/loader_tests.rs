use aur_check_rebuild::loader::{get_needed_shared_objects, is_elf, load_ld_cache, needed_from_elf, DynamicEntry, DT_NEEDED};

const LDCONFIG: &str = "1234 libs found in cache `/etc/ld.so.cache'\n\
\tlibz.so.1 (libc6,x86-64) => /usr/lib/libz.so.1\n\
\tlibz.so.1 (libc6) => /usr/lib32/libz.so.1\n\
\tlibfoo.so (libc6,x86-64, OS ABI: Linux 3.2.0) => /usr/lib/libfoo.so => extra\n\
\tbroken line without arrow\n\
Cache generated by: ldconfig (GNU libc) stable release version 2.40\n";

#[test]
fn ld_cache_splits_by_word_size() {
    let ld = load_ld_cache(LDCONFIG);
    assert_eq!(ld.lib64.get("libz.so.1"), Some(&"/usr/lib/libz.so.1".to_string()));
    assert_eq!(ld.lib32.get("libz.so.1"), Some(&"/usr/lib32/libz.so.1".to_string()));
    assert_eq!(ld.lib64.get("libfoo.so"), Some(&"/usr/lib/libfoo.so".to_string()));
    assert_eq!(ld.lib64.len(), 2);
    assert_eq!(ld.lib32.len(), 1);
}

#[test]
fn ld_cache_skips_its_first_line() {
    let ld = load_ld_cache("libx.so (x86-64) => /a\nlibx.so (x86-64) => /b\n");
    assert_eq!(ld.lib64.get("libx.so"), Some(&"/b".to_string()));
    assert_eq!(ld.lib64.len(), 1);
    let empty = load_ld_cache("");
    assert_eq!(empty.lib32.len() + empty.lib64.len(), 0);
}

#[test]
fn elf_class_is_read_from_the_header() {
    assert_eq!(is_elf(b"\x7fELF\x02\x01"), Some(64));
    assert_eq!(is_elf(b"\x7fELF\x01"), Some(32));
    assert_eq!(is_elf(b"\x7fELF\x03"), None);
    assert_eq!(is_elf(b"\x7fELF"), None);
    assert_eq!(is_elf(b"#!/bin/sh\n"), None);
}

#[test]
fn needed_objects_of_a_non_elf_file_are_none() {
    let ld = load_ld_cache(LDCONFIG);
    assert!(get_needed_shared_objects(b"#!/bin/sh\necho hi\n", &ld).is_empty());
    assert!(get_needed_shared_objects(b"\x7fELF\x02\x01\x01", &ld).is_empty());
}

#[test]
fn needed_entries_are_resolved_in_the_cache_of_their_word_size() {
    let ld = load_ld_cache(LDCONFIG);
    let entries = Some(vec![
        DynamicEntry { tag: DT_NEEDED, value: 1, name: Some("libz.so.1".to_string()) },
        DynamicEntry { tag: 14, value: 11, name: Some("libfoo.so".to_string()) },
        DynamicEntry { tag: DT_NEEDED, value: 11, name: Some("libfoo.so".to_string()) },
        DynamicEntry { tag: DT_NEEDED, value: 21, name: Some("libmissing.so".to_string()) },
        DynamicEntry { tag: DT_NEEDED, value: 99, name: None },
    ]);
    assert_eq!(needed_from_elf(64, &entries, &ld), vec!["/usr/lib/libz.so.1".to_string(), "/usr/lib/libfoo.so".to_string()]);
    assert_eq!(needed_from_elf(32, &entries, &ld), vec!["/usr/lib32/libz.so.1".to_string()]);
    assert!(needed_from_elf(64, &None, &ld).is_empty());
}

/// A minimal 64-bit little-endian ELF file whose dynamic section names
/// `needed` as needed libraries.
fn tiny_elf(needed: &[&str]) -> Vec<u8> {
    fn u16le(b: &mut Vec<u8>, v: u16) {
        b.extend_from_slice(&v.to_le_bytes());
    }
    fn u32le(b: &mut Vec<u8>, v: u32) {
        b.extend_from_slice(&v.to_le_bytes());
    }
    fn u64le(b: &mut Vec<u8>, v: u64) {
        b.extend_from_slice(&v.to_le_bytes());
    }
    let mut strtab = vec![0u8];
    let mut offsets = Vec::new();
    for n in needed {
        offsets.push(strtab.len() as u64);
        strtab.extend_from_slice(n.as_bytes());
        strtab.push(0);
    }
    let dyn_off: u64 = 64 + 2 * 56;
    let dyn_count = needed.len() as u64 + 3;
    let str_off = dyn_off + dyn_count * 16;
    let total = str_off + strtab.len() as u64;

    let mut b = vec![0x7f, b'E', b'L', b'F', 2, 1, 1, 0, 0, 0, 0, 0, 0, 0, 0, 0];
    u16le(&mut b, 2);
    u16le(&mut b, 0x3e);
    u32le(&mut b, 1);
    u64le(&mut b, 0);
    u64le(&mut b, 64);
    u64le(&mut b, 0);
    u32le(&mut b, 0);
    u16le(&mut b, 64);
    u16le(&mut b, 56);
    u16le(&mut b, 2);
    u16le(&mut b, 64);
    u16le(&mut b, 0);
    u16le(&mut b, 0);
    // PT_LOAD over the whole file
    u32le(&mut b, 1);
    u32le(&mut b, 4);
    for v in [0, 0, 0, total, total, 0x1000] {
        u64le(&mut b, v);
    }
    // PT_DYNAMIC
    u32le(&mut b, 2);
    u32le(&mut b, 4);
    for v in [dyn_off, dyn_off, dyn_off, dyn_count * 16, dyn_count * 16, 8] {
        u64le(&mut b, v);
    }
    for off in &offsets {
        u64le(&mut b, 1);
        u64le(&mut b, *off);
    }
    u64le(&mut b, 5);
    u64le(&mut b, str_off);
    u64le(&mut b, 10);
    u64le(&mut b, strtab.len() as u64);
    u64le(&mut b, 0);
    u64le(&mut b, 0);
    b.extend_from_slice(&strtab);
    assert_eq!(b.len() as u64, total);
    b
}

#[test]
fn needed_objects_of_an_elf_file_come_from_its_dynamic_section() {
    let ld = load_ld_cache(LDCONFIG);
    let elf = tiny_elf(&["libz.so.1", "libnotcached.so", "libfoo.so"]);
    assert_eq!(is_elf(&elf), Some(64));
    assert_eq!(
        get_needed_shared_objects(&elf, &ld),
        vec!["/usr/lib/libz.so.1".to_string(), "/usr/lib/libfoo.so".to_string()]
    );
    assert!(get_needed_shared_objects(&tiny_elf(&[]), &ld).is_empty());
}
