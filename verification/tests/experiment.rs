use selfplay_lab::experiment::{
    cpu_ticks, fnv1a64, fnv_update, kib_field_bytes, lock_fingerprint, proc_field, run_dir_name,
    utc_timestamp_compact, FNV_OFFSET,
};

#[test]
fn timestamp_formatting_is_correct() {
    // 2020-01-01T00:00:00Z == 1577836800.
    assert_eq!(utc_timestamp_compact(1_577_836_800), "20200101-000000");
    assert_eq!(utc_timestamp_compact(0), "19700101-000000");
    // 2024-02-29T12:34:56Z == 1709210096 (leap day).
    assert_eq!(utc_timestamp_compact(1_709_210_096), "20240229-123456");
}

#[test]
fn fnv_is_stable() {
    assert_eq!(fnv1a64(b""), 0xcbf2_9ce4_8422_2325);
    assert_eq!(fnv1a64(b"a"), 0xaf63_dc4c_8601_ec8c);
}

#[test]
fn timestamp_end_of_day_and_far_future() {
    assert_eq!(utc_timestamp_compact(86_399), "19700101-235959");
    // 2100-03-01T00:00:00Z (2100 is not a leap year).
    assert_eq!(utc_timestamp_compact(4_107_542_400), "21000301-000000");
}

#[test]
fn fnv_of_concatenation_continues_the_hash() {
    let whole = fnv1a64(b"foobar");
    let split = fnv_update(fnv_update(FNV_OFFSET, b"foo"), b"bar");
    assert_eq!(whole, split);
    assert_eq!(fnv1a64(b"foobar"), 0x85944171f73967e8);
}

#[test]
fn run_dir_names_carry_time_label_and_commit() {
    assert_eq!(
        run_dir_name(1_577_836_800, "connectk-7x6k4g", "abc1234"),
        "20200101-000000-connectk-7x6k4g-abc1234"
    );
}

#[test]
fn lock_fingerprint_is_sixteen_hex_digits() {
    assert_eq!(lock_fingerprint(b""), "fnv1a64:cbf29ce484222325");
    assert_eq!(lock_fingerprint(b"a"), "fnv1a64:af63dc4c8601ec8c");
}

#[test]
fn proc_fields_are_found_and_trimmed() {
    let status = b"Name:\tlab\nVmPeak:\t  2048 kB\nVmHWM:\t   1536 kB\r\nVmRSS:\t 1000 kB\n";
    assert_eq!(proc_field(status, b"VmHWM"), Some(b"1536 kB".to_vec()));
    assert_eq!(kib_field_bytes(b"1536 kB"), Some(1536 * 1024));
    assert_eq!(proc_field(status, b"VmSwap"), None);
    // Only the text between the first and second colon counts.
    assert_eq!(proc_field(b"model name\t: a:b\n", b"model name"), Some(b"a".to_vec()));
    assert_eq!(proc_field(b"key without colon\n", b"key"), Some(Vec::new()));
    assert_eq!(kib_field_bytes(b"  +12 kB"), Some(12 * 1024));
    assert_eq!(kib_field_bytes(b"kB"), None);
    assert_eq!(kib_field_bytes(b""), None);
    assert_eq!(kib_field_bytes(b"18014398509481984"), None);
    assert_eq!(kib_field_bytes(b"18014398509481983"), Some(18014398509481983 * 1024));
}

#[test]
fn cpu_ticks_read_after_the_command_name() {
    let stat = b"1234 (my (odd) prog) S 1 2 3 4 5 6 7 8 9 10 250 75 0 0 20 0\n";
    assert_eq!(cpu_ticks(stat), Some((250, 75)));
    assert_eq!(cpu_ticks(b"1234 no parenthesis 1 2 3"), None);
    assert_eq!(cpu_ticks(b"1 (x) S 1 2 3"), None);
    assert_eq!(cpu_ticks(b"1 (x) S 1 2 3 4 5 6 7 8 9 10 u 75"), None);
}
