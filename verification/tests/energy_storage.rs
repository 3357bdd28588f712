use nexusfs::storage::{free_bytes_from_df, parse_df_available_kb};

#[test]
fn the_available_column_is_read_from_ordinary_output() {
    let out = "\
Filesystem     1024-blocks      Used Available Capacity Mounted on
/dev/nvme0n1p2   959786032 412887044 498062092      46% /
";
    assert_eq!(parse_df_available_kb(out), Some(498_062_092));
}

#[test]
fn a_device_name_with_spaces_does_not_shift_the_columns() {
    let out = "\
Filesystem     1024-blocks      Used Available Capacity Mounted on
//host/My Share   10485760   1048576   9437184      10% /Volumes/share
";
    assert_eq!(parse_df_available_kb(out), Some(9_437_184));
}

#[test]
fn a_mount_point_with_spaces_does_not_shift_them_either() {
    let out = "\
Filesystem   1024-blocks     Used Available Capacity  Mounted on
/dev/disk4s1     1953514  1234567    718947      64%  /Volumes/Backup Disk 2
";
    assert_eq!(parse_df_available_kb(out), Some(718_947));
}

#[test]
fn macos_output_with_its_extra_columns_still_parses() {
    let out = "\
Filesystem   1024-blocks      Used Available Capacity iused      ifree %iused  Mounted on
/dev/disk3s5   971350180 615577552 344582628      65%  501150 3445826280    0%   /System/Volumes/Data
";
    assert_eq!(parse_df_available_kb(out), Some(344_582_628));
}

#[test]
fn output_with_no_data_line_reports_nothing() {
    assert_eq!(parse_df_available_kb(""), None);
    assert_eq!(parse_df_available_kb("df: /nope: No such file or directory\n"), None);
    assert_eq!(
        parse_df_available_kb("Filesystem 1024-blocks Used Available Capacity Mounted on\n"),
        None
    );
}

#[test]
fn trailing_blank_lines_do_not_hide_the_answer() {
    let out = "\
Filesystem     1024-blocks      Used Available Capacity Mounted on
/dev/sda1          1024000    512000    512000      50% /

";
    assert_eq!(parse_df_available_kb(out), Some(512_000));
}

#[test]
fn free_bytes_are_the_available_blocks_times_1024() {
    let out = "\
Filesystem     1024-blocks      Used Available Capacity Mounted on
/dev/sda1          1024000    512000    512000      50% /
";
    assert_eq!(free_bytes_from_df(out), Some(512_000 * 1024));
}

#[test]
fn a_count_of_blocks_too_large_to_multiply_reports_nothing() {
    let out = "fs 1 2 18446744073709551615 1% /\n";
    assert_eq!(parse_df_available_kb(out), Some(u64::MAX));
    assert_eq!(free_bytes_from_df(out), None);
}

#[test]
fn a_capacity_in_the_first_column_has_nothing_before_it() {
    assert_eq!(parse_df_available_kb("50% 1 2\n"), None);
}

#[test]
fn a_bare_percent_sign_is_not_a_capacity() {
    assert_eq!(parse_df_available_kb("fs 10 20 30 % 40 5% /\n"), Some(40));
}
