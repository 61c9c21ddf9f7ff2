use m3u8dl::listing::build_file_list;
use m3u8dl::muxer::muxer_args;
use m3u8dl::progress::Progress;

#[test]
fn muxer_args_copy_mode() {
    let args = muxer_args("file_list.txt", "output.mp4", false);
    let expected = vec![
        "-f",
        "concat",
        "-safe",
        "0",
        "-i",
        "file_list.txt",
        "-c",
        "copy",
        "output.mp4",
    ];
    assert_eq!(args, expected);
}

#[test]
fn muxer_args_compress_mode() {
    let args = muxer_args("file_list.txt", "out.mp4", true);
    let expected = vec![
        "-f",
        "concat",
        "-safe",
        "0",
        "-i",
        "file_list.txt",
        "-c:v",
        "libx264",
        "-crf",
        "23",
        "-preset",
        "medium",
        "-c:a",
        "aac",
        "-b:a",
        "128k",
        "out.mp4",
    ];
    assert_eq!(args, expected);
}

#[test]
fn file_list_has_one_quoted_line_per_record() {
    let paths = vec![b"output/a.ts".to_vec(), b"output/b.ts".to_vec()];
    let list = build_file_list(&paths);
    assert_eq!(list, b"file 'output/a.ts'\nfile 'output/b.ts'\n".to_vec());
}

#[test]
fn file_list_of_no_records_is_empty() {
    let list = build_file_list(&Vec::new());
    assert!(list.is_empty());
}

#[test]
fn progress_counts_completions() {
    let mut p = Progress::new(2);
    assert_eq!(p.completed, 0);
    p.inc();
    assert_eq!(p.completed, 1);
    p.inc();
    assert_eq!(p.completed, 2);
    assert_eq!(p.total, 2);
}

#[test]
fn eta_scales_elapsed_by_remaining_share() {
    let p = Progress {
        total: 10,
        completed: 2,
    };
    assert_eq!(p.eta(100), 400);
}

#[test]
fn eta_with_nothing_completed_divides_by_one() {
    let p = Progress {
        total: 10,
        completed: 0,
    };
    assert_eq!(p.eta(7), 70);
}

#[test]
fn eta_saturates_instead_of_overflowing() {
    let p = Progress {
        total: usize::MAX,
        completed: 1,
    };
    assert_eq!(p.eta(u64::MAX), u64::MAX);
}

#[test]
fn bar_fills_the_completed_share() {
    let p = Progress {
        total: 10,
        completed: 5,
    };
    assert_eq!(p.render_bar(10), b"#####-----".to_vec());
    let q = Progress {
        total: 3,
        completed: 3,
    };
    assert_eq!(q.render_bar(6), b"######".to_vec());
    let r = Progress {
        total: 3,
        completed: 0,
    };
    assert_eq!(r.render_bar(4), b"----".to_vec());
}
