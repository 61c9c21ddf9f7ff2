use m3u8dl::listing::build_file_list;
use m3u8dl::muxer::muxer_args;
use m3u8dl::parse::parse_manifest;
use m3u8dl::progress::Progress;
use m3u8dl::sched::Scheduler;
use m3u8dl::sched::UnitOutcome;
use m3u8dl::store::SegmentStore;

#[test]
fn happy_path_produces_ordered_bytes_and_list() {
    let body = b"#EXTM3U\n#EXTINF:4,\n0.ts\n#EXTINF:4,\n1.ts\n#EXT-X-ENDLIST\n";
    let refs = parse_manifest(body, "http://h/p/v.m3u8").unwrap();
    let n = refs.len();
    assert_eq!(n, 2);
    let served: Vec<(&str, &[u8])> = vec![("http://h/p/0.ts", b"A"), ("http://h/p/1.ts", b"B")];

    let mut store = SegmentStore::new(b"output".to_vec(), n);
    let mut sched = Scheduler::new(n, 10);
    let mut reporter = Progress::new(n);
    while !sched.is_done() {
        while sched.can_dispatch() {
            let ord = sched.dispatch();
            let url = refs[ord].url.as_str();
            let bytes = served.iter().find(|(u, _)| *u == url).unwrap().1;
            store.put(ord, bytes.to_vec());
            sched.settle(ord, UnitOutcome::Success);
            reporter.inc();
        }
    }
    assert!(sched.result().is_ok());
    assert_eq!(reporter.completed, n);

    assert_eq!(store.concat_contents(), b"AB".to_vec());
    let list = build_file_list(&store.enumerate());
    let expected =
        b"file 'output/00000000000000000000.ts'\nfile 'output/00000000000000000001.ts'\n";
    assert_eq!(list, expected.to_vec());

    let args = muxer_args("file_list.txt", "output.mp4", false);
    assert_eq!(args[args.len() - 3..].to_vec(), vec!["-c", "copy", "output.mp4"]);
}
